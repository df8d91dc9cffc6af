use rand::SeedableRng;
use rand_chacha::ChaCha20Rng;
use raytracing_in_rust::bvh::BVHNode;
use raytracing_in_rust::hittable_service::{HittableEnum, HittableService};
use raytracing_in_rust::scene::{build_acceleration_structures, SceneBuilder, SceneKind};

#[test]
fn scene_indices_select_the_twelve_scenes() {
    assert_eq!(SceneBuilder::scene_kind(0), Some(SceneKind::RandomSpheres));
    assert_eq!(SceneBuilder::scene_kind(3), Some(SceneKind::TwoPerlinSpheres));
    assert_eq!(SceneBuilder::scene_kind(7), Some(SceneKind::CornellBoxTwoDiffuseBoxes));
    assert_eq!(SceneBuilder::scene_kind(11), Some(SceneKind::FinalSceneBook3));
    assert_eq!(SceneBuilder::scene_kind(12), None);
    assert_eq!(SceneBuilder::scene_kind(usize::MAX), None);
}

#[test]
fn later_scenes_are_square() {
    assert!(!SceneBuilder::uses_square_aspect(0));
    assert!(!SceneBuilder::uses_square_aspect(5));
    assert!(SceneBuilder::uses_square_aspect(6));
    assert!(SceneBuilder::uses_square_aspect(11));
}

#[test]
fn image_heights_are_rounded_up_to_even() {
    assert_eq!(SceneBuilder::even_image_height(281), 282);
    assert_eq!(SceneBuilder::even_image_height(500), 500);
    assert_eq!(SceneBuilder::even_image_height(0), 0);
}

/// Every entry has a bounding box but the default hittable at index 0.
fn with_boxes(count: usize) -> Vec<bool> {
    (0..count).map(|index| index != 0).collect()
}

#[test]
fn acceleration_structures_set_both_roots() {
    let mut rng = ChaCha20Rng::seed_from_u64(13371337);
    let mut service: HittableService<u32> = HittableService::new();
    let a = service.add_hittable(HittableEnum::Geometry(0));
    let b = service.add_hittable(HittableEnum::Geometry(1));
    let keys = vec![(0, 0, 0), (5, 5, 5), (1, 1, 1)];
    build_acceleration_structures(&mut rng, &mut service, &keys, &with_boxes(keys.len()), vec![a, b], vec![b]);
    assert_eq!(service.len(), 5);
    assert_eq!(service.get_bvh_root_index(), 3);
    assert!(matches!(
        service.get(3),
        HittableEnum::BVHNode(BVHNode { left_index: 2, right_index: 1 })
    ));
    assert_eq!(service.get_lights_root_index(), 4);
    assert!(service.has_lights());
    match service.get(4) {
        HittableEnum::HittableList(list) => assert_eq!(list.hittable_indices, vec![b]),
        _ => panic!("the lights root is not a list"),
    }
}

#[test]
fn acceleration_structures_without_lights_leave_the_lights_root() {
    let mut rng = ChaCha20Rng::seed_from_u64(13371337);
    let mut service: HittableService<u32> = HittableService::new();
    let a = service.add_hittable(HittableEnum::Geometry(0));
    let keys = vec![(0, 0, 0), (5, 5, 5)];
    build_acceleration_structures(&mut rng, &mut service, &keys, &with_boxes(keys.len()), vec![a], Vec::new());
    assert_eq!(service.get_bvh_root_index(), 2);
    assert!(!service.has_lights());
    build_acceleration_structures(&mut rng, &mut service, &keys, &with_boxes(keys.len()), Vec::new(), Vec::new());
    assert_eq!(service.len(), 3);
    assert_eq!(service.get_bvh_root_index(), 2);
}

#[test]
fn the_light_list_comes_right_after_the_hierarchy_root() {
    let mut rng = ChaCha20Rng::seed_from_u64(99);
    let mut service: HittableService<u32> = HittableService::new();
    let mut listed = Vec::new();
    for i in 0..5 {
        listed.push(service.add_hittable(HittableEnum::Geometry(i)));
    }
    let keys: Vec<(i64, i64, i64)> = (0..6).map(|v| (v, 6 - v, v % 3)).collect();
    build_acceleration_structures(&mut rng, &mut service, &keys, &with_boxes(keys.len()), listed, vec![1, 2]);
    assert_eq!(service.get_lights_root_index(), service.len() - 1);
    assert_eq!(service.get_bvh_root_index() + 1, service.get_lights_root_index());
}
