use raytracing_in_rust::bvh::BVHNode;
use raytracing_in_rust::hittable_service::{
    DefaultHittable, FlipFace, HittableEnum, HittableList, HittableService,
};

#[test]
fn new_service_holds_only_the_default_hittable() {
    let service: HittableService<u32> = HittableService::new();
    assert_eq!(service.len(), 1);
    assert!(matches!(service.get(0), HittableEnum::DefaultHittable(DefaultHittable {})));
    assert_eq!(service.get_bvh_root_index(), 0);
    assert_eq!(service.get_lights_root_index(), 0);
    assert!(!service.has_lights());
}

#[test]
fn add_hittable_returns_consecutive_indices_and_keeps_entries() {
    let mut service: HittableService<u32> = HittableService::new();
    let first = service.add_hittable(HittableEnum::Geometry(7));
    let second = service.add_hittable(HittableEnum::FlipFace(FlipFace::new(first)));
    let third = service.add_hittable(HittableEnum::Geometry(9));
    assert_eq!((first, second, third), (1, 2, 3));
    assert_eq!(service.len(), 4);
    assert!(matches!(service.get(1), HittableEnum::Geometry(7)));
    assert!(matches!(service.get(2), HittableEnum::FlipFace(FlipFace { model_index: 1 })));
    assert!(matches!(service.get(3), HittableEnum::Geometry(9)));
    assert!(matches!(service.get(0), HittableEnum::DefaultHittable(_)));
}

#[test]
fn roots_are_set_and_read_back() {
    let mut service: HittableService<u32> = HittableService::new();
    service.add_hittable(HittableEnum::Geometry(1));
    service.add_hittable(HittableEnum::Geometry(2));
    service.set_bvh_root_index(2);
    service.set_lights_root_index(1);
    assert_eq!(service.get_bvh_root_index(), 2);
    assert_eq!(service.get_lights_root_index(), 1);
    assert!(service.has_lights());
    service.set_lights_root_index(0);
    assert!(!service.has_lights());
    assert_eq!(service.get_bvh_root_index(), 2);
}

#[test]
fn bvh_nodes_are_stored_as_given() {
    let mut service: HittableService<u32> = HittableService::new();
    let index = service.add_hittable(HittableEnum::BVHNode(BVHNode { left_index: 0, right_index: 0 }));
    assert_eq!(index, 1);
    assert!(matches!(
        service.get(1),
        HittableEnum::BVHNode(BVHNode { left_index: 0, right_index: 0 })
    ));
}

#[test]
fn hittable_list_keeps_its_indices() {
    let list = HittableList::from_list(vec![4, 2, 9]);
    assert_eq!(list.hittable_indices, vec![4, 2, 9]);
    assert_eq!(list.len(), 3);
    let empty = HittableList::from_list(Vec::new());
    assert_eq!(empty.len(), 0);
}

#[test]
fn random_member_is_always_a_member() {
    let list = HittableList::from_list(vec![11, 22, 33]);
    let mut rng = rand::thread_rng();
    for _ in 0..200 {
        let member = list.random_member(&mut rng);
        assert!(member == 11 || member == 22 || member == 33);
    }
    let single = HittableList::from_list(vec![5]);
    assert_eq!(single.random_member(&mut rng), 5);
}

#[test]
fn flip_face_wraps_its_model() {
    assert_eq!(FlipFace::new(12).model_index, 12);
}

#[test]
fn read_after_add_gives_back_the_added_entry() {
    let mut service: HittableService<u32> = HittableService::new();
    let first = service.add_hittable(HittableEnum::Geometry(7));
    let second = service.add_hittable(HittableEnum::Geometry(8));
    assert_eq!(service.len(), 3);
    assert!(matches!(service.get(first), HittableEnum::Geometry(7)));
    assert!(matches!(service.get(second), HittableEnum::Geometry(8)));
    assert!(matches!(service.get(0), HittableEnum::DefaultHittable(_)));
}

#[test]
fn member_at_reads_the_drawn_position() {
    let list = HittableList::from_list(vec![4, 9, 2]);
    assert_eq!(list.member_at(0), 4);
    assert_eq!(list.member_at(1), 9);
    assert_eq!(list.member_at(2), 2);
}
