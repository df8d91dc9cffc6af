use rand::SeedableRng;
use rand_chacha::ChaCha20Rng;
use raytracing_in_rust::bvh::BVHNode;
use raytracing_in_rust::hittable_service::{HittableEnum, HittableService};

fn service_with(count: usize) -> HittableService<u32> {
    let mut service: HittableService<u32> = HittableService::new();
    for i in 0..count {
        service.add_hittable(HittableEnum::Geometry(i as u32));
    }
    service
}

fn same_on_every_axis(values: &[i64]) -> Vec<(i64, i64, i64)> {
    values.iter().map(|&v| (v, v, v)).collect()
}

/// Every entry has a bounding box but the default hittable at index 0.
fn with_boxes(count: usize) -> Vec<bool> {
    (0..count).map(|index| index != 0).collect()
}

fn node_at(service: &HittableService<u32>, index: usize) -> BVHNode {
    match service.get(index) {
        HittableEnum::BVHNode(node) => *node,
        _ => panic!("entry {} is not a node", index),
    }
}

fn collect_leaves(service: &HittableService<u32>, base: usize, index: usize, out: &mut Vec<usize>) {
    if index < base {
        out.push(index);
    } else {
        let node = node_at(service, index);
        collect_leaves(service, base, node.left_index, out);
        if node.right_index != node.left_index {
            collect_leaves(service, base, node.right_index, out);
        }
    }
}

#[test]
fn four_leaves_split_into_two_ordered_pairs() {
    let mut rng = ChaCha20Rng::seed_from_u64(13371337);
    let mut service = service_with(4);
    let keys = same_on_every_axis(&[0, 30, 10, 40, 20]);
    let mut list = vec![1, 2, 3, 4];
    let root = BVHNode::from_index_list(&mut rng, &mut service, &keys, &with_boxes(keys.len()), &mut list);
    assert_eq!(list, vec![2, 4, 1, 3]);
    assert_eq!(service.len(), 7);
    assert_eq!(root, BVHNode { left_index: 5, right_index: 6 });
    assert_eq!(node_at(&service, 5), BVHNode { left_index: 2, right_index: 4 });
    assert_eq!(node_at(&service, 6), BVHNode { left_index: 1, right_index: 3 });
}

#[test]
fn three_leaves_give_a_single_leaf_node_and_a_pair() {
    let mut rng = ChaCha20Rng::seed_from_u64(7);
    let mut service = service_with(3);
    let keys = same_on_every_axis(&[0, 30, 10, 40]);
    let mut list = vec![1, 2, 3];
    let root = BVHNode::from_index_list(&mut rng, &mut service, &keys, &with_boxes(keys.len()), &mut list);
    assert_eq!(list, vec![2, 1, 3]);
    assert_eq!(root, BVHNode { left_index: 4, right_index: 5 });
    assert_eq!(node_at(&service, 4), BVHNode { left_index: 2, right_index: 2 });
    assert_eq!(node_at(&service, 5), BVHNode { left_index: 1, right_index: 3 });
}

#[test]
fn a_single_leaf_is_both_children() {
    let mut rng = ChaCha20Rng::seed_from_u64(1);
    let mut service = service_with(1);
    let keys = same_on_every_axis(&[0, 5]);
    let mut list = vec![1];
    let root = BVHNode::from_index_list(&mut rng, &mut service, &keys, &with_boxes(keys.len()), &mut list);
    assert_eq!(root, BVHNode { left_index: 1, right_index: 1 });
    assert_eq!(service.len(), 2);
}

#[test]
fn two_leaves_with_equal_keys_put_the_second_on_the_left() {
    let mut rng = ChaCha20Rng::seed_from_u64(2);
    let mut service = service_with(2);
    let keys = same_on_every_axis(&[0, 8, 8]);
    let mut list = vec![1, 2];
    let root = BVHNode::from_index_list(&mut rng, &mut service, &keys, &with_boxes(keys.len()), &mut list);
    assert_eq!(root, BVHNode { left_index: 2, right_index: 1 });
    let keys = same_on_every_axis(&[0, 3, 8]);
    let mut list = vec![1, 2];
    let root = BVHNode::from_index_list(&mut rng, &mut service, &keys, &with_boxes(keys.len()), &mut list);
    assert_eq!(root, BVHNode { left_index: 1, right_index: 2 });
}

#[test]
fn every_listed_hittable_is_reached_once_and_nodes_point_backwards() {
    let mut rng = ChaCha20Rng::seed_from_u64(13371337);
    let count = 37;
    let mut service = service_with(count);
    let keys: Vec<(i64, i64, i64)> = (0..=count as i64)
        .map(|i| ((i * 7) % 11, (i * 13) % 17, (i * 5) % 19))
        .collect();
    let mut list: Vec<usize> = (1..=count).rev().collect();
    let base = service.len();
    let root = BVHNode::from_index_list(&mut rng, &mut service, &keys, &with_boxes(keys.len()), &mut list);
    for index in base..service.len() {
        let node = node_at(&service, index);
        assert!(node.left_index < index && node.right_index < index);
    }
    let mut leaves = Vec::new();
    collect_leaves(&service, base, root.left_index, &mut leaves);
    collect_leaves(&service, base, root.right_index, &mut leaves);
    leaves.sort();
    let expected: Vec<usize> = (1..=count).collect();
    assert_eq!(leaves, expected);
    let mut reordered = list.clone();
    reordered.sort();
    assert_eq!(reordered, expected);
}

#[test]
fn every_node_splits_its_leaves_along_one_axis() {
    let mut rng = ChaCha20Rng::seed_from_u64(99);
    let count = 20;
    let mut service = service_with(count);
    let keys: Vec<(i64, i64, i64)> = (0..=count as i64)
        .map(|i| ((i * 7) % 11, (i * 13) % 17, (i * 5) % 19))
        .collect();
    let mut list: Vec<usize> = (1..=count).collect();
    let base = service.len();
    let root = BVHNode::from_index_list(&mut rng, &mut service, &keys, &with_boxes(keys.len()), &mut list);
    let root_index = service.add_hittable(HittableEnum::BVHNode(root));
    for index in base..=root_index {
        let node = node_at(&service, index);
        let mut left = Vec::new();
        collect_leaves(&service, base, node.left_index, &mut left);
        let mut right = Vec::new();
        collect_leaves(&service, base, node.right_index, &mut right);
        let on_axis = |axis: usize| {
            left.iter().all(|&l| {
                right.iter().all(|&r| {
                    let (kl, kr) = (keys[l], keys[r]);
                    match axis {
                        0 => kl.0 <= kr.0,
                        1 => kl.1 <= kr.1,
                        _ => kl.2 <= kr.2,
                    }
                })
            })
        };
        assert!(on_axis(0) || on_axis(1) || on_axis(2));
    }
}
