use raytracing_in_rust::perlin::{generate_permutation, permutation_from_draws, Perlin};

fn assert_permutation(values: &[i32], n: usize) {
    assert_eq!(values.len(), n);
    let mut seen = vec![false; n];
    for &v in values {
        assert!(0 <= v && (v as usize) < n);
        assert!(!seen[v as usize]);
        seen[v as usize] = true;
    }
}

#[test]
fn generated_permutations_list_every_value_once() {
    let mut rng = rand::thread_rng();
    for n in [0u32, 1, 2, 3, 10, 256] {
        let mut values = vec![42; 5];
        generate_permutation(&mut rng, &mut values, n);
        assert_permutation(&values, n as usize);
    }
}

#[test]
fn every_position_of_a_generated_permutation_moves() {
    // each position is exchanged with one strictly below it, so no value stays
    let mut rng = rand::thread_rng();
    let mut values = Vec::new();
    generate_permutation(&mut rng, &mut values, 256);
    for (i, &v) in values.iter().enumerate() {
        assert_ne!(v as usize, i);
    }
}

#[test]
fn lattice_index_combines_the_three_permutations() {
    let mut rng = rand::thread_rng();
    let perlin = Perlin::new(&mut rng, 256);
    assert_eq!(perlin.point_count(), 256);
    for &(i, j, k) in &[(0, 0, 0), (1, 2, 3), (-1, -300, 255), (256, 512, -257), (i32::MAX, i32::MIN, 17)] {
        let index = perlin.lattice_index(i, j, k);
        assert!(index < 256);
        assert_eq!(perlin.lattice_index(i & 255, j & 255, k & 255), index);
    }
}

#[test]
fn lattice_index_at_origin_is_the_xor_of_first_entries() {
    let mut rng = rand::thread_rng();
    let perlin = Perlin::new(&mut rng, 256);
    let a = perlin.lattice_index(0, 0, 0);
    let b = perlin.lattice_index(256, 256, 256);
    assert_eq!(a, b);
}

#[test]
fn generated_permutations_are_one_cycle() {
    let mut rng = rand::thread_rng();
    for n in [1u32, 2, 3, 7, 256] {
        for _ in 0..20 {
            let mut values = Vec::new();
            generate_permutation(&mut rng, &mut values, n);
            let mut visited = vec![false; n as usize];
            let mut position = 0usize;
            for _ in 0..n {
                assert!(!visited[position]);
                visited[position] = true;
                position = values[position] as usize;
            }
            assert_eq!(position, 0);
            assert!(visited.iter().all(|&v| v));
        }
    }
}

#[test]
fn draws_fix_the_permutation() {
    // 0 1 2 3 -> swap(3, 2) -> 0 1 3 2 -> swap(2, 1) -> 0 3 1 2 -> swap(1, 0) -> 3 0 1 2
    assert_eq!(permutation_from_draws(4, &vec![0, 0, 1, 2]), vec![3, 0, 1, 2]);
    // 0 1 2 -> swap(2, 0) -> 2 1 0 -> swap(1, 0) -> 1 2 0
    assert_eq!(permutation_from_draws(3, &vec![0, 0, 0]), vec![1, 2, 0]);
    assert_eq!(permutation_from_draws(1, &vec![0]), vec![0]);
    assert_eq!(permutation_from_draws(0, &vec![]), Vec::<i32>::new());
}
