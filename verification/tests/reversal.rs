use cracker::{build_lookup_table, reverse_targets, reverse_targets_within};

fn identity() -> Vec<Vec<u8>> {
    let mut m: Vec<Vec<u8>> = vec![vec![0; 32]; 32];
    for i in 0..32 {
        m[i][i] = 1;
    }
    m
}

fn identity_lookup() -> Vec<Vec<u8>> {
    (0..=255u8).map(|b: u8| vec![b]).collect()
}

#[test]
fn reverse_with_identity_matrix_and_identity_lookup_keeps_the_vectors() {
    let a: Vec<u8> = (0..32).collect();
    let b: Vec<u8> = vec![0xee; 32];
    let targets: Vec<Vec<u8>> = vec![a, b];
    assert_eq!(reverse_targets(&identity(), &identity_lookup(), &targets), targets);
}

#[test]
fn reverse_of_no_vectors_is_empty() {
    let targets: Vec<Vec<u8>> = Vec::new();
    assert!(reverse_targets(&identity(), &identity_lookup(), &targets).is_empty());
}

#[test]
fn reverse_fans_out_over_two_positions_with_two_candidates_each() {
    let mut lookup: Vec<Vec<u8>> = identity_lookup();
    lookup[1] = vec![10, 11];
    let mut target: Vec<u8> = vec![0; 32];
    target[0] = 1;
    target[31] = 1;
    let found: Vec<Vec<u8>> = reverse_targets(&identity(), &lookup, &vec![target]);
    let mut expected: Vec<Vec<u8>> = Vec::new();
    for (first, last) in [(10u8, 10u8), (10, 11), (11, 10), (11, 11)] {
        let mut v: Vec<u8> = vec![0; 32];
        v[0] = first;
        v[31] = last;
        expected.push(v);
    }
    assert_eq!(found, expected);
    for i in 0..found.len() {
        for j in (i + 1)..found.len() {
            assert_ne!(found[i], found[j]);
        }
    }
}

#[test]
fn reverse_lists_combinations_with_the_last_position_moving_first() {
    let mut lookup: Vec<Vec<u8>> = identity_lookup();
    lookup[5] = vec![1, 2, 3];
    lookup[6] = vec![7, 8];
    let inverse: Vec<Vec<u8>> = identity();
    let found: Vec<Vec<u8>> = reverse_targets(&inverse, &lookup, &vec![vec![5, 6, 5]]);
    let expected: Vec<Vec<u8>> = vec![
        vec![1, 7, 1],
        vec![1, 7, 2],
        vec![1, 7, 3],
        vec![1, 8, 1],
        vec![1, 8, 2],
        vec![1, 8, 3],
        vec![2, 7, 1],
        vec![2, 7, 2],
        vec![2, 7, 3],
        vec![2, 8, 1],
        vec![2, 8, 2],
        vec![2, 8, 3],
        vec![3, 7, 1],
        vec![3, 7, 2],
        vec![3, 7, 3],
        vec![3, 8, 1],
        vec![3, 8, 2],
        vec![3, 8, 3],
    ];
    assert_eq!(found, expected);
}

#[test]
fn reverse_drops_a_vector_with_an_empty_bucket() {
    let mut lookup: Vec<Vec<u8>> = identity_lookup();
    lookup[9] = Vec::new();
    lookup[4] = vec![4, 40];
    let mut dead: Vec<u8> = vec![4; 32];
    dead[17] = 9;
    let live: Vec<u8> = vec![3; 32];
    let found: Vec<Vec<u8>> = reverse_targets(&identity(), &lookup, &vec![dead, live.clone()]);
    assert_eq!(found, vec![live]);
}

#[test]
fn reverse_keeps_the_order_of_the_vectors() {
    let mut lookup: Vec<Vec<u8>> = identity_lookup();
    lookup[2] = vec![20, 21];
    let targets: Vec<Vec<u8>> = vec![vec![2, 0], vec![1, 1], vec![0, 2]];
    let found: Vec<Vec<u8>> = reverse_targets(&identity(), &lookup, &targets);
    let expected: Vec<Vec<u8>> =
        vec![vec![20, 0], vec![21, 0], vec![1, 1], vec![0, 20], vec![0, 21]];
    assert_eq!(found, expected);
}

#[test]
fn reverse_multiplies_by_the_inverse_before_the_lookup() {
    // The matrix exchanges the first two bytes.
    let mut inverse: Vec<Vec<u8>> = identity();
    inverse.swap(0, 1);
    let mut lookup: Vec<Vec<u8>> = identity_lookup();
    lookup[7] = vec![70, 71];
    let mut target: Vec<u8> = vec![0; 32];
    target[0] = 7;
    target[1] = 3;
    let found: Vec<Vec<u8>> = reverse_targets(&inverse, &lookup, &vec![target]);
    let mut first: Vec<u8> = vec![0; 32];
    first[0] = 3;
    first[1] = 70;
    let mut second: Vec<u8> = first.clone();
    second[1] = 71;
    assert_eq!(found, vec![first, second]);
}

#[test]
fn reverse_of_the_empty_vector_is_the_empty_vector() {
    let targets: Vec<Vec<u8>> = vec![Vec::new()];
    let found: Vec<Vec<u8>> = reverse_targets(&identity(), &identity_lookup(), &targets);
    assert_eq!(found, vec![Vec::<u8>::new()]);
}

#[test]
fn reverse_gives_exactly_the_vectors_that_the_round_maps_to_the_target() {
    let mut table: [u8; 512] = [0; 512];
    for c in 0..256 {
        table[c] = (c % 4) as u8;
    }
    let lookup: Vec<Vec<u8>> = build_lookup_table(&table);
    let target: Vec<u8> = vec![1, 3];
    let found: Vec<Vec<u8>> = reverse_targets(&identity(), &lookup, &vec![target]);
    assert_eq!(found.len(), 64 * 64);
    let mut expected: Vec<Vec<u8>> = Vec::new();
    for a in 0..=255u8 {
        for b in 0..=255u8 {
            if table[usize::from(a)] == 1 && table[usize::from(b)] == 3 {
                expected.push(vec![a, b]);
            }
        }
    }
    assert_eq!(found, expected);
}

#[test]
fn reverse_within_a_sufficient_bound_is_reverse() {
    let mut lookup: Vec<Vec<u8>> = identity_lookup();
    lookup[2] = vec![20, 21];
    let targets: Vec<Vec<u8>> = vec![vec![2, 0], vec![1, 1], vec![0, 2]];
    let all: Vec<Vec<u8>> = reverse_targets(&identity(), &lookup, &targets);
    assert_eq!(all.len(), 5);
    assert_eq!(reverse_targets_within(&identity(), &lookup, &targets, 5), Some(all.clone()));
    assert_eq!(reverse_targets_within(&identity(), &lookup, &targets, 6), Some(all.clone()));
    assert_eq!(reverse_targets_within(&identity(), &lookup, &targets, usize::MAX), Some(all));
}

#[test]
fn reverse_within_gives_up_one_vector_short() {
    let mut lookup: Vec<Vec<u8>> = identity_lookup();
    lookup[2] = vec![20, 21];
    let targets: Vec<Vec<u8>> = vec![vec![2, 0], vec![1, 1], vec![0, 2]];
    for most in 0..5 {
        assert_eq!(reverse_targets_within(&identity(), &lookup, &targets, most), None);
    }
}

#[test]
fn reverse_within_zero_allows_an_empty_result() {
    let mut lookup: Vec<Vec<u8>> = identity_lookup();
    lookup[9] = Vec::new();
    let targets: Vec<Vec<u8>> = vec![vec![9; 32], vec![1, 9]];
    assert_eq!(reverse_targets_within(&identity(), &lookup, &targets, 0), Some(Vec::new()));
    let none: Vec<Vec<u8>> = Vec::new();
    assert_eq!(reverse_targets_within(&identity(), &lookup, &none, 0), Some(Vec::new()));
}

#[test]
fn reverse_within_stops_before_a_huge_fan_out() {
    let lookup: Vec<Vec<u8>> = (0..256).map(|_| (0..=255u8).collect()).collect();
    let targets: Vec<Vec<u8>> = vec![vec![0; 32]];
    assert_eq!(reverse_targets_within(&identity(), &lookup, &targets, 10_000), None);
}
