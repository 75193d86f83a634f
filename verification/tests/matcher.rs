use cracker::xor_match;

fn scan(table: &[u8; 512], target: u8) -> Vec<(usize, usize)> {
    let mut out: Vec<(usize, usize)> = Vec::new();
    for i in 0..256 {
        for j in 0..256 {
            if table[i] ^ table[j + 256] == target {
                out.push((i, j));
            }
        }
    }
    out
}

fn mixed_table() -> [u8; 512] {
    let mut table: [u8; 512] = [0; 512];
    let mut state: u32 = 0xdead_beef;
    for c in 0..512 {
        state = state.wrapping_mul(1_664_525).wrapping_add(1_013_904_223);
        table[c] = (state >> 13) as u8;
    }
    table
}

#[test]
fn xor_match_identity_and_zero_gives_every_pair_with_first_byte_the_target() {
    let mut table: [u8; 512] = [0; 512];
    for c in 0..256 {
        table[c] = c as u8;
    }
    let zero: Vec<(usize, usize)> = xor_match(&table, 0);
    let expected: Vec<(usize, usize)> = (0..256).map(|j: usize| (0, j)).collect();
    assert_eq!(zero, expected);
    let other: Vec<(usize, usize)> = xor_match(&table, 0x9c);
    let expected: Vec<(usize, usize)> = (0..256).map(|j: usize| (0x9c, j)).collect();
    assert_eq!(other, expected);
}

#[test]
fn xor_match_two_identities_gives_one_partner_for_each_byte() {
    let mut table: [u8; 512] = [0; 512];
    for c in 0..256 {
        table[c] = c as u8;
        table[c + 256] = c as u8;
    }
    let found: Vec<(usize, usize)> = xor_match(&table, 0x0f);
    let expected: Vec<(usize, usize)> = (0..256).map(|i: usize| (i, i ^ 0x0f)).collect();
    assert_eq!(found, expected);
}

#[test]
fn xor_match_is_empty_where_nothing_combines_to_the_target() {
    let table: [u8; 512] = [0; 512];
    assert!(xor_match(&table, 1).is_empty());
    assert_eq!(xor_match(&table, 0).len(), 65536);
}

#[test]
fn xor_match_agrees_with_a_scan_of_all_pairs() {
    let table: [u8; 512] = mixed_table();
    for target in [0u8, 1, 0x7f, 0x80, 0xfe, 0xff] {
        assert_eq!(xor_match(&table, target), scan(&table, target));
    }
}

#[test]
fn xor_match_over_all_targets_covers_each_pair_once() {
    let table: [u8; 512] = mixed_table();
    let mut total: usize = 0;
    for target in 0..=255u8 {
        let found: Vec<(usize, usize)> = xor_match(&table, target);
        for pair in found.windows(2) {
            assert!(pair[0] < pair[1]);
        }
        for (i, j) in found.iter() {
            assert!(*i < 256 && *j < 256);
            assert_eq!(table[*i] ^ table[*j + 256], target);
        }
        total += found.len();
    }
    assert_eq!(total, 65536);
}

#[test]
fn xor_match_uses_the_second_half_for_the_second_byte() {
    let mut table: [u8; 512] = [0; 512];
    table[3] = 0x11;
    table[256 + 9] = 0x22;
    let found: Vec<(usize, usize)> = xor_match(&table, 0x33);
    assert_eq!(found, vec![(3, 9)]);
}
