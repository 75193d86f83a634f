use cracker::{compute_matrix, matrix_mult};

fn identity_table() -> [u32; 32] {
    let mut table: [u32; 32] = [0; 32];
    for i in 0..32 {
        table[i] = 1u32 << i;
    }
    table
}

#[test]
fn compute_matrix_of_identity_table_is_identity() {
    let m: Vec<Vec<u8>> = compute_matrix(&identity_table());
    assert_eq!(m.len(), 32);
    for i in 0..32 {
        assert_eq!(m[i].len(), 32);
        for j in 0..32 {
            let expected: u8 = if i == j { 1 } else { 0 };
            assert_eq!(m[i][j], expected);
        }
    }
}

#[test]
fn compute_matrix_reads_bit_j_of_word_i() {
    let mut table: [u32; 32] = [0; 32];
    table[0] = 0b101;
    table[5] = 0x8000_0001;
    table[31] = 0xffff_ffff;
    let m: Vec<Vec<u8>> = compute_matrix(&table);
    let mut row0: Vec<u8> = vec![0; 32];
    row0[0] = 1;
    row0[2] = 1;
    assert_eq!(m[0], row0);
    let mut row5: Vec<u8> = vec![0; 32];
    row5[0] = 1;
    row5[31] = 1;
    assert_eq!(m[5], row5);
    assert_eq!(m[31], vec![1u8; 32]);
    assert_eq!(m[1], vec![0u8; 32]);
}

#[test]
fn compute_matrix_holds_only_bits() {
    let mut table: [u32; 32] = [0; 32];
    let mut word: u32 = 0x9e37_79b9;
    for i in 0..32 {
        table[i] = word;
        word = word.wrapping_mul(0x0101_0101).wrapping_add(0x7f4a_7c15);
    }
    let m: Vec<Vec<u8>> = compute_matrix(&table);
    for i in 0..32 {
        for j in 0..32 {
            assert!(m[i][j] <= 1);
            assert_eq!(u32::from(m[i][j]), (table[i] >> j) & 1);
        }
    }
}

#[test]
fn matrix_mult_by_identity_keeps_the_vector() {
    let m: Vec<Vec<u8>> = compute_matrix(&identity_table());
    let v: Vec<u8> = (0..32).map(|i: u8| i.wrapping_mul(37).wrapping_add(200)).collect();
    assert_eq!(matrix_mult(&m, &v), v);
}

#[test]
fn matrix_mult_xors_the_selected_bytes() {
    let mut table: [u32; 32] = [0; 32];
    table[0] = 0b11;
    table[1] = 0b110;
    table[2] = 0xffff_ffff;
    let m: Vec<Vec<u8>> = compute_matrix(&table);
    let mut v: Vec<u8> = vec![0; 32];
    v[0] = 0xab;
    v[1] = 0xcd;
    v[2] = 0x0f;
    let out: Vec<u8> = matrix_mult(&m, &v);
    assert_eq!(out.len(), 32);
    assert_eq!(out[0], 0xab ^ 0xcd);
    assert_eq!(out[1], 0xcd ^ 0x0f);
    assert_eq!(out[2], 0xab ^ 0xcd ^ 0x0f);
    for i in 3..32 {
        assert_eq!(out[i], 0);
    }
}

#[test]
fn matrix_mult_coefficient_selects_and_does_not_scale() {
    let m: Vec<Vec<u8>> = vec![vec![1, 0], vec![1, 1]];
    let v: Vec<u8> = vec![0xff, 0x80];
    assert_eq!(matrix_mult(&m, &v), vec![0xff, 0x7f]);
}

#[test]
fn matrix_mult_reads_only_the_corner_it_needs() {
    let m: Vec<Vec<u8>> = compute_matrix(&identity_table());
    let v: Vec<u8> = vec![9, 8, 7];
    assert_eq!(matrix_mult(&m, &v), vec![9, 8, 7]);
}

#[test]
fn matrix_mult_of_the_empty_vector_is_empty() {
    let m: Vec<Vec<u8>> = Vec::new();
    let v: Vec<u8> = Vec::new();
    assert_eq!(matrix_mult(&m, &v), Vec::<u8>::new());
}
