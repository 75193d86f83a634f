use cracker::{compute_inverse, compute_matrix, matrix_mult, try_inverse};

fn identity() -> Vec<Vec<u8>> {
    let mut m: Vec<Vec<u8>> = vec![vec![0; 32]; 32];
    for i in 0..32 {
        m[i][i] = 1;
    }
    m
}

/// An invertible matrix: the identity after a fixed run of row exchanges
/// and row additions.
fn scrambled(seed: u32) -> Vec<Vec<u8>> {
    let mut m: Vec<Vec<u8>> = identity();
    let mut state: u32 = seed;
    for _ in 0..400 {
        state = state.wrapping_mul(1_664_525).wrapping_add(1_013_904_223);
        let i: usize = ((state >> 8) % 32) as usize;
        let j: usize = ((state >> 16) % 32) as usize;
        if i == j {
            continue;
        }
        if (state >> 24) % 4 == 0 {
            m.swap(i, j);
        } else {
            for c in 0..32 {
                m[j][c] ^= m[i][c];
            }
        }
    }
    m
}

fn sample_vectors() -> Vec<Vec<u8>> {
    let mut out: Vec<Vec<u8>> = Vec::new();
    out.push(vec![0; 32]);
    out.push(vec![0xff; 32]);
    out.push((0..32).collect());
    let mut state: u32 = 12345;
    for _ in 0..20 {
        let mut v: Vec<u8> = Vec::new();
        for _ in 0..32 {
            state = state.wrapping_mul(1_103_515_245).wrapping_add(12345);
            v.push((state >> 16) as u8);
        }
        out.push(v);
    }
    for i in 0..32 {
        let mut unit: Vec<u8> = vec![0; 32];
        unit[i] = 1;
        out.push(unit);
    }
    out
}

#[test]
fn inverse_of_identity_is_identity() {
    assert_eq!(compute_inverse(&identity()), identity());
}

#[test]
fn inverse_of_a_row_exchange_is_the_same_exchange() {
    let mut m: Vec<Vec<u8>> = identity();
    m.swap(0, 1);
    m.swap(7, 30);
    assert_eq!(compute_inverse(&m), m);
}

#[test]
fn inverse_of_a_cyclic_shift_is_the_opposite_shift() {
    let mut m: Vec<Vec<u8>> = vec![vec![0; 32]; 32];
    let mut expected: Vec<Vec<u8>> = vec![vec![0; 32]; 32];
    for i in 0..32 {
        m[i][(i + 1) % 32] = 1;
        expected[(i + 1) % 32][i] = 1;
    }
    assert_eq!(compute_inverse(&m), expected);
}

#[test]
fn inverse_of_a_row_addition_is_the_same_addition() {
    let mut m: Vec<Vec<u8>> = identity();
    m[3][0] = 1;
    assert_eq!(compute_inverse(&m), m);
}

#[test]
fn inverse_of_lower_triangle_of_ones() {
    let mut m: Vec<Vec<u8>> = vec![vec![0; 32]; 32];
    let mut expected: Vec<Vec<u8>> = identity();
    for i in 0..32 {
        for j in 0..=i {
            m[i][j] = 1;
        }
        if i > 0 {
            expected[i][i - 1] = 1;
        }
    }
    assert_eq!(compute_inverse(&m), expected);
}

#[test]
fn inverse_undoes_the_matrix_on_every_sample() {
    for seed in [1u32, 2, 3, 99, 2024] {
        let m: Vec<Vec<u8>> = scrambled(seed);
        let inv: Vec<Vec<u8>> = compute_inverse(&m);
        for x in sample_vectors() {
            assert_eq!(matrix_mult(&inv, &matrix_mult(&m, &x)), x);
            assert_eq!(matrix_mult(&m, &matrix_mult(&inv, &x)), x);
        }
    }
}

#[test]
fn inverse_is_a_bit_matrix_of_32_by_32() {
    let inv: Vec<Vec<u8>> = compute_inverse(&scrambled(7));
    assert_eq!(inv.len(), 32);
    for row in inv.iter() {
        assert_eq!(row.len(), 32);
        for entry in row.iter() {
            assert!(*entry <= 1);
        }
    }
}

#[test]
fn inverse_of_the_inverse_is_the_matrix() {
    let m: Vec<Vec<u8>> = scrambled(41);
    assert_eq!(compute_inverse(&compute_inverse(&m)), m);
}

#[test]
fn inverse_leaves_its_argument_alone() {
    let m: Vec<Vec<u8>> = scrambled(5);
    let copy: Vec<Vec<u8>> = m.clone();
    let _ = compute_inverse(&m);
    assert_eq!(m, copy);
}

#[test]
fn try_inverse_agrees_with_compute_inverse() {
    let m: Vec<Vec<u8>> = scrambled(77);
    assert_eq!(try_inverse(&m), Some(compute_inverse(&m)));
}

#[test]
fn try_inverse_of_the_zero_matrix_is_none() {
    let m: Vec<Vec<u8>> = vec![vec![0; 32]; 32];
    assert_eq!(try_inverse(&m), None);
}

#[test]
fn try_inverse_of_a_matrix_with_two_equal_rows_is_none() {
    let mut m: Vec<Vec<u8>> = scrambled(13);
    m[20] = m[4].clone();
    assert_eq!(try_inverse(&m), None);
}

#[test]
fn try_inverse_of_a_matrix_with_a_zero_column_is_none() {
    let mut m: Vec<Vec<u8>> = identity();
    m[31][31] = 0;
    assert_eq!(try_inverse(&m), None);
}

#[test]
fn try_inverse_finds_a_dependent_row_late_in_the_elimination() {
    let mut m: Vec<Vec<u8>> = identity();
    // Row 31 is the sum of rows 0 and 1.
    m[31] = vec![0; 32];
    m[31][0] = 1;
    m[31][1] = 1;
    assert_eq!(try_inverse(&m), None);
}

#[test]
fn inverse_of_an_unpacked_table() {
    let mut table: [u32; 32] = [0; 32];
    for i in 0..32 {
        table[i] = 1u32 << ((i + 5) % 32);
    }
    table[0] |= 1;
    let m: Vec<Vec<u8>> = compute_matrix(&table);
    let inv: Vec<Vec<u8>> = compute_inverse(&m);
    for x in sample_vectors() {
        assert_eq!(matrix_mult(&inv, &matrix_mult(&m, &x)), x);
    }
}
