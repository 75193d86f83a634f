//! Matrices over GF(2) acting on vectors of bytes.
//!
//! A matrix is a grid of coefficients, each 0 or 1. A coefficient does not
//! scale a byte: it selects it. Row `i` of the product of a matrix and a
//! vector is the XOR of the vector's bytes at the columns where row `i` of
//! the matrix holds a 1.

use vstd::prelude::*;

verus! {

/// The contents of a list of vectors: element `i` is the view of vector `i`.
pub open spec fn rows<T>(m: Seq<Vec<T>>) -> Seq<Seq<T>> {
    Seq::new(m.len(), |i: int| m[i]@)
}

/// The byte `x` if the coefficient is 1, and 0 otherwise.
pub open spec fn masked(coeff: u8, x: u8) -> u8 {
    if coeff == 1 {
        x
    } else {
        0
    }
}

/// XOR of the first `n` bytes of `v` that `row` selects.
pub open spec fn dot_prefix(row: Seq<u8>, v: Seq<u8>, n: nat) -> u8
    decreases n,
{
    if n == 0 {
        0
    } else {
        dot_prefix(row, v, (n - 1) as nat) ^ masked(row[n - 1], v[n - 1])
    }
}

/// XOR of the bytes of `v` that `row` selects.
pub open spec fn dot(row: Seq<u8>, v: Seq<u8>) -> u8 {
    dot_prefix(row, v, v.len())
}

/// The product of a matrix and a vector: as long as the vector, entry `i`
/// being the XOR of the vector's bytes selected by row `i`.
pub open spec fn mat_vec(m: Seq<Seq<u8>>, v: Seq<u8>) -> Seq<u8> {
    Seq::new(v.len(), |i: int| dot(m[i], v))
}

/// The top-left `n` by `n` corner of `m` exists and holds only 0 and 1.
pub open spec fn has_bit_corner(m: Seq<Seq<u8>>, n: nat) -> bool {
    &&& m.len() >= n
    &&& forall|i: int| 0 <= i < n ==> (#[trigger] m[i]).len() >= n
    &&& forall|i: int, j: int| 0 <= i < n && 0 <= j < n ==> #[trigger] m[i][j] <= 1
}

/// `m` is an `n` by `n` grid of coefficients, each 0 or 1.
pub open spec fn is_bit_matrix(m: Seq<Seq<u8>>, n: nat) -> bool {
    &&& m.len() == n
    &&& forall|i: int| 0 <= i < n ==> (#[trigger] m[i]).len() == n
    &&& forall|i: int, j: int| 0 <= i < n && 0 <= j < n ==> #[trigger] m[i][j] <= 1
}

/// Bit `j` of `word`, as a byte.
pub open spec fn bit_of(word: u32, j: int) -> u8 {
    ((word >> (j as u32)) & 1) as u8
}

/// The 32 by 32 matrix that 32 packed rows stand for: entry `(i, j)` is bit
/// `j` of word `i`.
pub open spec fn matrix_of(diffusion: Seq<u32>) -> Seq<Seq<u8>> {
    Seq::new(32, |i: int| Seq::new(32, |j: int| bit_of(diffusion[i], j)))
}

/// A single bit of a word is 0 or 1 and fits a byte.
pub proof fn lemma_bit_of_is_bit(word: u32, j: u32)
    requires
        j < 32,
    ensures
        (word >> j) & 1 <= 1,
        bit_of(word, j as int) <= 1,
        bit_of(word, j as int) == (word >> j) & 1,
{
    assert((word >> j) & 1 <= 1) by (bit_vector);
}

/// Every packed table stands for a 32 by 32 bit matrix.
pub proof fn lemma_matrix_of_is_bit_matrix(diffusion: Seq<u32>)
    ensures
        is_bit_matrix(matrix_of(diffusion), 32),
{
    let m = matrix_of(diffusion);
    assert forall|i: int, j: int| 0 <= i < 32 && 0 <= j < 32 implies #[trigger] m[i][j] <= 1 by {
        lemma_bit_of_is_bit(diffusion[i], j as u32);
    }
}

/// Unpacks the diffusion table into a 32 by 32 matrix of bits.
pub fn compute_matrix(diffusion: &[u32; 32]) -> (res: Vec<Vec<u8>>)
    ensures
        rows(res@) == matrix_of(diffusion@),
        is_bit_matrix(rows(res@), 32),
{
    let mut res: Vec<Vec<u8>> = Vec::new();
    let mut i: usize = 0;
    while i < 32
        invariant
            i <= 32,
            res.len() == i,
            forall|r: int| 0 <= r < i ==> (#[trigger] res[r])@ == matrix_of(diffusion@)[r],
        decreases 32 - i,
    {
        let word: u32 = diffusion[i];
        let mut row: Vec<u8> = Vec::new();
        let mut j: u32 = 0;
        while j < 32
            invariant
                j <= 32,
                row.len() == j,
                forall|c: int| 0 <= c < j ==> #[trigger] row[c] == bit_of(word, c),
            decreases 32 - j,
        {
            proof {
                lemma_bit_of_is_bit(word, j);
            }
            let b: u8 = ((word >> j) & 1) as u8;
            row.push(b);
            j += 1;
        }
        res.push(row);
        i += 1;
    }
    proof {
        lemma_matrix_of_is_bit_matrix(diffusion@);
    }
    res
}

/// Multiplies a bit matrix by a vector of bytes under XOR.
///
/// The matrix may be larger than the vector is long: only its top-left
/// corner is read.
pub fn matrix_mult(mat: &Vec<Vec<u8>>, vec: &Vec<u8>) -> (res: Vec<u8>)
    requires
        has_bit_corner(rows(mat@), vec@.len()),
    ensures
        res@ == mat_vec(rows(mat@), vec@),
{
    let n = vec.len();
    let mut res: Vec<u8> = Vec::new();
    let mut i: usize = 0;
    while i < n
        invariant
            n == vec@.len(),
            i <= n,
            res.len() == i,
            has_bit_corner(rows(mat@), vec@.len()),
            forall|r: int| 0 <= r < i ==> #[trigger] res[r] == dot(rows(mat@)[r], vec@),
        decreases n - i,
    {
        let row = &mat[i];
        let mut s: u8 = 0;
        let mut j: usize = 0;
        while j < n
            invariant
                n == vec@.len(),
                i < n,
                j <= n,
                row@ == rows(mat@)[i as int],
                has_bit_corner(rows(mat@), vec@.len()),
                s == dot_prefix(row@, vec@, j as nat),
            decreases n - j,
        {
            assert(row[j as int] * vec[j as int] == masked(row[j as int], vec[j as int]));
            s ^= row[j] * vec[j];
            j += 1;
        }
        res.push(s);
        i += 1;
    }
    res
}

} // verus!
