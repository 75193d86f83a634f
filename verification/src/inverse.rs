//! Inversion of a 32 by 32 bit matrix by Gauss-Jordan elimination.

use vstd::prelude::*;
use crate::matrix::{rows, masked, dot, mat_vec, is_bit_matrix};
use crate::linear::{
    lemma_xor_zero, lemma_xor_self, lemma_xor_bits, unit_row, identity, zeros, xor_rows, swapped,
    added, injective, lemma_dot_prefix_skip, lemma_dot_prefix_one, lemma_dot_prefix_two,
    lemma_dot_unit_row, lemma_identity_mat_vec, lemma_mat_vec_zeros, lemma_swapped_is_bit_matrix,
    lemma_added_is_bit_matrix, lemma_swapped_injective, lemma_added_injective,
    lemma_dot_added_row,
};

verus! {

/// Both are 32 by 32 bit matrices, `inv` undoes `m` and `m` undoes `inv`, on
/// every vector of 32 bytes.
pub open spec fn is_inverse(inv: Seq<Seq<u8>>, m: Seq<Seq<u8>>) -> bool {
    &&& is_bit_matrix(m, 32)
    &&& is_bit_matrix(inv, 32)
    &&& forall|x: Seq<u8>| x.len() == 32 ==> #[trigger] mat_vec(inv, mat_vec(m, x)) == x
    &&& forall|x: Seq<u8>| x.len() == 32 ==> #[trigger] mat_vec(m, mat_vec(inv, x)) == x
}

/// Some bit matrix is an inverse of `m`.
pub open spec fn invertible(m: Seq<Seq<u8>>) -> bool {
    exists|inv: Seq<Seq<u8>>| is_inverse(inv, m)
}

/// The inverse of `m`. It means something only where `m` is invertible, and
/// there it is the only inverse (`lemma_inverse_unique`).
pub open spec fn inverse_of(m: Seq<Seq<u8>>) -> Seq<Seq<u8>> {
    choose|inv: Seq<Seq<u8>>| is_inverse(inv, m)
}

/// `swap` of `std`'s slices, which exchanges two elements: afterwards each
/// of the two places holds what the other held, and every other place holds
/// what it held. It panics on an index out of bounds, which the `requires`
/// leaves out.
pub assume_specification<E>[ <[E]>::swap ](slice: &mut [E], a: usize, b: usize)
    requires
        a < old(slice)@.len(),
        b < old(slice)@.len(),
    ensures
        final(slice)@ == old(slice)@.update(a as int, old(slice)@[b as int]).update(
            b as int,
            old(slice)@[a as int],
        ),
;

/// Exchanges rows `i` and `j`.
fn swap(matrix: &mut Vec<Vec<u8>>, i: usize, j: usize)
    requires
        i < old(matrix)@.len(),
        j < old(matrix)@.len(),
    ensures
        rows(final(matrix)@) == swapped(rows(old(matrix)@), i as int, j as int),
{
    matrix.swap(i, j);
}

/// Adds row `i` onto row `j` under XOR and leaves row `i` as it is.
fn add(matrix: &mut Vec<Vec<u8>>, i: usize, j: usize)
    requires
        i < old(matrix)@.len(),
        j < old(matrix)@.len(),
    ensures
        rows(final(matrix)@) == added(rows(old(matrix)@), i as int, j as int),
{
    let n = if matrix[j].len() <= matrix[i].len() {
        matrix[j].len()
    } else {
        matrix[i].len()
    };
    let mut new_row: Vec<u8> = Vec::new();
    let mut k: usize = 0;
    while k < n
        invariant
            i < matrix@.len(),
            j < matrix@.len(),
            n <= matrix@[j as int]@.len(),
            n <= matrix@[i as int]@.len(),
            k <= n,
            new_row@.len() == k,
            forall|c: int|
                0 <= c < k ==> #[trigger] new_row@[c] == matrix@[j as int]@[c]
                    ^ matrix@[i as int]@[c],
        decreases n - k,
    {
        new_row.push(matrix[j][k] ^ matrix[i][k]);
        k += 1;
    }
    assert(new_row@ =~= xor_rows(matrix@[j as int]@, matrix@[i as int]@));
    matrix[j] = new_row;
}

/// The 32 by 32 identity matrix.
fn identity_matrix() -> (res: Vec<Vec<u8>>)
    ensures
        rows(res@) == identity(32),
{
    let mut res: Vec<Vec<u8>> = Vec::new();
    let mut i: usize = 0;
    while i < 32
        invariant
            i <= 32,
            res@.len() == i,
            forall|r: int| 0 <= r < i ==> (#[trigger] res@[r])@ == unit_row(32, r),
        decreases 32 - i,
    {
        let mut row: Vec<u8> = Vec::new();
        let mut j: usize = 0;
        while j < 32
            invariant
                j <= 32,
                row@.len() == j,
                forall|c: int|
                    0 <= c < j ==> #[trigger] row@[c] == (if c == i { 1u8 } else { 0u8 }),
            decreases 32 - j,
        {
            row.push(if j == i { 1 } else { 0 });
            j += 1;
        }
        res.push(row);
        i += 1;
    }
    res
}

/// A copy of `matrix` that shares nothing with it.
fn copy_matrix(matrix: &Vec<Vec<u8>>) -> (res: Vec<Vec<u8>>)
    ensures
        rows(res@) == rows(matrix@),
{
    let mut res: Vec<Vec<u8>> = Vec::new();
    let mut i: usize = 0;
    while i < matrix.len()
        invariant
            i <= matrix@.len(),
            res@.len() == i,
            forall|r: int| 0 <= r < i ==> (#[trigger] res@[r])@ == matrix@[r]@,
        decreases matrix@.len() - i,
    {
        let row = matrix[i].clone();
        res.push(row);
        i += 1;
    }
    res
}

/// The columns before `k` are those of the identity.
spec fn reduced(c: Seq<Seq<u8>>, k: int) -> bool {
    forall|r: int, col: int|
        0 <= r < 32 && 0 <= col < k ==> #[trigger] c[r][col] == (if r == col { 1u8 } else { 0u8 })
}

/// Row by row, `c` is the product of `r` and `m`.
spec fn tracks(c: Seq<Seq<u8>>, r: Seq<Seq<u8>>, m: Seq<Seq<u8>>) -> bool {
    forall|x: Seq<u8>, k: int|
        x.len() == 32 && 0 <= k < 32 ==> #[trigger] dot(c[k], x) == dot(r[k], mat_vec(m, x))
}

/// What elimination keeps true of the matrix `c` being reduced and of the
/// matrix `r` that records the row operations made so far on `m`.
spec fn eliminating(c: Seq<Seq<u8>>, r: Seq<Seq<u8>>, m: Seq<Seq<u8>>) -> bool {
    &&& is_bit_matrix(m, 32)
    &&& is_bit_matrix(c, 32)
    &&& is_bit_matrix(r, 32)
    &&& tracks(c, r, m)
    &&& injective(r, 32)
    &&& injective(m, 32) ==> injective(c, 32)
}

/// Elimination starts with the matrix itself and the identity.
proof fn lemma_start_eliminating(m: Seq<Seq<u8>>)
    requires
        is_bit_matrix(m, 32),
    ensures
        eliminating(m, identity(32), m),
{
    let id = identity(32);
    assert forall|x: Seq<u8>, k: int| x.len() == 32 && 0 <= k < 32 implies #[trigger] dot(m[k], x)
        == dot(id[k], mat_vec(m, x)) by {
        lemma_dot_unit_row(32, k, mat_vec(m, x));
    }
    assert forall|u: Seq<u8>, v: Seq<u8>|
        u.len() == 32 && v.len() == 32 && mat_vec(id, u) == mat_vec(id, v) implies u == v by {
        lemma_identity_mat_vec(32, u);
        lemma_identity_mat_vec(32, v);
    }
}

/// The same exchange of rows on both matrices keeps them in step.
proof fn lemma_swap_keeps_eliminating(
    c: Seq<Seq<u8>>,
    r: Seq<Seq<u8>>,
    m: Seq<Seq<u8>>,
    i: int,
    j: int,
)
    requires
        eliminating(c, r, m),
        0 <= i < 32,
        0 <= j < 32,
    ensures
        eliminating(swapped(c, i, j), swapped(r, i, j), m),
{
    let c2 = swapped(c, i, j);
    let r2 = swapped(r, i, j);
    lemma_swapped_is_bit_matrix(c, 32, i, j);
    lemma_swapped_is_bit_matrix(r, 32, i, j);
    lemma_swapped_injective(r, 32, i, j);
    if injective(m, 32) {
        lemma_swapped_injective(c, 32, i, j);
    }
    assert forall|x: Seq<u8>, k: int| x.len() == 32 && 0 <= k < 32 implies #[trigger] dot(c2[k], x)
        == dot(r2[k], mat_vec(m, x)) by {}
}

/// The same addition of rows on both matrices keeps them in step.
proof fn lemma_add_keeps_eliminating(
    c: Seq<Seq<u8>>,
    r: Seq<Seq<u8>>,
    m: Seq<Seq<u8>>,
    i: int,
    j: int,
)
    requires
        eliminating(c, r, m),
        0 <= i < 32,
        0 <= j < 32,
        i != j,
    ensures
        eliminating(added(c, i, j), added(r, i, j), m),
{
    let c2 = added(c, i, j);
    let r2 = added(r, i, j);
    lemma_added_is_bit_matrix(c, 32, i, j);
    lemma_added_is_bit_matrix(r, 32, i, j);
    lemma_added_injective(r, 32, i, j);
    if injective(m, 32) {
        lemma_added_injective(c, 32, i, j);
    }
    assert forall|x: Seq<u8>, k: int| x.len() == 32 && 0 <= k < 32 implies #[trigger] dot(c2[k], x)
        == dot(r2[k], mat_vec(m, x)) by {
        let y = mat_vec(m, x);
        if k == j {
            lemma_dot_added_row(c, 32, i, j, x);
            lemma_dot_added_row(r, 32, i, j, y);
        }
    }
}

/// Clearing the entry of row `j` in the pivot column `i` disturbs neither
/// the columns already reduced nor any other row.
proof fn lemma_add_clears_entry(c: Seq<Seq<u8>>, i: int, j: int)
    requires
        is_bit_matrix(c, 32),
        reduced(c, i),
        0 <= i < 32,
        0 <= j < 32,
        i != j,
        c[i][i] == 1,
        c[j][i] == 1,
    ensures
        reduced(added(c, i, j), i),
        added(c, i, j)[j][i] == 0,
        forall|r: int| 0 <= r < 32 && r != j ==> #[trigger] added(c, i, j)[r] == c[r],
{
    let c2 = added(c, i, j);
    lemma_xor_bits(1, 1);
    assert forall|r: int, col: int| 0 <= r < 32 && 0 <= col < i implies #[trigger] c2[r][col]
        == (if r == col { 1u8 } else { 0u8 }) by {
        if r == j {
            lemma_xor_zero(c[j][col]);
        }
    }
}

/// Exchanging the pivot row with a row below it keeps the columns already
/// reduced.
proof fn lemma_swap_keeps_reduced(c: Seq<Seq<u8>>, i: int, j: int)
    requires
        is_bit_matrix(c, 32),
        reduced(c, i),
        0 <= i < j < 32,
    ensures
        reduced(swapped(c, i, j), i),
        swapped(c, i, j)[i] == c[j],
{
    let c2 = swapped(c, i, j);
    assert forall|r: int, col: int| 0 <= r < 32 && 0 <= col < i implies #[trigger] c2[r][col]
        == (if r == col { 1u8 } else { 0u8 }) by {}
}

/// A pivot column with a 1 on the diagonal and 0 elsewhere is reduced.
proof fn lemma_column_reduced(c: Seq<Seq<u8>>, i: int)
    requires
        reduced(c, i),
        0 <= i < 32,
        c[i][i] == 1,
        forall|r: int| 0 <= r < 32 && r != i ==> (#[trigger] c[r])[i] == 0,
    ensures
        reduced(c, i + 1),
{
}

/// Where the pivot column holds no 1 at or below the diagonal, two vectors
/// have the same product with the matrix.
proof fn lemma_no_pivot_not_injective(c: Seq<Seq<u8>>, i: int)
    requires
        is_bit_matrix(c, 32),
        reduced(c, i),
        0 <= i < 32,
        forall|r: int| i <= r < 32 ==> (#[trigger] c[r])[i] == 0,
    ensures
        !injective(c, 32),
{
    let x = Seq::new(32, |col: int| if col < i { c[col][i] } else if col == i { 1u8 } else { 0u8 });
    assert forall|r: int| 0 <= r < 32 implies mat_vec(c, x)[r] == 0 by {
        if r < i {
            lemma_dot_prefix_two(c[r], x, r, i, 32);
            lemma_xor_self(c[r][i]);
        } else {
            assert forall|col: int| 0 <= col < 32 implies #[trigger] masked(c[r][col], x[col])
                == 0 by {}
            lemma_dot_prefix_skip(c[r], x, 0, 32);
        }
    }
    lemma_mat_vec_zeros(c, 32);
    assert(mat_vec(c, x) =~= mat_vec(c, zeros(32)));
    assert(x[i] != zeros(32)[i]);
}

/// Once every column is reduced, the recorded row operations are the
/// inverse.
proof fn lemma_finish_eliminating(c: Seq<Seq<u8>>, r: Seq<Seq<u8>>, m: Seq<Seq<u8>>)
    requires
        eliminating(c, r, m),
        reduced(c, 32),
    ensures
        is_inverse(r, m),
{
    assert forall|k: int| 0 <= k < 32 implies #[trigger] c[k] == unit_row(32, k) by {}
    assert forall|x: Seq<u8>| x.len() == 32 implies #[trigger] mat_vec(r, mat_vec(m, x)) == x by {
        let y = mat_vec(m, x);
        assert forall|k: int| 0 <= k < 32 implies mat_vec(r, y)[k] == x[k] by {
            assert(dot(c[k], x) == dot(r[k], y));
            lemma_dot_unit_row(32, k, x);
        }
    }
    assert forall|x: Seq<u8>| x.len() == 32 implies #[trigger] mat_vec(m, mat_vec(r, x)) == x by {
        let w = mat_vec(r, x);
        let z = mat_vec(m, w);
        assert(mat_vec(r, z) == mat_vec(r, x));
    }
}

/// An invertible matrix maps distinct vectors to distinct vectors.
pub proof fn lemma_invertible_injective(m: Seq<Seq<u8>>)
    requires
        invertible(m),
    ensures
        injective(m, 32),
{
    let inv = choose|inv: Seq<Seq<u8>>| is_inverse(inv, m);
    assert forall|u: Seq<u8>, v: Seq<u8>|
        u.len() == 32 && v.len() == 32 && mat_vec(m, u) == mat_vec(m, v) implies u == v by {
        assert(mat_vec(inv, mat_vec(m, v)) == v);
    }
}

/// A matrix has at most one inverse.
pub proof fn lemma_inverse_unique(a: Seq<Seq<u8>>, b: Seq<Seq<u8>>, m: Seq<Seq<u8>>)
    requires
        is_inverse(a, m),
        is_inverse(b, m),
    ensures
        a == b,
{
    assert forall|r: int| 0 <= r < 32 implies #[trigger] a[r] == b[r] by {
        assert forall|col: int| 0 <= col < 32 implies a[r][col] == b[r][col] by {
            let e = unit_row(32, col);
            let w = mat_vec(b, e);
            assert(mat_vec(a, mat_vec(m, w)) == w);
            assert(mat_vec(a, e)[r] == mat_vec(b, e)[r]);
            lemma_dot_prefix_one(a[r], e, col, 32);
            lemma_dot_prefix_one(b[r], e, col, 32);
        }
    }
}

/// Whatever is an inverse of `m` is `inverse_of(m)`.
pub proof fn lemma_inverse_of(inv: Seq<Seq<u8>>, m: Seq<Seq<u8>>)
    requires
        is_inverse(inv, m),
    ensures
        invertible(m),
        inv == inverse_of(m),
{
    lemma_inverse_unique(inv, inverse_of(m), m);
}

/// Multiplying a vector by an invertible matrix and then by its inverse, or
/// the other way round, gives the vector back.
pub proof fn lemma_inverse_round_trip(m: Seq<Seq<u8>>, x: Seq<u8>)
    requires
        invertible(m),
        x.len() == 32,
    ensures
        mat_vec(inverse_of(m), mat_vec(m, x)) == x,
        mat_vec(m, mat_vec(inverse_of(m), x)) == x,
{
}

/// Inverts `matrix` by Gauss-Jordan elimination, or finds that it has no
/// inverse.
///
/// Every row operation made on a copy of `matrix` is made on a matrix that
/// starts as the identity. Column by column, a row with a 1 in the column is
/// brought to the diagonal and added onto every other row that has a 1
/// there. Where a column holds no 1 at or below the diagonal, the matrix is
/// singular.
pub fn try_inverse(matrix: &Vec<Vec<u8>>) -> (res: Option<Vec<Vec<u8>>>)
    requires
        is_bit_matrix(rows(matrix@), 32),
    ensures
        res is Some <==> invertible(rows(matrix@)),
        res matches Some(inv) ==> is_inverse(rows(inv@), rows(matrix@)),
{
    let ghost m = rows(matrix@);
    let mut res = identity_matrix();
    let mut current = copy_matrix(matrix);
    proof {
        lemma_start_eliminating(m);
    }
    let mut i: usize = 0;
    while i < 32
        invariant
            i <= 32,
            m == rows(matrix@),
            eliminating(rows(current@), rows(res@), m),
            reduced(rows(current@), i as int),
        decreases 32 - i,
    {
        assert(rows(current@)[i as int] == current@[i as int]@);
        if current[i][i] == 0 {
            // Scan down for a row with a 1 in this column.
            let mut j: usize = i + 1;
            let mut found = false;
            while j < 32 && !found
                invariant
                    i < 32,
                    i < j <= 32,
                    eliminating(rows(current@), rows(res@), m),
                    reduced(rows(current@), i as int),
                    !found ==> forall|r: int|
                        i <= r < j ==> (#[trigger] rows(current@)[r])[i as int] == 0,
                    found ==> rows(current@)[i as int][i as int] == 1,
                decreases 32 - j, if found { 0int } else { 1int },
            {
                assert(rows(current@)[j as int] == current@[j as int]@);
                if current[j][i] == 1 {
                    proof {
                        lemma_swap_keeps_eliminating(
                            rows(current@),
                            rows(res@),
                            m,
                            i as int,
                            j as int,
                        );
                        lemma_swap_keeps_reduced(rows(current@), i as int, j as int);
                    }
                    swap(&mut current, i, j);
                    swap(&mut res, i, j);
                    found = true;
                } else {
                    j += 1;
                }
            }
            if !found {
                proof {
                    lemma_no_pivot_not_injective(rows(current@), i as int);
                    if invertible(m) {
                        lemma_invertible_injective(m);
                    }
                }
                return None;
            }
        }
        // The diagonal entry is now 1: clear the column below it.
        let mut j: usize = i + 1;
        while j < 32
            invariant
                i < 32,
                i < j <= 32,
                eliminating(rows(current@), rows(res@), m),
                reduced(rows(current@), i as int),
                rows(current@)[i as int][i as int] == 1,
                forall|r: int| i < r < j ==> (#[trigger] rows(current@)[r])[i as int] == 0,
            decreases 32 - j,
        {
            assert(rows(current@)[j as int] == current@[j as int]@);
            if current[j][i] == 1 {
                proof {
                    lemma_add_keeps_eliminating(rows(current@), rows(res@), m, i as int, j as int);
                    lemma_add_clears_entry(rows(current@), i as int, j as int);
                }
                self::add(&mut current, i, j);
                self::add(&mut res, i, j);
            }
            j += 1;
        }
        // And above it.
        let mut j: usize = 0;
        while j < i
            invariant
                i < 32,
                j <= i,
                eliminating(rows(current@), rows(res@), m),
                reduced(rows(current@), i as int),
                rows(current@)[i as int][i as int] == 1,
                forall|r: int| i < r < 32 ==> (#[trigger] rows(current@)[r])[i as int] == 0,
                forall|r: int| 0 <= r < j ==> (#[trigger] rows(current@)[r])[i as int] == 0,
            decreases i - j,
        {
            assert(rows(current@)[j as int] == current@[j as int]@);
            if current[j][i] == 1 {
                proof {
                    lemma_add_keeps_eliminating(rows(current@), rows(res@), m, i as int, j as int);
                    lemma_add_clears_entry(rows(current@), i as int, j as int);
                }
                self::add(&mut current, i, j);
                self::add(&mut res, i, j);
            }
            j += 1;
        }
        proof {
            lemma_column_reduced(rows(current@), i as int);
        }
        i += 1;
    }
    proof {
        lemma_finish_eliminating(rows(current@), rows(res@), m);
    }
    Some(res)
}

/// The inverse of an invertible 32 by 32 bit matrix.
///
/// The matrix must have an inverse: `try_inverse` is for a caller who does
/// not know that it has.
pub fn compute_inverse(matrix: &Vec<Vec<u8>>) -> (res: Vec<Vec<u8>>)
    requires
        invertible(rows(matrix@)),
    ensures
        is_inverse(rows(res@), rows(matrix@)),
        rows(res@) == inverse_of(rows(matrix@)),
{
    let res = try_inverse(matrix).unwrap();
    proof {
        lemma_inverse_of(rows(res@), rows(matrix@));
    }
    res
}

} // verus!
