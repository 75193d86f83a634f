//! Facts about XOR, selections and row operations that the inversion of a
//! bit matrix rests on.

use vstd::prelude::*;
use crate::matrix::{masked, dot_prefix, dot, mat_vec, is_bit_matrix};

verus! {

/// XOR with zero changes nothing.
pub proof fn lemma_xor_zero(a: u8)
    by (bit_vector)
    ensures
        a ^ 0 == a,
        0 ^ a == a,
{
}

/// A byte XORed with itself is zero.
pub proof fn lemma_xor_self(a: u8)
    by (bit_vector)
    ensures
        a ^ a == 0,
{
}

/// XOR with the same byte on both sides can be cancelled.
pub proof fn lemma_xor_cancel(a: u8, b: u8, c: u8)
    by (bit_vector)
    ensures
        a ^ b == c ^ b ==> a == c,
{
}

/// Two XORs of two bytes each can exchange their inner bytes.
pub proof fn lemma_xor_interchange(a: u8, b: u8, c: u8, d: u8)
    by (bit_vector)
    ensures
        (a ^ b) ^ (c ^ d) == (a ^ c) ^ (b ^ d),
{
}

/// XOR on single bits: 0 where they are equal, 1 where they differ.
pub proof fn lemma_xor_bits(a: u8, b: u8)
    by (bit_vector)
    requires
        a <= 1,
        b <= 1,
    ensures
        (a ^ b) == (if a == b { 0u8 } else { 1u8 }),
{
}

/// Row `r` of the identity: 1 at column `r`, 0 elsewhere.
pub open spec fn unit_row(n: nat, r: int) -> Seq<u8> {
    Seq::new(n, |c: int| if c == r { 1u8 } else { 0u8 })
}

/// The `n` by `n` identity matrix.
pub open spec fn identity(n: nat) -> Seq<Seq<u8>> {
    Seq::new(n, |r: int| unit_row(n, r))
}

/// The vector of `n` zero bytes.
pub open spec fn zeros(n: nat) -> Seq<u8> {
    Seq::new(n, |c: int| 0u8)
}

/// Entry by entry XOR of two rows, as long as the shorter of them.
pub open spec fn xor_rows(a: Seq<u8>, b: Seq<u8>) -> Seq<u8> {
    Seq::new(if a.len() <= b.len() { a.len() } else { b.len() }, |k: int| a[k] ^ b[k])
}

/// `m` with rows `i` and `j` exchanged.
pub open spec fn swapped(m: Seq<Seq<u8>>, i: int, j: int) -> Seq<Seq<u8>> {
    m.update(i, m[j]).update(j, m[i])
}

/// `m` with row `i` added (XORed) onto row `j`.
pub open spec fn added(m: Seq<Seq<u8>>, i: int, j: int) -> Seq<Seq<u8>> {
    m.update(j, xor_rows(m[j], m[i]))
}

/// No two distinct vectors of `n` bytes have the same product with `m`.
pub open spec fn injective(m: Seq<Seq<u8>>, n: nat) -> bool {
    forall|u: Seq<u8>, v: Seq<u8>|
        #![trigger mat_vec(m, u), mat_vec(m, v)]
        u.len() == n && v.len() == n && mat_vec(m, u) == mat_vec(m, v) ==> u == v
}

/// A stretch of columns that selects nothing adds nothing to the XOR.
pub proof fn lemma_dot_prefix_skip(row: Seq<u8>, v: Seq<u8>, lo: nat, hi: nat)
    requires
        lo <= hi,
        forall|c: int| lo <= c < hi ==> #[trigger] masked(row[c], v[c]) == 0,
    ensures
        dot_prefix(row, v, hi) == dot_prefix(row, v, lo),
    decreases hi,
{
    if hi > lo {
        lemma_dot_prefix_skip(row, v, lo, (hi - 1) as nat);
        lemma_xor_zero(dot_prefix(row, v, (hi - 1) as nat));
    }
}

/// Where only column `p` selects anything, the XOR is that one byte.
pub proof fn lemma_dot_prefix_one(row: Seq<u8>, v: Seq<u8>, p: int, n: nat)
    requires
        0 <= p < n,
        forall|c: int| 0 <= c < n && c != p ==> #[trigger] masked(row[c], v[c]) == 0,
    ensures
        dot_prefix(row, v, n) == masked(row[p], v[p]),
{
    lemma_dot_prefix_skip(row, v, (p + 1) as nat, n);
    lemma_dot_prefix_skip(row, v, 0, p as nat);
    lemma_xor_zero(masked(row[p], v[p]));
}

/// Where only columns `p` and `q` select anything, the XOR is that of the
/// two bytes.
pub proof fn lemma_dot_prefix_two(row: Seq<u8>, v: Seq<u8>, p: int, q: int, n: nat)
    requires
        0 <= p < q < n,
        forall|c: int| 0 <= c < n && c != p && c != q ==> #[trigger] masked(row[c], v[c]) == 0,
    ensures
        dot_prefix(row, v, n) == masked(row[p], v[p]) ^ masked(row[q], v[q]),
{
    lemma_dot_prefix_skip(row, v, (q + 1) as nat, n);
    lemma_dot_prefix_one(row, v, p, q as nat);
}

/// Row `r` of the identity selects byte `r`.
pub proof fn lemma_dot_unit_row(n: nat, r: int, x: Seq<u8>)
    requires
        0 <= r < n,
        x.len() == n,
    ensures
        dot(unit_row(n, r), x) == x[r],
{
    lemma_dot_prefix_one(unit_row(n, r), x, r, n);
}

/// The identity matrix maps every vector to itself.
pub proof fn lemma_identity_mat_vec(n: nat, x: Seq<u8>)
    requires
        x.len() == n,
    ensures
        mat_vec(identity(n), x) == x,
{
    assert forall|r: int| 0 <= r < n implies mat_vec(identity(n), x)[r] == x[r] by {
        lemma_dot_unit_row(n, r, x);
    }
}

/// The XOR selected by the sum of two rows is the XOR of what each selects.
pub proof fn lemma_dot_prefix_xor_rows(a: Seq<u8>, b: Seq<u8>, x: Seq<u8>, n: nat)
    requires
        n <= a.len(),
        n <= b.len(),
        forall|c: int| 0 <= c < n ==> #[trigger] a[c] <= 1,
        forall|c: int| 0 <= c < n ==> #[trigger] b[c] <= 1,
    ensures
        dot_prefix(xor_rows(a, b), x, n) == dot_prefix(a, x, n) ^ dot_prefix(b, x, n),
    decreases n,
{
    if n == 0 {
        lemma_xor_zero(0);
    } else {
        let k = n - 1;
        lemma_dot_prefix_xor_rows(a, b, x, k as nat);
        assert(masked(a[k] ^ b[k], x[k]) == masked(a[k], x[k]) ^ masked(b[k], x[k])) by {
            lemma_xor_bits(a[k], b[k]);
            lemma_xor_zero(x[k]);
            lemma_xor_self(x[k]);
            lemma_xor_zero(0);
        }
        lemma_xor_interchange(
            dot_prefix(a, x, k as nat),
            dot_prefix(b, x, k as nat),
            masked(a[k], x[k]),
            masked(b[k], x[k]),
        );
    }
}

/// A matrix maps the zero vector to the zero vector.
pub proof fn lemma_mat_vec_zeros(m: Seq<Seq<u8>>, n: nat)
    ensures
        mat_vec(m, zeros(n)) == zeros(n),
{
    assert forall|r: int| 0 <= r < n implies mat_vec(m, zeros(n))[r] == 0 by {
        lemma_dot_prefix_skip(m[r], zeros(n), 0, n);
    }
}

/// Exchanging two rows leaves a bit matrix a bit matrix.
pub proof fn lemma_swapped_is_bit_matrix(m: Seq<Seq<u8>>, n: nat, i: int, j: int)
    requires
        is_bit_matrix(m, n),
        0 <= i < n,
        0 <= j < n,
    ensures
        is_bit_matrix(swapped(m, i, j), n),
{
    let s = swapped(m, i, j);
    assert forall|r: int, c: int| 0 <= r < n && 0 <= c < n implies #[trigger] s[r][c] <= 1 by {}
}

/// Adding one row onto another leaves a bit matrix a bit matrix.
pub proof fn lemma_added_is_bit_matrix(m: Seq<Seq<u8>>, n: nat, i: int, j: int)
    requires
        is_bit_matrix(m, n),
        0 <= i < n,
        0 <= j < n,
    ensures
        is_bit_matrix(added(m, i, j), n),
{
    let s = added(m, i, j);
    assert forall|r: int, c: int| 0 <= r < n && 0 <= c < n implies #[trigger] s[r][c] <= 1 by {
        if r == j {
            lemma_xor_bits(m[j][c], m[i][c]);
        }
    }
}

/// Exchanging two rows keeps a matrix injective.
pub proof fn lemma_swapped_injective(m: Seq<Seq<u8>>, n: nat, i: int, j: int)
    requires
        injective(m, n),
        0 <= i < n,
        0 <= j < n,
        m.len() == n,
    ensures
        injective(swapped(m, i, j), n),
{
    let s = swapped(m, i, j);
    assert forall|u: Seq<u8>, v: Seq<u8>|
        u.len() == n && v.len() == n && mat_vec(s, u) == mat_vec(s, v) implies u == v by {
        assert forall|r: int| 0 <= r < n implies mat_vec(m, u)[r] == mat_vec(m, v)[r] by {
            let t = if r == i { j } else if r == j { i } else { r };
            assert(mat_vec(s, u)[t] == mat_vec(s, v)[t]);
        }
        assert(mat_vec(m, u) =~= mat_vec(m, v));
    }
}

/// Adding one row onto another keeps a matrix injective.
pub proof fn lemma_added_injective(m: Seq<Seq<u8>>, n: nat, i: int, j: int)
    requires
        injective(m, n),
        is_bit_matrix(m, n),
        0 <= i < n,
        0 <= j < n,
        i != j,
    ensures
        injective(added(m, i, j), n),
{
    let s = added(m, i, j);
    assert forall|u: Seq<u8>, v: Seq<u8>|
        u.len() == n && v.len() == n && mat_vec(s, u) == mat_vec(s, v) implies u == v by {
        assert forall|r: int| 0 <= r < n implies mat_vec(m, u)[r] == mat_vec(m, v)[r] by {
            assert(mat_vec(s, u)[r] == mat_vec(s, v)[r]);
            if r == j {
                assert(mat_vec(s, u)[i] == mat_vec(s, v)[i]);
                lemma_dot_added_row(m, n, i, j, u);
                lemma_dot_added_row(m, n, i, j, v);
                lemma_xor_cancel(dot(m[j], u), dot(m[i], u), dot(m[j], v));
            }
        }
        assert(mat_vec(m, u) =~= mat_vec(m, v));
    }
}

/// What the row that received another row selects.
pub proof fn lemma_dot_added_row(m: Seq<Seq<u8>>, n: nat, i: int, j: int, x: Seq<u8>)
    requires
        is_bit_matrix(m, n),
        0 <= i < n,
        0 <= j < n,
        x.len() == n,
    ensures
        dot(added(m, i, j)[j], x) == dot(m[j], x) ^ dot(m[i], x),
{
    assert forall|c: int| 0 <= c < n implies #[trigger] m[j][c] <= 1 by {}
    assert forall|c: int| 0 <= c < n implies #[trigger] m[i][c] <= 1 by {}
    lemma_dot_prefix_xor_rows(m[j], m[i], x, n);
}

} // verus!
