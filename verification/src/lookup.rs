//! The substitution table turned around: for each byte, the inputs that
//! the substitution maps to it.

use vstd::prelude::*;
use crate::matrix::rows;

verus! {

/// The inputs below `n` that `table` maps to `value`, in ascending order.
pub open spec fn preimages_below(table: Seq<u8>, value: u8, n: nat) -> Seq<u8>
    decreases n,
{
    if n == 0 {
        Seq::empty()
    } else {
        let rest = preimages_below(table, value, (n - 1) as nat);
        if table[n - 1] == value {
            rest.push((n - 1) as u8)
        } else {
            rest
        }
    }
}

/// The lookup index of a confusion table: bucket `b` lists, in ascending
/// order, the bytes that the first half of the table maps to `b`.
pub open spec fn lookup_index(confusion: Seq<u8>) -> Seq<Seq<u8>> {
    Seq::new(256, |b: int| preimages_below(confusion, b as u8, 256))
}

/// A bucket holds exactly the inputs that map to its byte.
pub proof fn lemma_preimages_below(table: Seq<u8>, value: u8, n: nat, c: u8)
    requires
        n <= 256,
    ensures
        preimages_below(table, value, n).contains(c) <==> c < n && table[c as int] == value,
    decreases n,
{
    if n > 0 {
        let rest = preimages_below(table, value, (n - 1) as nat);
        lemma_preimages_below(table, value, (n - 1) as nat, c);
        if table[n - 1] == value {
            let full = rest.push((n - 1) as u8);
            if rest.contains(c) {
                let k = choose|k: int| 0 <= k < rest.len() && rest[k] == c;
                assert(full[k] == c);
            }
            if c == n - 1 {
                assert(full[rest.len() as int] == c);
            }
        }
    }
}

/// A bucket lists its inputs in strictly ascending order, so none twice.
pub proof fn lemma_preimages_ascending(table: Seq<u8>, value: u8, n: nat)
    requires
        n <= 256,
    ensures
        forall|k: int|
            0 <= k < preimages_below(table, value, n).len() ==> #[trigger] preimages_below(
                table,
                value,
                n,
            )[k] < n,
        forall|j: int, k: int|
            0 <= j < k < preimages_below(table, value, n).len() ==> preimages_below(
                table,
                value,
                n,
            )[j] < preimages_below(table, value, n)[k],
    decreases n,
{
    if n > 0 {
        let rest = preimages_below(table, value, (n - 1) as nat);
        lemma_preimages_ascending(table, value, (n - 1) as nat);
    }
}

/// Every bucket of the index holds exactly the inputs that the substitution
/// maps to the bucket's byte.
pub proof fn lemma_lookup_index(confusion: Seq<u8>, b: u8, c: u8)
    ensures
        lookup_index(confusion)[b as int].contains(c) <==> confusion[c as int] == b,
{
    lemma_preimages_below(confusion, b, 256, c);
}

/// Every input is listed in the bucket of the byte that it is substituted
/// by.
pub open spec fn lists_every_input(index: Seq<Seq<u8>>, confusion: Seq<u8>) -> bool {
    forall|c: int| 0 <= c < 256 ==> (#[trigger] index[confusion[c] as int]).contains(c as u8)
}

/// Whatever a bucket lists is substituted by the bucket's byte.
pub open spec fn lists_only_inputs(index: Seq<Seq<u8>>, confusion: Seq<u8>) -> bool {
    forall|b: int, k: int|
        0 <= b < 256 && 0 <= k < index[b].len() ==> confusion[(#[trigger] index[b][k]) as int] == b
}

/// Inverts the substitution held in the first 256 entries of `confusion`.
///
/// The result has 256 buckets. Every input is in the bucket of the byte it
/// is substituted by, and in no other; a byte that the substitution never
/// gives has an empty bucket.
pub fn build_lookup_table(confusion: &[u8; 512]) -> (res: Vec<Vec<u8>>)
    ensures
        res@.len() == 256,
        rows(res@) == lookup_index(confusion@),
        lists_every_input(rows(res@), confusion@),
        lists_only_inputs(rows(res@), confusion@),
{
    let mut res: Vec<Vec<u8>> = Vec::new();
    let mut b: usize = 0;
    while b < 256
        invariant
            b <= 256,
            res@.len() == b,
            forall|k: int| 0 <= k < b ==> (#[trigger] res@[k])@ == Seq::<u8>::empty(),
        decreases 256 - b,
    {
        res.push(Vec::new());
        b += 1;
    }
    let mut c: usize = 0;
    while c < 256
        invariant
            c <= 256,
            res@.len() == 256,
            forall|k: int|
                0 <= k < 256 ==> (#[trigger] res@[k])@ == preimages_below(
                    confusion@,
                    k as u8,
                    c as nat,
                ),
        decreases 256 - c,
    {
        let bucket = confusion[c] as usize;
        res[bucket].push(c as u8);
        c += 1;
    }
    proof {
        let index = rows(res@);
        assert forall|c: int| 0 <= c < 256 implies (#[trigger] index[confusion@[c] as int]).contains(
            c as u8,
        ) by {
            lemma_lookup_index(confusion@, confusion@[c], c as u8);
        }
        assert forall|b: int, k: int| 0 <= b < 256 && 0 <= k < index[b].len() implies confusion@[(
        #[trigger] index[b][k]) as int] == b by {
            lemma_lookup_index(confusion@, b as u8, index[b][k]);
        }
    }
    res
}

} // verus!
