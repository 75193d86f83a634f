//! The combination stage turned around: for one output byte, every pair of
//! input bytes that combines to it.

use vstd::prelude::*;

verus! {

/// The pair `(i, j)` combines to `target`: the first substitution of `i`
/// XORed with the second substitution of `j` is `target`.
pub open spec fn combines_to(confusion: Seq<u8>, i: int, j: int, target: u8) -> bool {
    confusion[i] ^ confusion[j + 256] == target
}

/// The pairs among the first `n` of the 256 by 256 grid, read row by row,
/// that combine to `target`, in that order.
pub open spec fn matches_among(confusion: Seq<u8>, target: u8, n: nat) -> Seq<(usize, usize)>
    decreases n,
{
    if n == 0 {
        Seq::empty()
    } else {
        let rest = matches_among(confusion, target, (n - 1) as nat);
        let i = (n - 1) / 256;
        let j = (n - 1) % 256;
        if combines_to(confusion, i, j, target) {
            rest.push((i as usize, j as usize))
        } else {
            rest
        }
    }
}

/// Every pair of bytes that combines to `target`, ordered by the first
/// byte and then by the second.
pub open spec fn stage3_matches(confusion: Seq<u8>, target: u8) -> Seq<(usize, usize)> {
    matches_among(confusion, target, 65536)
}

/// The place of the pair `(i, j)` in the grid read row by row.
pub open spec fn place(pair: (usize, usize)) -> int {
    pair.0 * 256 + pair.1
}

/// Every pair listed is a pair of bytes among those scanned, it combines to
/// the target, and the pairs are listed in the order of the scan.
pub proof fn lemma_matches_sound(confusion: Seq<u8>, target: u8, n: nat)
    requires
        n <= 65536,
    ensures
        forall|k: int|
            0 <= k < matches_among(confusion, target, n).len() ==> {
                let pair = #[trigger] matches_among(confusion, target, n)[k];
                &&& pair.0 < 256
                &&& pair.1 < 256
                &&& place(pair) < n
                &&& combines_to(confusion, pair.0 as int, pair.1 as int, target)
            },
        forall|j: int, k: int|
            0 <= j < k < matches_among(confusion, target, n).len() ==> place(
                matches_among(confusion, target, n)[j],
            ) < place(matches_among(confusion, target, n)[k]),
    decreases n,
{
    if n > 0 {
        let rest = matches_among(confusion, target, (n - 1) as nat);
        let full = matches_among(confusion, target, n);
        lemma_matches_sound(confusion, target, (n - 1) as nat);
        assert forall|k: int| 0 <= k < full.len() implies {
            let pair = #[trigger] full[k];
            &&& pair.0 < 256
            &&& pair.1 < 256
            &&& place(pair) < n
            &&& combines_to(confusion, pair.0 as int, pair.1 as int, target)
        } by {}
    }
}

/// Every pair of bytes among those scanned that combines to the target is
/// listed.
pub proof fn lemma_matches_complete(confusion: Seq<u8>, target: u8, n: nat, i: int, j: int)
    requires
        n <= 65536,
        0 <= i < 256,
        0 <= j < 256,
        i * 256 + j < n,
        combines_to(confusion, i, j, target),
    ensures
        matches_among(confusion, target, n).contains((i as usize, j as usize)),
    decreases n,
{
    let rest = matches_among(confusion, target, (n - 1) as nat);
    let full = matches_among(confusion, target, n);
    if i * 256 + j == n - 1 {
        assert(full[rest.len() as int] == (i as usize, j as usize));
    } else {
        lemma_matches_complete(confusion, target, (n - 1) as nat, i, j);
        let k = choose|k: int| 0 <= k < rest.len() && rest[k] == (i as usize, j as usize);
        assert(full[k] == rest[k]);
    }
}

/// Finds every pair `(i, j)` of bytes for which the first substitution of
/// `i`, XORed with the second substitution of `j`, gives `target`.
///
/// The pairs come ordered by `i` and then by `j`; none is left out, none
/// comes twice, and no other pair is among them.
pub fn xor_match(confusion: &[u8; 512], target: u8) -> (res: Vec<(usize, usize)>)
    ensures
        res@ == stage3_matches(confusion@, target),
        forall|i: int, j: int|
            0 <= i < 256 && 0 <= j < 256 ==> (res@.contains((i as usize, j as usize))
                <==> combines_to(confusion@, i, j, target)),
        forall|k: int| 0 <= k < res@.len() ==> (#[trigger] res@[k]).0 < 256 && res@[k].1 < 256,
        forall|j: int, k: int| 0 <= j < k < res@.len() ==> place(res@[j]) < place(res@[k]),
{
    let mut res: Vec<(usize, usize)> = Vec::new();
    let mut i: usize = 0;
    while i < 256
        invariant
            i <= 256,
            res@ == matches_among(confusion@, target, (i * 256) as nat),
        decreases 256 - i,
    {
        let mut j: usize = 0;
        while j < 256
            invariant
                i < 256,
                j <= 256,
                res@ == matches_among(confusion@, target, (i * 256 + j) as nat),
            decreases 256 - j,
        {
            if confusion[i] ^ confusion[j + 256] == target {
                res.push((i, j));
            }
            j += 1;
        }
        i += 1;
    }
    proof {
        lemma_matches_sound(confusion@, target, 65536);
        assert forall|i: int, j: int| 0 <= i < 256 && 0 <= j < 256 implies (res@.contains(
            (i as usize, j as usize),
        ) <==> combines_to(confusion@, i, j, target)) by {
            if res@.contains((i as usize, j as usize)) {
                let k = choose|k: int| 0 <= k < res@.len() && res@[k] == (i as usize, j as usize);
                assert(combines_to(confusion@, res@[k].0 as int, res@[k].1 as int, target));
            }
            if combines_to(confusion@, i, j, target) {
                lemma_matches_complete(confusion@, target, 65536, i, j);
            }
        }
    }
    res
}

} // verus!
