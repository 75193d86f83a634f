//! One round undone: the diffusion by the inverse matrix, then the
//! substitution by the lookup index, in every way the index allows.

use vstd::prelude::*;
use crate::matrix::{rows, mat_vec, has_bit_corner, matrix_mult};
use crate::lookup::{lookup_index, lemma_preimages_ascending};
use crate::product::{
    product, count, pending, in_range, combinations, next_combination, lemma_product_len,
    lemma_product_picks, lemma_product_distinct, lemma_product_of_empty_list,
};

verus! {

/// For each byte of `block`, the bucket of the lookup index that lists the
/// inputs substituted by that byte.
pub open spec fn buckets_for(lookup: Seq<Seq<u8>>, block: Seq<u8>) -> Seq<Seq<u8>> {
    Seq::new(block.len(), |p: int| lookup[block[p] as int])
}

/// Some bucket is empty: some byte has no input that is substituted by it.
pub open spec fn has_empty_bucket(buckets: Seq<Seq<u8>>) -> bool {
    exists|p: int| 0 <= p < buckets.len() && (#[trigger] buckets[p]).len() == 0
}

/// The predecessors of one vector: none where a byte of what the inverse
/// matrix makes of it has an empty bucket, and else every combination of
/// one input from each byte's bucket.
pub open spec fn predecessors(inverse: Seq<Seq<u8>>, lookup: Seq<Seq<u8>>, target: Seq<u8>) -> Seq<
    Seq<u8>,
> {
    let buckets = buckets_for(lookup, mat_vec(inverse, target));
    if has_empty_bucket(buckets) {
        Seq::empty()
    } else {
        product(buckets)
    }
}

/// The predecessors of every vector of `targets`, those of the first vector
/// first.
pub open spec fn reverse_round(
    inverse: Seq<Seq<u8>>,
    lookup: Seq<Seq<u8>>,
    targets: Seq<Seq<u8>>,
) -> Seq<Seq<u8>> {
    targets.map_values(|t: Seq<u8>| predecessors(inverse, lookup, t)).flatten()
}

/// One round taken back on no vectors gives none.
pub proof fn lemma_reverse_round_of_none(inverse: Seq<Seq<u8>>, lookup: Seq<Seq<u8>>)
    ensures
        reverse_round(inverse, lookup, Seq::empty()) == Seq::<Seq<u8>>::empty(),
{
    let none = Seq::<Seq<u8>>::empty();
    assert(none.map_values(|t: Seq<u8>| predecessors(inverse, lookup, t)) =~= Seq::<
        Seq<Seq<u8>>,
    >::empty());
}

/// The predecessors of one more vector come after those of the vectors
/// before it.
pub proof fn lemma_reverse_round_push(
    inverse: Seq<Seq<u8>>,
    lookup: Seq<Seq<u8>>,
    targets: Seq<Seq<u8>>,
    target: Seq<u8>,
)
    ensures
        reverse_round(inverse, lookup, targets.push(target)) == reverse_round(
            inverse,
            lookup,
            targets,
        ) + predecessors(inverse, lookup, target),
{
    let f = |t: Seq<u8>| predecessors(inverse, lookup, t);
    assert(targets.push(target).map_values(f) =~= targets.map_values(f).push(f(target)));
    targets.map_values(f).lemma_flatten_push(f(target));
}

/// Every vector of `blocks` has 32 bytes.
pub open spec fn all_blocks(blocks: Seq<Seq<u8>>) -> bool {
    forall|k: int| 0 <= k < blocks.len() ==> (#[trigger] blocks[k]).len() == 32
}

/// Every predecessor is as long as the vector it precedes.
pub proof fn lemma_predecessors_len(
    inverse: Seq<Seq<u8>>,
    lookup: Seq<Seq<u8>>,
    target: Seq<u8>,
    k: int,
)
    requires
        0 <= k < predecessors(inverse, lookup, target).len(),
    ensures
        predecessors(inverse, lookup, target)[k].len() == target.len(),
{
    lemma_product_picks(buckets_for(lookup, mat_vec(inverse, target)), k);
}

/// A vector that one round taken back gives is a predecessor of one of the
/// vectors that the round was taken back on.
pub proof fn lemma_reverse_round_member(
    inverse: Seq<Seq<u8>>,
    lookup: Seq<Seq<u8>>,
    targets: Seq<Seq<u8>>,
    k: int,
) -> (t: int)
    requires
        0 <= k < reverse_round(inverse, lookup, targets).len(),
    ensures
        0 <= t < targets.len(),
        predecessors(inverse, lookup, targets[t]).contains(
            reverse_round(inverse, lookup, targets)[k],
        ),
    decreases targets.len(),
{
    if targets.len() == 0 {
        0
    } else {
        let front = targets.drop_last();
        assert(front.push(targets.last()) =~= targets);
        lemma_reverse_round_push(inverse, lookup, front, targets.last());
        let before = reverse_round(inverse, lookup, front);
        if k < before.len() {
            let t = lemma_reverse_round_member(inverse, lookup, front, k);
            t
        } else {
            let last = predecessors(inverse, lookup, targets.last());
            targets.len() - 1
        }
    }
}

/// Blocks taken back through one round are blocks.
pub proof fn lemma_reverse_round_blocks(
    inverse: Seq<Seq<u8>>,
    lookup: Seq<Seq<u8>>,
    targets: Seq<Seq<u8>>,
)
    requires
        all_blocks(targets),
    ensures
        all_blocks(reverse_round(inverse, lookup, targets)),
{
    let back = reverse_round(inverse, lookup, targets);
    assert forall|k: int| 0 <= k < back.len() implies (#[trigger] back[k]).len() == 32 by {
        let t = lemma_reverse_round_member(inverse, lookup, targets, k);
        let found = predecessors(inverse, lookup, targets[t]);
        let j = choose|j: int| 0 <= j < found.len() && found[j] == back[k];
        lemma_predecessors_len(inverse, lookup, targets[t], j);
    }
}

/// A predecessor of any of the vectors is among what one round taken back
/// gives.
pub proof fn lemma_reverse_round_contains(
    inverse: Seq<Seq<u8>>,
    lookup: Seq<Seq<u8>>,
    targets: Seq<Seq<u8>>,
    t: int,
    block: Seq<u8>,
)
    requires
        0 <= t < targets.len(),
        predecessors(inverse, lookup, targets[t]).contains(block),
    ensures
        reverse_round(inverse, lookup, targets).contains(block),
    decreases targets.len(),
{
    let front = targets.drop_last();
    assert(front.push(targets.last()) =~= targets);
    lemma_reverse_round_push(inverse, lookup, front, targets.last());
    let before = reverse_round(inverse, lookup, front);
    let all = reverse_round(inverse, lookup, targets);
    if t == targets.len() - 1 {
        let last = predecessors(inverse, lookup, targets.last());
        let j = choose|j: int| 0 <= j < last.len() && last[j] == block;
        assert(all[before.len() + j] == block);
    } else {
        lemma_reverse_round_contains(inverse, lookup, front, t, block);
        let j = choose|j: int| 0 <= j < before.len() && before[j] == block;
        assert(all[j] == block);
    }
}

/// A vector has as many predecessors as the sizes of its bytes' buckets
/// multiply to.
pub proof fn lemma_predecessors_count(inverse: Seq<Seq<u8>>, lookup: Seq<Seq<u8>>, target: Seq<u8>)
    ensures
        predecessors(inverse, lookup, target).len() == count(
            buckets_for(lookup, mat_vec(inverse, target)),
        ),
{
    let buckets = buckets_for(lookup, mat_vec(inverse, target));
    lemma_product_len(buckets);
    if has_empty_bucket(buckets) {
        let p = choose|p: int| 0 <= p < buckets.len() && (#[trigger] buckets[p]).len() == 0;
        lemma_product_of_empty_list(buckets, p);
    }
}

/// With the lookup index of a confusion table, no predecessor comes twice.
pub proof fn lemma_predecessors_distinct(inverse: Seq<Seq<u8>>, confusion: Seq<u8>, target: Seq<u8>)
    ensures
        predecessors(inverse, lookup_index(confusion), target).no_duplicates(),
{
    let index = lookup_index(confusion);
    let preimage = mat_vec(inverse, target);
    let buckets = buckets_for(index, preimage);
    let found = predecessors(inverse, index, target);
    assert forall|p: int| 0 <= p < buckets.len() implies (
    #[trigger] buckets[p]).no_duplicates() by {
        lemma_preimages_ascending(confusion, preimage[p], 256);
    }
    assert forall|j: int, k: int|
        0 <= j < found.len() && 0 <= k < found.len() && j != k implies found[j] != found[k] by {
        lemma_product_distinct(buckets, j, k);
    }
}

/// One round taken back on more vectors gives no less.
pub proof fn lemma_reverse_round_grows(
    inverse: Seq<Seq<u8>>,
    lookup: Seq<Seq<u8>>,
    targets: Seq<Seq<u8>>,
    k: int,
)
    requires
        0 <= k <= targets.len(),
    ensures
        reverse_round(inverse, lookup, targets.take(k)).len() <= reverse_round(
            inverse,
            lookup,
            targets,
        ).len(),
    decreases targets.len() - k,
{
    if k < targets.len() {
        lemma_reverse_round_grows(inverse, lookup, targets, k + 1);
        lemma_reverse_round_push(inverse, lookup, targets.take(k), targets[k]);
        assert(targets.take(k).push(targets[k]) =~= targets.take(k + 1));
    } else {
        assert(targets.take(k) =~= targets);
    }
}

/// Appends the predecessors of `target` to `res`, as long as `res` stays
/// within `limit` vectors; it gives up, and says so, as soon as one more
/// would take it beyond.
fn append_predecessors(
    inverse: &Vec<Vec<u8>>,
    lookup: &Vec<Vec<u8>>,
    target: &Vec<u8>,
    res: &mut Vec<Vec<u8>>,
    limit: Option<usize>,
) -> (done: bool)
    requires
        lookup@.len() >= 256,
        has_bit_corner(rows(inverse@), target@.len()),
        limit matches Some(most) ==> old(res)@.len() <= most,
    ensures
        done ==> rows(final(res)@) == rows(old(res)@) + predecessors(
            rows(inverse@),
            rows(lookup@),
            target@,
        ),
        limit is None ==> done,
        limit matches Some(most) ==> (done <==> old(res)@.len() + predecessors(
            rows(inverse@),
            rows(lookup@),
            target@,
        ).len() <= most),
{
    let ghost index = rows(lookup@);
    let ghost before = rows(res@);
    let preimage = matrix_mult(inverse, target);
    // For each byte of the preimage, the inputs that substitute into it.
    let mut buckets: Vec<Vec<u8>> = Vec::new();
    let mut missing = false;
    let mut p: usize = 0;
    while p < preimage.len()
        invariant
            p <= preimage@.len(),
            index == rows(lookup@),
            lookup@.len() >= 256,
            buckets@.len() == p,
            forall|q: int| 0 <= q < p ==> (#[trigger] buckets@[q])@ == index[preimage@[q] as int],
            missing <==> exists|q: int| 0 <= q < p && (#[trigger] buckets@[q])@.len() == 0,
        decreases preimage@.len() - p,
    {
        let characters = &lookup[preimage[p] as usize];
        if characters.is_empty() {
            missing = true;
        }
        let ghost earlier = buckets@;
        buckets.push(characters.clone());
        proof {
            assert(buckets@[p as int]@ =~= characters@);
            if missing && characters@.len() != 0 {
                let q = choose|q: int| 0 <= q < p && (#[trigger] earlier[q])@.len() == 0;
                assert(buckets@[q]@.len() == 0);
            }
        }
        p += 1;
    }
    proof {
        assert(rows(buckets@) =~= buckets_for(index, preimage@));
        if missing {
            let q = choose|q: int| 0 <= q < buckets@.len() && (#[trigger] buckets@[q])@.len() == 0;
            assert(rows(buckets@)[q].len() == 0);
        } else if has_empty_bucket(rows(buckets@)) {
            let q = choose|q: int|
                0 <= q < rows(buckets@).len() && (#[trigger] rows(buckets@)[q]).len() == 0;
            assert(buckets@[q]@.len() == 0);
        }
        assert(missing <==> has_empty_bucket(rows(buckets@)));
    }
    if missing {
        return true;
    }
    let ghost all = product(rows(buckets@));
    let ghost taken: int = 0;
    let mut possibilities = combinations(&buckets);
    loop
        invariant
            in_range(possibilities, rows(buckets@)),
            all == product(rows(buckets@)),
            all == predecessors(rows(inverse@), rows(lookup@), target@),
            before.len() == old(res)@.len(),
            0 <= taken <= all.len(),
            pending(possibilities, rows(buckets@)) == all.skip(taken),
            rows(res@) == before + all.take(taken),
            res@.len() == before.len() + taken,
            limit matches Some(most) ==> res@.len() <= most,
        ensures
            rows(res@) == before + all,
            limit matches Some(most) ==> res@.len() <= most,
        decreases pending(possibilities, rows(buckets@)).len(),
    {
        match next_combination(&mut possibilities, &buckets) {
            Some(possibility) => {
                if let Some(most) = limit {
                    if res.len() >= most {
                        return false;
                    }
                }
                let ghost so_far = rows(res@);
                res.push(possibility);
                proof {
                    assert(rows(res@) =~= so_far.push(all[taken]));
                    taken = taken + 1;
                }
            },
            None => {
                break ;
            },
        }
    }
    true
}

/// Undoes one round on every vector of `target_vectors`.
///
/// Each vector is multiplied by `inverse`; then every byte of the result is
/// replaced by each input that `lookup` lists for it, in every combination.
/// A vector one of whose bytes has no such input has no predecessor and
/// gives nothing.
pub fn reverse_targets(
    inverse: &Vec<Vec<u8>>,
    lookup: &Vec<Vec<u8>>,
    target_vectors: &Vec<Vec<u8>>,
) -> (res: Vec<Vec<u8>>)
    requires
        lookup@.len() >= 256,
        forall|k: int|
            0 <= k < target_vectors@.len() ==> has_bit_corner(
                rows(inverse@),
                (#[trigger] target_vectors@[k])@.len(),
            ),
    ensures
        rows(res@) == reverse_round(rows(inverse@), rows(lookup@), rows(target_vectors@)),
{
    let ghost inv = rows(inverse@);
    let ghost index = rows(lookup@);
    let ghost targets = rows(target_vectors@);
    let mut res: Vec<Vec<u8>> = Vec::with_capacity(target_vectors.len());
    proof {
        lemma_reverse_round_of_none(inv, index);
    }
    let mut k: usize = 0;
    while k < target_vectors.len()
        invariant
            k <= target_vectors@.len(),
            inv == rows(inverse@),
            index == rows(lookup@),
            targets == rows(target_vectors@),
            lookup@.len() >= 256,
            forall|k: int|
                0 <= k < target_vectors@.len() ==> has_bit_corner(
                    rows(inverse@),
                    (#[trigger] target_vectors@[k])@.len(),
                ),
            rows(res@) == reverse_round(inv, index, targets.take(k as int)),
        decreases target_vectors@.len() - k,
    {
        let target = &target_vectors[k];
        append_predecessors(inverse, lookup, target, &mut res, None);
        proof {
            lemma_reverse_round_push(inv, index, targets.take(k as int), target@);
            assert(targets.take(k as int).push(target@) =~= targets.take(k + 1));
        }
        k += 1;
    }
    assert(targets.take(k as int) =~= targets);
    res
}

/// Undoes one round as `reverse_targets` does, unless that gives more than
/// `most` vectors: then it stops at once and gives `None`.
pub fn reverse_targets_within(
    inverse: &Vec<Vec<u8>>,
    lookup: &Vec<Vec<u8>>,
    target_vectors: &Vec<Vec<u8>>,
    most: usize,
) -> (res: Option<Vec<Vec<u8>>>)
    requires
        lookup@.len() >= 256,
        forall|k: int|
            0 <= k < target_vectors@.len() ==> has_bit_corner(
                rows(inverse@),
                (#[trigger] target_vectors@[k])@.len(),
            ),
    ensures
        res is Some <==> reverse_round(rows(inverse@), rows(lookup@), rows(target_vectors@)).len()
            <= most,
        res matches Some(found) ==> rows(found@) == reverse_round(
            rows(inverse@),
            rows(lookup@),
            rows(target_vectors@),
        ),
{
    let ghost inv = rows(inverse@);
    let ghost index = rows(lookup@);
    let ghost targets = rows(target_vectors@);
    let mut res: Vec<Vec<u8>> = Vec::new();
    proof {
        lemma_reverse_round_of_none(inv, index);
    }
    let mut k: usize = 0;
    while k < target_vectors.len()
        invariant
            k <= target_vectors@.len(),
            inv == rows(inverse@),
            index == rows(lookup@),
            targets == rows(target_vectors@),
            lookup@.len() >= 256,
            forall|k: int|
                0 <= k < target_vectors@.len() ==> has_bit_corner(
                    rows(inverse@),
                    (#[trigger] target_vectors@[k])@.len(),
                ),
            rows(res@) == reverse_round(inv, index, targets.take(k as int)),
            res@.len() <= most,
        decreases target_vectors@.len() - k,
    {
        let target = &target_vectors[k];
        proof {
            lemma_reverse_round_push(inv, index, targets.take(k as int), target@);
            assert(targets.take(k as int).push(target@) =~= targets.take(k + 1));
            lemma_reverse_round_grows(inv, index, targets, k + 1);
        }
        if !append_predecessors(inverse, lookup, target, &mut res, Some(most)) {
            return None;
        }
        k += 1;
    }
    assert(targets.take(k as int) =~= targets);
    Some(res)
}

} // verus!
