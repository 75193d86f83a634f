//! What the search finds, held against the cipher run forwards.

use vstd::prelude::*;
use crate::matrix::matrix_of;
use crate::inverse::{invertible, is_inverse, inverse_of};
use crate::lookup::lookup_index;
use crate::matcher::{stage3_matches, lemma_matches_sound, lemma_matches_complete};
use crate::cipher::{round, rounds, combine, encrypt, lemma_predecessors_are_preimages};
use crate::product::{product, lemma_product_picks, lemma_product_complete};
use crate::reversal::{
    reverse_round, all_blocks, lemma_reverse_round_member, lemma_reverse_round_contains,
    lemma_reverse_round_blocks,
};
use crate::search::{stage3_choices, assemble, reverse_rounds, branch, first_success};

verus! {

/// Blocks taken back through any number of rounds are blocks.
pub proof fn lemma_reverse_rounds_blocks(
    inverse: Seq<Seq<u8>>,
    lookup: Seq<Seq<u8>>,
    candidates: Seq<Seq<u8>>,
    rounds: nat,
)
    requires
        all_blocks(candidates),
    ensures
        all_blocks(reverse_rounds(inverse, lookup, candidates, rounds)),
    decreases rounds,
{
    if rounds > 0 {
        lemma_reverse_rounds_blocks(inverse, lookup, candidates, (rounds - 1) as nat);
        lemma_reverse_round_blocks(
            inverse,
            lookup,
            reverse_rounds(inverse, lookup, candidates, (rounds - 1) as nat),
        );
    }
}

/// What the rounds taken back give are exactly the blocks that the rounds
/// map to one of the candidates.
pub proof fn lemma_reverse_rounds_are_preimages(
    matrix: Seq<Seq<u8>>,
    inverse: Seq<Seq<u8>>,
    confusion: Seq<u8>,
    candidates: Seq<Seq<u8>>,
    n: nat,
    block: Seq<u8>,
)
    requires
        is_inverse(inverse, matrix),
        all_blocks(candidates),
    ensures
        reverse_rounds(inverse, lookup_index(confusion), candidates, n).contains(block) <==> {
            &&& block.len() == 32
            &&& candidates.contains(rounds(matrix, confusion, block, n))
        },
    decreases n,
{
    let index = lookup_index(confusion);
    if n == 0 {
        if candidates.contains(block) {
            let k = choose|k: int| 0 <= k < candidates.len() && candidates[k] == block;
            assert(candidates[k].len() == 32);
        }
    } else {
        let earlier = reverse_rounds(inverse, index, candidates, (n - 1) as nat);
        let back = reverse_round(inverse, index, earlier);
        lemma_reverse_rounds_blocks(inverse, index, candidates, (n - 1) as nat);
        if back.contains(block) {
            let k = choose|k: int| 0 <= k < back.len() && back[k] == block;
            let t = lemma_reverse_round_member(inverse, index, earlier, k);
            lemma_predecessors_are_preimages(matrix, inverse, confusion, earlier[t], block);
            lemma_reverse_rounds_are_preimages(
                matrix,
                inverse,
                confusion,
                candidates,
                (n - 1) as nat,
                earlier[t],
            );
        }
        if block.len() == 32 && candidates.contains(rounds(matrix, confusion, block, n)) {
            let next = round(matrix, confusion, block);
            lemma_reverse_rounds_are_preimages(
                matrix,
                inverse,
                confusion,
                candidates,
                (n - 1) as nat,
                next,
            );
            let t = choose|t: int| 0 <= t < earlier.len() && earlier[t] == next;
            lemma_predecessors_are_preimages(matrix, inverse, confusion, next, block);
            lemma_reverse_round_contains(inverse, index, earlier, t, block);
        }
    }
}

/// The block that a choice of matching pairs stands for combines to the
/// first 16 bytes of the target.
pub proof fn lemma_assembled_block_combines(confusion: Seq<u8>, target: Seq<u8>, k: int)
    requires
        target.len() >= 16,
        0 <= k < product(stage3_choices(confusion, target)).len(),
    ensures
        combine(confusion, assemble(product(stage3_choices(confusion, target))[k])) == target.take(
            16,
        ),
{
    let choices = stage3_choices(confusion, target);
    let pairs = product(choices)[k];
    let block = assemble(pairs);
    lemma_product_picks(choices, k);
    assert forall|q: int| 0 <= q < 16 implies combine(confusion, block)[q] == target[q] by {
        assert(choices[q].contains(pairs[q]));
        let matches = stage3_matches(confusion, target[q]);
        let n = choose|n: int| 0 <= n < matches.len() && matches[n] == pairs[q];
        lemma_matches_sound(confusion, target[q], 65536);
        assert(block[2 * q] == matches[n].0 && block[2 * q + 1] == matches[n].1);
    }
}

/// What the search gives is empty or is what one of the branches gives.
pub proof fn lemma_first_success_is_a_branch(
    inverse: Seq<Seq<u8>>,
    lookup: Seq<Seq<u8>>,
    branches: Seq<Seq<(usize, usize)>>,
    n: nat,
) -> (k: int)
    requires
        first_success(inverse, lookup, branches, n).len() > 0,
    ensures
        0 <= k < branches.len(),
        first_success(inverse, lookup, branches, n) == branch(inverse, lookup, branches[k], n),
        forall|j: int| 0 <= j < k ==> branch(inverse, lookup, #[trigger] branches[j], n).len() == 0,
    decreases branches.len(),
{
    if branch(inverse, lookup, branches.first(), n).len() > 0 {
        0
    } else {
        let k = lemma_first_success_is_a_branch(inverse, lookup, branches.skip(1), n);
        assert forall|j: int| 0 <= j < k + 1 implies branch(
            inverse,
            lookup,
            #[trigger] branches[j],
            n,
        ).len() == 0 by {
            if j > 0 {
                assert(branches.skip(1)[j - 1] == branches[j]);
            }
        }
        k + 1
    }
}

/// Every block that the search finds is one that the cipher maps to the
/// first 16 bytes of the target.
pub proof fn lemma_found_blocks_encrypt_to_target(
    target: Seq<u8>,
    diffusion: Seq<u32>,
    confusion: Seq<u8>,
    n: nat,
    block: Seq<u8>,
)
    requires
        target.len() == 32,
        invertible(matrix_of(diffusion)),
        first_success(
            inverse_of(matrix_of(diffusion)),
            lookup_index(confusion),
            product(stage3_choices(confusion, target)),
            n,
        ).contains(block),
    ensures
        block.len() == 32,
        encrypt(matrix_of(diffusion), confusion, block, n) == target.take(16),
{
    let matrix = matrix_of(diffusion);
    let inverse = inverse_of(matrix);
    let index = lookup_index(confusion);
    let branches = product(stage3_choices(confusion, target));
    let k = lemma_first_success_is_a_branch(inverse, index, branches, n);
    let start = seq![assemble(branches[k])];
    lemma_reverse_rounds_are_preimages(matrix, inverse, confusion, start, n, block);
    let j = choose|j: int| 0 <= j < start.len() && start[j] == rounds(matrix, confusion, block, n);
    assert(rounds(matrix, confusion, block, n) == assemble(branches[k]));
    lemma_assembled_block_combines(confusion, target, k);
}

/// Rounds keep the length of a block.
pub proof fn lemma_rounds_len(matrix: Seq<Seq<u8>>, confusion: Seq<u8>, block: Seq<u8>, n: nat)
    ensures
        rounds(matrix, confusion, block, n).len() == block.len(),
    decreases n,
{
    if n > 0 {
        lemma_rounds_len(matrix, confusion, round(matrix, confusion, block), (n - 1) as nat);
    }
}

/// The pairs of neighbouring bytes of a block.
pub open spec fn pairs_of(block: Seq<u8>) -> Seq<(usize, usize)> {
    Seq::new(16, |k: int| (block[2 * k] as usize, block[2 * k + 1] as usize))
}

/// Every block that the cipher maps to the first 16 bytes of the target is
/// among what one of the branches gives: the branches together miss no
/// preimage.
pub proof fn lemma_every_preimage_is_in_a_branch(
    target: Seq<u8>,
    diffusion: Seq<u32>,
    confusion: Seq<u8>,
    n: nat,
    block: Seq<u8>,
) -> (k: int)
    requires
        target.len() == 32,
        invertible(matrix_of(diffusion)),
        block.len() == 32,
        encrypt(matrix_of(diffusion), confusion, block, n) == target.take(16),
    ensures
        0 <= k < product(stage3_choices(confusion, target)).len(),
        branch(
            inverse_of(matrix_of(diffusion)),
            lookup_index(confusion),
            product(stage3_choices(confusion, target))[k],
            n,
        ).contains(block),
{
    let matrix = matrix_of(diffusion);
    let inverse = inverse_of(matrix);
    let choices = stage3_choices(confusion, target);
    let last = rounds(matrix, confusion, block, n);
    let pairs = pairs_of(last);
    lemma_rounds_len(matrix, confusion, block, n);
    assert forall|q: int| 0 <= q < choices.len() implies (#[trigger] choices[q]).contains(
        pairs[q],
    ) by {
        assert(combine(confusion, last)[q] == target.take(16)[q]);
        lemma_matches_complete(
            confusion,
            target[q],
            65536,
            last[2 * q] as int,
            last[2 * q + 1] as int,
        );
    }
    lemma_product_complete(choices, pairs);
    let k = choose|k: int| 0 <= k < product(choices).len() && product(choices)[k] == pairs;
    let start = seq![assemble(pairs)];
    assert(start[0] == last);
    lemma_reverse_rounds_are_preimages(matrix, inverse, confusion, start, n, block);
    k
}

/// Where the search finds nothing, no branch gives anything.
pub proof fn lemma_no_success_no_branch(
    inverse: Seq<Seq<u8>>,
    lookup: Seq<Seq<u8>>,
    branches: Seq<Seq<(usize, usize)>>,
    n: nat,
    k: int,
)
    requires
        first_success(inverse, lookup, branches, n).len() == 0,
        0 <= k < branches.len(),
    ensures
        branch(inverse, lookup, branches[k], n).len() == 0,
    decreases branches.len(),
{
    if k > 0 {
        lemma_no_success_no_branch(inverse, lookup, branches.skip(1), n, k - 1);
    }
}

/// The search finds nothing exactly where there is nothing to find: its
/// result is empty if and only if no block of 32 bytes is mapped by the
/// cipher to the first 16 bytes of the target.
pub proof fn lemma_empty_result_means_no_preimage(
    target: Seq<u8>,
    diffusion: Seq<u32>,
    confusion: Seq<u8>,
    n: nat,
)
    requires
        target.len() == 32,
        invertible(matrix_of(diffusion)),
    ensures
        first_success(
            inverse_of(matrix_of(diffusion)),
            lookup_index(confusion),
            product(stage3_choices(confusion, target)),
            n,
        ).len() == 0 <==> forall|block: Seq<u8>|
            block.len() == 32 ==> #[trigger] encrypt(matrix_of(diffusion), confusion, block, n)
                != target.take(16),
{
    let matrix = matrix_of(diffusion);
    let inverse = inverse_of(matrix);
    let index = lookup_index(confusion);
    let branches = product(stage3_choices(confusion, target));
    let found = first_success(inverse, index, branches, n);
    if found.len() == 0 {
        assert forall|block: Seq<u8>| block.len() == 32 implies #[trigger] encrypt(
            matrix,
            confusion,
            block,
            n,
        ) != target.take(16) by {
            if encrypt(matrix, confusion, block, n) == target.take(16) {
                let k = lemma_every_preimage_is_in_a_branch(target, diffusion, confusion, n, block);
                lemma_no_success_no_branch(inverse, index, branches, n, k);
            }
        }
    } else {
        lemma_found_blocks_encrypt_to_target(target, diffusion, confusion, n, found[0]);
    }
}

} // verus!
