//! The cipher run forwards, as the yardstick for the search that runs it
//! backwards.
//!
//! A round substitutes every byte of a block by the first half of the
//! confusion table and multiplies the result by the diffusion matrix. After
//! the rounds the combination stage folds the 32 bytes into 16: bytes `2k`
//! and `2k + 1`, substituted by the first and the second half of the table,
//! are XORed into byte `k`.

use vstd::prelude::*;
use crate::matrix::mat_vec;
use crate::inverse::is_inverse;
use crate::lookup::{lookup_index, lemma_lookup_index};
use crate::product::{lemma_product_picks, lemma_product_complete};
use crate::reversal::{buckets_for, has_empty_bucket, predecessors};

verus! {

/// Every byte of `block` replaced by what the table holds for it.
pub open spec fn substitute(confusion: Seq<u8>, block: Seq<u8>) -> Seq<u8> {
    Seq::new(block.len(), |p: int| confusion[block[p] as int])
}

/// One round: substitution, then diffusion.
pub open spec fn round(matrix: Seq<Seq<u8>>, confusion: Seq<u8>, block: Seq<u8>) -> Seq<u8> {
    mat_vec(matrix, substitute(confusion, block))
}

/// `n` rounds, one after the other.
pub open spec fn rounds(matrix: Seq<Seq<u8>>, confusion: Seq<u8>, block: Seq<u8>, n: nat) -> Seq<u8>
    decreases n,
{
    if n == 0 {
        block
    } else {
        rounds(matrix, confusion, round(matrix, confusion, block), (n - 1) as nat)
    }
}

/// The combination stage: 16 bytes, byte `k` from bytes `2k` and `2k + 1`
/// of the block.
pub open spec fn combine(confusion: Seq<u8>, block: Seq<u8>) -> Seq<u8> {
    Seq::new(
        16,
        |k: int| confusion[block[2 * k] as int] ^ confusion[block[2 * k + 1] as int + 256],
    )
}

/// The cipher: `n` rounds, then the combination stage.
pub open spec fn encrypt(
    matrix: Seq<Seq<u8>>,
    confusion: Seq<u8>,
    block: Seq<u8>,
    n: nat,
) -> Seq<u8> {
    combine(confusion, rounds(matrix, confusion, block, n))
}

/// The predecessors of a block are exactly the blocks that one round maps
/// to it.
pub proof fn lemma_predecessors_are_preimages(
    matrix: Seq<Seq<u8>>,
    inverse: Seq<Seq<u8>>,
    confusion: Seq<u8>,
    target: Seq<u8>,
    block: Seq<u8>,
)
    requires
        is_inverse(inverse, matrix),
        target.len() == 32,
    ensures
        predecessors(inverse, lookup_index(confusion), target).contains(block) <==> {
            &&& block.len() == 32
            &&& round(matrix, confusion, block) == target
        },
{
    let index = lookup_index(confusion);
    let preimage = mat_vec(inverse, target);
    let buckets = buckets_for(index, preimage);
    let found = predecessors(inverse, index, target);
    if found.contains(block) {
        let k = choose|k: int| 0 <= k < found.len() && found[k] == block;
        lemma_product_picks(buckets, k);
        assert forall|p: int| 0 <= p < 32 implies substitute(confusion, block)[p]
            == preimage[p] by {
            assert(buckets[p].contains(block[p]));
            lemma_lookup_index(confusion, preimage[p], block[p]);
        }
        assert(substitute(confusion, block) =~= preimage);
    }
    if block.len() == 32 && round(matrix, confusion, block) == target {
        assert forall|p: int| 0 <= p < 32 implies (#[trigger] buckets[p]).contains(block[p]) by {
            lemma_lookup_index(confusion, preimage[p], block[p]);
        }
        if has_empty_bucket(buckets) {
            let p = choose|p: int| 0 <= p < buckets.len() && (#[trigger] buckets[p]).len() == 0;
            assert(buckets[p].contains(block[p]));
        }
        lemma_product_complete(buckets, block);
    }
}

} // verus!
