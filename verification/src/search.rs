//! The search for an input block that the cipher maps to a given target.

use vstd::prelude::*;
use crate::matrix::{rows, matrix_of, is_bit_matrix, has_bit_corner, compute_matrix};
use crate::inverse::{invertible, inverse_of, compute_inverse, try_inverse, lemma_inverse_of};
use crate::lookup::{lookup_index, build_lookup_table};
use crate::matcher::{stage3_matches, xor_match};
use crate::product::{
    product, pending, in_range, combinations, next_combination, lemma_product_picks,
    lemma_product_of_empty_list,
};
use crate::reversal::{
    reverse_round, all_blocks, reverse_targets, reverse_targets_within, lemma_reverse_round_blocks,
};

verus! {

/// For each of the 16 bytes that the combination stage gives, the pairs of
/// bytes that combine to it.
pub open spec fn stage3_choices(confusion: Seq<u8>, target: Seq<u8>) -> Seq<Seq<(usize, usize)>> {
    Seq::new(16, |k: int| stage3_matches(confusion, target[k]))
}

/// The block of 32 bytes that 16 pairs stand for: pair `k` gives bytes `2k`
/// and `2k + 1`.
pub open spec fn assemble(pairs: Seq<(usize, usize)>) -> Seq<u8> {
    Seq::new(32, |p: int| if p % 2 == 0 { pairs[p / 2].0 as u8 } else { pairs[p / 2].1 as u8 })
}

/// `candidates` taken back through `rounds` rounds.
pub open spec fn reverse_rounds(
    inverse: Seq<Seq<u8>>,
    lookup: Seq<Seq<u8>>,
    candidates: Seq<Seq<u8>>,
    rounds: nat,
) -> Seq<Seq<u8>>
    decreases rounds,
{
    if rounds == 0 {
        candidates
    } else {
        reverse_round(
            inverse,
            lookup,
            reverse_rounds(inverse, lookup, candidates, (rounds - 1) as nat),
        )
    }
}

/// What one branch of the search gives: the block that the pairs stand for,
/// taken back through `rounds` rounds.
pub open spec fn branch(
    inverse: Seq<Seq<u8>>,
    lookup: Seq<Seq<u8>>,
    pairs: Seq<(usize, usize)>,
    rounds: nat,
) -> Seq<Seq<u8>> {
    reverse_rounds(inverse, lookup, seq![assemble(pairs)], rounds)
}

/// What the first branch that gives anything gives, and nothing where no
/// branch gives anything.
pub open spec fn first_success(
    inverse: Seq<Seq<u8>>,
    lookup: Seq<Seq<u8>>,
    branches: Seq<Seq<(usize, usize)>>,
    rounds: nat,
) -> Seq<Seq<u8>>
    decreases branches.len(),
{
    if branches.len() == 0 {
        Seq::empty()
    } else if branch(inverse, lookup, branches.first(), rounds).len() > 0 {
        branch(inverse, lookup, branches.first(), rounds)
    } else {
        first_success(inverse, lookup, branches.skip(1), rounds)
    }
}

/// How far a search may go.
#[derive(Clone, Copy, Debug)]
pub struct Budget {
    /// The number of branches that may be tried.
    pub max_branches: usize,
    /// The number of blocks that a round taken back may leave.
    pub max_candidates: usize,
}

/// Why a search gave no result.
#[derive(Clone, Copy, Debug, PartialEq, Eq, Structural)]
pub enum SearchError {
    /// The diffusion matrix has no inverse.
    SingularDiffusion,
    /// The search would have gone beyond its budget.
    BudgetExceeded,
}

/// Taken back through each of the rounds, the branch leaves no more than
/// `most` blocks.
pub open spec fn branch_within(
    inverse: Seq<Seq<u8>>,
    lookup: Seq<Seq<u8>>,
    pairs: Seq<(usize, usize)>,
    rounds: nat,
    most: nat,
) -> bool {
    forall|r: nat|
        1 <= r <= rounds ==> (#[trigger] reverse_rounds(
            inverse,
            lookup,
            seq![assemble(pairs)],
            r,
        )).len() <= most
}

/// The search, run to its end, tries no more than `max_branches` branches,
/// and none of them leaves more than `most` blocks after any round.
pub open spec fn affordable(
    inverse: Seq<Seq<u8>>,
    lookup: Seq<Seq<u8>>,
    branches: Seq<Seq<(usize, usize)>>,
    rounds: nat,
    max_branches: nat,
    most: nat,
) -> bool
    decreases branches.len(),
{
    ||| branches.len() == 0
    ||| {
        &&& max_branches > 0
        &&& branch_within(inverse, lookup, branches.first(), rounds, most)
        &&& {
            ||| branch(inverse, lookup, branches.first(), rounds).len() > 0
            ||| affordable(
                inverse,
                lookup,
                branches.skip(1),
                rounds,
                (max_branches - 1) as nat,
                most,
            )
        }
    }
}

/// Where a target byte has no pair that combines to it, the search finds
/// nothing.
pub proof fn lemma_no_match_no_result(
    inverse: Seq<Seq<u8>>,
    confusion: Seq<u8>,
    target: Seq<u8>,
    rounds: nat,
    k: int,
)
    requires
        0 <= k < 16,
        stage3_matches(confusion, target[k]).len() == 0,
    ensures
        first_success(
            inverse,
            lookup_index(confusion),
            product(stage3_choices(confusion, target)),
            rounds,
        ).len() == 0,
{
    lemma_product_of_empty_list(stage3_choices(confusion, target), k);
}

/// Builds the block that 16 pairs of bytes stand for.
fn assemble_block(pairs: &Vec<(usize, usize)>) -> (res: Vec<u8>)
    requires
        pairs@.len() == 16,
        forall|k: int| 0 <= k < 16 ==> (#[trigger] pairs@[k]).0 < 256 && pairs@[k].1 < 256,
    ensures
        res@ == assemble(pairs@),
{
    let mut res: Vec<u8> = Vec::new();
    let mut k: usize = 0;
    while k < 16
        invariant
            k <= 16,
            pairs@.len() == 16,
            forall|k: int| 0 <= k < 16 ==> (#[trigger] pairs@[k]).0 < 256 && pairs@[k].1 < 256,
            res@.len() == 2 * k,
            forall|p: int| 0 <= p < 2 * k ==> #[trigger] res@[p] == assemble(pairs@)[p],
        decreases 16 - k,
    {
        let (i, j) = pairs[k];
        res.push(i as u8);
        res.push(j as u8);
        k += 1;
    }
    res
}

/// Takes the block that `pairs` stand for back through `rounds` rounds.
/// `None` says that a round left more blocks than `budget` allows.
fn run_branch(
    pairs: &Vec<(usize, usize)>,
    inv: &Vec<Vec<u8>>,
    lookup: &Vec<Vec<u8>>,
    rounds: usize,
    budget: Option<Budget>,
) -> (res: Option<Vec<Vec<u8>>>)
    requires
        pairs@.len() == 16,
        forall|k: int| 0 <= k < 16 ==> (#[trigger] pairs@[k]).0 < 256 && pairs@[k].1 < 256,
        is_bit_matrix(rows(inv@), 32),
        lookup@.len() == 256,
    ensures
        res matches Some(left) ==> rows(left@) == branch(
            rows(inv@),
            rows(lookup@),
            pairs@,
            rounds as nat,
        ),
        budget is None ==> res is Some,
        budget matches Some(limits) ==> (res is Some <==> branch_within(
            rows(inv@),
            rows(lookup@),
            pairs@,
            rounds as nat,
            limits.max_candidates as nat,
        )),
{
    let ghost inverse = rows(inv@);
    let ghost index = rows(lookup@);
    let ghost start = seq![assemble(pairs@)];
    let possibility_vec = assemble_block(pairs);
    let mut target_vectors: Vec<Vec<u8>> = Vec::new();
    target_vectors.push(possibility_vec);
    let mut round: usize = 0;
    while round < rounds
        invariant
            round <= rounds,
            inverse == rows(inv@),
            index == rows(lookup@),
            start == seq![assemble(pairs@)],
            is_bit_matrix(inverse, 32),
            lookup@.len() == 256,
            all_blocks(rows(target_vectors@)),
            rows(target_vectors@) == reverse_rounds(inverse, index, start, round as nat),
            budget matches Some(limits) ==> forall|r: nat|
                1 <= r <= round ==> (#[trigger] reverse_rounds(inverse, index, start, r)).len()
                    <= limits.max_candidates,
        decreases rounds - round,
    {
        assert forall|n: int| 0 <= n < target_vectors@.len() implies has_bit_corner(
            rows(inv@),
            (#[trigger] target_vectors@[n])@.len(),
        ) by {
            assert(rows(target_vectors@)[n].len() == 32);
        }
        proof {
            lemma_reverse_round_blocks(inverse, index, rows(target_vectors@));
        }
        match budget {
            None => {
                target_vectors = reverse_targets(inv, lookup, &target_vectors);
            },
            Some(limits) => {
                match reverse_targets_within(inv, lookup, &target_vectors, limits.max_candidates) {
                    Some(earlier) => {
                        target_vectors = earlier;
                    },
                    None => {
                        assert(reverse_rounds(inverse, index, start, (round + 1) as nat).len()
                            > limits.max_candidates);
                        return None;
                    },
                }
            },
        }
        round += 1;
    }
    Some(target_vectors)
}

/// Tries the branches in order until one leaves a block, within `budget`
/// where there is one. `None` says that the budget did not suffice.
fn search_branches(
    target: &[u8; 32],
    inv: &Vec<Vec<u8>>,
    lookup: &Vec<Vec<u8>>,
    confusion: &[u8; 512],
    rounds: usize,
    budget: Option<Budget>,
) -> (res: Option<Vec<Vec<u8>>>)
    requires
        is_bit_matrix(rows(inv@), 32),
        lookup@.len() == 256,
    ensures
        res matches Some(found) ==> rows(found@) == first_success(
            rows(inv@),
            rows(lookup@),
            product(stage3_choices(confusion@, target@)),
            rounds as nat,
        ),
        budget is None ==> res is Some,
        budget matches Some(limits) ==> (res is Some <==> affordable(
            rows(inv@),
            rows(lookup@),
            product(stage3_choices(confusion@, target@)),
            rounds as nat,
            limits.max_branches as nat,
            limits.max_candidates as nat,
        )),
{
    let ghost inverse = rows(inv@);
    let ghost index = rows(lookup@);

    // Undo the combination stage: the pairs of bytes behind each target byte.
    let mut final_possibilities: Vec<Vec<(usize, usize)>> = Vec::new();
    let mut k: usize = 0;
    while k < 16
        invariant
            k <= 16,
            final_possibilities@.len() == k,
            forall|q: int|
                0 <= q < k ==> (#[trigger] final_possibilities@[q])@ == stage3_matches(
                    confusion@,
                    target@[q],
                ),
            forall|q: int, n: int|
                0 <= q < k && 0 <= n < final_possibilities@[q]@.len() ==> {
                    &&& (#[trigger] final_possibilities@[q]@[n]).0 < 256
                    &&& final_possibilities@[q]@[n].1 < 256
                },
        decreases 16 - k,
    {
        let matches = xor_match(confusion, target[k]);
        final_possibilities.push(matches);
        k += 1;
    }
    let ghost choices = rows(final_possibilities@);
    let ghost branches = product(choices);
    assert(branches.skip(0) =~= branches);

    // Try every choice of one pair for each target byte.
    let mut possibilities = combinations(&final_possibilities);
    let ghost tried: int = 0;
    let mut spent: usize = 0;
    loop
        invariant
            in_range(possibilities, choices),
            choices == rows(final_possibilities@),
            choices == stage3_choices(confusion@, target@),
            choices.len() == 16,
            forall|q: int, n: int|
                0 <= q < 16 && 0 <= n < choices[q].len() ==> (#[trigger] choices[q][n]).0 < 256
                    && choices[q][n].1 < 256,
            branches == product(choices),
            inverse == rows(inv@),
            index == rows(lookup@),
            is_bit_matrix(inverse, 32),
            lookup@.len() == 256,
            0 <= tried <= branches.len(),
            pending(possibilities, choices) == branches.skip(tried),
            first_success(inverse, index, branches, rounds as nat) == first_success(
                inverse,
                index,
                branches.skip(tried),
                rounds as nat,
            ),
            budget matches Some(limits) ==> spent == tried && spent <= limits.max_branches
                && affordable(
                inverse,
                index,
                branches,
                rounds as nat,
                limits.max_branches as nat,
                limits.max_candidates as nat,
            ) == affordable(
                inverse,
                index,
                branches.skip(tried),
                rounds as nat,
                (limits.max_branches - spent) as nat,
                limits.max_candidates as nat,
            ),
        ensures
            first_success(inverse, index, branches, rounds as nat).len() == 0,
            budget matches Some(limits) ==> affordable(
                inverse,
                index,
                branches,
                rounds as nat,
                limits.max_branches as nat,
                limits.max_candidates as nat,
            ),
        decreases pending(possibilities, choices).len(),
    {
        match next_combination(&mut possibilities, &final_possibilities) {
            Some(possibility) => {
                proof {
                    lemma_product_picks(choices, tried);
                    assert(branches.skip(tried).skip(1) =~= branches.skip(tried + 1));
                }
                if let Some(limits) = budget {
                    if spent >= limits.max_branches {
                        return None;
                    }
                    spent += 1;
                }
                let target_vectors = match run_branch(&possibility, inv, lookup, rounds, budget) {
                    Some(left) => left,
                    None => {
                        return None;
                    },
                };
                // A branch that leaves a block ends the search.
                if !target_vectors.is_empty() {
                    return Some(target_vectors);
                }
                proof {
                    tried = tried + 1;
                }
            },
            None => {
                break ;
            },
        }
    }
    let res: Vec<Vec<u8>> = Vec::new();
    Some(res)
}

/// Searches for input blocks that the cipher maps to `target` in `rounds`
/// rounds.
///
/// The combination stage is undone first: for each of the first 16 bytes of
/// `target`, every pair of bytes that combines to it. Each choice of 16
/// pairs, one for every byte, is a branch, and the branches are tried in
/// lexicographic order. A branch takes the block that its pairs stand for
/// back through `rounds` rounds. The first branch that leaves any block
/// ends the search with all the blocks it leaves; where no branch leaves
/// one, the result is empty.
///
/// The diffusion matrix must be invertible: `try_crack` is for a caller who
/// does not know that it is. Nothing bounds the work: `crack_within` does.
pub fn crack(
    target: &[u8; 32],
    diffusion: &[u32; 32],
    confusion: &[u8; 512],
    rounds: usize,
) -> (res: Vec<Vec<u8>>)
    requires
        invertible(matrix_of(diffusion@)),
    ensures
        rows(res@) == first_success(
            inverse_of(matrix_of(diffusion@)),
            lookup_index(confusion@),
            product(stage3_choices(confusion@, target@)),
            rounds as nat,
        ),
        (exists|k: int| 0 <= k < 16 && stage3_matches(confusion@, #[trigger] target@[k]).len() == 0)
            ==> res@.len() == 0,
{
    let matrix = compute_matrix(diffusion);
    let inv = compute_inverse(&matrix);
    let lookup = build_lookup_table(confusion);
    let res = search_branches(target, &inv, &lookup, confusion, rounds, None).unwrap();
    proof {
        if exists|k: int|
            0 <= k < 16 && stage3_matches(confusion@, #[trigger] target@[k]).len() == 0 {
            let k = choose|k: int|
                0 <= k < 16 && stage3_matches(confusion@, #[trigger] target@[k]).len() == 0;
            lemma_no_match_no_result(rows(inv@), confusion@, target@, rounds as nat, k);
        }
    }
    res
}

/// Searches as `crack` does where the diffusion matrix is invertible, and
/// says so where it is not.
pub fn try_crack(
    target: &[u8; 32],
    diffusion: &[u32; 32],
    confusion: &[u8; 512],
    rounds: usize,
) -> (res: Option<Vec<Vec<u8>>>)
    ensures
        res is Some <==> invertible(matrix_of(diffusion@)),
        res matches Some(found) ==> rows(found@) == first_success(
            inverse_of(matrix_of(diffusion@)),
            lookup_index(confusion@),
            product(stage3_choices(confusion@, target@)),
            rounds as nat,
        ),
{
    let matrix = compute_matrix(diffusion);
    match try_inverse(&matrix) {
        None => None,
        Some(inv) => {
            proof {
                lemma_inverse_of(rows(inv@), rows(matrix@));
            }
            let lookup = build_lookup_table(confusion);
            search_branches(target, &inv, &lookup, confusion, rounds, None)
        },
    }
}

/// Searches as `crack` does, but gives up rather than go beyond `budget`.
///
/// The result is that of `crack` whenever the search, run to its end, keeps
/// within the budget: it never differs from it. It is
/// `Err(SearchError::BudgetExceeded)` as soon as the search would try one
/// branch more than `budget.max_branches`, or a round taken back would leave
/// more than `budget.max_candidates` blocks; and
/// `Err(SearchError::SingularDiffusion)` where the diffusion matrix has no
/// inverse.
pub fn crack_within(
    target: &[u8; 32],
    diffusion: &[u32; 32],
    confusion: &[u8; 512],
    rounds: usize,
    budget: Budget,
) -> (res: Result<Vec<Vec<u8>>, SearchError>)
    ensures
        match res {
            Ok(found) => {
                &&& invertible(matrix_of(diffusion@))
                &&& affordable(
                    inverse_of(matrix_of(diffusion@)),
                    lookup_index(confusion@),
                    product(stage3_choices(confusion@, target@)),
                    rounds as nat,
                    budget.max_branches as nat,
                    budget.max_candidates as nat,
                )
                &&& rows(found@) == first_success(
                    inverse_of(matrix_of(diffusion@)),
                    lookup_index(confusion@),
                    product(stage3_choices(confusion@, target@)),
                    rounds as nat,
                )
            },
            Err(SearchError::SingularDiffusion) => !invertible(matrix_of(diffusion@)),
            Err(SearchError::BudgetExceeded) => {
                &&& invertible(matrix_of(diffusion@))
                &&& !affordable(
                    inverse_of(matrix_of(diffusion@)),
                    lookup_index(confusion@),
                    product(stage3_choices(confusion@, target@)),
                    rounds as nat,
                    budget.max_branches as nat,
                    budget.max_candidates as nat,
                )
            },
        },
{
    let matrix = compute_matrix(diffusion);
    match try_inverse(&matrix) {
        None => Err(SearchError::SingularDiffusion),
        Some(inv) => {
            proof {
                lemma_inverse_of(rows(inv@), rows(matrix@));
            }
            let lookup = build_lookup_table(confusion);
            match search_branches(target, &inv, &lookup, confusion, rounds, Some(budget)) {
                Some(found) => Ok(found),
                None => Err(SearchError::BudgetExceeded),
            }
        },
    }
}

} // verus!
