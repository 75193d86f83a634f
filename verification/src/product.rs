//! Cartesian products of lists of choices, enumerated one combination at a
//! time.
//!
//! The enumeration itself is `itertools`' `MultiProduct`, run on the
//! positions of the items rather than on the items. What it yields is stated
//! here as `product`, and what a half-consumed enumeration still has to
//! yield is named by `remaining`.

use vstd::prelude::*;
use vstd::arithmetic::div_mod::{
    lemma_fundamental_div_mod, lemma_fundamental_div_mod_converse, lemma_multiply_divide_lt,
};
use vstd::arithmetic::mul::lemma_mul_is_commutative;
use itertools::Itertools;
use itertools::structs::MultiProduct;
use std::vec::IntoIter;
use crate::matrix::rows;

verus! {

/// Every prefix followed by every item: the prefixes in their order, and
/// for each prefix the items in theirs.
pub open spec fn extend<T>(prefixes: Seq<Seq<T>>, items: Seq<T>) -> Seq<Seq<T>> {
    Seq::new(
        prefixes.len() * items.len(),
        |k: int| prefixes[k / (items.len() as int)].push(items[k % (items.len() as int)]),
    )
}

/// All the ways to pick one item from each list of `choices`, in
/// lexicographic order of the positions picked, the last list varying
/// fastest. Of no lists there is one way, the empty one; where a list is
/// empty there is none.
pub open spec fn product<T>(choices: Seq<Seq<T>>) -> Seq<Seq<T>>
    decreases choices.len(),
{
    if choices.len() == 0 {
        seq![Seq::empty()]
    } else {
        extend(product(choices.drop_last()), choices.last())
    }
}

/// The positions of a list of `n` items, in order.
pub open spec fn positions(n: nat) -> Seq<usize> {
    Seq::new(n, |i: int| i as usize)
}

/// For each list, its positions.
pub open spec fn index_lists<T>(lists: Seq<Seq<T>>) -> Seq<Seq<usize>> {
    Seq::new(lists.len(), |p: int| positions(lists[p].len()))
}

/// The items that a combination of positions picks, one from each list.
pub open spec fn pick<T>(lists: Seq<Seq<T>>, at: Seq<usize>) -> Seq<T> {
    Seq::new(at.len(), |p: int| lists[p][at[p] as int])
}

/// `itertools::structs::MultiProduct`, the enumeration that
/// `multi_cartesian_product` returns. Nothing is known of a value but what
/// the functions below say.
#[verifier::external_type_specification]
#[verifier::external_body]
#[verifier::reject_recursive_types(I)]
pub struct ExMultiProduct<I>(MultiProduct<I>) where I: Iterator + Clone, I::Item: Clone;

/// The combinations that an enumeration has not yielded yet, in the order
/// in which it will yield them.
pub uninterp spec fn remaining(it: MultiProduct<IntoIter<usize>>) -> Seq<Seq<usize>>;

/// `Itertools::multi_cartesian_product` on lists of integers. A fresh
/// enumeration has the whole product before it: one combination for every
/// way to pick an item from each list, the last list advancing first, a
/// single empty combination where there are no lists, and none where a list
/// is empty.
#[verifier::external_body]
fn index_product(choices: Vec<Vec<usize>>) -> (it: MultiProduct<IntoIter<usize>>)
    ensures
        remaining(it) == product(rows(choices@)),
{
    choices.into_iter().multi_cartesian_product()
}

/// `Iterator::next` of `MultiProduct`: it yields the first combination that
/// remained and leaves the others, or yields nothing when none remained,
/// and then none remains ever after.
#[verifier::external_body]
fn next_indices(it: &mut MultiProduct<IntoIter<usize>>) -> (r: Option<Vec<usize>>)
    ensures
        match r {
            Some(v) => remaining(*old(it)).len() > 0 && v@ == remaining(*old(it))[0] && remaining(
                *final(it),
            ) == remaining(*old(it)).skip(1),
            None => remaining(*old(it)).len() == 0 && remaining(*final(it)).len() == 0,
        },
{
    it.next()
}

/// The combinations of items of `lists` that an enumeration of positions
/// has not yielded yet.
pub open spec fn pending<T>(it: MultiProduct<IntoIter<usize>>, lists: Seq<Seq<T>>) -> Seq<Seq<T>> {
    remaining(it).map_values(|at: Seq<usize>| pick(lists, at))
}

/// Every combination of positions still to come has one position for each
/// list, and each position is one of its list.
pub open spec fn in_range<T>(it: MultiProduct<IntoIter<usize>>, lists: Seq<Seq<T>>) -> bool {
    forall|k: int|
        0 <= k < remaining(it).len() ==> {
            &&& (#[trigger] remaining(it)[k]).len() == lists.len()
            &&& forall|p: int|
                0 <= p < lists.len() ==> (#[trigger] remaining(it)[k][p]) < lists[p].len()
        }
}

/// Starts the enumeration of the product of `lists`.
pub(crate) fn combinations<T>(lists: &Vec<Vec<T>>) -> (it: MultiProduct<IntoIter<usize>>)
    ensures
        pending(it, rows(lists@)) == product(rows(lists@)),
        in_range(it, rows(lists@)),
{
    let mut choices: Vec<Vec<usize>> = Vec::new();
    let mut p: usize = 0;
    while p < lists.len()
        invariant
            p <= lists@.len(),
            choices@.len() == p,
            forall|q: int| 0 <= q < p ==> (#[trigger] choices@[q])@ == positions(lists@[q]@.len()),
        decreases lists@.len() - p,
    {
        let n = lists[p].len();
        let mut list: Vec<usize> = Vec::new();
        let mut i: usize = 0;
        while i < n
            invariant
                i <= n,
                list@.len() == i,
                forall|k: int| 0 <= k < i ==> #[trigger] list@[k] == k,
            decreases n - i,
        {
            list.push(i);
            i += 1;
        }
        choices.push(list);
        p += 1;
    }
    assert(rows(choices@) =~= index_lists(rows(lists@)));
    let it = index_product(choices);
    proof {
        assert forall|q: int| 0 <= q < rows(lists@).len() implies (#[trigger] rows(lists@)[q]).len()
            <= usize::MAX by {
            assert(rows(lists@)[q].len() == lists@[q].len());
        }
        lemma_product_by_index(rows(lists@));
        assert forall|k: int| 0 <= k < remaining(it).len() implies {
            &&& (#[trigger] remaining(it)[k]).len() == rows(lists@).len()
            &&& forall|p: int|
                0 <= p < rows(lists@).len() ==> (#[trigger] remaining(it)[k][p]) < rows(
                    lists@,
                )[p].len()
        } by {
            lemma_index_product_in_range(rows(lists@), k);
        }
    }
    it
}

/// The next combination of items of `lists`, if one remains.
pub(crate) fn next_combination<T: Copy>(
    it: &mut MultiProduct<IntoIter<usize>>,
    lists: &Vec<Vec<T>>,
) -> (r: Option<Vec<T>>)
    requires
        in_range(*old(it), rows(lists@)),
    ensures
        in_range(*final(it), rows(lists@)),
        match r {
            Some(v) => {
                &&& pending(*old(it), rows(lists@)).len() > 0
                &&& v@ == pending(*old(it), rows(lists@))[0]
                &&& pending(*final(it), rows(lists@)) == pending(*old(it), rows(lists@)).skip(1)
            },
            None => {
                &&& pending(*old(it), rows(lists@)).len() == 0
                &&& pending(*final(it), rows(lists@)).len() == 0
            },
        },
{
    match next_indices(it) {
        None => None,
        Some(at) => {
            let mut v: Vec<T> = Vec::new();
            let mut p: usize = 0;
            while p < at.len()
                invariant
                    p <= at@.len(),
                    at@.len() == lists@.len(),
                    forall|q: int| 0 <= q < lists@.len() ==> (#[trigger] at@[q]) < lists@[q]@.len(),
                    v@.len() == p,
                    forall|q: int| 0 <= q < p ==> #[trigger] v@[q] == lists@[q]@[at@[q] as int],
                decreases at@.len() - p,
            {
                v.push(lists[p][at[p]]);
                p += 1;
            }
            Some(v)
        },
    }
}

/// Positions stay in range: every combination of positions has one
/// position for each list, within that list.
pub proof fn lemma_index_product_in_range<T>(lists: Seq<Seq<T>>, k: int)
    requires
        forall|p: int| 0 <= p < lists.len() ==> (#[trigger] lists[p]).len() <= usize::MAX,
        0 <= k < product(index_lists(lists)).len(),
    ensures
        product(index_lists(lists))[k].len() == lists.len(),
        forall|p: int|
            0 <= p < lists.len() ==> (#[trigger] product(index_lists(lists))[k][p])
                < lists[p].len(),
{
    let at = product(index_lists(lists))[k];
    lemma_product_picks(index_lists(lists), k);
    assert forall|p: int| 0 <= p < lists.len() implies (#[trigger] at[p]) < lists[p].len() by {
        assert(index_lists(lists)[p].contains(at[p]));
    }
}

/// The product of lists of items is the product of their positions, each
/// combination of positions replaced by the items that it picks.
pub proof fn lemma_product_by_index<T>(lists: Seq<Seq<T>>)
    requires
        forall|p: int| 0 <= p < lists.len() ==> (#[trigger] lists[p]).len() <= usize::MAX,
    ensures
        product(index_lists(lists)).len() == product(lists).len(),
        forall|k: int|
            0 <= k < product(lists).len() ==> pick(lists, #[trigger] product(index_lists(lists))[k])
                == product(lists)[k],
    decreases lists.len(),
{
    if lists.len() > 0 {
        let front = lists.drop_last();
        let items = lists.last();
        let n = items.len() as int;
        lemma_product_by_index(front);
        assert(index_lists(lists).drop_last() =~= index_lists(front));
        let by_index = product(index_lists(front));
        assert forall|k: int| 0 <= k < product(lists).len() implies pick(
            lists,
            #[trigger] product(index_lists(lists))[k],
        ) == product(lists)[k] by {
            lemma_extend_index(product(front), items, k);
            lemma_extend_index(by_index, positions(items.len()), k);
            let q = k / n;
            lemma_index_product_in_range(front, q);
        }
    }
}

/// Where combination `k` of an extension comes from.
pub proof fn lemma_extend_index<T>(prefixes: Seq<Seq<T>>, items: Seq<T>, k: int)
    requires
        0 <= k < extend(prefixes, items).len(),
    ensures
        items.len() > 0,
        0 <= k / (items.len() as int) < prefixes.len(),
        0 <= k % (items.len() as int) < items.len(),
        extend(prefixes, items)[k] == prefixes[k / (items.len() as int)].push(
            items[k % (items.len() as int)],
        ),
{
    let n = items.len() as int;
    let p = prefixes.len() as int;
    assert(n > 0);
    lemma_fundamental_div_mod(k, n);
    lemma_mul_is_commutative(p, n);
    lemma_multiply_divide_lt(k, n, p);
    assert(0 <= k / n) by (nonlinear_arith)
        requires
            0 <= k,
            0 < n,
    ;
}

/// Every combination picks, at each position, an item of the list at that
/// position.
pub proof fn lemma_product_picks<T>(choices: Seq<Seq<T>>, k: int)
    requires
        0 <= k < product(choices).len(),
    ensures
        product(choices)[k].len() == choices.len(),
        forall|p: int|
            0 <= p < choices.len() ==> (#[trigger] choices[p]).contains(product(choices)[k][p]),
    decreases choices.len(),
{
    if choices.len() > 0 {
        let prefixes = product(choices.drop_last());
        let items = choices.last();
        lemma_extend_index(prefixes, items, k);
        let q = k / (items.len() as int);
        lemma_product_picks(choices.drop_last(), q);
        let v = product(choices)[k];
        assert forall|p: int| 0 <= p < choices.len() implies (#[trigger] choices[p]).contains(
            v[p],
        ) by {
            if p < choices.len() - 1 {
                assert(choices.drop_last()[p] == choices[p]);
            }
        }
    }
}

/// Every way to pick an item from each list is among the combinations.
pub proof fn lemma_product_complete<T>(choices: Seq<Seq<T>>, v: Seq<T>)
    requires
        v.len() == choices.len(),
        forall|p: int| 0 <= p < choices.len() ==> (#[trigger] choices[p]).contains(v[p]),
    ensures
        product(choices).contains(v),
    decreases choices.len(),
{
    if choices.len() == 0 {
        assert(product(choices)[0] == v);
    } else {
        let prefixes = product(choices.drop_last());
        let items = choices.last();
        let head = v.drop_last();
        lemma_product_complete(choices.drop_last(), head);
        let q = choose|q: int| 0 <= q < prefixes.len() && prefixes[q] == head;
        let r = choose|r: int| 0 <= r < items.len() && items[r] == v.last();
        let n = items.len() as int;
        let k = q * n + r;
        lemma_fundamental_div_mod_converse(k, n, q, r);
        assert(0 <= k < prefixes.len() * n) by (nonlinear_arith)
            requires
                0 <= q < prefixes.len(),
                0 <= r < n,
                k == q * n + r,
        ;
        assert(product(choices)[k] =~= v);
    }
}

/// Where one of the lists is empty there is no combination.
pub proof fn lemma_product_of_empty_list<T>(choices: Seq<Seq<T>>, p: int)
    requires
        0 <= p < choices.len(),
        choices[p].len() == 0,
    ensures
        product(choices).len() == 0,
    decreases choices.len(),
{
    if p < choices.len() - 1 {
        lemma_product_of_empty_list(choices.drop_last(), p);
    }
}

/// The lengths of the lists multiplied together.
pub open spec fn count<T>(choices: Seq<Seq<T>>) -> nat
    decreases choices.len(),
{
    if choices.len() == 0 {
        1
    } else {
        count(choices.drop_last()) * choices.last().len()
    }
}

/// There are as many combinations as the lengths of the lists multiply to.
pub proof fn lemma_product_len<T>(choices: Seq<Seq<T>>)
    ensures
        product(choices).len() == count(choices),
    decreases choices.len(),
{
    if choices.len() > 0 {
        lemma_product_len(choices.drop_last());
    }
}

/// Where no list holds an item twice, no combination comes twice.
pub proof fn lemma_product_distinct<T>(choices: Seq<Seq<T>>, j: int, k: int)
    requires
        forall|p: int| 0 <= p < choices.len() ==> (#[trigger] choices[p]).no_duplicates(),
        0 <= j < product(choices).len(),
        0 <= k < product(choices).len(),
        j != k,
    ensures
        product(choices)[j] != product(choices)[k],
    decreases choices.len(),
{
    if choices.len() > 0 {
        let prefixes = product(choices.drop_last());
        let items = choices.last();
        let n = items.len() as int;
        lemma_extend_index(prefixes, items, j);
        lemma_extend_index(prefixes, items, k);
        lemma_fundamental_div_mod(j, n);
        lemma_fundamental_div_mod(k, n);
        let a = product(choices)[j];
        let b = product(choices)[k];
        if j / n == k / n {
            assert(b.last() == items[k % n]);
        } else {
            lemma_product_distinct(choices.drop_last(), j / n, k / n);
            assert(a.drop_last() =~= prefixes[j / n]);
            assert(b.drop_last() =~= prefixes[k / n]);
        }
    }
}

} // verus!
