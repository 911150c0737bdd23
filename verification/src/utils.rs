//! Sorting of slices, and ranking of scored items.
use crate::models::views;
use crate::models::InputError;
use crate::models::Item;
use crate::order::arranged;
use crate::order::is_ascending;
use crate::order::is_stable_order;
use crate::order::lemma_arranged_keeps_elements;
use crate::order::lemma_stable_order_ascends;
use crate::order::place;
use crate::ranking::is_ranking;
use crate::ranking::ranking_through;
use crate::ranking::score_keys;
use crate::score::is_nan;
use crate::score::numeric_key;
use crate::score::numeric_order_key;
use crate::score::rank_key;
use crate::score::ranking_key;
use crate::score::score_is_nan;
use crate::score::total_key;
use crate::score::total_order_key;
use crate::sorting::arrange;
use crate::sorting::comparable;
use crate::sorting::lemma_sorts_by_key;
use crate::sorting::orders;
use crate::sorting::positions;
use crate::sorting::sort_keys;
use crate::sorting::sorted_range;
use crate::sorting::sorted_through;
use std::cmp::Ordering;
use vstd::prelude::*;

verus! {

/// Sorts `v` in place by `compare_fn`, in the order it gives or, with
/// `reverse`, in the opposite one, by calling it with its arguments exchanged.
/// The sort is stable: see `sorted_through` for what holds of the outcome
/// whatever `compare_fn` answers, and `lemma_sorts_by_key` for a comparison
/// by key.
pub fn sort_with_direction<T, F>(v: &mut [T], compare_fn: F, reverse: bool) where
    F: Fn(&T, &T) -> Ordering,

    requires
        comparable(old(v)@, compare_fn),
    ensures
        exists|p: Seq<int>| sorted_through(old(v)@, final(v)@, p, compare_fn, reverse),
{
    let n: usize = v.len();
    let order = sorted_range(v, &compare_fn, reverse, 0, n);
    let ghost before = v@;
    arrange(v, &order);
    proof {
        assert(sorted_through(before, v@, positions(order@), compare_fn, reverse));
    }
}

/// The total-order keys of the components of a vector, position by position.
pub open spec fn total_keys(x: Seq<u32>) -> Seq<int> {
    Seq::new(x.len(), |i: int| total_key(x[i]))
}

/// Compares two values by the IEEE-754 total order.
pub fn total_order(a: u32, b: u32) -> (o: Ordering)
    ensures
        orders(o, total_key(a), total_key(b)),
{
    let key_a: i64 = total_order_key(a);
    let key_b: i64 = total_order_key(b);
    if key_a < key_b {
        Ordering::Less
    } else if key_a == key_b {
        Ordering::Equal
    } else {
        Ordering::Greater
    }
}

/// Sorts the values in place by the IEEE-754 total order: negative NaN
/// first, then the numbers from negative to positive infinity with `-0`
/// before `+0`, then positive NaN. Nothing is lost or repeated.
pub fn local_sort(v: &mut [u32])
    ensures
        is_ascending(total_keys(final(v)@)),
        final(v)@.to_multiset() == old(v)@.to_multiset(),
        exists|p: Seq<int>|
            is_stable_order(total_keys(old(v)@), p) && final(v)@ == arranged(old(v)@, p),
{
    let ghost before = v@;
    let by_total_order = |a: &u32, b: &u32| -> (o: Ordering)
        ensures
            orders(o, total_key(*a), total_key(*b)),
        { total_order(*a, *b) };
    sort_with_direction(v, by_total_order, false);
    proof {
        let after = v@;
        let p = choose|p: Seq<int>| sorted_through(before, after, p, by_total_order, false);
        let key_of = |bits: u32| total_key(bits);
        lemma_sorts_by_key(before, after, p, by_total_order, false, key_of);
        assert(sort_keys(before, key_of, false) =~= total_keys(before));
        assert(after =~= arranged(before, p));
        lemma_arranged_keeps_elements(before, p);
        lemma_stable_order_ascends(total_keys(before), p);
        assert(total_keys(after) =~= arranged(total_keys(before), p));
    }
}

/// The numeric keys of the components of a vector, position by position.
pub open spec fn numeric_keys(x: Seq<u32>) -> Seq<int> {
    Seq::new(x.len(), |i: int| numeric_key(x[i]))
}

/// No component of the vector is a NaN.
pub open spec fn no_nan(x: Seq<u32>) -> bool {
    forall|i: int| 0 <= i < x.len() ==> !is_nan(#[trigger] x[i])
}

/// Whether no component of the vector is a NaN.
pub fn all_numbers(x: &[u32]) -> (numbers: bool)
    ensures
        numbers == no_nan(x@),
{
    let mut i: usize = 0;
    while i < x.len()
        invariant
            i <= x@.len(),
            forall|j: int| 0 <= j < i ==> !is_nan(#[trigger] x@[j]),
        decreases x@.len() - i,
    {
        if score_is_nan(x[i]) {
            return false;
        }
        i = i + 1;
    }
    true
}

/// Compares two numbers by value; the two zeros are equal.
pub fn numeric_order(a: u32, b: u32) -> (o: Ordering)
    ensures
        orders(o, numeric_key(a), numeric_key(b)),
{
    let key_a: i64 = numeric_order_key(a);
    let key_b: i64 = numeric_order_key(b);
    if key_a < key_b {
        Ordering::Less
    } else if key_a == key_b {
        Ordering::Equal
    } else {
        Ordering::Greater
    }
}

/// The indices that sort the vector: the positions of its components by
/// ascending value, equal values in the order of their positions.
pub fn argsort(x: &[u32]) -> (order: Vec<usize>)
    requires
        no_nan(x@),
    ensures
        is_stable_order(numeric_keys(x@), positions(order@)),
{
    let n: usize = x.len();
    let mut indexed: Vec<(usize, u32)> = Vec::new();
    let mut i: usize = 0;
    while i < n
        invariant
            i <= n,
            n == x@.len(),
            indexed@.len() == i,
            forall|j: int| 0 <= j < i ==> (#[trigger] indexed@[j]).0 == j && indexed@[j].1 == x@[j],
        decreases n - i,
    {
        indexed.push((i, x[i]));
        i = i + 1;
    }
    let ghost before = indexed@;
    let by_value = |a: &(usize, u32), b: &(usize, u32)| -> (o: Ordering)
        ensures
            orders(o, numeric_key(a.1), numeric_key(b.1)),
        { numeric_order(a.1, b.1) };
    sort_with_direction(indexed.as_mut_slice(), by_value, false);
    let ghost p = choose|p: Seq<int>| sorted_through(before, indexed@, p, by_value, false);
    proof {
        let key_of = |pair: (usize, u32)| numeric_key(pair.1);
        lemma_sorts_by_key(before, indexed@, p, by_value, false, key_of);
        assert(sort_keys(before, key_of, false) =~= numeric_keys(x@));
    }
    let mut order: Vec<usize> = Vec::new();
    let mut k: usize = 0;
    while k < n
        invariant
            k <= n,
            n == indexed@.len(),
            n == before.len(),
            order@.len() == k,
            sorted_through(before, indexed@, p, by_value, false),
            forall|j: int| 0 <= j < n ==> (#[trigger] before[j]).0 == j,
            forall|j: int| 0 <= j < k ==> #[trigger] order@[j] == p[j],
        decreases n - k,
    {
        proof {
            assert(indexed@[place(k)] == before[p[place(k)]]);
        }
        order.push(indexed[k].0);
        k = k + 1;
    }
    proof {
        assert(positions(order@) =~= p);
    }
    order
}

/// Compares two scores by rank key: `Less` where `a` is the better one.
pub fn rank_order(a: u32, b: u32, descending: bool) -> (o: Ordering)
    ensures
        orders(o, rank_key(a, descending), rank_key(b, descending)),
{
    let key_a: i64 = ranking_key(a, descending);
    let key_b: i64 = ranking_key(b, descending);
    if key_a < key_b {
        Ordering::Less
    } else if key_a == key_b {
        Ordering::Equal
    } else {
        Ordering::Greater
    }
}

/// Ranks the items in place, best score first.
pub fn sort_by_score(items: &mut Vec<Item>, descending: bool)
    ensures
        is_ranking(views(old(items)@), views(final(items)@), descending, old(items)@.len()),
{
    let ghost before = items@;
    let by_score = |a: &Item, b: &Item| -> (o: Ordering)
        ensures
            orders(o, rank_key(a.result, descending), rank_key(b.result, descending)),
        { rank_order(a.result, b.result, descending) };
    sort_with_direction(items.as_mut_slice(), by_score, false);
    proof {
        let after = items@;
        let p = choose|p: Seq<int>| sorted_through(before, after, p, by_score, false);
        let key_of = |item: Item| rank_key(item.result, descending);
        lemma_sorts_by_key(before, after, p, by_score, false, key_of);
        assert(sort_keys(before, key_of, false) =~= score_keys(views(before), descending));
        assert(ranking_through(views(before), views(after), p, descending, before.len()));
    }
}

/// Ranks the items, best score first, and keeps the first `k` of them.
/// With `reverse` the higher score is the better one.
pub fn sort_and_trucate(best_matches: Vec<Item>, reverse: bool, k: usize) -> (ranked: Vec<Item>)
    ensures
        is_ranking(views(best_matches@), views(ranked@), reverse, k as nat),
{
    let mut ranked = best_matches;
    sort_by_score(&mut ranked, reverse);
    let ghost whole = ranked@;
    ranked.truncate(k);
    proof {
        let pool = views(best_matches@);
        let p = choose|p: Seq<int>|
            ranking_through(pool, views(whole), p, reverse, best_matches@.len());
        let kept = views(ranked@);
        assert forall|i: int| 0 <= i < kept.len() implies #[trigger] kept[i] == pool[p[i]] by {
            assert(ranked@[i] == whole[i]);
            assert(views(whole)[i] == pool[p[i]]);
        }
        assert(ranking_through(pool, kept, p, reverse, k as nat));
    }
    ranked
}

/// Ranks the candidates, best score first, and keeps the first `limit` of
/// them. With `ascending_is_better` the lower score is the better one, as for
/// a distance; else the higher, as for a similarity. A limit below zero is
/// refused.
pub fn rank_and_truncate(candidates: Vec<Item>, ascending_is_better: bool, limit: i64) -> (outcome:
    Result<Vec<Item>, InputError>)
    ensures
        match outcome {
            Ok(ranked) => limit >= 0 && is_ranking(
                views(candidates@),
                views(ranked@),
                !ascending_is_better,
                limit as nat,
            ),
            Err(e) => limit < 0 && e == InputError::InvalidArgument,
        },
{
    if limit < 0 {
        return Err(InputError::InvalidArgument);
    }
    let count: usize = candidates.len();
    let wide: u64 = limit as u64;
    let k: usize = if wide > count as u64 {
        count
    } else {
        wide as usize
    };
    let ranked = sort_and_trucate(candidates, !ascending_is_better, k);
    proof {
        let pool = views(candidates@);
        let kept = views(ranked@);
        let descending = !ascending_is_better;
        let cut = k as nat;
        let p = choose|p: Seq<int>| ranking_through(pool, kept, p, descending, cut);
        assert(ranking_through(pool, kept, p, descending, limit as nat));
    }
    Ok(ranked)
}

} // verus!
