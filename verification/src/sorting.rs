//! A stable merge sort by a comparison that is handed in, and what holds of
//! its outcome.
use crate::order::arranged;
use crate::order::comes_before;
use crate::order::is_permutation;
use crate::order::is_stable_order;
use crate::order::lemma_ascending_from_neighbours;
use crate::order::lemma_descent_between;
use crate::order::place;
use std::cmp::Ordering;
use vstd::prelude::*;

verus! {

/// `<[T]>::swap` exchanges the elements at two positions of a slice and
/// leaves every other element where it was. It panics when a position is out
/// of bounds, so both must lie inside the slice.
pub assume_specification<E>[ <[E]>::swap ](slice: &mut [E], a: usize, b: usize)
    requires
        a < old(slice)@.len(),
        b < old(slice)@.len(),
    ensures
        final(slice)@ == old(slice)@.update(a as int, old(slice)@[b as int]).update(
            b as int,
            old(slice)@[a as int],
        ),
;

/// The comparison put `a` strictly after `b`: called in the direction asked
/// for, it answered `Greater`.
pub open spec fn placed_after<T, F: Fn(&T, &T) -> Ordering>(
    compare_fn: F,
    reverse: bool,
    a: T,
    b: T,
) -> bool {
    if reverse {
        compare_fn.ensures((&b, &a), Ordering::Greater)
    } else {
        compare_fn.ensures((&a, &b), Ordering::Greater)
    }
}

/// The comparison left `a` before `b`: called in the direction asked for, it
/// answered `Less` or `Equal`.
pub open spec fn kept_before<T, F: Fn(&T, &T) -> Ordering>(
    compare_fn: F,
    reverse: bool,
    a: T,
    b: T,
) -> bool {
    if reverse {
        compare_fn.ensures((&b, &a), Ordering::Less) || compare_fn.ensures(
            (&b, &a),
            Ordering::Equal,
        )
    } else {
        compare_fn.ensures((&a, &b), Ordering::Less) || compare_fn.ensures(
            (&a, &b),
            Ordering::Equal,
        )
    }
}

/// The comparison agrees that the element at position `first` may stand
/// right before the one at position `second`: where `first` is the earlier
/// position it left the two in place, and where it is the later one it put
/// the earlier element strictly after the later.
pub open spec fn settled<T, F: Fn(&T, &T) -> Ordering>(
    elements: Seq<T>,
    compare_fn: F,
    reverse: bool,
    first: int,
    second: int,
) -> bool {
    if first < second {
        kept_before(compare_fn, reverse, elements[first], elements[second])
    } else {
        placed_after(compare_fn, reverse, elements[second], elements[first])
    }
}

/// `after` holds the elements of `before`, the one at position `i` taken from
/// position `p[i]`, arranged as a stable sort by `compare_fn` leaves them:
/// of every two neighbours the comparison was asked, and it agreed with
/// their order.
pub open spec fn sorted_through<T, F: Fn(&T, &T) -> Ordering>(
    before: Seq<T>,
    after: Seq<T>,
    p: Seq<int>,
    compare_fn: F,
    reverse: bool,
) -> bool {
    &&& is_permutation(p, before.len())
    &&& after == arranged(before, p)
    &&& forall|i: int|
        0 <= i && i + 1 < p.len() ==> settled(
            before,
            compare_fn,
            reverse,
            #[trigger] p[i],
            p[i + 1],
        )
}

/// Indices as mathematical integers.
pub open spec fn positions(indices: Seq<usize>) -> Seq<int> {
    Seq::new(indices.len(), |i: int| indices[i] as int)
}

/// The comparison can be called on every two elements.
pub open spec fn comparable<T, F: Fn(&T, &T) -> Ordering>(elements: Seq<T>, compare_fn: F) -> bool {
    forall|i: int, j: int|
        0 <= i < elements.len() && 0 <= j < elements.len() ==> compare_fn.requires(
            (&#[trigger] elements[i], &#[trigger] elements[j]),
        )
}

/// `run` lists the positions from `lo` up to `hi`, each once, in an order
/// with which the comparison agrees from neighbour to neighbour.
pub open spec fn is_run<T, F: Fn(&T, &T) -> Ordering>(
    elements: Seq<T>,
    compare_fn: F,
    reverse: bool,
    run: Seq<int>,
    lo: int,
    hi: int,
) -> bool {
    &&& run.len() == hi - lo
    &&& forall|k: int| 0 <= k < run.len() ==> lo <= #[trigger] run[k] < hi
    &&& forall|k: int, m: int| 0 <= k < m < run.len() ==> run[k] != run[m]
    &&& forall|k: int|
        0 <= k && k + 1 < run.len() ==> settled(
            elements,
            compare_fn,
            reverse,
            #[trigger] run[k],
            run[k + 1],
        )
}

/// Whether the element at the earlier position `a` stays before the one at
/// the later position `b`: it does unless the comparison, asked in the
/// direction of the sort, answers `Greater`.
fn stays_before<T, F>(v: &[T], compare_fn: &F, reverse: bool, a: usize, b: usize) -> (stays:
    bool) where F: Fn(&T, &T) -> Ordering
    requires
        a < b < v@.len(),
        comparable(v@, *compare_fn),
    ensures
        stays ==> settled(v@, *compare_fn, reverse, place(a), place(b)),
        !stays ==> settled(v@, *compare_fn, reverse, place(b), place(a)),
{
    let o = if reverse {
        compare_fn(&v[b], &v[a])
    } else {
        compare_fn(&v[a], &v[b])
    };
    match o {
        Ordering::Greater => {
            proof {
                assert(placed_after(*compare_fn, reverse, v@[place(a)], v@[place(b)]));
            }
            false
        },
        _ => {
            proof {
                assert(kept_before(*compare_fn, reverse, v@[place(a)], v@[place(b)]));
            }
            true
        },
    }
}

/// `done` is what a merge of the runs `first` and `second` has put out when
/// it has taken `i` positions of the one and `j` of the other: each position
/// once, neighbours in an order with which the comparison agrees, and the
/// last of them in such an order with the head of either run.
pub open spec fn partly_merged<T, F: Fn(&T, &T) -> Ordering>(
    elements: Seq<T>,
    compare_fn: F,
    reverse: bool,
    first: Seq<int>,
    second: Seq<int>,
    done: Seq<int>,
    i: int,
    j: int,
) -> bool {
    &&& 0 <= i <= first.len()
    &&& 0 <= j <= second.len()
    &&& done.len() == i + j
    &&& forall|k: int, m: int| 0 <= k < m < done.len() ==> done[k] != done[m]
    &&& forall|k: int|
        0 <= k < done.len() ==> (exists|a: int| 0 <= a < i && first[a] == #[trigger] done[k]) || (
        exists|b: int| 0 <= b < j && second[b] == done[k])
    &&& forall|k: int|
        0 <= k && k + 1 < done.len() ==> settled(
            elements,
            compare_fn,
            reverse,
            #[trigger] done[k],
            done[k + 1],
        )
    &&& done.len() > 0 && i < first.len() ==> settled(
        elements,
        compare_fn,
        reverse,
        done[done.len() - 1],
        first[i],
    )
    &&& done.len() > 0 && j < second.len() ==> settled(
        elements,
        compare_fn,
        reverse,
        done[done.len() - 1],
        second[j],
    )
}

proof fn lemma_merge_takes<T, F: Fn(&T, &T) -> Ordering>(
    elements: Seq<T>,
    compare_fn: F,
    reverse: bool,
    first: Seq<int>,
    second: Seq<int>,
    done: Seq<int>,
    i: int,
    j: int,
    lo: int,
    mid: int,
    hi: int,
    from_first: bool,
)
    requires
        is_run(elements, compare_fn, reverse, first, lo, mid),
        is_run(elements, compare_fn, reverse, second, mid, hi),
        partly_merged(elements, compare_fn, reverse, first, second, done, i, j),
        from_first ==> i < first.len(),
        !from_first ==> j < second.len(),
        from_first && j < second.len() ==> settled(
            elements,
            compare_fn,
            reverse,
            first[i],
            second[j],
        ),
        !from_first && i < first.len() ==> settled(
            elements,
            compare_fn,
            reverse,
            second[j],
            first[i],
        ),
    ensures
        from_first ==> partly_merged(
            elements,
            compare_fn,
            reverse,
            first,
            second,
            done.push(first[i]),
            i + 1,
            j,
        ),
        !from_first ==> partly_merged(
            elements,
            compare_fn,
            reverse,
            first,
            second,
            done.push(second[j]),
            i,
            j + 1,
        ),
{
    let taken = if from_first {
        first[i]
    } else {
        second[j]
    };
    let more = done.push(taken);
    let (i2, j2) = if from_first {
        (i + 1, j)
    } else {
        (i, j + 1)
    };
    assert forall|k: int, m: int| 0 <= k < m < more.len() implies more[k] != more[m] by {
        if m == done.len() {
            assert(more[k] == done[k]);
            if exists|a: int| 0 <= a < i && first[a] == done[k] {
                let a = choose|a: int| 0 <= a < i && first[a] == done[k];
                assert(lo <= first[a] < mid);
                if from_first {
                    assert(first[a] != first[i]);
                } else {
                    assert(mid <= second[j] < hi);
                }
            } else {
                let b = choose|b: int| 0 <= b < j && second[b] == done[k];
                assert(mid <= second[b] < hi);
                if from_first {
                    assert(lo <= first[i] < mid);
                } else {
                    assert(second[b] != second[j]);
                }
            }
        } else {
            assert(more[k] == done[k] && more[m] == done[m]);
        }
    }
    assert forall|k: int| 0 <= k < more.len() implies (exists|a: int|
        0 <= a < i2 && first[a] == #[trigger] more[k]) || (exists|b: int|
        0 <= b < j2 && second[b] == more[k]) by {
        if k == done.len() {
            if from_first {
                assert(0 <= i < i2 && first[i] == more[k]);
            } else {
                assert(0 <= j < j2 && second[j] == more[k]);
            }
        } else {
            assert(more[k] == done[k]);
            if exists|a: int| 0 <= a < i && first[a] == done[k] {
                let a = choose|a: int| 0 <= a < i && first[a] == done[k];
                assert(0 <= a < i2 && first[a] == more[k]);
            } else {
                let b = choose|b: int| 0 <= b < j && second[b] == done[k];
                assert(0 <= b < j2 && second[b] == more[k]);
            }
        }
    }
    assert forall|k: int| 0 <= k && k + 1 < more.len() implies settled(
        elements,
        compare_fn,
        reverse,
        #[trigger] more[k],
        more[k + 1],
    ) by {
        if k + 1 < done.len() {
            assert(more[k] == done[k] && more[k + 1] == done[k + 1]);
        } else {
            assert(more[k] == done[done.len() - 1]);
        }
    }
    if from_first && i + 1 < first.len() {
        assert(settled(elements, compare_fn, reverse, first[i], first[i + 1]));
    }
    if !from_first && j + 1 < second.len() {
        assert(settled(elements, compare_fn, reverse, second[j], second[j + 1]));
    }
}

proof fn lemma_merged_is_run<T, F: Fn(&T, &T) -> Ordering>(
    elements: Seq<T>,
    compare_fn: F,
    reverse: bool,
    first: Seq<int>,
    second: Seq<int>,
    done: Seq<int>,
    i: int,
    j: int,
    lo: int,
    mid: int,
    hi: int,
)
    requires
        lo <= mid <= hi,
        is_run(elements, compare_fn, reverse, first, lo, mid),
        is_run(elements, compare_fn, reverse, second, mid, hi),
        i == first.len(),
        j == second.len(),
        partly_merged(elements, compare_fn, reverse, first, second, done, i, j),
    ensures
        is_run(elements, compare_fn, reverse, done, lo, hi),
{
    assert forall|k: int| 0 <= k < done.len() implies lo <= #[trigger] done[k] < hi by {
        if exists|a: int| 0 <= a < first.len() && first[a] == done[k] {
            let a = choose|a: int| 0 <= a < first.len() && first[a] == done[k];
            assert(lo <= first[a] < mid);
        } else {
            let b = choose|b: int| 0 <= b < second.len() && second[b] == done[k];
            assert(mid <= second[b] < hi);
        }
    }
}

/// Merges two runs that lie side by side into one: of the two elements at
/// the heads the later comes first only where the comparison puts the earlier
/// strictly after it.
fn merge_runs<T, F>(
    v: &[T],
    compare_fn: &F,
    reverse: bool,
    left: &Vec<usize>,
    right: &Vec<usize>,
    lo: usize,
    mid: usize,
    hi: usize,
) -> (merged: Vec<usize>) where F: Fn(&T, &T) -> Ordering
    requires
        lo <= mid <= hi <= v@.len(),
        comparable(v@, *compare_fn),
        is_run(v@, *compare_fn, reverse, positions(left@), place(lo), place(mid)),
        is_run(v@, *compare_fn, reverse, positions(right@), place(mid), place(hi)),
    ensures
        is_run(v@, *compare_fn, reverse, positions(merged@), place(lo), place(hi)),
{
    let ghost first = positions(left@);
    let ghost second = positions(right@);
    let mut merged: Vec<usize> = Vec::new();
    let mut i: usize = 0;
    let mut j: usize = 0;
    while i < left.len() || j < right.len()
        invariant
            lo <= mid <= hi <= v@.len(),
            comparable(v@, *compare_fn),
            first == positions(left@),
            second == positions(right@),
            is_run(v@, *compare_fn, reverse, first, place(lo), place(mid)),
            is_run(v@, *compare_fn, reverse, second, place(mid), place(hi)),
            partly_merged(
                v@,
                *compare_fn,
                reverse,
                first,
                second,
                positions(merged@),
                place(i),
                place(j),
            ),
        decreases left@.len() - i + right@.len() - j,
    {
        let ghost done = positions(merged@);
        let from_left: bool = if i == left.len() {
            false
        } else if j == right.len() {
            true
        } else {
            proof {
                assert(place(lo) <= first[place(i)] < mid);
                assert(place(mid) <= second[place(j)] < hi);
            }
            stays_before(v, compare_fn, reverse, left[i], right[j])
        };
        proof {
            lemma_merge_takes(
                v@,
                *compare_fn,
                reverse,
                first,
                second,
                done,
                place(i),
                place(j),
                place(lo),
                place(mid),
                place(hi),
                from_left,
            );
        }
        if from_left {
            merged.push(left[i]);
            i = i + 1;
            proof {
                assert(positions(merged@) =~= done.push(first[i - 1]));
            }
        } else {
            merged.push(right[j]);
            j = j + 1;
            proof {
                assert(positions(merged@) =~= done.push(second[j - 1]));
            }
        }
    }
    proof {
        lemma_merged_is_run(
            v@,
            *compare_fn,
            reverse,
            first,
            second,
            positions(merged@),
            place(i),
            place(j),
            place(lo),
            place(mid),
            place(hi),
        );
    }
    merged
}

/// The positions from `lo` up to `hi` in an order with which the comparison
/// agrees from neighbour to neighbour, by merging the orders of the two
/// halves.
pub(crate) fn sorted_range<T, F>(v: &[T], compare_fn: &F, reverse: bool, lo: usize, hi: usize) -> (run: Vec<
    usize,
>) where F: Fn(&T, &T) -> Ordering
    requires
        lo <= hi <= v@.len(),
        comparable(v@, *compare_fn),
    ensures
        is_run(v@, *compare_fn, reverse, positions(run@), place(lo), place(hi)),
    decreases hi - lo,
{
    let mut run: Vec<usize> = Vec::new();
    if hi - lo == 0 {
        run
    } else if hi - lo == 1 {
        run.push(lo);
        run
    } else {
        let mid: usize = lo + (hi - lo) / 2;
        let left = sorted_range(v, compare_fn, reverse, lo, mid);
        let right = sorted_range(v, compare_fn, reverse, mid, hi);
        merge_runs(v, compare_fn, reverse, &left, &right, lo, mid, hi)
    }
}

/// Puts the elements in the order that `order` lists their positions, by
/// exchanging two elements at a time.
pub(crate) fn arrange<T>(v: &mut [T], order: &Vec<usize>)
    requires
        is_permutation(positions(order@), old(v)@.len()),
    ensures
        final(v)@ == arranged(old(v)@, positions(order@)),
{
    let n: usize = v.len();
    let ghost before = v@;
    let ghost p = positions(order@);
    let mut holds: Vec<usize> = Vec::new();
    let mut found_at: Vec<usize> = Vec::new();
    let mut k: usize = 0;
    while k < n
        invariant
            k <= n,
            holds@.len() == k,
            found_at@.len() == k,
            forall|t: int| 0 <= t < k ==> #[trigger] holds@[t] == t,
            forall|t: int| 0 <= t < k ==> #[trigger] found_at@[t] == t,
        decreases n - k,
    {
        holds.push(k);
        found_at.push(k);
        k = k + 1;
    }
    let mut i: usize = 0;
    while i < n
        invariant
            i <= n,
            n == v@.len(),
            n == before.len(),
            n == order@.len(),
            holds@.len() == n,
            found_at@.len() == n,
            p == positions(order@),
            is_permutation(p, before.len()),
            forall|t: int| 0 <= t < n ==> 0 <= #[trigger] holds@[t] < n,
            forall|t: int| 0 <= t < n ==> 0 <= #[trigger] found_at@[t] < n,
            forall|t: int| 0 <= t < n ==> found_at@[#[trigger] holds@[t] as int] == t,
            forall|t: int| 0 <= t < n ==> holds@[#[trigger] found_at@[t] as int] == t,
            forall|t: int| 0 <= t < n ==> #[trigger] v@[t] == before[holds@[t] as int],
            forall|t: int| 0 <= t < i ==> #[trigger] holds@[t] == p[t],
        decreases n - i,
    {
        let wanted: usize = order[i];
        proof {
            assert(p[i as int] == wanted);
            assert(0 <= p[i as int] < n);
        }
        let at: usize = found_at[wanted];
        proof {
            assert(holds@[at as int] == wanted);
            if at < i {
                assert(holds@[at as int] == p[at as int]);
                assert(p[at as int] != p[i as int]);
            }
        }
        if at != i {
            let moved: usize = holds[i];
            v.swap(i, at);
            holds[at] = moved;
            found_at[moved] = at;
            holds[i] = wanted;
            found_at[wanted] = i;
        }
        i = i + 1;
    }
    proof {
        assert(v@ =~= arranged(before, p));
    }
}

/// The answer `o` of a comparison is the order of the integers `a` and `b`.
pub open spec fn orders(o: Ordering, a: int, b: int) -> bool {
    match o {
        Ordering::Less => a < b,
        Ordering::Equal => a == b,
        Ordering::Greater => a > b,
    }
}

/// The keys of the elements, position by position, negated where the sort is
/// reversed.
pub open spec fn sort_keys<T>(elements: Seq<T>, key_of: spec_fn(T) -> int, reverse: bool) -> Seq<
    int,
> {
    Seq::new(
        elements.len(),
        |i: int|
            if reverse {
                -key_of(elements[i])
            } else {
                key_of(elements[i])
            },
    )
}

/// Where the comparison orders the elements by an integer key, what
/// `sort_with_direction` leaves is the stable order by that key, or, reversed,
/// by descending key; elements of equal key stay in their first order either
/// way.
pub proof fn lemma_sorts_by_key<T, F: Fn(&T, &T) -> Ordering>(
    before: Seq<T>,
    after: Seq<T>,
    p: Seq<int>,
    compare_fn: F,
    reverse: bool,
    key_of: spec_fn(T) -> int,
)
    requires
        sorted_through(before, after, p, compare_fn, reverse),
        forall|a: &T, b: &T, o: Ordering| #[trigger]
            compare_fn.ensures((a, b), o) ==> orders(o, key_of(*a), key_of(*b)),
    ensures
        is_stable_order(sort_keys(before, key_of, reverse), p),
{
    let keys = sort_keys(before, key_of, reverse);
    let along = arranged(keys, p);
    assert forall|i: int| 0 <= i && i + 1 < along.len() implies #[trigger] along[i] <= along[i
        + 1] && (p[i] > p[i + 1] ==> along[i] < along[i + 1]) by {
        assert(settled(before, compare_fn, reverse, p[i], p[i + 1]));
    }
    lemma_ascending_from_neighbours(along);
    assert forall|i: int, j: int| 0 <= i < j < p.len() implies comes_before(
        keys,
        #[trigger] p[i],
        #[trigger] p[j],
    ) by {
        assert(along[i] <= along[j]);
        if p[i] > p[j] {
            lemma_descent_between(p, i, j);
            let k = choose|k: int| i <= k < j && #[trigger] p[k] > p[k + 1];
            assert(along[k] < along[k + 1]);
            if i < k {
                assert(along[i] <= along[k]);
            }
            if k + 1 < j {
                assert(along[k + 1] <= along[j]);
            }
        }
    }
}

} // verus!
