//! Permutations of positions, and the one stable order that a sequence of
//! integer keys has.
use vstd::prelude::*;
use vstd::relations::injective_on;
use vstd::set_lib::lemma_int_range;
use vstd::set_lib::lemma_map_size;
use vstd::set_lib::lemma_subset_equality;
use vstd::set_lib::set_int_range;
use vstd::seq_lib::to_multiset_build;
use vstd::seq_lib::to_multiset_remove;

verus! {

/// An index as a position.
#[verifier::inline]
pub open spec fn place(i: usize) -> int {
    i as int
}

/// `p` lists the positions `0..n`, each exactly once.
pub open spec fn is_permutation(p: Seq<int>, n: nat) -> bool {
    &&& p.len() == n
    &&& forall|i: int| 0 <= i < n ==> 0 <= #[trigger] p[i] < n
    &&& forall|i: int, j: int| 0 <= i < j < n ==> p[i] != p[j]
}

/// Position `a` comes before position `b` when its key is smaller, or when
/// the keys are equal and `a` is the earlier position.
pub open spec fn comes_before(keys: Seq<int>, a: int, b: int) -> bool {
    keys[a] < keys[b] || (keys[a] == keys[b] && a < b)
}

/// `p` lists the positions of `keys` by ascending key, equal keys in the
/// order of their positions.
pub open spec fn is_stable_order(keys: Seq<int>, p: Seq<int>) -> bool {
    &&& is_permutation(p, keys.len())
    &&& forall|i: int, j: int|
        0 <= i < j < p.len() ==> comes_before(keys, #[trigger] p[i], #[trigger] p[j])
}

/// The keys never decrease along the sequence.
pub open spec fn is_ascending(keys: Seq<int>) -> bool {
    forall|i: int, j: int| 0 <= i < j < keys.len() ==> keys[i] <= keys[j]
}

/// The positions `0..n` in their own order.
pub open spec fn identity(n: nat) -> Seq<int> {
    Seq::new(n, |i: int| i)
}

/// The elements of `pool` in the order that `p` lists their positions.
pub open spec fn arranged<A>(pool: Seq<A>, p: Seq<int>) -> Seq<A> {
    Seq::new(p.len(), |i: int| pool[p[i]])
}

/// A permutation of `0..n` reaches every position below `n`.
pub proof fn lemma_permutation_onto(p: Seq<int>, n: nat, x: int)
    requires
        is_permutation(p, n),
        0 <= x < n,
    ensures
        exists|i: int| 0 <= i < n && p[i] == x,
{
    assert(p.no_duplicates()) by {
        assert forall|i: int, j: int| 0 <= i < p.len() && 0 <= j < p.len() && i != j implies p[i]
            != p[j] by {
            if i < j {
                assert(p[i] != p[j]);
            } else {
                assert(p[j] != p[i]);
            }
        }
    }
    p.unique_seq_to_set();
    let reached = p.to_set();
    let all = set_int_range(0, n as int);
    lemma_int_range(0, n as int);
    assert(reached.subset_of(all)) by {
        assert forall|y: int| reached.contains(y) implies all.contains(y) by {
            let i = choose|i: int| 0 <= i < p.len() && p[i] == y;
            assert(0 <= p[i] < n);
        }
    }
    lemma_subset_equality(reached, all);
    assert(all.contains(x));
    assert(reached.contains(x));
    let i = choose|i: int| 0 <= i < p.len() && p[i] == x;
    assert(0 <= i < n && p[i] == x);
}

proof fn lemma_stable_orders_agree(keys: Seq<int>, p: Seq<int>, q: Seq<int>, k: int)
    requires
        is_stable_order(keys, p),
        is_stable_order(keys, q),
        0 <= k <= keys.len(),
    ensures
        forall|i: int| 0 <= i < k ==> p[i] == q[i],
    decreases k,
{
    if k > 0 {
        let last = k - 1;
        lemma_stable_orders_agree(keys, p, q, last);
        if p[last] != q[last] {
            let n = keys.len();
            lemma_permutation_onto(p, n, q[last]);
            let m = choose|m: int| 0 <= m < n && p[m] == q[last];
            lemma_permutation_onto(q, n, p[last]);
            let w = choose|w: int| 0 <= w < n && q[w] == p[last];
            if m < last {
                assert(q[m] != q[last]);
            }
            if w < last {
                assert(p[w] != p[last]);
            }
            assert(comes_before(keys, p[last], p[m]));
            assert(comes_before(keys, q[last], q[w]));
        }
    }
}

/// A sequence of keys has at most one stable order.
pub proof fn lemma_stable_order_unique(keys: Seq<int>, p: Seq<int>, q: Seq<int>)
    requires
        is_stable_order(keys, p),
        is_stable_order(keys, q),
    ensures
        p == q,
{
    lemma_stable_orders_agree(keys, p, q, keys.len() as int);
    assert(p =~= q);
}

/// A sequence that is lower at a later place than at an earlier one steps
/// down somewhere between the two.
pub proof fn lemma_descent_between(p: Seq<int>, i: int, j: int)
    requires
        0 <= i < j < p.len(),
        p[i] > p[j],
    ensures
        exists|k: int| i <= k < j && #[trigger] p[k] > p[k + 1],
    decreases j - i,
{
    if p[j - 1] > p[j] {
        assert(i <= j - 1 < j && p[j - 1] > p[j - 1 + 1]);
    } else {
        lemma_descent_between(p, i, j - 1);
        let k = choose|k: int| i <= k < j - 1 && #[trigger] p[k] > p[k + 1];
        assert(i <= k < j && p[k] > p[k + 1]);
    }
}

/// Keys that never decrease from one position to the next never decrease
/// along the whole sequence.
pub proof fn lemma_ascending_from_neighbours(keys: Seq<int>)
    requires
        forall|i: int| 0 <= i && i + 1 < keys.len() ==> #[trigger] keys[i] <= keys[i + 1],
    ensures
        is_ascending(keys),
{
    assert forall|i: int, j: int| 0 <= i < j < keys.len() implies keys[i] <= keys[j] by {
        lemma_ascending_step(keys, i, j);
    }
}

proof fn lemma_ascending_step(keys: Seq<int>, i: int, j: int)
    requires
        forall|i: int| 0 <= i && i + 1 < keys.len() ==> #[trigger] keys[i] <= keys[i + 1],
        0 <= i <= j < keys.len(),
    ensures
        keys[i] <= keys[j],
    decreases j - i,
{
    if i < j {
        lemma_ascending_step(keys, i, j - 1);
        assert(keys[j - 1] <= keys[j - 1 + 1]);
    }
}

/// The stable order of keys that are already ascending leaves every position
/// where it is.
pub proof fn lemma_ascending_keeps_order(keys: Seq<int>, p: Seq<int>)
    requires
        is_ascending(keys),
        is_stable_order(keys, p),
    ensures
        p == identity(keys.len()),
{
    let id = identity(keys.len());
    assert(is_stable_order(keys, id));
    lemma_stable_order_unique(keys, p, id);
}

/// Along their stable order the keys are ascending.
pub proof fn lemma_stable_order_ascends(keys: Seq<int>, p: Seq<int>)
    requires
        is_stable_order(keys, p),
    ensures
        is_ascending(arranged(keys, p)),
{
    let along = arranged(keys, p);
    assert forall|i: int, j: int| 0 <= i < j < along.len() implies along[i] <= along[j] by {
        assert(comes_before(keys, p[i], p[j]));
    }
}

/// A permutation of `0..n` with the place of `n - 1` taken out is a
/// permutation of `0..n - 1`.
pub proof fn lemma_permutation_without_last(p: Seq<int>, n: nat, m: int)
    requires
        is_permutation(p, n),
        0 <= m < n,
        p[m] == n - 1,
    ensures
        is_permutation(p.remove(m), (n - 1) as nat),
{
    let q = p.remove(m);
    let last = n - 1;
    assert forall|i: int| 0 <= i < last implies 0 <= #[trigger] q[i] < last by {
        let from = if i < m { i } else { i + 1 };
        assert(q[i] == p[from]);
        if from < m {
            assert(p[from] != p[m]);
        } else {
            assert(p[m] != p[from]);
        }
    }
    assert forall|i: int, j: int| 0 <= i < j < last implies q[i] != q[j] by {
        let from_i = if i < m { i } else { i + 1 };
        let from_j = if j < m { j } else { j + 1 };
        assert(q[i] == p[from_i] && q[j] == p[from_j]);
        assert(p[from_i] != p[from_j]);
    }
}

/// Arranging a sequence by a permutation of its positions neither loses nor
/// repeats an element.
pub proof fn lemma_arranged_keeps_elements<A>(pool: Seq<A>, p: Seq<int>)
    requires
        is_permutation(p, pool.len()),
    ensures
        arranged(pool, p).to_multiset() == pool.to_multiset(),
    decreases pool.len(),
{
    let n = pool.len();
    let whole = arranged(pool, p);
    if n == 0 {
        assert(whole =~= pool);
    } else {
        let last = n - 1;
        lemma_permutation_onto(p, n, last);
        let m = choose|m: int| 0 <= m < n && p[m] == last;
        let shorter = pool.drop_last();
        let q = p.remove(m);
        lemma_permutation_without_last(p, n, m);
        let rest = whole.remove(m);
        assert(rest =~= arranged(shorter, q)) by {
            assert forall|i: int| 0 <= i < rest.len() implies rest[i] == arranged(shorter, q)[i] by {
                let from = if i < m { i } else { i + 1 };
                assert(q[i] == p[from]);
                assert(rest[i] == whole[from]);
            }
        }
        lemma_arranged_keeps_elements(shorter, q);
        to_multiset_remove(whole, m);
        to_multiset_build(shorter, pool[last]);
        assert(shorter.push(pool[last]) =~= pool);
        whole.to_multiset_ensures();
        assert(whole.contains(whole[m]));
        assert(whole.to_multiset() =~= rest.to_multiset().insert(whole[m]));
    }
}

/// The positions that come before position `i`.
pub open spec fn places_before(keys: Seq<int>, i: int) -> Set<int> {
    Set::new(|j: int| 0 <= j < keys.len() && comes_before(keys, j, i))
}

/// The rank of position `i`: how many positions come before it.
pub open spec fn rank_of(keys: Seq<int>, i: int) -> int {
    places_before(keys, i).len() as int
}

/// The rank of every position: 0 for the smallest key, and for equal keys
/// the lower rank to the earlier position.
pub open spec fn ranks_of(keys: Seq<int>) -> Seq<int> {
    Seq::new(keys.len(), |i: int| rank_of(keys, i))
}

/// The ranks are the places in the stable order: a sequence that sends every
/// position listed by the stable order back to its place in the list is the
/// sequence of ranks, and a permutation.
pub proof fn lemma_places_are_ranks(keys: Seq<int>, p: Seq<int>, r: Seq<int>)
    requires
        is_stable_order(keys, p),
        r.len() == keys.len(),
        forall|k: int| 0 <= k < p.len() ==> r[#[trigger] p[k]] == k,
    ensures
        r == ranks_of(keys),
        is_permutation(r, keys.len()),
{
    let n = keys.len();
    assert forall|i: int| 0 <= i < n implies 0 <= #[trigger] r[i] < n && p[r[i]] == i by {
        lemma_permutation_onto(p, n, i);
        let k = choose|k: int| 0 <= k < n && p[k] == i;
        assert(r[p[k]] == k);
    }
    assert forall|i: int, j: int| 0 <= i < j < n implies r[i] != r[j] by {
        assert(p[r[i]] == i && p[r[j]] == j);
    }
    assert forall|i: int| 0 <= i < n implies #[trigger] r[i] == rank_of(keys, i) by {
        let place = r[i];
        let earlier = set_int_range(0, place);
        let listed = |a: int| p[a];
        lemma_int_range(0, place);
        assert(injective_on(listed, earlier)) by {
            assert forall|a: int, b: int|
                earlier.contains(a) && earlier.contains(b) && #[trigger] listed(a)
                    == #[trigger] listed(b) implies a == b by {
                if a < b {
                    assert(p[a] != p[b]);
                } else if b < a {
                    assert(p[b] != p[a]);
                }
            }
        }
        assert(earlier.map(listed) =~= places_before(keys, i)) by {
            assert forall|j: int| earlier.map(listed).contains(j) implies places_before(
                keys,
                i,
            ).contains(j) by {
                let a = choose|a: int| earlier.contains(a) && listed(a) == j;
                assert(comes_before(keys, p[a], p[place]));
            }
            assert forall|j: int| places_before(keys, i).contains(j) implies earlier.map(
                listed,
            ).contains(j) by {
                let a = r[j];
                assert(p[a] == j);
                if a > place {
                    assert(comes_before(keys, p[place], p[a]));
                }
                assert(earlier.contains(a) && listed(a) == j);
            }
        }
        lemma_map_size(earlier, places_before(keys, i), listed);
    }
    assert(r =~= ranks_of(keys));
}

} // verus!
