//! What the ranking of a pool of scored items is, and the laws it obeys.
use crate::models::ItemView;
use crate::order::arranged;
use crate::order::comes_before;
use crate::order::is_ascending;
use crate::order::is_permutation;
use crate::order::is_stable_order;
use crate::order::lemma_arranged_keeps_elements;
use crate::order::lemma_ascending_keeps_order;
use crate::order::lemma_permutation_onto;
use crate::order::lemma_stable_order_ascends;
use crate::order::lemma_stable_order_unique;
use crate::score::rank_key;
use vstd::prelude::*;

verus! {

/// The rank keys of the scores of a pool, position by position.
pub open spec fn score_keys(pool: Seq<ItemView>, descending: bool) -> Seq<int> {
    Seq::new(pool.len(), |i: int| rank_key(pool[i].result, descending))
}

/// `ranked` holds the first `limit` items of `pool`, or all of them where
/// there are fewer, taken in the order `p`, which is the stable order of the
/// pool by rank key.
pub open spec fn ranking_through(
    pool: Seq<ItemView>,
    ranked: Seq<ItemView>,
    p: Seq<int>,
    descending: bool,
    limit: nat,
) -> bool {
    &&& is_stable_order(score_keys(pool, descending), p)
    &&& ranked.len() == if limit < pool.len() { limit } else { pool.len() }
    &&& forall|i: int| 0 <= i < ranked.len() ==> #[trigger] ranked[i] == pool[p[i]]
}

/// `ranked` is the ranking of `pool` cut to `limit` items: best score first,
/// equal scores in the order of the pool, NaN scores after every number.
/// With `descending` the higher score is the better one, else the lower.
pub open spec fn is_ranking(
    pool: Seq<ItemView>,
    ranked: Seq<ItemView>,
    descending: bool,
    limit: nat,
) -> bool {
    exists|p: Seq<int>| ranking_through(pool, ranked, p, descending, limit)
}

/// A pool has one ranking for each direction and limit.
pub proof fn lemma_ranking_unique(
    pool: Seq<ItemView>,
    first: Seq<ItemView>,
    second: Seq<ItemView>,
    descending: bool,
    limit: nat,
)
    requires
        is_ranking(pool, first, descending, limit),
        is_ranking(pool, second, descending, limit),
    ensures
        first == second,
{
    let p = choose|p: Seq<int>| ranking_through(pool, first, p, descending, limit);
    let q = choose|q: Seq<int>| ranking_through(pool, second, q, descending, limit);
    lemma_stable_order_unique(score_keys(pool, descending), p, q);
    assert(first =~= second);
}

/// A ranking with a limit is the beginning of the ranking of the whole pool.
pub proof fn lemma_ranking_is_prefix(
    pool: Seq<ItemView>,
    whole: Seq<ItemView>,
    cut: Seq<ItemView>,
    descending: bool,
    limit: nat,
)
    requires
        is_ranking(pool, whole, descending, pool.len()),
        is_ranking(pool, cut, descending, limit),
    ensures
        cut == whole.take(cut.len() as int),
        cut.len() == if limit < pool.len() {
            limit
        } else {
            pool.len()
        },
{
    let p = choose|p: Seq<int>| ranking_through(pool, whole, p, descending, pool.len());
    let q = choose|q: Seq<int>| ranking_through(pool, cut, q, descending, limit);
    lemma_stable_order_unique(score_keys(pool, descending), p, q);
    assert(cut =~= whole.take(cut.len() as int));
}

/// Along a ranking the rank keys never decrease: no item is followed by a
/// better one.
pub proof fn lemma_ranking_ascends(
    pool: Seq<ItemView>,
    ranked: Seq<ItemView>,
    descending: bool,
    limit: nat,
)
    requires
        is_ranking(pool, ranked, descending, limit),
    ensures
        is_ascending(score_keys(ranked, descending)),
{
    let p = choose|p: Seq<int>| ranking_through(pool, ranked, p, descending, limit);
    let keys = score_keys(pool, descending);
    lemma_stable_order_ascends(keys, p);
    let along = arranged(keys, p);
    let kept = score_keys(ranked, descending);
    assert forall|i: int, j: int| 0 <= i < j < kept.len() implies kept[i] <= kept[j] by {
        assert(ranked[i] == pool[p[i]]);
        assert(ranked[j] == pool[p[j]]);
        assert(along[i] <= along[j]);
    }
}

/// Ranking is idempotent: ranking a ranking again, in the same direction and
/// with the same limit, gives it back unchanged.
pub proof fn lemma_ranking_idempotent(
    pool: Seq<ItemView>,
    once: Seq<ItemView>,
    twice: Seq<ItemView>,
    descending: bool,
    limit: nat,
)
    requires
        is_ranking(pool, once, descending, limit),
        is_ranking(once, twice, descending, limit),
    ensures
        twice == once,
{
    lemma_ranking_ascends(pool, once, descending, limit);
    let q = choose|q: Seq<int>| ranking_through(once, twice, q, descending, limit);
    lemma_ascending_keeps_order(score_keys(once, descending), q);
    assert(twice =~= once);
}

/// A candidate that comes before every other one, because its score is
/// better than that of every earlier candidate and no worse than that of
/// every later one, is the first of the ranking. So a query that stands in
/// its own pool is its own nearest neighbour wherever no other candidate
/// scores better, and none before it as well.
pub proof fn lemma_ranking_starts_with_best(
    pool: Seq<ItemView>,
    ranked: Seq<ItemView>,
    descending: bool,
    limit: nat,
    best: int,
)
    requires
        is_ranking(pool, ranked, descending, limit),
        limit >= 1,
        0 <= best < pool.len(),
        forall|j: int|
            0 <= j < pool.len() && j != best ==> comes_before(
                score_keys(pool, descending),
                best,
                j,
            ),
    ensures
        ranked.len() >= 1,
        ranked[0] == pool[best],
{
    let p = choose|p: Seq<int>| ranking_through(pool, ranked, p, descending, limit);
    let keys = score_keys(pool, descending);
    lemma_permutation_onto(p, pool.len(), best);
    let m = choose|m: int| 0 <= m < pool.len() && p[m] == best;
    if m > 0 {
        assert(comes_before(keys, p[0], p[m]));
        assert(comes_before(keys, best, p[0]));
    }
}

/// With a limit that is no less than the size of the pool, the ranking is the
/// whole pool rearranged: it holds every item of the pool exactly as often as
/// the pool does, by ascending rank key.
pub proof fn lemma_full_ranking_permutes(
    pool: Seq<ItemView>,
    ranked: Seq<ItemView>,
    descending: bool,
    limit: nat,
)
    requires
        is_ranking(pool, ranked, descending, limit),
        limit >= pool.len(),
    ensures
        ranked.len() == pool.len(),
        ranked.to_multiset() == pool.to_multiset(),
        is_ascending(score_keys(ranked, descending)),
        exists|p: Seq<int>| is_permutation(p, pool.len()) && ranked == arranged(pool, p),
{
    let p = choose|p: Seq<int>| ranking_through(pool, ranked, p, descending, limit);
    assert(ranked =~= arranged(pool, p));
    lemma_arranged_keeps_elements(pool, p);
    lemma_ranking_ascends(pool, ranked, descending, limit);
    assert(is_permutation(p, pool.len()) && ranked == arranged(pool, p));
}

} // verus!
