//! The catalogue of metrics, and the parts of them that are integer work.
use crate::models::InputError;
use crate::order::identity;
use crate::order::is_permutation;
use crate::order::lemma_permutation_onto;
use crate::order::lemma_permutation_without_last;
use crate::order::lemma_places_are_ranks;
use crate::order::ranks_of;
use crate::utils::argsort;
use crate::utils::no_nan;
use crate::utils::numeric_keys;
use crate::sorting::positions;
use vstd::prelude::*;

verus! {

/// The metrics by which neighbours can be scored.
#[derive(Debug, Clone, Copy, PartialEq, Eq, Structural)]
pub enum SimilarityAlgos {
    Euclidean,
    Cosine,
    AdjustedCosine,
    PearsonCorrelation,
    Spearman,
    MSD,
}

impl SimilarityAlgos {
    /// Whether the metric is a similarity, so that the higher score is the
    /// better one. Only the Euclidean distance is not.
    pub open spec fn is_similarity(self) -> bool {
        self != SimilarityAlgos::Euclidean
    }

    /// Whether a ranking by this metric puts the highest score first.
    pub fn higher_is_better(&self) -> (descending: bool)
        ensures
            descending == self.is_similarity(),
    {
        match self {
            SimilarityAlgos::Euclidean => false,
            SimilarityAlgos::Cosine => true,
            SimilarityAlgos::AdjustedCosine => true,
            SimilarityAlgos::PearsonCorrelation => true,
            SimilarityAlgos::Spearman => true,
            SimilarityAlgos::MSD => true,
        }
    }
}

/// Accepts two vectors for a metric only when they have the same length.
pub fn check_lengths(left: usize, right: usize) -> (outcome: Result<(), InputError>)
    ensures
        outcome == (if left == right {
            Ok::<(), InputError>(())
        } else {
            Err::<(), InputError>(InputError::LengthMismatch)
        }),
{
    if left == right {
        Ok(())
    } else {
        Err(InputError::LengthMismatch)
    }
}

/// The sum of the squared differences of two sequences of ranks, place by
/// place.
pub open spec fn squared_distance(r: Seq<int>, s: Seq<int>) -> int
    decreases r.len(),
{
    if r.len() == 0 || s.len() != r.len() {
        0
    } else {
        squared_distance(r.drop_last(), s.drop_last()) + (r.last() - s.last()) * (r.last()
            - s.last())
    }
}

/// The sum of the squares of `2 * r[i] - c`: four times the squared distances
/// of the ranks from the centre `c / 2`.
pub open spec fn spread(r: Seq<int>, c: int) -> int
    decreases r.len(),
{
    if r.len() == 0 {
        0
    } else {
        spread(r.drop_last(), c) + (2 * r.last() - c) * (2 * r.last() - c)
    }
}

proof fn lemma_distance_within_spread(r: Seq<int>, s: Seq<int>, c: int)
    requires
        r.len() == s.len(),
    ensures
        0 <= 2 * squared_distance(r, s) <= spread(r, c) + spread(s, c),
    decreases r.len(),
{
    if r.len() > 0 {
        lemma_distance_within_spread(r.drop_last(), s.drop_last(), c);
        let a = r.last();
        let b = s.last();
        assert(0 <= 2 * ((a - b) * (a - b)) <= (2 * a - c) * (2 * a - c) + (2 * b - c) * (2 * b
            - c)) by (nonlinear_arith);
    }
}

proof fn lemma_spread_without(r: Seq<int>, c: int, m: int)
    requires
        0 <= m < r.len(),
    ensures
        spread(r, c) == spread(r.remove(m), c) + (2 * r[m] - c) * (2 * r[m] - c),
    decreases r.len(),
{
    if m == r.len() - 1 {
        assert(r.remove(m) =~= r.drop_last());
    } else {
        lemma_spread_without(r.drop_last(), c, m);
        assert(r.remove(m).drop_last() =~= r.drop_last().remove(m));
        assert(r.remove(m).last() == r.last());
    }
}

proof fn lemma_spread_of_permutation(r: Seq<int>, n: nat, c: int)
    requires
        is_permutation(r, n),
    ensures
        spread(r, c) == spread(identity(n), c),
    decreases n,
{
    if n > 0 {
        let last = n - 1;
        lemma_permutation_onto(r, n, last);
        let m = choose|m: int| 0 <= m < n && r[m] == last;
        lemma_permutation_without_last(r, n, m);
        lemma_spread_of_permutation(r.remove(m), last as nat, c);
        lemma_spread_without(r, c, m);
        assert(identity(n).drop_last() =~= identity(last as nat));
    }
}

proof fn lemma_spread_of_identity(m: nat, c: int)
    ensures
        3 * spread(identity(m), c) == 4 * (m * m * m) - 6 * (m * m) + 2 * m - 6 * (c * (m * m))
            + 6 * (c * m) + 3 * (m * (c * c)),
    decreases m,
{
    if m > 0 {
        let k = m - 1;
        lemma_spread_of_identity(k as nat, c);
        assert(identity(m).drop_last() =~= identity(k as nat));
        assert(identity(m).last() == k);
        assert(m * m == k * k + 2 * k + 1) by (nonlinear_arith)
            requires
                m == k + 1,
        ;
        assert(m * m * m == k * k * k + 3 * (k * k) + 3 * k + 1) by (nonlinear_arith)
            requires
                m == k + 1,
        ;
        assert(c * m == c * k + c) by (nonlinear_arith)
            requires
                m == k + 1,
        ;
        assert(c * (m * m) == c * (k * k) + 2 * (c * k) + c) by (nonlinear_arith)
            requires
                m == k + 1,
        ;
        assert(m * (c * c) == k * (c * c) + c * c) by (nonlinear_arith)
            requires
                m == k + 1,
        ;
        assert((2 * k - c) * (2 * k - c) == 4 * (k * k) - 4 * (c * k) + c * c)
            by (nonlinear_arith);
    } else {
        assert(m * m == 0 && m * m * m == 0 && c * m == 0 && c * (m * m) == 0 && m * (c * c)
            == 0) by (nonlinear_arith)
            requires
                m == 0,
        ;
    }
}

/// Two rankings of `n` things are never further apart than a ranking and
/// its reverse: three times the sum of the squared rank differences is at
/// most `n * (n * n - 1)`. Spearman's coefficient, which is 1 less six times
/// that sum over `n * (n * n - 1)`, therefore lies between -1 and 1.
pub proof fn lemma_rank_distance_bounded(r: Seq<int>, s: Seq<int>, n: nat)
    requires
        is_permutation(r, n),
        is_permutation(s, n),
    ensures
        0 <= 3 * squared_distance(r, s) <= n * (n * n - 1),
{
    let c = n - 1;
    lemma_distance_within_spread(r, s, c);
    lemma_spread_of_permutation(r, n, c);
    lemma_spread_of_permutation(s, n, c);
    lemma_spread_of_identity(n, c);
    let d = squared_distance(r, s);
    let whole = spread(identity(n), c);
    assert(3 * whole == n * (n * n - 1)) by (nonlinear_arith)
        requires
            c == n - 1,
            3 * whole == 4 * (n * n * n) - 6 * (n * n) + 2 * n - 6 * (c * (n * n)) + 6 * (c * n)
                + 3 * (n * (c * c)),
    ;
}

/// The rank of every component of the vector: its place, counted from 0,
/// when the components are put in ascending order, equal values in the order
/// of their positions.
pub fn spearman_rank(x: &[u32]) -> (ranks: Vec<usize>)
    requires
        no_nan(x@),
    ensures
        positions(ranks@) == ranks_of(numeric_keys(x@)),
        is_permutation(positions(ranks@), x@.len()),
{
    let order = argsort(x);
    let n: usize = order.len();
    let mut ranks: Vec<usize> = Vec::new();
    let mut i: usize = 0;
    while i < n
        invariant
            i <= n,
            ranks@.len() == i,
        decreases n - i,
    {
        ranks.push(0);
        i = i + 1;
    }
    let ghost p = positions(order@);
    let mut k: usize = 0;
    while k < n
        invariant
            k <= n,
            n == order@.len(),
            n == x@.len(),
            ranks@.len() == n,
            p == positions(order@),
            is_permutation(p, n as nat),
            forall|j: int| 0 <= j < k ==> ranks@[#[trigger] p[j]] == j,
        decreases n - k,
    {
        let place: usize = order[k];
        proof {
            assert(p[k as int] == place);
            assert forall|j: int| 0 <= j < k implies #[trigger] p[j] != place by {
                assert(p[j] != p[k as int]);
            }
        }
        ranks[place] = k;
        k = k + 1;
    }
    proof {
        let r = positions(ranks@);
        assert forall|j: int| 0 <= j < p.len() implies r[#[trigger] p[j]] == j by {
            assert(ranks@[p[j]] == j);
        }
        lemma_places_are_ranks(numeric_keys(x@), p, r);
    }
    ranks
}

/// The sum of the squared rank differences of two vectors, from which
/// Spearman's coefficient is `1 - 6 * sum / (n * (n * n - 1))`. Vectors of
/// different lengths are refused. Three times the sum is at most
/// `n * (n * n - 1)`, so the coefficient lies between -1 and 1.
pub fn spearman_rank_distance(u: &[u32], v: &[u32]) -> (outcome: Result<u128, InputError>)
    requires
        no_nan(u@),
        no_nan(v@),
        u@.len() <= u32::MAX,
    ensures
        match outcome {
            Ok(sum) => {
                &&& u@.len() == v@.len()
                &&& sum == squared_distance(
                    ranks_of(numeric_keys(u@)),
                    ranks_of(numeric_keys(v@)),
                )
                &&& 3 * sum <= u@.len() * (u@.len() * u@.len() - 1)
            },
            Err(e) => e == InputError::LengthMismatch && u@.len() != v@.len(),
        },
{
    if check_lengths(u.len(), v.len()).is_err() {
        return Err(InputError::LengthMismatch);
    }
    let ranks_u = spearman_rank(u);
    let ranks_v = spearman_rank(v);
    let n: usize = ranks_u.len();
    let ghost r = positions(ranks_u@);
    let ghost s = positions(ranks_v@);
    let mut sum: u128 = 0;
    let mut i: usize = 0;
    while i < n
        invariant
            i <= n,
            n <= u32::MAX,
            n == ranks_u@.len(),
            n == ranks_v@.len(),
            r == positions(ranks_u@),
            s == positions(ranks_v@),
            is_permutation(r, n as nat),
            is_permutation(s, n as nat),
            sum == squared_distance(r.take(i as int), s.take(i as int)),
            sum <= i * 0x1_0000_0000_0000_0000,
        decreases n - i,
    {
        let a: usize = ranks_u[i];
        let b: usize = ranks_v[i];
        let gap: u128 = if a < b {
            (b - a) as u128
        } else {
            (a - b) as u128
        };
        proof {
            assert(r[i as int] == a && s[i as int] == b);
            assert(0 <= r[i as int] < n && 0 <= s[i as int] < n);
            assert(gap * gap == (r[i as int] - s[i as int]) * (r[i as int] - s[i as int]))
                by (nonlinear_arith)
                requires
                    gap == r[i as int] - s[i as int] || gap == s[i as int] - r[i as int],
            ;
            assert(gap * gap <= 0x1_0000_0000_0000_0000) by (nonlinear_arith)
                requires
                    0 <= gap < 0x1_0000_0000,
            ;
            assert(r.take(i + 1).drop_last() =~= r.take(i as int));
            assert(s.take(i + 1).drop_last() =~= s.take(i as int));
            assert(i * 0x1_0000_0000_0000_0000 + 0x1_0000_0000_0000_0000 == (i + 1)
                * 0x1_0000_0000_0000_0000) by (nonlinear_arith);
            assert(i * 0x1_0000_0000_0000_0000 <= 0x1_0000_0000 * 0x1_0000_0000_0000_0000)
                by (nonlinear_arith)
                requires
                    i <= 0x1_0000_0000,
            ;
        }
        sum = sum + gap * gap;
        i = i + 1;
    }
    proof {
        assert(r.take(n as int) =~= r);
        assert(s.take(n as int) =~= s);
        lemma_rank_distance_bounded(r, s, n as nat);
    }
    Ok(sum)
}

/// The number of pairs behind a correlation of `n` pairs that a shrinkage is
/// weighed against: `n - 1`, and 0 where there is no pair at all.
pub fn adjusted_intersection(n: usize) -> (pairs: usize)
    ensures
        pairs == if n == 0 {
            0
        } else {
            n - 1
        },
{
    if n == 0 {
        0
    } else {
        n - 1
    }
}

/// The label that stands at place `k` of a table of all labels.
pub open spec fn label_at(k: int) -> i8 {
    (k - 128) as i8
}

/// The labels below place `upto` of the table that `wanted` holds.
pub open spec fn labels_below(wanted: Set<i8>, upto: int) -> Set<i8> {
    Set::new(|x: i8| x + 128 < upto && wanted.contains(x))
}

/// For every label, whether it occurs among `labels`: entry `k` of the table
/// answers for the label `k - 128`.
pub fn presence(labels: &[i8]) -> (table: Vec<bool>)
    ensures
        table@.len() == 256,
        forall|k: int| 0 <= k < 256 ==> #[trigger] table@[k] == labels@.contains(label_at(k)),
{
    let mut table: Vec<bool> = Vec::new();
    let mut k: usize = 0;
    while k < 256
        invariant
            k <= 256,
            table@.len() == k,
            forall|t: int| 0 <= t < k ==> !(#[trigger] table@[t]),
        decreases 256 - k,
    {
        table.push(false);
        k = k + 1;
    }
    let mut i: usize = 0;
    while i < labels.len()
        invariant
            i <= labels@.len(),
            table@.len() == 256,
            forall|t: int|
                0 <= t < 256 ==> #[trigger] table@[t] == labels@.take(i as int).contains(
                    label_at(t),
                ),
        decreases labels@.len() - i,
    {
        let place: usize = (labels[i] as i16 + 128) as usize;
        proof {
            let seen = labels@.take(i as int);
            let more = labels@.take(i + 1);
            assert(more =~= seen.push(labels@[i as int]));
            assert(label_at(place as int) == labels@[i as int]);
            assert forall|t: int| 0 <= t < 256 implies more.contains(label_at(t)) == (t == place
                || seen.contains(label_at(t))) by {
                if seen.contains(label_at(t)) {
                    let j = choose|j: int| 0 <= j < seen.len() && seen[j] == label_at(t);
                    assert(more[j] == label_at(t));
                }
                if t == place {
                    assert(more[i as int] == label_at(t));
                }
                if more.contains(label_at(t)) {
                    let j = choose|j: int| 0 <= j < more.len() && more[j] == label_at(t);
                    if j < i {
                        assert(seen[j] == label_at(t));
                    }
                }
            }
        }
        table[place] = true;
        i = i + 1;
    }
    proof {
        assert(labels@.take(i as int) =~= labels@);
    }
    table
}

/// The two counts of Jaccard's index: how many labels the two collections
/// share, and how many occur in either. A label that is repeated counts once.
pub fn jaccard_counts(a: &[i8], b: &[i8]) -> (counts: (usize, usize))
    ensures
        counts.0 == a@.to_set().intersect(b@.to_set()).len(),
        counts.1 == a@.to_set().union(b@.to_set()).len(),
{
    let in_a = presence(a);
    let in_b = presence(b);
    let ghost shared = a@.to_set().intersect(b@.to_set());
    let ghost either = a@.to_set().union(b@.to_set());
    let mut both: usize = 0;
    let mut any: usize = 0;
    let mut k: usize = 0;
    proof {
        assert(labels_below(shared, 0) =~= Set::<i8>::empty());
        assert(labels_below(either, 0) =~= Set::<i8>::empty());
    }
    while k < 256
        invariant
            k <= 256,
            in_a@.len() == 256,
            in_b@.len() == 256,
            forall|t: int| 0 <= t < 256 ==> #[trigger] in_a@[t] == a@.contains(label_at(t)),
            forall|t: int| 0 <= t < 256 ==> #[trigger] in_b@[t] == b@.contains(label_at(t)),
            shared == a@.to_set().intersect(b@.to_set()),
            either == a@.to_set().union(b@.to_set()),
            labels_below(shared, k as int).finite(),
            labels_below(either, k as int).finite(),
            both == labels_below(shared, k as int).len(),
            any == labels_below(either, k as int).len(),
            both <= k,
            any <= k,
        decreases 256 - k,
    {
        let ghost label = label_at(k as int);
        proof {
            assert(label + 128 == k);
            if shared.contains(label) {
                assert(labels_below(shared, k + 1) =~= labels_below(shared, k as int).insert(
                    label,
                ));
            } else {
                assert(labels_below(shared, k + 1) =~= labels_below(shared, k as int));
            }
            if either.contains(label) {
                assert(labels_below(either, k + 1) =~= labels_below(either, k as int).insert(
                    label,
                ));
            } else {
                assert(labels_below(either, k + 1) =~= labels_below(either, k as int));
            }
        }
        if in_a[k] && in_b[k] {
            both = both + 1;
        }
        if in_a[k] || in_b[k] {
            any = any + 1;
        }
        k = k + 1;
    }
    proof {
        assert(labels_below(shared, 256) =~= shared);
        assert(labels_below(either, 256) =~= either);
    }
    (both, any)
}

} // verus!
