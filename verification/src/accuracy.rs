//! Measures of how well recommendations hit, in whole numbers.
use vstd::prelude::*;

verus! {

/// The sum of the numbers.
pub open spec fn total(numbers: Seq<u32>) -> int
    decreases numbers.len(),
{
    if numbers.len() == 0 {
        0
    } else {
        total(numbers.drop_last()) + numbers.last()
    }
}

/// The sum of the whole-number reciprocals `1 / rank`: a hit at rank 1
/// counts 1, and a hit at any lower place counts nothing.
pub open spec fn reciprocal_total(ranks: Seq<u32>) -> int
    decreases ranks.len(),
{
    if ranks.len() == 0 {
        0
    } else {
        reciprocal_total(ranks.drop_last()) + 1int / (ranks.last() as int)
    }
}

/// How many of the first `upto` predicted items are among the true items.
pub open spec fn hits_among(predicted: Seq<u32>, true_items: Seq<u32>, upto: int) -> int
    decreases upto,
{
    if upto <= 0 {
        0
    } else {
        hits_among(predicted, true_items, upto - 1) + if true_items.contains(predicted[upto - 1]) {
            1int
        } else {
            0int
        }
    }
}

/// A sum is no less than the sum of any of its beginnings.
pub proof fn lemma_total_grows(numbers: Seq<u32>, upto: int)
    requires
        0 <= upto <= numbers.len(),
    ensures
        0 <= total(numbers.take(upto)) <= total(numbers),
    decreases numbers.len(),
{
    if upto == numbers.len() {
        assert(numbers.take(upto) =~= numbers);
        if upto > 0 {
            lemma_total_grows(numbers.drop_last(), upto - 1);
        }
    } else {
        lemma_total_grows(numbers.drop_last(), upto);
        assert(numbers.drop_last().take(upto) =~= numbers.take(upto));
    }
}

/// A sum of reciprocals is no less than that of any of its beginnings, and
/// no more than the number of ranks.
pub proof fn lemma_reciprocal_total_grows(ranks: Seq<u32>, upto: int)
    requires
        0 <= upto <= ranks.len(),
        forall|i: int| 0 <= i < ranks.len() ==> ranks[i] != 0,
    ensures
        0 <= reciprocal_total(ranks.take(upto)) <= reciprocal_total(ranks) <= ranks.len(),
    decreases ranks.len(),
{
    if ranks.len() > 0 {
        let last = ranks.last() as int;
        assert(0 <= 1int / last <= 1) by (nonlinear_arith)
            requires
                last >= 1,
        ;
    }
    if upto == ranks.len() {
        assert(ranks.take(upto) =~= ranks);
        if upto > 0 {
            lemma_reciprocal_total_grows(ranks.drop_last(), upto - 1);
        }
    } else {
        lemma_reciprocal_total_grows(ranks.drop_last(), upto);
        assert(ranks.drop_last().take(upto) =~= ranks.take(upto));
    }
}

/// Average reciprocal hit rate in whole numbers: the sum of `1 / rank` over
/// the hits, divided by the number of users.
pub fn arhr(hits_ranks: Vec<u32>, number_users: u32) -> (rate: u32)
    requires
        forall|i: int| 0 <= i < hits_ranks@.len() ==> hits_ranks@[i] != 0,
        reciprocal_total(hits_ranks@) <= u32::MAX,
        number_users != 0,
    ensures
        rate == reciprocal_total(hits_ranks@) / (number_users as int),
{
    let mut sum: u32 = 0;
    let mut i: usize = 0;
    while i < hits_ranks.len()
        invariant
            i <= hits_ranks@.len(),
            forall|j: int| 0 <= j < hits_ranks@.len() ==> hits_ranks@[j] != 0,
            reciprocal_total(hits_ranks@) <= u32::MAX,
            sum == reciprocal_total(hits_ranks@.take(i as int)),
        decreases hits_ranks@.len() - i,
    {
        proof {
            lemma_reciprocal_total_grows(hits_ranks@, i + 1);
            assert(hits_ranks@.take(i + 1).drop_last() =~= hits_ranks@.take(i as int));
        }
        sum = sum + 1 / hits_ranks[i];
        i = i + 1;
    }
    proof {
        assert(hits_ranks@.take(i as int) =~= hits_ranks@);
    }
    sum / number_users
}

/// Hit rate in whole numbers: hits per user.
pub fn hit_rate(number_hits: u32, number_users: u32) -> (rate: u32)
    requires
        number_users != 0,
    ensures
        rate == number_hits / number_users,
{
    number_hits / number_users
}

/// Hit rate in whole numbers from one count of hits per entry of `hits`,
/// divided by the number of users, which is the length of `users` as far as
/// 32 bits hold it.
pub fn vec_hit_rate(hits: Vec<u32>, users: Vec<u32>) -> (rate: u32)
    requires
        total(hits@) <= u32::MAX,
        users@.len() as u32 != 0,
    ensures
        rate == total(hits@) / ((users@.len() as u32) as int),
{
    let mut sum: u32 = 0;
    let mut i: usize = 0;
    while i < hits.len()
        invariant
            i <= hits@.len(),
            total(hits@) <= u32::MAX,
            sum == total(hits@.take(i as int)),
        decreases hits@.len() - i,
    {
        proof {
            lemma_total_grows(hits@, i + 1);
            assert(hits@.take(i + 1).drop_last() =~= hits@.take(i as int));
        }
        sum = sum + hits[i];
        i = i + 1;
    }
    proof {
        assert(hits@.take(i as int) =~= hits@);
    }
    let divisor: u32 = #[verifier::truncate]
    (users.len() as u32);
    sum / divisor
}

/// How many of the predicted items are among the true items, each predicted
/// item counted as often as it was predicted.
pub fn cumulative_hits(predicted_items: &[u32], true_items: &[u32]) -> (hits: usize)
    ensures
        hits == hits_among(predicted_items@, true_items@, predicted_items@.len() as int),
{
    let mut hits: usize = 0;
    let mut i: usize = 0;
    while i < predicted_items.len()
        invariant
            i <= predicted_items@.len(),
            hits == hits_among(predicted_items@, true_items@, i as int),
            hits <= i,
        decreases predicted_items@.len() - i,
    {
        let wanted: u32 = predicted_items[i];
        let mut found: bool = false;
        let mut j: usize = 0;
        while j < true_items.len() && !found
            invariant
                j <= true_items@.len(),
                found ==> true_items@.contains(wanted),
                !found ==> forall|k: int| 0 <= k < j ==> true_items@[k] != wanted,
            decreases true_items@.len() - j, (if found { 0int } else { 1int }),
        {
            if true_items[j] == wanted {
                found = true;
            } else {
                j = j + 1;
            }
        }
        if found {
            hits = hits + 1;
        }
        i = i + 1;
    }
    hits
}

} // verus!
