//! K-nearest neighbours: score every item of a pool against a query, rank
//! the pool by score and keep the best.
use crate::models::views;
use crate::models::InputError;
use crate::models::Item;
use crate::models::ItemView;
use crate::similarity::check_lengths;
use crate::similarity::SimilarityAlgos;
use crate::ranking::is_ranking;
use crate::utils::sort_and_trucate;
use vstd::prelude::*;

verus! {

/// A query, the pool to search, the metric to score by and the number of
/// neighbours to keep.
pub struct KNN {
    query_item: Item,
    neighbors_pool: Vec<Item>,
    algorithm: SimilarityAlgos,
    num_neighbors: usize,
}

/// The pool with the score of each item replaced by the one in `scores`.
pub open spec fn scored(pool: Seq<ItemView>, scores: Seq<u32>) -> Seq<ItemView> {
    Seq::new(
        pool.len(),
        |i: int| ItemView { id: pool[i].id, values: pool[i].values, result: scores[i] },
    )
}

impl KNN {
    /// The item that neighbours are sought for.
    pub closed spec fn query(&self) -> Item {
        self.query_item
    }

    /// The candidates, in the order they were given.
    pub closed spec fn pool(&self) -> Seq<Item> {
        self.neighbors_pool@
    }

    /// The metric that names the direction of the ranking.
    pub closed spec fn metric(&self) -> SimilarityAlgos {
        self.algorithm
    }

    /// How many neighbours a result holds at most.
    pub closed spec fn limit(&self) -> nat {
        self.num_neighbors as nat
    }

    /// Every candidate has as many components as the query.
    pub open spec fn shapes_agree(&self) -> bool {
        forall|i: int|
            0 <= i < self.pool().len() ==> (#[trigger] self.pool()[i]).values@.len()
                == self.query().values@.len()
    }

    /// `scores` holds, for each candidate in turn, a score that `metric`
    /// gives the query and that candidate.
    pub open spec fn scored_by<F: Fn(&Vec<u32>, &Vec<u32>) -> u32>(
        &self,
        metric: F,
        scores: Seq<u32>,
    ) -> bool {
        &&& scores.len() == self.pool().len()
        &&& forall|i: int|
            0 <= i < scores.len() ==> metric.ensures(
                (&self.query().values, &self.pool()[i].values),
                #[trigger] scores[i],
            )
    }

    /// The item that neighbours are sought for.
    pub fn query_item(&self) -> (item: &Item)
        ensures
            *item == self.query(),
    {
        &self.query_item
    }

    /// The candidates.
    pub fn neighbors_pool(&self) -> (pool: &Vec<Item>)
        ensures
            pool@ == self.pool(),
    {
        &self.neighbors_pool
    }

    /// The metric that the search names.
    pub fn algorithm(&self) -> (algorithm: SimilarityAlgos)
        ensures
            algorithm == self.metric(),
    {
        self.algorithm
    }

    /// How many neighbours a result holds at most.
    pub fn num_neighbors(&self) -> (limit: usize)
        ensures
            limit == self.limit(),
    {
        self.num_neighbors
    }

    /// A search of `neighbors_pool` by cosine similarity that keeps every
    /// candidate.
    pub fn new(query_item: Item, neighbors_pool: Vec<Item>) -> (knn: Self)
        ensures
            knn.query() == query_item,
            knn.pool() == neighbors_pool@,
            knn.metric() == SimilarityAlgos::Cosine,
            knn.limit() == neighbors_pool@.len(),
    {
        let num_neighbors: usize = neighbors_pool.len();
        KNN { query_item, neighbors_pool, algorithm: SimilarityAlgos::Cosine, num_neighbors }
    }

    /// The same search by another metric.
    pub fn set_algorithm(self, algorithm: SimilarityAlgos) -> (knn: Self)
        ensures
            knn.query() == self.query(),
            knn.pool() == self.pool(),
            knn.metric() == algorithm,
            knn.limit() == self.limit(),
    {
        KNN {
            query_item: self.query_item,
            neighbors_pool: self.neighbors_pool,
            algorithm,
            num_neighbors: self.num_neighbors,
        }
    }

    /// The same search keeping at most `num_neighbors` candidates.
    pub fn set_num_neighbors(self, num_neighbors: usize) -> (knn: Self)
        ensures
            knn.query() == self.query(),
            knn.pool() == self.pool(),
            knn.metric() == self.metric(),
            knn.limit() == num_neighbors,
    {
        KNN {
            query_item: self.query_item,
            neighbors_pool: self.neighbors_pool,
            algorithm: self.algorithm,
            num_neighbors,
        }
    }

    /// The neighbours for scores computed elsewhere: `scores` holds the score
    /// of each candidate in turn. The candidates are copied with their scores
    /// and ranked, best first, in the direction of the metric; the first
    /// `limit` are returned. Refused when a candidate and the query differ in
    /// length, or when there is not one score for each candidate.
    pub fn result_from_scores(&self, scores: &Vec<u32>) -> (outcome: Result<Vec<Item>, InputError>)
        ensures
            match outcome {
                Ok(neighbors) => {
                    &&& self.shapes_agree()
                    &&& scores@.len() == self.pool().len()
                    &&& is_ranking(
                        scored(views(self.pool()), scores@),
                        views(neighbors@),
                        self.metric().is_similarity(),
                        self.limit(),
                    )
                },
                Err(e) => {
                    &&& e == InputError::LengthMismatch
                    &&& !(self.shapes_agree() && scores@.len() == self.pool().len())
                },
            },
    {
        let count: usize = self.neighbors_pool.len();
        if scores.len() != count {
            return Err(InputError::LengthMismatch);
        }
        let width: usize = self.query_item.values.len();
        let mut best_matches: Vec<Item> = Vec::new();
        let mut i: usize = 0;
        while i < count
            invariant
                i <= count,
                count == self.neighbors_pool@.len(),
                count == scores@.len(),
                width == self.query_item.values@.len(),
                best_matches@.len() == i,
                forall|j: int|
                    0 <= j < i ==> (#[trigger] self.neighbors_pool@[j]).values@.len() == width,
                forall|j: int|
                    0 <= j < i ==> (#[trigger] best_matches@[j])@ == scored(
                        views(self.neighbors_pool@),
                        scores@,
                    )[j],
            decreases count - i,
        {
            let candidate = &self.neighbors_pool[i];
            if check_lengths(width, candidate.values.len()).is_err() {
                proof {
                    assert(self.pool()[i as int].values@.len() != self.query().values@.len());
                }
                return Err(InputError::LengthMismatch);
            }
            best_matches.push(candidate.clone().result(scores[i]));
            i = i + 1;
        }
        proof {
            assert(views(best_matches@) =~= scored(views(self.neighbors_pool@), scores@));
        }
        Ok(sort_and_trucate(best_matches, self.algorithm.higher_is_better(), self.num_neighbors))
    }

    /// The neighbours of the query: every candidate is scored by one call of
    /// `metric` on the query's vector and its own, then the pool is ranked as
    /// `result_from_scores` says. `metric` must compute the metric that the
    /// search names; it is called on vectors of one length only, and not at
    /// all once a candidate of another length is met.
    pub fn result<F>(&self, metric: F) -> (outcome: Result<Vec<Item>, InputError>) where
        F: Fn(&Vec<u32>, &Vec<u32>) -> u32,

        requires
            forall|u: &Vec<u32>, v: &Vec<u32>| u@.len() == v@.len() ==> metric.requires((u, v)),
        ensures
            match outcome {
                Ok(neighbors) => {
                    &&& self.shapes_agree()
                    &&& exists|scores: Seq<u32>|
                        {
                            &&& self.scored_by(metric, scores)
                            &&& #[trigger] is_ranking(
                                scored(views(self.pool()), scores),
                                views(neighbors@),
                                self.metric().is_similarity(),
                                self.limit(),
                            )
                        }
                },
                Err(e) => e == InputError::LengthMismatch && !self.shapes_agree(),
            },
    {
        let count: usize = self.neighbors_pool.len();
        let mut scores: Vec<u32> = Vec::new();
        let mut i: usize = 0;
        while i < count
            invariant
                i <= count,
                count == self.neighbors_pool@.len(),
                scores@.len() == i,
                forall|u: &Vec<u32>, v: &Vec<u32>|
                    u@.len() == v@.len() ==> metric.requires((u, v)),
                forall|j: int|
                    0 <= j < i ==> (#[trigger] self.neighbors_pool@[j]).values@.len()
                        == self.query_item.values@.len(),
                forall|j: int|
                    0 <= j < i ==> metric.ensures(
                        (&self.query_item.values, &self.neighbors_pool@[j].values),
                        #[trigger] scores@[j],
                    ),
            decreases count - i,
        {
            let candidate = &self.neighbors_pool[i];
            if check_lengths(self.query_item.values.len(), candidate.values.len()).is_err() {
                proof {
                    assert(self.pool()[i as int].values@.len() != self.query().values@.len());
                }
                return Err(InputError::LengthMismatch);
            }
            let score: u32 = metric(&self.query_item.values, &candidate.values);
            scores.push(score);
            i = i + 1;
        }
        let outcome = self.result_from_scores(&scores);
        proof {
            assert(self.shapes_agree());
            assert(self.scored_by(metric, scores@));
        }
        outcome
    }
}

} // verus!
