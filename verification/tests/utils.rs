use rec_rsys::models::InputError;
use rec_rsys::models::Item;
use rec_rsys::utils::rank_and_truncate;
use rec_rsys::utils::sort_and_trucate;
use rec_rsys::utils::sort_by_score;
use rec_rsys::utils::sort_with_direction;
use std::cmp::Ordering;

fn bits(values: &[f32]) -> Vec<u32> {
    values.iter().map(|x| x.to_bits()).collect()
}

fn scored(id: u32, score: f32) -> Item {
    Item::new(id, Vec::new(), Some(score.to_bits()))
}

fn ids(items: &[Item]) -> Vec<u32> {
    items.iter().map(|item| item.id).collect()
}

#[test]
fn test_sort_with_direction_ascending() {
    let mut numbers: Vec<u8> = vec![4, 2, 8, 5, 1];
    sort_with_direction(&mut numbers, |a, b| a.cmp(b), false);
    assert_eq!(numbers, vec![1, 2, 4, 5, 8],);
}

#[test]
fn test_sort_with_direction_descending() {
    let mut numbers: Vec<u8> = vec![4, 2, 8, 5, 1];
    sort_with_direction(&mut numbers, |a, b| a.cmp(b), true);
    assert_eq!(numbers, vec![8, 5, 4, 2, 1],);
}

#[test]
fn test_sort_and_trucate() {
    let item1 = Item::new(
        1,
        bits(&[0.9193, 0.9097, 0.4990, 0.3292, 0.8811]),
        Some(1.0f32.to_bits()),
    );
    let item2 = Item::new(
        2,
        bits(&[0.9826, 0.9977, 0.6924, 0.7509, 0.7644]),
        Some(0.33f32.to_bits()),
    );
    let item3 = Item::new(
        3,
        bits(&[0.4817, 0.7548, 0.1974, 0.2229, 0.1256]),
        Some(0.0f32.to_bits()),
    );
    assert_eq!(
        sort_and_trucate(vec![item1.clone(), item2.clone(), item3], true, 2),
        vec![item1, item2]
    );
}

#[test]
fn sort_with_direction_is_stable() {
    let mut pairs: Vec<(u8, char)> = vec![(2, 'a'), (1, 'b'), (2, 'c'), (1, 'd'), (2, 'e')];
    sort_with_direction(&mut pairs, |a, b| a.0.cmp(&b.0), false);
    assert_eq!(pairs, vec![(1, 'b'), (1, 'd'), (2, 'a'), (2, 'c'), (2, 'e')]);
    sort_with_direction(&mut pairs, |a, b| a.0.cmp(&b.0), true);
    assert_eq!(pairs, vec![(2, 'a'), (2, 'c'), (2, 'e'), (1, 'b'), (1, 'd')]);
}

#[test]
fn sort_with_direction_on_empty_and_single() {
    let mut none: Vec<u8> = Vec::new();
    sort_with_direction(&mut none, |a, b| a.cmp(b), false);
    assert!(none.is_empty());
    let mut one: Vec<u8> = vec![7];
    sort_with_direction(&mut one, |a, b| a.cmp(b), true);
    assert_eq!(one, vec![7]);
}

#[test]
fn ranking_puts_nan_last_in_both_directions() {
    let pool = || {
        vec![
            scored(1, f32::NAN),
            scored(2, 0.5),
            scored(3, -f32::NAN),
            scored(4, f32::INFINITY),
            scored(5, f32::NEG_INFINITY),
            scored(6, -1.0),
        ]
    };
    let ascending = rank_and_truncate(pool(), true, 6).unwrap();
    assert_eq!(ids(&ascending), vec![5, 6, 2, 4, 1, 3]);
    let descending = rank_and_truncate(pool(), false, 6).unwrap();
    assert_eq!(ids(&descending), vec![4, 2, 6, 5, 1, 3]);
    let top = rank_and_truncate(pool(), false, 4).unwrap();
    assert_eq!(ids(&top), vec![4, 2, 6, 5]);
}

#[test]
fn ranking_keeps_ties_in_pool_order() {
    let pool = vec![scored(1, 0.5), scored(2, 0.25), scored(3, 0.5), scored(4, 0.25)];
    assert_eq!(ids(&rank_and_truncate(pool.clone(), true, 10).unwrap()), vec![2, 4, 1, 3]);
    assert_eq!(ids(&rank_and_truncate(pool, false, 10).unwrap()), vec![1, 3, 2, 4]);
}

#[test]
fn ranking_tells_the_zeros_apart() {
    let pool = vec![scored(1, 0.0), scored(2, -0.0), scored(3, 0.0)];
    assert_eq!(ids(&rank_and_truncate(pool.clone(), true, 3).unwrap()), vec![2, 1, 3]);
    assert_eq!(ids(&rank_and_truncate(pool, false, 3).unwrap()), vec![1, 3, 2]);
}

#[test]
fn rank_and_truncate_refuses_negative_limit() {
    let pool = vec![scored(1, 0.5)];
    assert_eq!(rank_and_truncate(pool.clone(), true, -1).unwrap_err(), InputError::InvalidArgument);
    assert_eq!(rank_and_truncate(pool, false, i64::MIN).unwrap_err(), InputError::InvalidArgument);
}

#[test]
fn rank_and_truncate_limits() {
    let pool = vec![scored(1, 3.0), scored(2, 1.0), scored(3, 2.0)];
    assert!(rank_and_truncate(pool.clone(), true, 0).unwrap().is_empty());
    assert_eq!(ids(&rank_and_truncate(pool.clone(), true, 2).unwrap()), vec![2, 3]);
    assert_eq!(ids(&rank_and_truncate(pool.clone(), true, 3).unwrap()), vec![2, 3, 1]);
    assert_eq!(ids(&rank_and_truncate(pool, true, i64::MAX).unwrap()), vec![2, 3, 1]);
    assert!(rank_and_truncate(Vec::new(), true, 5).unwrap().is_empty());
}

#[test]
fn ranking_twice_changes_nothing() {
    let pool = vec![
        scored(1, 0.3),
        scored(2, f32::NAN),
        scored(3, 0.9),
        scored(4, 0.3),
        scored(5, -2.0),
    ];
    for descending in [false, true] {
        for limit in 0..7 {
            let once = sort_and_trucate(pool.clone(), descending, limit);
            let twice = sort_and_trucate(once.clone(), descending, limit);
            assert_eq!(ids(&once), ids(&twice));
            let scores_once: Vec<u32> = once.iter().map(|item| item.result).collect();
            let scores_twice: Vec<u32> = twice.iter().map(|item| item.result).collect();
            assert_eq!(scores_once, scores_twice);
        }
    }
}

#[test]
fn full_ranking_keeps_every_item_once() {
    let pool = vec![scored(7, 0.3), scored(8, 0.1), scored(9, 0.3), scored(10, 0.2)];
    let ranked = sort_and_trucate(pool.clone(), true, 4);
    let mut seen = ids(&ranked);
    seen.sort();
    assert_eq!(seen, vec![7, 8, 9, 10]);
    assert_eq!(ids(&ranked), vec![7, 9, 10, 8]);
    let ascending = sort_and_trucate(pool, false, 9);
    assert_eq!(ids(&ascending), vec![8, 10, 7, 9]);
}

#[test]
fn sort_by_score_keeps_items_whole() {
    let mut pool = vec![
        Item::new(1, bits(&[1.0, 2.0]), Some(2.0f32.to_bits())),
        Item::new(2, bits(&[3.0]), Some(1.0f32.to_bits())),
    ];
    sort_by_score(&mut pool, false);
    assert_eq!(pool[0].id, 2);
    assert_eq!(pool[0].values, bits(&[3.0]));
    assert_eq!(pool[0].result, 1.0f32.to_bits());
    assert_eq!(pool[1].id, 1);
    assert_eq!(pool[1].values, bits(&[1.0, 2.0]));
}

#[test]
fn local_sort_follows_the_total_order() {
    let values = [
        0.5f32,
        f32::NAN,
        -0.0,
        f32::INFINITY,
        0.0,
        -f32::NAN,
        -3.0,
        f32::NEG_INFINITY,
        0.5,
    ];
    let mut patterns = bits(&values);
    rec_rsys::utils::local_sort(&mut patterns);
    let mut expected = values.to_vec();
    expected.sort_by(|x, y| x.total_cmp(y));
    assert_eq!(patterns, bits(&expected));
    assert_eq!(patterns[0], (-f32::NAN).to_bits());
    assert_eq!(patterns[8], f32::NAN.to_bits());
    let mut none: Vec<u32> = Vec::new();
    rec_rsys::utils::local_sort(&mut none);
    assert!(none.is_empty());
}

#[test]
fn total_order_tells_the_zeros_apart() {
    let (minus, plus) = ((-0.0f32).to_bits(), 0.0f32.to_bits());
    assert_eq!(rec_rsys::utils::total_order(minus, plus), Ordering::Less);
    assert_eq!(rec_rsys::utils::total_order(plus, minus), Ordering::Greater);
    assert_eq!(rec_rsys::utils::total_order(plus, plus), Ordering::Equal);
    assert_eq!(rec_rsys::utils::numeric_order(minus, plus), Ordering::Equal);
}

#[test]
fn all_numbers_finds_a_nan() {
    assert!(rec_rsys::utils::all_numbers(&bits(&[1.0, f32::INFINITY, -0.0])));
    assert!(rec_rsys::utils::all_numbers(&[]));
    assert!(!rec_rsys::utils::all_numbers(&bits(&[1.0, f32::NAN])));
    assert!(!rec_rsys::utils::all_numbers(&bits(&[-f32::NAN, 2.0])));
}

#[test]
fn errors_say_what_went_wrong() {
    assert_eq!(InputError::LengthMismatch.message(), "the vectors differ in length");
    assert_eq!(InputError::InvalidArgument.message(), "the limit is below zero");
}

#[test]
fn sort_with_direction_agrees_with_a_stable_sort() {
    let mut state: u32 = 12345;
    for length in [2usize, 3, 7, 64, 100, 1000, 1025] {
        let mut pairs: Vec<(u32, usize)> = Vec::with_capacity(length);
        for place in 0..length {
            state = state.wrapping_mul(1664525).wrapping_add(1013904223);
            pairs.push(((state >> 16) % 17, place));
        }
        let mut expected = pairs.clone();
        expected.sort_by(|a, b| a.0.cmp(&b.0));
        let mut sorted = pairs.clone();
        sort_with_direction(&mut sorted, |a, b| a.0.cmp(&b.0), false);
        assert_eq!(sorted, expected);
        let mut expected = pairs.clone();
        expected.sort_by(|a, b| b.0.cmp(&a.0));
        let mut sorted = pairs;
        sort_with_direction(&mut sorted, |a, b| a.0.cmp(&b.0), true);
        assert_eq!(sorted, expected);
    }
}

#[test]
fn sort_with_direction_moves_values_that_cannot_be_copied() {
    let mut words: Vec<String> = ["pear", "fig", "apple", "kiwi", "date"]
        .iter()
        .map(|w| w.to_string())
        .collect();
    sort_with_direction(&mut words, |a, b| a.len().cmp(&b.len()), false);
    assert_eq!(words, vec!["fig", "pear", "kiwi", "date", "apple"]);
    sort_with_direction(&mut words, |a, b| a.cmp(b), true);
    assert_eq!(words, vec!["pear", "kiwi", "fig", "date", "apple"]);
}

#[test]
fn ranking_a_large_pool() {
    let mut state: u32 = 99;
    let mut pool: Vec<Item> = Vec::new();
    for id in 0..2000u32 {
        state = state.wrapping_mul(1664525).wrapping_add(1013904223);
        let score = ((state >> 8) % 50) as f32 / 10.0;
        pool.push(scored(id, if state % 97 == 0 { f32::NAN } else { score }));
    }
    let mut expected = pool.clone();
    expected.sort_by(|a, b| {
        let (x, y) = (f32::from_bits(a.result), f32::from_bits(b.result));
        match (x.is_nan(), y.is_nan()) {
            (true, true) => Ordering::Equal,
            (true, false) => Ordering::Greater,
            (false, true) => Ordering::Less,
            (false, false) => y.total_cmp(&x),
        }
    });
    let ranked = sort_and_trucate(pool, true, 150);
    assert_eq!(ids(&ranked), ids(&expected[..150]));
}
