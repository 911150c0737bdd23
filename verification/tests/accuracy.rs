use rec_rsys::accuracy::arhr;
use rec_rsys::accuracy::cumulative_hits;
use rec_rsys::accuracy::hit_rate;
use rec_rsys::accuracy::vec_hit_rate;

#[test]
fn test_hit_rate() {
    assert_eq!(hit_rate(8, 4), 2);
}

#[test]
fn test_vec_hit_rate() {
    assert_eq!(vec_hit_rate(vec![9, 7, 8], vec![0, 0, 0]), 8);
}

#[test]
fn hit_rate_rounds_down() {
    assert_eq!(hit_rate(7, 4), 1);
    assert_eq!(hit_rate(3, 4), 0);
    assert_eq!(hit_rate(0, 1), 0);
    assert_eq!(hit_rate(u32::MAX, 1), u32::MAX);
}

#[test]
fn vec_hit_rate_without_hits() {
    assert_eq!(vec_hit_rate(Vec::new(), vec![1]), 0);
    assert_eq!(vec_hit_rate(vec![u32::MAX], vec![1, 2]), u32::MAX / 2);
}

#[test]
fn arhr_counts_only_first_places() {
    assert_eq!(arhr(vec![1, 2, 1, 3, 1], 1), 3);
    assert_eq!(arhr(vec![1, 2, 1, 3, 1], 2), 1);
    assert_eq!(arhr(vec![2, 3, 4], 1), 0);
    assert_eq!(arhr(Vec::new(), 5), 0);
}

#[test]
fn cumulative_hits_counts_each_prediction() {
    assert_eq!(cumulative_hits(&[1, 2, 3, 2], &[2, 4]), 2);
    assert_eq!(cumulative_hits(&[1, 2, 3], &[]), 0);
    assert_eq!(cumulative_hits(&[], &[1]), 0);
    assert_eq!(cumulative_hits(&[5, 5, 5], &[5]), 3);
}
