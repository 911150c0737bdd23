use rec_rsys::testing_tools::timeit;
use std::cell::Cell;

#[test]
fn timeit_runs_the_work_once() {
    let runs = Cell::new(0);
    let taken = timeit(|| runs.set(runs.get() + 1));
    assert_eq!(runs.get(), 1);
    assert!(taken.as_secs() < 20);
}

#[test]
fn generator_follows_its_recurrence() {
    let mut rng = rec_rsys::testing_tools::CustomRng::new(0);
    assert!(rng.can_step());
    assert_eq!(rng.next(), 0);
    assert!(rng.can_step());
    let second = 6364136223846793006u64;
    assert_eq!(rng.next(), (second >> 32) as u32);
    let third = second.wrapping_mul(6364136223846793005).wrapping_add(1);
    assert_eq!(rng.next(), (third >> 32) as u32);
    assert_eq!(rec_rsys::testing_tools::MULTIPLIER, 6364136223846793005);
}

#[test]
fn generator_knows_when_it_cannot_step() {
    let mut seed: u64 = 1;
    for _ in 0..6 {
        seed = seed.wrapping_mul(2u64.wrapping_sub(6364136223846793005u64.wrapping_mul(seed)));
    }
    let stuck = seed.wrapping_neg();
    assert_eq!(stuck.wrapping_mul(6364136223846793005), u64::MAX);
    assert!(!rec_rsys::testing_tools::CustomRng::new(stuck).can_step());
    assert!(rec_rsys::testing_tools::CustomRng::new(stuck.wrapping_add(1)).can_step());
}

#[test]
fn test_implementation_returns() {
    rec_rsys::testing_tools::test_implementation();
    rec_rsys::algorithms::nmf::nmf();
}
