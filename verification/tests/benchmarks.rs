use rec_rsys::benchmarks::testing_tools::stir_by_hours;
use rec_rsys::benchmarks::testing_tools::whole_hours;
use rec_rsys::benchmarks::testing_tools::CustomRng;
use rec_rsys::benchmarks::testing_tools::NewCustomRng;
use std::time::SystemTime;

fn stir_as_text(state: u64, hours: u64) -> u64 {
    let mut x = state;
    let digits = hours
        .to_string()
        .chars()
        .filter_map(|c| c.to_digit(10))
        .collect::<Vec<u32>>();
    for chunk in digits.chunks(2) {
        let r = chunk.iter().sum::<u32>();
        if r < 12 {
            x ^= x << r
        } else {
            x ^= x >> r
        }
    }
    x
}

#[test]
fn test_get_current_time() {
    let mut current_time = CustomRng::new().expect("Clock may have gone backwards");
    println!(
        "number: {:?}",
        current_time.next().expect("Clock may have gone backwards") as f64 / u64::MAX as f64
            * 10e5
    );
}

#[test]
fn random_f() {
    let mut rng = NewCustomRng::new().expect("Clock may have gone backwards");
    let min = -1.0f32;
    let max = 1.0f32;
    let rand_val = rng.next() as f32 / u32::MAX as f32;
    let result = min + (max - min) * rand_val;
    println!("Random f32: {}", result);
    assert!((-1.0..=1.0).contains(&result));
    let mut clocked = CustomRng::new().expect("Clock may have gone backwards");
    let draw = clocked.next().expect("Clock may have gone backwards");
    println!(
        "number: {:?}",
        min + (draw as f32 / u32::MAX as f32) * (max - min)
    );
}

#[test]
fn stirring_by_one_digit() {
    assert_eq!(stir_by_hours(1, 0), 1 ^ (1 << 0));
    assert_eq!(stir_by_hours(1, 7), 1 ^ (1 << 7));
    assert_eq!(stir_by_hours(0x10, 3), 0x10 ^ (0x10 << 3));
}

#[test]
fn stirring_by_pairs_of_digits() {
    assert_eq!(stir_by_hours(1, 47), 1 ^ (1 << 11));
    assert_eq!(stir_by_hours(1 << 40, 48), (1 << 40) ^ (1 << 28));
    assert_eq!(stir_by_hours(1 << 40, 99), (1 << 40) ^ (1 << 22));
    let once = 5u64 ^ (5 << 3);
    assert_eq!(stir_by_hours(5, 124), once ^ (once << 4));
    assert_eq!(stir_by_hours(5, 1200), once ^ (once << 0));
}

#[test]
fn stirring_agrees_with_the_digits_as_text() {
    let states = [0u64, 1, 0xdead_beef, u64::MAX, 1 << 63, 473_040];
    let hours = [
        0u64,
        9,
        10,
        99,
        100,
        12_345,
        473_040,
        498_765,
        1_000_000,
        u64::MAX,
        u64::MAX / 3600,
    ];
    for state in states {
        for hour in hours {
            assert_eq!(stir_by_hours(state, hour), stir_as_text(state, hour));
        }
    }
}

#[test]
fn seeded_generator_stirs_from_its_seed() {
    let mut rng = CustomRng::new().expect("Clock may have gone backwards").seed(77);
    assert_eq!(rng.next_at(473_040), stir_as_text(77, 473_040));
    let mut again = CustomRng::new().expect("Clock may have gone backwards").seed(77);
    let first = again.next_at(473_040);
    assert_eq!(again.next_at(12), stir_as_text(first, 12));
}

#[test]
fn shift_generator_scrambles_its_state() {
    let seeded = CustomRng::new().expect("Clock may have gone backwards").seed(1);
    let mut rng = NewCustomRng::from_rng(&seeded);
    let mut x: u64 = 1;
    x ^= x << 13;
    x ^= x >> 17;
    x ^= x << 5;
    assert_eq!(rng.next(), (x & 0xFFFF_FFFF) as u32);
    x ^= x << 13;
    x ^= x >> 17;
    x ^= x << 5;
    assert_eq!(rng.next(), (x & 0xFFFF_FFFF) as u32);
}

#[test]
fn whole_hours_round_down() {
    assert_eq!(whole_hours(0), 0);
    assert_eq!(whole_hours(3599), 0);
    assert_eq!(whole_hours(3600), 1);
    assert_eq!(whole_hours(7199), 1);
    assert_eq!(whole_hours(1_702_944_000), 473_040);
    assert_eq!(whole_hours(u64::MAX), 5_124_095_576_030_431);
}

#[test]
fn current_time_counts_the_hours_since_the_epoch() {
    let before = SystemTime::now()
        .duration_since(SystemTime::UNIX_EPOCH)
        .expect("Clock may have gone backwards")
        .as_secs()
        / 3600;
    let hours = CustomRng::get_current_time().expect("Clock may have gone backwards");
    let after = SystemTime::now()
        .duration_since(SystemTime::UNIX_EPOCH)
        .expect("Clock may have gone backwards")
        .as_secs()
        / 3600;
    assert!(before <= hours && hours <= after);
    assert!(hours <= u64::MAX / 3600);
}

#[test]
fn generator_from_hours_starts_from_them() {
    let mut rng = CustomRng::from_hours(473_040);
    assert_eq!(rng.next_at(12), stir_as_text(473_040, 12));
    let mut shifted = NewCustomRng::from_rng(&CustomRng::from_hours(1));
    let mut x: u64 = 1;
    x ^= x << 13;
    x ^= x >> 17;
    x ^= x << 5;
    assert_eq!(shifted.next(), (x & 0xFFFF_FFFF) as u32);
}

#[test]
fn clocked_generators_start_from_the_hour() {
    let before = CustomRng::get_current_time().expect("Clock may have gone backwards");
    let mut clocked = CustomRng::new().expect("Clock may have gone backwards");
    let mut fresh = NewCustomRng::new().expect("Clock may have gone backwards");
    let after = CustomRng::get_current_time().expect("Clock may have gone backwards");
    let draws: Vec<u64> = (before..=after).map(|hour| stir_as_text(hour, 7)).collect();
    assert!(draws.contains(&clocked.next_at(7)));
    let shifts: Vec<u32> = (before..=after)
        .map(|hour| {
            let mut x = hour;
            x ^= x << 13;
            x ^= x >> 17;
            x ^= x << 5;
            (x & 0xFFFF_FFFF) as u32
        })
        .collect();
    assert!(shifts.contains(&fresh.next()));
}
