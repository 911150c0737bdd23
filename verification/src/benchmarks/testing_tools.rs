//! Pseudo-random numbers that are stirred by the clock.
use std::time::Duration;
use std::time::SystemTime;
use std::time::SystemTimeError;
use vstd::prelude::*;

verus! {

/// A generator whose next state depends on its state and on the hour.
pub struct CustomRng {
    state: u64,
}

/// A generator by shifts and exclusive-or.
pub struct NewCustomRng {
    state: u64,
}

/// The decimal digits of `n`, the most significant first.
pub open spec fn decimal_digits(n: nat) -> Seq<nat>
    decreases n,
{
    if n < 10 {
        seq![n]
    } else {
        decimal_digits(n / 10).push(n % 10)
    }
}

/// One stir of the state by the amount `r`: the state is combined with
/// itself shifted left where `r` is below 12, and shifted right else.
pub open spec fn stir(x: u64, r: u64) -> u64 {
    if r < 12 {
        x ^ (x << r)
    } else {
        x ^ (x >> r)
    }
}

/// The state after one stir for each pair of digits, taken from the front;
/// a digit left over at the end stirs alone. The amount of a stir is the sum
/// of its digits.
pub open spec fn stirred(x: u64, digits: Seq<nat>) -> u64
    decreases digits.len(),
{
    if digits.len() == 0 {
        x
    } else if digits.len() == 1 {
        stir(x, digits[0] as u64)
    } else {
        stirred(stir(x, (digits[0] + digits[1]) as u64), digits.skip(2))
    }
}

/// One round of the shift generator.
pub open spec fn scrambled(x: u64) -> u64 {
    let a = x ^ (x << 13);
    let b = a ^ (a >> 17);
    b ^ (b << 5)
}

/// A moment on the system clock.
#[verifier::external_type_specification]
#[verifier::external_body]
pub struct ExSystemTime(SystemTime);

/// What `SystemTime::duration_since` answers where the earlier moment is the
/// later one.
#[verifier::external_type_specification]
#[verifier::external_body]
pub struct ExSystemTimeError(SystemTimeError);

/// `SystemTime::now` reads the system clock. Nothing is claimed of the
/// moment it returns.
pub assume_specification[ SystemTime::now ]() -> (now: SystemTime);

/// `SystemTime::duration_since` gives the time from `earlier` to the moment,
/// or an error where `earlier` is the later of the two. Nothing is claimed of
/// which it gives.
pub assume_specification[ SystemTime::duration_since ](
    moment: &SystemTime,
    earlier: SystemTime,
) -> (passed: Result<Duration, SystemTimeError>);

/// `Duration::as_secs` gives the whole seconds of a duration. Nothing is
/// claimed of their number.
pub assume_specification[ Duration::as_secs ](duration: &Duration) -> (seconds: u64);

/// The constant `SystemTime::UNIX_EPOCH`, the moment that times are counted
/// from.
#[verifier::external_body]
fn unix_epoch() -> (epoch: SystemTime) {
    SystemTime::UNIX_EPOCH
}

/// The decimal digits of `n`, the least significant first.
fn digits_low_first(n: u64) -> (digits: Vec<u64>)
    ensures
        digits@.len() == decimal_digits(n as nat).len(),
        forall|i: int|
            0 <= i < digits@.len() ==> #[trigger] digits@[i] == decimal_digits(n as nat)[digits@.len()
                - 1 - i],
        forall|i: int| 0 <= i < digits@.len() ==> #[trigger] digits@[i] < 10,
{
    let mut digits: Vec<u64> = Vec::new();
    digits.push(n % 10);
    let mut rest: u64 = n / 10;
    proof {
        lemma_digits_small(n as nat);
        if rest > 0 {
            assert(decimal_digits(n as nat) =~= decimal_digits(rest as nat).push((n % 10) as nat));
        }
    }
    while rest > 0
        invariant
            digits@.len() >= 1,
            forall|i: int| 0 <= i < digits@.len() ==> #[trigger] digits@[i] < 10,
            rest > 0 ==> decimal_digits(n as nat).len() == decimal_digits(rest as nat).len()
                + digits@.len(),
            rest > 0 ==> forall|i: int|
                0 <= i < decimal_digits(rest as nat).len() ==> #[trigger] decimal_digits(
                    n as nat,
                )[i] == decimal_digits(rest as nat)[i],
            rest == 0 ==> decimal_digits(n as nat).len() == digits@.len(),
            forall|i: int|
                0 <= i < digits@.len() ==> #[trigger] digits@[i] == decimal_digits(
                    n as nat,
                )[decimal_digits(n as nat).len() - 1 - i],
        decreases rest,
    {
        let ghost front = decimal_digits(rest as nat);
        let ghost before = digits@;
        proof {
            lemma_digits_small(rest as nat);
            if rest >= 10 {
                assert(front =~= decimal_digits((rest / 10) as nat).push((rest % 10) as nat));
            }
            assert(front.last() == rest % 10);
            assert(decimal_digits(n as nat)[front.len() - 1] == front[front.len() - 1]);
        }
        digits.push(rest % 10);
        rest = rest / 10;
        proof {
            assert forall|i: int| 0 <= i < digits@.len() implies #[trigger] digits@[i]
                == decimal_digits(n as nat)[decimal_digits(n as nat).len() - 1 - i] by {
                if i < before.len() {
                    assert(digits@[i] == before[i]);
                }
            }
        }
    }
    digits
}

/// A number has at least one digit, each digit is below 10, and the last is
/// the remainder by 10.
pub proof fn lemma_digits_small(n: nat)
    ensures
        decimal_digits(n).len() >= 1,
        decimal_digits(n).last() == n % 10,
        forall|i: int| 0 <= i < decimal_digits(n).len() ==> #[trigger] decimal_digits(n)[i] < 10,
    decreases n,
{
    if n >= 10 {
        lemma_digits_small(n / 10);
    }
}

/// The state `x` stirred by the digits of the hour count `hours`.
pub fn stir_by_hours(x: u64, hours: u64) -> (mixed: u64)
    ensures
        mixed == stirred(x, decimal_digits(hours as nat)),
{
    let low_first = digits_low_first(hours);
    let ghost digits = decimal_digits(hours as nat);
    let count: usize = low_first.len();
    let mut state: u64 = x;
    let mut left: usize = count;
    proof {
        assert(digits.skip(0) =~= digits);
    }
    while left > 0
        invariant
            left <= count,
            count == low_first@.len(),
            count == digits.len(),
            digits == decimal_digits(hours as nat),
            forall|i: int|
                0 <= i < count ==> #[trigger] low_first@[i] == digits[count - 1 - i],
            forall|i: int| 0 <= i < count ==> #[trigger] low_first@[i] < 10,
            stirred(x, digits) == stirred(state, digits.skip(count - left)),
        decreases left,
    {
        let ghost rest = digits.skip(count - left);
        proof {
            assert(rest.len() == left);
            assert(rest[0] == digits[count - left]);
            assert(low_first@[left - 1] == digits[count - left]);
        }
        if left >= 2 {
            let amount: u64 = low_first[left - 1] + low_first[left - 2];
            proof {
                assert(rest[1] == digits[count - left + 1]);
                assert(low_first@[left - 2] == digits[count - left + 1]);
                assert(rest.skip(2) =~= digits.skip(count - left + 2));
            }
            state = if amount < 12 {
                state ^ (state << amount)
            } else {
                state ^ (state >> amount)
            };
            left = left - 2;
        } else {
            let amount: u64 = low_first[left - 1];
            proof {
                assert(digits.skip(count - left + 1).len() == 0);
            }
            state = if amount < 12 {
                state ^ (state << amount)
            } else {
                state ^ (state >> amount)
            };
            left = left - 1;
        }
    }
    state
}

impl CustomRng {
    /// The state of the generator.
    pub closed spec fn state(&self) -> u64 {
        self.state
    }

    /// The whole hours since the Unix epoch, or nothing where the clock
    /// stands before it. Whatever the clock says, what is returned is the
    /// number of whole hours in the seconds it counted.
    pub fn get_current_time() -> (hours: Option<u64>)
        ensures
            hours matches Some(count) ==> is_hour_count(count),
    {
        let now = SystemTime::now();
        match now.duration_since(unix_epoch()) {
            Ok(passed) => Some(whole_hours(passed.as_secs())),
            Err(_) => None,
        }
    }

    /// A generator that starts from the hour, or nothing where the clock
    /// stands before the Unix epoch. Whatever the clock says, the state it
    /// starts from is a count of whole hours.
    pub fn new() -> (rng: Option<CustomRng>)
        ensures
            rng matches Some(clocked) ==> is_hour_count(clocked.state()),
    {
        match CustomRng::get_current_time() {
            Some(hours) => Some(CustomRng::from_hours(hours)),
            None => None,
        }
    }

    /// The same generator started from `seed`.
    pub fn seed(self, seed: u64) -> (rng: CustomRng)
        ensures
            rng.state() == seed,
    {
        CustomRng { state: seed }
    }

    /// Stirs the state by the digits of `hours` and returns the new state.
    pub fn next_at(&mut self, hours: u64) -> (draw: u64)
        ensures
            final(self).state() == stirred(old(self).state(), decimal_digits(hours as nat)),
            draw == final(self).state(),
    {
        self.state = stir_by_hours(self.state, hours);
        self.state
    }

    /// Stirs the state by the digits of the current hour and returns the new
    /// state. Where the clock stands before the Unix epoch the state is kept
    /// and nothing is returned.
    pub fn next(&mut self) -> (draw: Option<u64>)
        ensures
            match draw {
                Some(x) => x == final(self).state() && exists|hours: u64|
                    x == #[trigger] stirred(old(self).state(), decimal_digits(hours as nat)),
                None => final(self).state() == old(self).state(),
            },
    {
        match CustomRng::get_current_time() {
            Some(hours) => Some(self.next_at(hours)),
            None => None,
        }
    }

    /// A generator that starts from a count of hours.
    pub fn from_hours(hours: u64) -> (rng: CustomRng)
        ensures
            rng.state() == hours,
    {
        CustomRng { state: hours }
    }
}

impl NewCustomRng {
    /// The state of the generator.
    pub closed spec fn state(&self) -> u64 {
        self.state
    }

    /// A generator that starts from the state of `rng`.
    pub fn from_rng(rng: &CustomRng) -> (fresh: NewCustomRng)
        ensures
            fresh.state() == rng.state(),
    {
        NewCustomRng { state: rng.state }
    }

    /// A generator that starts from the hour, or nothing where the clock
    /// stands before the Unix epoch. Whatever the clock says, the state it
    /// starts from is a count of whole hours.
    pub fn new() -> (rng: Option<NewCustomRng>)
        ensures
            rng matches Some(fresh) ==> is_hour_count(fresh.state()),
    {
        match CustomRng::new() {
            Some(clocked) => Some(NewCustomRng::from_rng(&clocked)),
            None => None,
        }
    }

    /// Scrambles the state and returns its lower 32 bits.
    pub fn next(&mut self) -> (draw: u32)
        ensures
            final(self).state() == scrambled(old(self).state()),
            draw == final(self).state() % 0x1_0000_0000,
    {
        let mut x: u64 = self.state;
        x = x ^ (x << 13);
        x = x ^ (x >> 17);
        x = x ^ (x << 5);
        self.state = x;
        let low: u64 = x & 0xFFFF_FFFF;
        proof {
            assert(x & 0xFFFF_FFFF == x % 0x1_0000_0000) by (bit_vector);
        }
        low as u32
    }
}

/// The whole hours in a number of seconds.
pub open spec fn hours_in(seconds: u64) -> u64 {
    (seconds / 3600) as u64
}

/// `count` is the number of whole hours in some number of seconds that 64
/// bits hold.
pub open spec fn is_hour_count(count: u64) -> bool {
    exists|seconds: u64| count == #[trigger] hours_in(seconds)
}

/// The whole hours in a number of seconds.
pub fn whole_hours(seconds: u64) -> (hours: u64)
    ensures
        hours == hours_in(seconds),
        is_hour_count(hours),
{
    let hours: u64 = seconds / 3600;
    proof {
        assert(hours == hours_in(seconds));
    }
    hours
}

} // verus!
