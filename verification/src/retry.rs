//! How hard to try a failed upload before giving up.

use vstd::arithmetic::mul::lemma_mul_inequality;
use vstd::arithmetic::power2::{lemma_pow2_strictly_increases, lemma_pow2_unfold, pow2};
use vstd::prelude::*;

use crate::units::{Duration, MAX_NANOS};

verus! {

/// How hard to try a failed upload before giving up.
#[derive(Debug, Clone, Copy)]
pub struct RetryPolicy {
    pub max_attempts: u32,
    pub base_delay: Duration,
}

impl Default for RetryPolicy {
    /// Five attempts, a quarter of a second apart at first.
    fn default() -> (r: RetryPolicy)
        ensures
            r.max_attempts == 5,
            r.base_delay@ == 250_000_000,
    {
        RetryPolicy { max_attempts: 5, base_delay: Duration::from_millis(250) }
    }
}

/// What the base delay is multiplied by after attempt number `attempt`: it
/// doubles from one attempt to the next, up to the largest 32-bit number.
pub open spec fn backoff(attempt: int) -> nat {
    if pow2((attempt - 1) as nat) <= u32::MAX {
        pow2((attempt - 1) as nat)
    } else {
        u32::MAX as nat
    }
}

/// How long to wait after attempt number `attempt`, in nanoseconds.
pub open spec fn delay_after(base_delay: nat, attempt: int) -> nat {
    base_delay * backoff(attempt)
}

impl RetryPolicy {
    /// No waiting, one attempt.
    #[must_use]
    pub fn none() -> (r: RetryPolicy)
        ensures
            r.max_attempts == 1,
            r.base_delay@ == 0,
    {
        RetryPolicy { max_attempts: 1, base_delay: Duration::zero() }
    }

    /// How long to wait after attempt number `attempt`, where a [`Duration`]
    /// can hold it.
    pub fn delay(&self, attempt: u32) -> (r: Option<Duration>)
        requires
            attempt >= 1,
        ensures
            r is Some <==> delay_after(self.base_delay@, attempt as int) <= MAX_NANOS,
            r matches Some(d) ==> d@ == delay_after(self.base_delay@, attempt as int),
    {
        let factor: u32 = backoff_factor(attempt);
        let nanos: u128 = self.base_delay.as_nanos();
        proof {
            assert(nanos * factor <= u128::MAX) by (nonlinear_arith)
                requires
                    nanos <= 18_446_744_073_709_551_615_999_999_999u128,
                    factor <= 0xffff_ffffu32,
            ;
        }
        Duration::from_nanos(nanos * (factor as u128))
    }

    /// Whether every wait that the policy can ask for is one that a
    /// [`Duration`] can hold.
    pub fn delays_fit(&self) -> (r: bool)
        ensures
            r == delays_fit(*self),
    {
        if self.max_attempts <= 1 {
            true
        } else {
            let last: u32 = self.max_attempts - 1;
            proof {
                assert forall|attempt: int| 1 <= attempt < self.max_attempts implies #[trigger]
                    delay_after(self.base_delay@, attempt) <= delay_after(
                    self.base_delay@,
                    last as int,
                ) by {
                    lemma_backoff_grows(attempt, last as int);
                    lemma_mul_inequality(
                        backoff(attempt) as int,
                        backoff(last as int) as int,
                        self.base_delay@ as int,
                    );
                    assert(delay_after(self.base_delay@, attempt) == backoff(attempt)
                        * self.base_delay@) by (nonlinear_arith)
                        requires
                            delay_after(self.base_delay@, attempt) == self.base_delay@ * backoff(
                                attempt,
                            ),
                    ;
                    assert(delay_after(self.base_delay@, last as int) == backoff(last as int)
                        * self.base_delay@) by (nonlinear_arith)
                        requires
                            delay_after(self.base_delay@, last as int) == self.base_delay@
                                * backoff(last as int),
                    ;
                }
            }
            self.delay(last).is_some()
        }
    }
}

/// Whether every wait that the policy can ask for is one that a [`Duration`]
/// can hold.
pub open spec fn delays_fit(policy: RetryPolicy) -> bool {
    forall|attempt: int|
        1 <= attempt < policy.max_attempts ==> #[trigger] delay_after(
            policy.base_delay@,
            attempt,
        ) <= MAX_NANOS
}

/// What the base delay is multiplied by after attempt number `attempt`.
fn backoff_factor(attempt: u32) -> (r: u32)
    requires
        attempt >= 1,
    ensures
        r == backoff(attempt as int),
{
    let mut factor: u32 = 1;
    let mut i: u32 = 1;
    proof {
        lemma_pow2_is_one();
    }
    while i < attempt
        invariant
            1 <= i <= attempt,
            factor == pow2((i - 1) as nat),
        decreases attempt - i,
    {
        proof {
            lemma_pow2_unfold(i as nat);
        }
        if factor > u32::MAX / 2 {
            proof {
                assert(pow2(i as nat) > u32::MAX);
                lemma_pow2_grows(i as nat, (attempt - 1) as nat);
            }
            return u32::MAX;
        }
        factor = factor * 2;
        i = i + 1;
    }
    factor
}

proof fn lemma_pow2_is_one()
    ensures
        pow2(0) == 1,
{
    vstd::arithmetic::power2::lemma2_to64();
}

proof fn lemma_pow2_grows(a: nat, b: nat)
    requires
        a <= b,
    ensures
        pow2(a) <= pow2(b),
{
    if a < b {
        lemma_pow2_strictly_increases(a, b);
    }
}

/// A later attempt never waits less.
proof fn lemma_backoff_grows(a: int, b: int)
    requires
        1 <= a <= b,
    ensures
        backoff(a) <= backoff(b),
{
    lemma_pow2_grows((a - 1) as nat, (b - 1) as nat);
}

/// The wait doubles from one attempt to the next, until it stops growing.
pub proof fn each_wait_doubles_the_last(base_delay: nat, attempt: int)
    requires
        attempt >= 1,
        backoff(attempt + 1) < u32::MAX,
    ensures
        delay_after(base_delay, attempt + 1) == 2 * delay_after(base_delay, attempt),
        delay_after(base_delay, 1) == base_delay,
{
    lemma_pow2_is_one();
    lemma_pow2_unfold(attempt as nat);
    assert(backoff(attempt + 1) == 2 * backoff(attempt));
    assert(base_delay * (2 * backoff(attempt)) == 2 * (base_delay * backoff(attempt)))
        by (nonlinear_arith);
    assert(base_delay * 1 == base_delay);
}

/// How long the waits are: the base delay after the first attempt, twice the
/// last wait after each of the next thirty-one, and from then on the largest
/// 32-bit number of base delays.
pub proof fn waits_double_until_they_stop_growing(base_delay: nat, attempt: int)
    requires
        attempt >= 1,
    ensures
        delay_after(base_delay, 1) == base_delay,
        attempt < 32 ==> delay_after(base_delay, attempt + 1) == 2 * delay_after(
            base_delay,
            attempt,
        ),
        attempt >= 33 ==> delay_after(base_delay, attempt) == base_delay * 4_294_967_295,
{
    vstd::arithmetic::power2::lemma2_to64();
    assert(base_delay * 1 == base_delay);
    if attempt < 32 {
        lemma_pow2_unfold(attempt as nat);
        lemma_pow2_grows(attempt as nat, 31);
        assert(backoff(attempt + 1) == 2 * backoff(attempt));
        assert(base_delay * (2 * backoff(attempt)) == 2 * (base_delay * backoff(attempt)))
            by (nonlinear_arith);
    }
    if attempt >= 33 {
        lemma_pow2_grows(32, (attempt - 1) as nat);
    }
}

/// A policy whose last wait fits has only waits that fit.
pub proof fn the_last_wait_is_the_longest(policy: RetryPolicy)
    ensures
        delays_fit(policy) <==> policy.max_attempts <= 1 || delay_after(
            policy.base_delay@,
            policy.max_attempts - 1,
        ) <= 18_446_744_073_709_551_615_999_999_999,
{
    let base = policy.base_delay@;
    let last = policy.max_attempts - 1;
    if last >= 1 {
        assert forall|attempt: int| 1 <= attempt < policy.max_attempts implies #[trigger]
            delay_after(base, attempt) <= delay_after(base, last) by {
            lemma_backoff_grows(attempt, last);
            let (a, b) = (backoff(attempt), backoff(last));
            assert(base * a <= base * b) by (nonlinear_arith)
                requires
                    a <= b,
            ;
        }
    }
}

} // verus!
