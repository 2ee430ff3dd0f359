//! Two small quantities that carry their own invariant: a width that is never
//! zero, and a span of time.

use vstd::prelude::*;

verus! {

/// A `u64` that is known not to be zero.
#[derive(Debug, Clone, Copy)]
pub struct NonZeroU64 {
    value: u64,
}

impl View for NonZeroU64 {
    type V = nat;

    closed spec fn view(&self) -> nat {
        self.value as nat
    }
}

impl NonZeroU64 {
    #[verifier::type_invariant]
    spec fn well_formed(self) -> bool {
        self.value > 0
    }

    /// `value`, unless it is zero.
    pub fn new(value: u64) -> (r: Option<NonZeroU64>)
        ensures
            r is Some <==> value > 0,
            r matches Some(n) ==> n@ == value,
    {
        if value == 0 {
            None
        } else {
            Some(NonZeroU64 { value })
        }
    }

    /// The number itself.
    pub fn get(self) -> (r: u64)
        ensures
            r == self@,
            r > 0,
    {
        proof {
            use_type_invariant(&self);
        }
        self.value
    }
}

/// The longest span that a [`Duration`] holds, in nanoseconds: `u64::MAX`
/// seconds and one nanosecond less than a second.
pub const MAX_NANOS: u128 = 18_446_744_073_709_551_615_999_999_999;

/// A span of time, to the nanosecond.
#[derive(Debug, Clone, Copy)]
pub struct Duration {
    nanos: u128,
}

/// The view of a span is its number of nanoseconds.
impl View for Duration {
    type V = nat;

    closed spec fn view(&self) -> nat {
        self.nanos as nat
    }
}

impl Duration {
    #[verifier::type_invariant]
    spec fn well_formed(self) -> bool {
        self.nanos <= MAX_NANOS
    }

    /// No time at all.
    pub fn zero() -> (r: Duration)
        ensures
            r@ == 0,
    {
        Duration { nanos: 0 }
    }

    /// A span of `millis` milliseconds.
    pub fn from_millis(millis: u64) -> (r: Duration)
        ensures
            r@ == millis * 1_000_000,
    {
        Duration { nanos: millis as u128 * 1_000_000 }
    }

    /// A span of `nanos` nanoseconds, unless it is longer than a span can be.
    pub fn from_nanos(nanos: u128) -> (r: Option<Duration>)
        ensures
            r is Some <==> nanos <= MAX_NANOS,
            r matches Some(d) ==> d@ == nanos,
    {
        if nanos <= MAX_NANOS {
            Some(Duration { nanos })
        } else {
            None
        }
    }

    /// The whole span, in nanoseconds.
    pub fn as_nanos(self) -> (r: u128)
        ensures
            r == self@,
            r <= MAX_NANOS,
    {
        proof {
            use_type_invariant(&self);
        }
        self.nanos
    }

    /// The whole milliseconds in the span.
    pub fn as_millis(self) -> (r: u128)
        ensures
            r == self@ / 1_000_000,
    {
        self.nanos / 1_000_000
    }
}

/// A count of milliseconds as a `u64`, clamped to `u64::MAX`.
pub open spec fn clamped_millis(millis: int) -> int {
    if millis <= u64::MAX {
        millis
    } else {
        u64::MAX as int
    }
}

/// A count of milliseconds as a `u64`, clamped to `u64::MAX` where it is larger.
pub fn clamp_millis(millis: u128) -> (r: u64)
    ensures
        r == clamped_millis(millis as int),
{
    if millis <= u64::MAX as u128 {
        millis as u64
    } else {
        u64::MAX
    }
}

/// A span holds every number of seconds that 64 bits count, and all nanoseconds
/// below one more.
pub proof fn a_span_holds_all_seconds_of_64_bits(seconds: u64, nanos: u32)
    requires
        nanos < 1_000_000_000,
    ensures
        seconds * 1_000_000_000 + nanos <= MAX_NANOS,
        MAX_NANOS + 1 == (u64::MAX + 1) * 1_000_000_000,
{
}

/// Clamping changes nothing that fits, and gives the largest number otherwise.
pub proof fn clamping_changes_only_what_does_not_fit(millis: int)
    ensures
        millis <= 18_446_744_073_709_551_615 ==> clamped_millis(millis) == millis,
        millis > 18_446_744_073_709_551_615 ==> clamped_millis(millis)
            == 18_446_744_073_709_551_615,
{
}

} // verus!
