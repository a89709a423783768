//! Spans of time, counted in nanoseconds, with the range of a `u64` count of
//! seconds plus a sub-second part; and the clock readings used to measure them.

use vstd::prelude::*;

verus! {

/// Nanoseconds in one second.
pub const NANOS_PER_SEC: u128 = 1_000_000_000;

/// The longest representable span: `u64::MAX` seconds and 999 999 999
/// nanoseconds.
pub const MAX_NANOS: u128 = 18_446_744_073_709_551_615_999_999_999;

/// A span of time, held as a count of nanoseconds no larger than
/// [`MAX_NANOS`]. Spans are ordered by their length.
#[derive(Clone, Copy, Debug, PartialEq, Eq, Structural, PartialOrd, Ord, Hash)]
pub struct Duration {
    nanos: u128,
}

impl View for Duration {
    type V = nat;

    /// The length of the span in nanoseconds.
    closed spec fn view(&self) -> nat {
        self.nanos as nat
    }
}

impl Duration {
    #[verifier::type_invariant]
    spec fn in_range(self) -> bool {
        self.nanos <= MAX_NANOS
    }

    /// The empty span.
    pub fn zero() -> (d: Duration)
        ensures
            d@ == 0,
    {
        Duration { nanos: 0 }
    }

    /// The longest span, [`MAX_NANOS`] nanoseconds.
    pub fn longest() -> (d: Duration)
        ensures
            d@ == MAX_NANOS,
    {
        Duration { nanos: MAX_NANOS }
    }

    /// A span of `secs` whole seconds.
    pub fn from_secs(secs: u64) -> (d: Duration)
        ensures
            d@ == secs * NANOS_PER_SEC,
    {
        Duration { nanos: secs as u128 * NANOS_PER_SEC }
    }

    /// A span of `micros` microseconds.
    pub fn from_micros(micros: u64) -> (d: Duration)
        ensures
            d@ == micros * 1000,
    {
        Duration { nanos: micros as u128 * 1000 }
    }

    /// The length of the span in nanoseconds.
    pub fn as_nanos(&self) -> (n: u128)
        ensures
            n == self@,
            n <= MAX_NANOS,
    {
        proof {
            use_type_invariant(self);
        }
        self.nanos
    }

    /// The sum of two spans, or the longest span where the sum does not fit.
    pub fn saturating_add(self, rhs: Duration) -> (d: Duration)
        ensures
            d@ == if self@ + rhs@ <= MAX_NANOS {
                self@ + rhs@
            } else {
                MAX_NANOS as nat
            },
    {
        proof {
            use_type_invariant(&self);
            use_type_invariant(&rhs);
        }
        if self.nanos <= MAX_NANOS - rhs.nanos {
            Duration { nanos: self.nanos + rhs.nanos }
        } else {
            Duration::longest()
        }
    }

    /// The difference of two spans, or the empty span where `rhs` is the
    /// longer one.
    pub fn saturating_sub(self, rhs: Duration) -> (d: Duration)
        ensures
            d@ == if self@ >= rhs@ {
                (self@ - rhs@) as nat
            } else {
                0
            },
    {
        proof {
            use_type_invariant(&self);
            use_type_invariant(&rhs);
        }
        if self.nanos >= rhs.nanos {
            Duration { nanos: self.nanos - rhs.nanos }
        } else {
            Duration::zero()
        }
    }

    /// The span divided into `rhs` equal parts, rounded down to a whole
    /// nanosecond.
    pub fn div_u32(self, rhs: u32) -> (d: Duration)
        requires
            rhs > 0,
        ensures
            d@ == self@ / (rhs as nat),
    {
        proof {
            use_type_invariant(&self);
        }
        Duration { nanos: self.nanos / (rhs as u128) }
    }
}

/// A span is determined by its length: two spans are equal exactly when
/// their lengths are.
pub proof fn lemma_span_determined_by_length(a: Duration, b: Duration)
    ensures
        (a@ == b@) == (a == b),
{
}

#[verifier::external_type_specification]
#[verifier::external_body]
pub struct ExInstant(std::time::Instant);

/// Calls `std::time::Instant::now`: a reading of the monotonic clock.
/// Nothing is claimed of it.
#[verifier::external_body]
pub(crate) fn instant_now() -> (t: std::time::Instant) {
    std::time::Instant::now()
}

/// Calls `std::time::Instant::elapsed`: the time since `start` was read,
/// in nanoseconds. The contract claims nothing of its length beyond what
/// every span satisfies.
#[verifier::external_body]
pub(crate) fn elapsed_since(start: &std::time::Instant) -> (d: Duration) {
    Duration { nanos: start.elapsed().as_nanos() }
}

} // verus!
