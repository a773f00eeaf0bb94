//! A span of time with nanosecond resolution, with the same range and the
//! same arithmetic as a standard-library duration.

use vstd::prelude::*;

verus! {

/// Nanoseconds in one second.
pub const NANOS_PER_SEC: u64 = 1_000_000_000;

/// The largest representable number of nanoseconds: `u64::MAX` whole seconds
/// plus 999_999_999 nanoseconds.
pub open spec fn max_nanos() -> nat {
    (u64::MAX as nat) * 1_000_000_000 + 999_999_999
}

/// A span of time, counted in nanoseconds.
#[derive(Debug, Clone, Copy, PartialEq, Eq, Structural)]
pub struct Duration {
    nanos: u128,
}

impl View for Duration {
    type V = nat;

    /// The length of the span in nanoseconds.
    closed spec fn view(&self) -> nat {
        self.nanos as nat
    }
}

impl Duration {
    #[verifier::type_invariant]
    closed spec fn inv(self) -> bool {
        self.nanos <= max_nanos()
    }

    /// The empty span.
    pub fn zero() -> (d: Duration)
        ensures
            d@ == 0,
    {
        Duration { nanos: 0 }
    }

    /// A span of whole seconds.
    pub fn from_secs(secs: u64) -> (d: Duration)
        ensures
            d@ == secs * 1_000_000_000,
    {
        Duration { nanos: secs as u128 * 1_000_000_000 }
    }

    /// A span of whole milliseconds.
    pub fn from_millis(millis: u64) -> (d: Duration)
        ensures
            d@ == millis * 1_000_000,
    {
        Duration { nanos: millis as u128 * 1_000_000 }
    }

    /// A span of nanoseconds.
    pub fn from_nanos(nanos: u64) -> (d: Duration)
        ensures
            d@ == nanos,
    {
        Duration { nanos: nanos as u128 }
    }

    /// A span of `secs` seconds and `nanos` nanoseconds; the nanoseconds may
    /// exceed one second and carry into the seconds.
    pub fn new(secs: u64, nanos: u32) -> (d: Duration)
        requires
            secs * 1_000_000_000 + nanos <= max_nanos(),
        ensures
            d@ == secs * 1_000_000_000 + nanos,
    {
        Duration { nanos: secs as u128 * 1_000_000_000 + nanos as u128 }
    }

    /// The whole seconds of the span.
    pub fn as_secs(&self) -> (s: u64)
        ensures
            s == self@ / 1_000_000_000,
    {
        proof { use_type_invariant(self); }
        (self.nanos / 1_000_000_000) as u64
    }

    /// The nanoseconds beyond the whole seconds.
    pub fn subsec_nanos(&self) -> (n: u32)
        ensures
            n == self@ % 1_000_000_000,
    {
        (self.nanos % 1_000_000_000) as u32
    }

    /// The length of the span in nanoseconds.
    pub fn as_nanos(&self) -> (n: u128)
        ensures
            n == self@,
    {
        self.nanos
    }

    /// The sum of two spans; the sum must be representable.
    pub fn add(self, other: Duration) -> (d: Duration)
        requires
            self@ + other@ <= max_nanos(),
        ensures
            d@ == self@ + other@,
    {
        Duration { nanos: self.nanos + other.nanos }
    }

    /// The span repeated `n` times; the product must be representable.
    pub fn mul(self, n: u32) -> (d: Duration)
        requires
            self@ * n <= max_nanos(),
        ensures
            d@ == self@ * n,
    {
        proof {
            use_type_invariant(&self);
            assert(self.nanos * n <= max_nanos());
        }
        Duration { nanos: self.nanos * n as u128 }
    }

    /// The sum of two spans, or none where it is not representable.
    pub fn checked_add(self, other: Duration) -> (r: Option<Duration>)
        ensures
            r matches Some(d) ==> d@ == self@ + other@,
            r is None <==> self@ + other@ > max_nanos(),
    {
        proof {
            use_type_invariant(&self);
            use_type_invariant(&other);
        }
        let sum: u128 = self.nanos + other.nanos;
        if sum > 18_446_744_073_709_551_615_999_999_999u128 {
            None
        } else {
            Some(Duration { nanos: sum })
        }
    }

    /// The span repeated `n` times, or none where that is not
    /// representable.
    pub fn checked_mul(self, n: u32) -> (r: Option<Duration>)
        ensures
            r matches Some(d) ==> d@ == self@ * n,
            r is None <==> self@ * n > max_nanos(),
    {
        proof {
            use_type_invariant(&self);
            assert(self.nanos * n <= max_nanos() * 0xffff_ffff) by (nonlinear_arith)
                requires
                    self.nanos <= max_nanos(),
                    n <= 0xffff_ffff,
            ;
        }
        let product: u128 = self.nanos * n as u128;
        if product > 18_446_744_073_709_551_615_999_999_999u128 {
            None
        } else {
            Some(Duration { nanos: product })
        }
    }

    /// The span divided into `n` equal parts, rounded down to a nanosecond.
    pub fn div(self, n: u32) -> (d: Duration)
        requires
            n > 0,
        ensures
            d@ == self@ / (n as nat),
    {
        proof {
            use_type_invariant(&self);
            assert(self.nanos / (n as u128) <= self.nanos) by (nonlinear_arith)
                requires
                    n > 0,
            ;
        }
        Duration { nanos: self.nanos / n as u128 }
    }

    /// The longer of two spans.
    pub fn max(self, other: Duration) -> (d: Duration)
        ensures
            d@ == if self@ >= other@ { self@ } else { other@ },
    {
        if self.nanos >= other.nanos {
            self
        } else {
            other
        }
    }

    /// Whether this span is no longer than `other`.
    pub fn le(&self, other: &Duration) -> (b: bool)
        ensures
            b == (self@ <= other@),
    {
        self.nanos <= other.nanos
    }
}

} // verus!
