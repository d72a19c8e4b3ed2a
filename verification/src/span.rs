//! Lengths of time, to the nanosecond.
use vstd::prelude::*;

verus! {

#[derive(Clone, Copy, Debug, PartialEq, Eq, Structural)]
pub struct Span {
    pub nanos: u128,
}

pub const NANOS_PER_MILLI: u128 = 1_000_000;

pub const NANOS_PER_SEC: u128 = 1_000_000_000;

impl Span {
    /// Whole milliseconds.
    pub open spec fn millis(self) -> nat {
        self.nanos as nat / NANOS_PER_MILLI as nat
    }

    pub fn from_secs(secs: u64) -> (s: Self)
        ensures
            s.nanos == secs * NANOS_PER_SEC,
    {
        Span { nanos: secs as u128 * NANOS_PER_SEC }
    }

    pub fn from_millis(ms: u64) -> (s: Self)
        ensures
            s.nanos == ms * NANOS_PER_MILLI,
            s.millis() == ms,
    {
        Span { nanos: ms as u128 * NANOS_PER_MILLI }
    }

    pub fn as_millis(&self) -> (ms: u128)
        ensures
            ms == self.millis(),
    {
        self.nanos / NANOS_PER_MILLI
    }

    pub fn saturating_sub(&self, other: Span) -> (s: Span)
        ensures
            s.nanos == (if self.nanos >= other.nanos {
                self.nanos - other.nanos
            } else {
                0
            }),
    {
        if self.nanos >= other.nanos {
            Span { nanos: self.nanos - other.nanos }
        } else {
            Span { nanos: 0 }
        }
    }

    pub fn min(self, other: Span) -> (s: Span)
        ensures
            s == (if self.nanos <= other.nanos {
                self
            } else {
                other
            }),
    {
        if self.nanos <= other.nanos {
            self
        } else {
            other
        }
    }

    /// Frames of a stream at `rate` that fall in this time, if the count fits.
    pub open spec fn frames(self, rate: nat) -> nat {
        self.millis() * rate / 1000
    }

    /// The frame count can be worked out in 64 bits.
    pub open spec fn countable(self, rate: nat) -> bool {
        self.millis() * rate <= u64::MAX
    }

    pub fn frames_at(&self, rate: u32) -> (n: u64)
        requires
            self.millis() <= u64::MAX,
            self.countable(rate as nat),
        ensures
            n == self.frames(rate as nat),
    {
        (self.as_millis() as u64) * (rate as u64) / 1000
    }
}

/// Times are counted in nanoseconds: a second has a thousand million of them, a millisecond a
/// million, and reading milliseconds back rounds down.
pub proof fn law_units_of_time(secs: u64, ms: u64, a: Span, b: Span, t: Span, m: u128)
    requires
        call_ensures(Span::from_secs, (secs,), a),
        call_ensures(Span::from_millis, (ms,), b),
        call_ensures(Span::as_millis, (&t,), m),
    ensures
        a.nanos == secs * 1_000_000_000,
        b.nanos == ms * 1_000_000,
        m * 1_000_000 <= t.nanos < (m + 1) * 1_000_000,
        t == b ==> m == ms,
{
}

/// A time less a longer one is nothing; the smaller of two times is one of them.
pub proof fn law_times_never_go_below_zero(a: Span, b: Span, d: Span, m: Span)
    requires
        call_ensures(Span::saturating_sub, (&a, b), d),
        call_ensures(Span::min, (a, b), m),
    ensures
        a.nanos >= b.nanos ==> d.nanos + b.nanos == a.nanos,
        a.nanos < b.nanos ==> d.nanos == 0,
        m == a || m == b,
        m.nanos <= a.nanos && m.nanos <= b.nanos,
{
}

/// The frames of a time are those of its whole milliseconds at the rate, rounded down.
pub proof fn law_frames_of_a_time(t: Span, rate: u32, n: u64)
    requires
        call_ensures(Span::frames_at, (&t, rate), n),
        t.millis() <= u64::MAX,
        t.countable(rate as nat),
    ensures
        n * 1000 <= (t.nanos as nat / 1_000_000) * (rate as nat) < (n + 1) * 1000,
{
}

} // verus!
