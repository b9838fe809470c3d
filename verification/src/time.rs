use vstd::prelude::*;

verus! {

/// A UTC instant, counted in milliseconds from an arbitrary fixed epoch.
///
/// The engine never reads a clock itself: callers observe the time and hand
/// it in as a value, so everything downstream is a pure function of its
/// inputs.
#[derive(Clone, Copy, Debug, PartialEq, Eq, Structural)]
pub struct Timestamp {
    pub millis: i64,
}

impl View for Timestamp {
    type V = int;

    open spec fn view(&self) -> int {
        self.millis as int
    }
}

impl Timestamp {
    pub fn from_millis(millis: i64) -> (r: Timestamp)
        ensures
            r@ == millis as int,
    {
        Timestamp { millis }
    }

    pub fn from_seconds(seconds: i64) -> (r: Timestamp)
        requires
            i64::MIN <= seconds * 1000 <= i64::MAX,
        ensures
            r@ == seconds * 1000,
    {
        Timestamp { millis: seconds * 1000 }
    }

    /// The signed span from `earlier` to `self`; negative when `self`
    /// precedes `earlier` (clock skew is surfaced, not rejected).
    pub fn since(&self, earlier: &Timestamp) -> (r: Duration)
        requires
            i64::MIN <= self@ - earlier@ <= i64::MAX,
        ensures
            r@ == self@ - earlier@,
    {
        Duration { millis: self.millis - earlier.millis }
    }
}

/// A signed span of time, counted in milliseconds.
#[derive(Clone, Copy, Debug, PartialEq, Eq, Structural)]
pub struct Duration {
    pub millis: i64,
}

impl View for Duration {
    type V = int;

    open spec fn view(&self) -> int {
        self.millis as int
    }
}

/// Division by 1000 rounding toward zero, as whole-second truncation of a
/// signed span demands.
pub open spec fn div1000_toward_zero(m: int) -> int {
    if m >= 0 {
        m / 1000
    } else {
        -((-m) / 1000)
    }
}

impl Duration {
    pub fn milliseconds(millis: i64) -> (r: Duration)
        ensures
            r@ == millis as int,
    {
        Duration { millis }
    }

    pub fn seconds(seconds: i64) -> (r: Duration)
        requires
            i64::MIN <= seconds * 1000 <= i64::MAX,
        ensures
            r@ == seconds * 1000,
    {
        Duration { millis: seconds * 1000 }
    }

    /// Whole seconds in this span, truncated toward zero.
    pub fn num_seconds(&self) -> (r: i64)
        requires
            self@ > i64::MIN,
        ensures
            r == div1000_toward_zero(self@),
    {
        if self.millis >= 0 {
            let mag: u64 = self.millis as u64;
            (mag / 1000) as i64
        } else {
            let mag: u64 = (-self.millis) as u64;
            -((mag / 1000) as i64)
        }
    }

    /// Drops any fraction of a second, truncating toward zero.
    pub fn truncate_to_seconds(&self) -> (r: Duration)
        requires
            self@ > i64::MIN,
        ensures
            r@ == div1000_toward_zero(self@) * 1000,
    {
        let s = self.num_seconds();
        proof {
            assert(-(i64::MAX as int) <= div1000_toward_zero(self@) * 1000 <= i64::MAX as int)
                by (nonlinear_arith)
                requires
                    i64::MIN < self@ <= i64::MAX as int,
                    div1000_toward_zero(self@) == if self@ >= 0 {
                        self@ / 1000
                    } else {
                        -((-self@) / 1000)
                    },
            ;
        }
        Duration { millis: s * 1000 }
    }
}

} // verus!
