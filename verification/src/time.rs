//! Instants on the system clock, as whole seconds and a sub-second
//! nanosecond part, both counted from the clock's epoch.

use vstd::prelude::*;

verus! {

/// Nanoseconds in one second; the sub-second part of a [`Timestamp`]
/// stays strictly below this.
pub const NANOS_PER_SEC: u32 = 1_000_000_000;

/// An instant: `secs` whole seconds plus `nanos` nanoseconds after the
/// epoch.  Instants before the epoch are not represented; a well-formed
/// value keeps `nanos` below one second.
#[derive(Clone, Copy, Debug, PartialEq, Eq, Structural)]
pub struct Timestamp {
    pub secs: u64,
    pub nanos: u32,
}

impl View for Timestamp {
    type V = int;

    open spec fn view(&self) -> int {
        self.secs * (NANOS_PER_SEC as int) + self.nanos
    }
}

impl Timestamp {
    /// The sub-second part does not reach a full second.
    pub open spec fn wf(&self) -> bool {
        self.nanos < NANOS_PER_SEC
    }

    /// Whether `self` lies strictly before `other`.
    pub fn is_before(&self, other: &Timestamp) -> (r: bool)
        requires
            self.wf(),
            other.wf(),
        ensures
            r == (self@ < other@),
    {
        proof {
            lemma_order_matches_view(*self, *other);
        }
        self.secs < other.secs || (self.secs == other.secs && self.nanos < other.nanos)
    }
}

/// On well-formed instants, lexicographic order on (seconds, nanoseconds)
/// agrees with the order of the instants themselves.
proof fn lemma_order_matches_view(a: Timestamp, b: Timestamp)
    requires
        a.wf(),
        b.wf(),
    ensures
        (a@ < b@) == (a.secs < b.secs || (a.secs == b.secs && a.nanos < b.nanos)),
{
    if a.secs < b.secs {
        assert(a.secs as int + 1 <= b.secs as int);
        assert((a.secs as int + 1) * (NANOS_PER_SEC as int) <= b.secs * (NANOS_PER_SEC as int))
            by (nonlinear_arith)
            requires
                a.secs as int + 1 <= b.secs as int,
        ;
    } else if a.secs > b.secs {
        assert(b.secs as int + 1 <= a.secs as int);
        assert((b.secs as int + 1) * (NANOS_PER_SEC as int) <= a.secs * (NANOS_PER_SEC as int))
            by (nonlinear_arith)
            requires
                b.secs as int + 1 <= a.secs as int,
        ;
    }
}

} // verus!
