//! The time source of a countdown: a timer that can be read and that can let
//! time pass, and a virtual timer for runs that take no real time.

use vstd::prelude::*;

verus! {

/// Nanoseconds in one second.
pub const NANOS_PER_SEC: u128 = 1_000_000_000;

/// A reading of a timer, in nanoseconds on that timer's own scale. Two
/// readings of one timer are compared by their difference; a reading alone
/// says nothing about the calendar.
#[derive(Clone, Copy, Debug, PartialEq, Eq)]
pub struct Instant {
    /// Nanoseconds since the origin of the scale.
    pub nanos: u128,
}

impl View for Instant {
    type V = nat;

    open spec fn view(&self) -> nat {
        self.nanos as nat
    }
}

impl Instant {
    /// The reading `nanos` nanoseconds after the origin of the scale.
    pub fn from_nanos(nanos: u128) -> (t: Instant)
        ensures
            t@ == nanos,
    {
        Instant { nanos }
    }

    /// Nanoseconds from `earlier` to this reading; zero if `earlier` is the
    /// later of the two.
    pub fn duration_since(&self, earlier: Instant) -> (d: u128)
        ensures
            d == if self@ >= earlier@ {
                self@ - earlier@
            } else {
                0
            },
    {
        if self.nanos >= earlier.nanos {
            self.nanos - earlier.nanos
        } else {
            0
        }
    }
}

/// A source of time, as the countdowns use it: a reading, and a way to let
/// time go by. A timer in general promises nothing that could be checked
/// here; a countdown is safe and ends with any timer. An `exact` timer is one
/// whose time is known ahead, and of it the contracts say what it reads.
pub trait Timer {
    /// The reading of an exact timer, in nanoseconds.
    open spec fn reading(&self) -> nat {
        0
    }

    /// Whether time on this timer passes only while it sleeps, and then by
    /// exactly the span asked for.
    open spec fn exact(&self) -> bool {
        false
    }

    /// Lets `nanos` nanoseconds go by. An exact timer counts them in a
    /// `u128`, as long as it has room for them.
    fn sleep(&mut self, nanos: u128)
        ensures
            old(self).exact() && old(self).reading() + nanos <= u128::MAX ==> final(self).exact()
                && final(self).reading() == old(self).reading() + nanos,
    ;

    /// Reads the timer.
    fn now(&mut self) -> (t: Instant)
        ensures
            old(self).exact() ==> final(self).exact() && final(self).reading() == old(
                self,
            ).reading() && t@ == old(self).reading(),
    ;
}

/// Whether `timer` is exact and can count `span` nanoseconds more.
pub open spec fn has_room<T: Timer + ?Sized>(timer: &T, span: nat) -> bool {
    timer.exact() && timer.reading() + span <= u128::MAX
}

/// A timer for deterministic runs: sleeping takes no real time and moves the
/// reading forward by exactly the span asked for. The reading stops at the
/// largest value that a `u128` holds.
#[derive(Clone, Copy, Debug, PartialEq, Eq)]
pub struct VirtualTimer {
    /// What the timer reads.
    pub current: Instant,
}

impl VirtualTimer {
    /// A virtual timer at the origin of its scale.
    pub fn new() -> (timer: VirtualTimer)
        ensures
            timer.reading() == 0,
            timer.exact(),
    {
        VirtualTimer { current: Instant::from_nanos(0) }
    }
}

impl Timer for VirtualTimer {
    open spec fn reading(&self) -> nat {
        self.current@
    }

    open spec fn exact(&self) -> bool {
        true
    }

    fn sleep(&mut self, nanos: u128)
        ensures
            final(self).reading() == if old(self).reading() + nanos <= u128::MAX {
                old(self).reading() + nanos
            } else {
                u128::MAX as int
            },
    {
        let later = match self.current.nanos.checked_add(nanos) {
            Some(sum) => sum,
            None => u128::MAX,
        };
        self.current = Instant::from_nanos(later);
    }

    fn now(&mut self) -> (t: Instant)
        ensures
            t == old(self).current,
            *final(self) == *old(self),
    {
        self.current
    }
}

} // verus!
