//! When the next generation is computed, taken over and thrown away.
//!
//! A driver shows one lattice while the next generation is computed in the
//! background. Once per frame it tells [`plan`] whether such a computation
//! is under way, whether a reset was asked for and whether the time for the
//! next generation has come, and does what the [`Plan`] says, in the order
//! of its fields. [`Driver`] is such a driver, as mathematics.

use vstd::prelude::*;

verus! {

/// What a driver does in one frame, in this order.
#[derive(Debug, Clone, Copy, PartialEq, Eq, Structural)]
pub struct Plan {
    /// Throw away the computation that is under way, whether or not it has
    /// finished.
    pub discard: bool,
    /// Replace the lattice by a newly seeded one.
    pub reseed: bool,
    /// Wait for the computation that is under way and replace the lattice by
    /// its result.
    pub apply: bool,
    /// Start to compute the generation after the lattice.
    pub start: bool,
}

impl Plan {
    /// Whether a computation is under way once the plan is carried out.
    pub open spec fn leaves_in_flight(self, in_flight: bool) -> bool {
        self.start || (in_flight && !self.discard && !self.apply)
    }
}

/// What to do in a frame. A reset throws away the computation that is under
/// way and seeds the lattice anew. When the time for the next generation has
/// come, the result of the computation that is still under way is taken
/// over, and the next computation starts.
pub open spec fn planned(in_flight: bool, reset: bool, tick: bool) -> Plan {
    Plan {
        discard: reset && in_flight,
        reseed: reset,
        apply: tick && in_flight && !reset,
        start: tick,
    }
}

/// What to do in a frame in which a computation is under way or not
/// (`in_flight`), a reset was asked for or not (`reset`), and the time for
/// the next generation has come or not (`tick`).
pub fn plan(in_flight: bool, reset: bool, tick: bool) -> (p: Plan)
    ensures
        p == planned(in_flight, reset, tick),
{
    Plan { discard: reset && in_flight, reseed: reset, apply: tick && in_flight && !reset, start: tick }
}

/// No result is lost, computed twice or taken over after a reset.
///
/// * Only a computation that is under way is thrown away or taken over, and
///   never both.
/// * A reset seeds the lattice anew and leaves no result of an earlier
///   computation to be taken over, in this frame or a later one.
/// * A computation starts only when none is under way any more, so there is
///   at most one at a time.
pub proof fn lemma_plan_keeps_order(in_flight: bool, reset: bool, tick: bool)
    ensures
        ({
            let p = planned(in_flight, reset, tick);
            &&& (p.discard || p.apply) ==> in_flight
            &&& !(p.discard && p.apply)
            &&& reset ==> p.reseed && !p.apply && (in_flight ==> p.discard)
            &&& !reset ==> !p.reseed && !p.discard
            &&& p.start ==> (in_flight ==> p.discard || p.apply)
            &&& p.start == tick
            &&& p.leaves_in_flight(in_flight) == (tick || (in_flight && !reset))
        }),
{
}

/// What a driver holds, as far as the order of the lattices goes. Every
/// lattice that is made, by seeding or by a computation, has a number of its
/// own.
pub struct Driver {
    /// The number of the lattice that is shown.
    pub shown: nat,
    /// The number of the lattice whose next generation is being computed, if
    /// a computation is under way.
    pub pending: Option<nat>,
    /// How many lattices were made so far.
    pub made: nat,
}

impl Driver {
    /// Whether the computation that is under way, if any, computes the
    /// generation after the lattice that is shown.
    pub open spec fn in_step(self) -> bool {
        &&& self.shown < self.made
        &&& self.pending matches Some(from) ==> from == self.shown
    }

    /// The driver after it threw the computation away.
    pub open spec fn discard(self) -> Driver {
        Driver { shown: self.shown, pending: None, made: self.made }
    }

    /// The driver after it seeded a new lattice.
    pub open spec fn reseed(self) -> Driver {
        Driver { shown: self.made, pending: self.pending, made: self.made + 1 }
    }

    /// The driver after it took the result of the computation over.
    pub open spec fn apply(self) -> Driver {
        Driver { shown: self.made, pending: None, made: self.made + 1 }
    }

    /// The driver after it started a computation.
    pub open spec fn start(self) -> Driver {
        Driver { shown: self.shown, pending: Some(self.shown), made: self.made }
    }

    /// The driver after the first `steps` of the four steps of `plan`.
    pub open spec fn carry_out(self, plan: Plan, steps: int) -> Driver {
        let discarded = if plan.discard && steps >= 1 {
            self.discard()
        } else {
            self
        };
        let reseeded = if plan.reseed && steps >= 2 {
            discarded.reseed()
        } else {
            discarded
        };
        let applied = if plan.apply && steps >= 3 {
            reseeded.apply()
        } else {
            reseeded
        };
        if plan.start && steps >= 4 {
            applied.start()
        } else {
            applied
        }
    }
}

/// A driver that does what [`plan`] says keeps in step, frame after frame:
/// when it takes a result over, that is the generation after the lattice
/// that is shown at that moment, so no generation is left out and none
/// comes from before a reset; and when it starts a computation, none is
/// under way.
pub proof fn lemma_driver_keeps_in_step(driver: Driver, reset: bool, tick: bool)
    requires
        driver.in_step(),
    ensures
        ({
            let p = planned(driver.pending is Some, reset, tick);
            &&& driver.carry_out(p, 4).in_step()
            &&& p.apply ==> driver.carry_out(p, 2).pending == Some(driver.carry_out(p, 2).shown)
            &&& p.start ==> driver.carry_out(p, 3).pending is None
            &&& driver.carry_out(p, 4).pending is Some == p.leaves_in_flight(driver.pending is Some)
        }),
{
}

} // verus!
