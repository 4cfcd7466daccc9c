//! A checkpoint under every interleaving of its single memory accesses.
//!
//! Without a lock around them, arming a checkpoint is two stores, and arriving at it is a load and
//! an exchange. Here any number of threads perform these accesses in any order the scheduler
//! likes. Each access is one step of [`Point`].

use vstd::prelude::*;

use crate::litmus::ProbesView;

verus! {

/// How far a thread is in an arrival.
pub enum Visitor {
    /// Not at the checkpoint.
    Away,
    /// Has found the checkpoint armed.
    SawArmed,
    /// Has won the exchange; looks for the release.
    Parked,
}

/// The two shared words of a checkpoint, and how far each thread is.
pub struct Point {
    pub armed: bool,
    pub fired: bool,
    pub visitors: spec_fn(int) -> Visitor,
}

/// One memory access by one thread.
pub enum Touch {
    /// Arming: the fired word is cleared.
    ClearFired,
    /// Arming: the armed word is set.
    SetArmed,
    /// Releasing: the armed word is cleared.
    ClearArmed,
    /// An arriving thread loads the armed word.
    LoadArmed(int),
    /// An arriving thread tries to exchange not fired for fired.
    Exchange(int),
    /// A parked thread loads the armed word.
    LookArmed(int),
}

impl Point {
    /// The thread is at the point where it performs this access.
    pub open spec fn enabled(self, touch: Touch) -> bool {
        match touch {
            Touch::LoadArmed(t) => (self.visitors)(t) is Away,
            Touch::Exchange(t) => (self.visitors)(t) is SawArmed,
            Touch::LookArmed(t) => (self.visitors)(t) is Parked,
            _ => true,
        }
    }

    /// A thread moves on.
    pub open spec fn moved(self, t: int, visitor: Visitor) -> Point {
        Point {
            visitors: |u: int|
                if u == t {
                    visitor
                } else {
                    (self.visitors)(u)
                },
            ..self
        }
    }

    /// The checkpoint after one access.
    pub open spec fn after(self, touch: Touch) -> Point {
        match touch {
            Touch::ClearFired => Point { fired: false, ..self },
            Touch::SetArmed => Point { armed: true, ..self },
            Touch::ClearArmed => Point { armed: false, ..self },
            Touch::LoadArmed(t) => if self.armed {
                self.moved(t, Visitor::SawArmed)
            } else {
                self
            },
            Touch::Exchange(t) => if self.fired {
                self.moved(t, Visitor::Away)
            } else {
                Point { fired: true, ..self.moved(t, Visitor::Parked) }
            },
            Touch::LookArmed(t) => if self.armed {
                self
            } else {
                self.moved(t, Visitor::Away)
            },
        }
    }

    /// The access parks the thread that performs it.
    pub open spec fn parks(self, touch: Touch) -> bool {
        touch is Exchange && !self.fired
    }
}

/// The checkpoint after a schedule of accesses.
pub open spec fn point_run(p: Point, schedule: Seq<Touch>) -> Point
    decreases schedule.len(),
{
    if schedule.len() == 0 {
        p
    } else {
        point_run(p, schedule.drop_last()).after(schedule.last())
    }
}

/// How many accesses of a schedule park a thread.
pub open spec fn parkings(p: Point, schedule: Seq<Touch>) -> nat
    decreases schedule.len(),
{
    if schedule.len() == 0 {
        0
    } else {
        parkings(p, schedule.drop_last()) + (if point_run(p, schedule.drop_last()).parks(
            schedule.last(),
        ) {
            1nat
        } else {
            0nat
        })
    }
}

/// How often a schedule arms the checkpoint.
pub open spec fn armings(schedule: Seq<Touch>) -> nat
    decreases schedule.len(),
{
    if schedule.len() == 0 {
        0
    } else {
        armings(schedule.drop_last()) + (if schedule.last() is ClearFired {
            1nat
        } else {
            0nat
        })
    }
}

/// Under every interleaving each arming parks at most one thread.
pub proof fn law_each_arming_parks_at_most_one(p: Point, schedule: Seq<Touch>)
    ensures
        parkings(p, schedule) + (if point_run(p, schedule).fired {
            0nat
        } else {
            1nat
        }) <= armings(schedule) + (if p.fired {
            0nat
        } else {
            1nat
        }),
    decreases schedule.len(),
{
    if schedule.len() > 0 {
        law_each_arming_parks_at_most_one(p, schedule.drop_last());
    }
}

/// Once the driver has seen the checkpoint fire, nobody else parks there before it is armed again,
/// not even a thread that is already in the middle of its arrival: a writer that is started then
/// goes through every time.
pub proof fn law_nobody_parks_after_the_checkpoint_fired(p: Point, schedule: Seq<Touch>)
    requires
        p.fired,
        forall|k: int| 0 <= k < schedule.len() ==> (#[trigger] schedule[k]) !is ClearFired,
    ensures
        point_run(p, schedule).fired,
        parkings(p, schedule) == 0,
    decreases schedule.len(),
{
    if schedule.len() > 0 {
        law_nobody_parks_after_the_checkpoint_fired(p, schedule.drop_last());
    }
}

/// A parked thread stays until the release.
pub proof fn law_a_parked_thread_waits_for_the_release(p: Point, schedule: Seq<Touch>, t: int)
    requires
        p.armed,
        (p.visitors)(t) is Parked,
        forall|k: int|
            0 <= k < schedule.len() ==> (#[trigger] schedule[k]) !is ClearArmed && point_run(
                p,
                schedule.take(k),
            ).enabled(schedule[k]),
    ensures
        point_run(p, schedule).armed,
        (point_run(p, schedule).visitors)(t) is Parked,
    decreases schedule.len(),
{
    if schedule.len() > 0 {
        let earlier = schedule.drop_last();
        assert forall|k: int| 0 <= k < earlier.len() implies (#[trigger] earlier[k]) !is ClearArmed
            && point_run(p, earlier.take(k)).enabled(earlier[k]) by {
            assert(earlier[k] == schedule[k]);
            assert(earlier.take(k) =~= schedule.take(k));
        }
        law_a_parked_thread_waits_for_the_release(p, earlier, t);
        let last = schedule.len() - 1;
        assert(schedule.take(last) =~= earlier);
        assert(schedule[last] == schedule.last());
    }
}

/// An arrival that no other access interrupts does what the contract of `checkpoint` says in one
/// step.
pub proof fn law_an_uninterrupted_arrival_is_one_step(p: Point, v: ProbesView, idx: int, t: int)
    requires
        v.wf(),
        0 <= idx < crate::litmus::CHECKPOINTS,
        p.armed == v.armed[idx],
        p.fired == v.fired[idx],
        (p.visitors)(t) is Away,
    ensures
        ({
            let seen = p.after(Touch::LoadArmed(t));
            let done = if seen.enabled(Touch::Exchange(t)) {
                seen.after(Touch::Exchange(t))
            } else {
                seen
            };
            &&& (done.visitors)(t) is Parked <==> v.parks(idx)
            &&& (done.visitors)(t) is Away <==> !v.parks(idx)
            &&& done.armed == v.arrived(idx).armed[idx]
            &&& done.fired == v.arrived(idx).fired[idx]
        }),
{
}

} // verus!
