//! The rendezvous seam under every interleaving of its single memory accesses.
//!
//! Without a lock around it, an operation on the seam is several accesses to three shared words:
//! the phase, the armed storage address and the armed window. Here one orchestrating thread and any
//! number of readers perform these accesses in any order the scheduler likes. Each access is one
//! step of [`Machine`].

use vstd::prelude::*;

use crate::strategy::test_ctl::{Phase, SeamView, Window};

verus! {

/// How far the orchestrating thread is. It arms the seam for a key, waits for a reader, runs the
/// racing write, and releases the reader.
pub enum Conductor {
    /// Between two rendezvous.
    Idle,
    /// Arming: has taken the seam down.
    TakenDown(usize, Window),
    /// Arming: has stored the address.
    AddrStored(usize, Window),
    /// Arming: has stored the window too.
    KeyStored(usize, Window),
    /// Has stored the armed phase and looks for a reader.
    Waiting(usize, Window),
    /// Has seen the reader enter; runs the racing write.
    Racing(usize, Window),
    /// Has stored the released phase and looks for the seam to be disarmed.
    Releasing(usize, Window),
}

/// How far a reader's call of `maybe_pause` is. `round` is the arming that it saw first.
pub enum Reader {
    /// Not in a call.
    Outside,
    /// Has seen the armed phase.
    SawArmed { storage_addr: usize, window: Window, round: nat },
    /// Has compared the address.
    AddrMatched { storage_addr: usize, window: Window, round: nat },
    /// Has compared the window too.
    KeyMatched { storage_addr: usize, window: Window, round: nat },
    /// Has won the exchange from armed to entered; looks for the release.
    Parked { storage_addr: usize, window: Window },
    /// Has seen the release; about to disarm the seam.
    Leaving { storage_addr: usize, window: Window },
}

impl Reader {
    /// The reader is held by the rendezvous.
    pub open spec fn held(self) -> bool {
        self is Parked || self is Leaving
    }

    /// The arming that an unfinished call saw first.
    pub open spec fn round(self) -> Option<nat> {
        match self {
            Reader::SawArmed { round, .. } => Some(round),
            Reader::AddrMatched { round, .. } => Some(round),
            Reader::KeyMatched { round, .. } => Some(round),
            _ => None,
        }
    }
}

/// The shared words, and how far each thread is.
pub struct Machine {
    pub seam: SeamView,
    pub conductor: Conductor,
    pub readers: spec_fn(int) -> Reader,
    /// How often the seam was armed.
    pub round: nat,
}

/// One memory access by one thread.
pub enum Access {
    /// The conductor takes the seam down to arm it.
    TakeDown(usize, Window),
    /// The conductor stores the address.
    StoreAddr,
    /// The conductor stores the window.
    StoreWindow,
    /// The conductor stores the armed phase.
    StoreArmed,
    /// The conductor looks whether a reader has entered.
    LookEntered,
    /// The conductor stores the released phase.
    StoreReleased,
    /// The conductor looks whether the seam is disarmed.
    LookDisarmed,
    /// A reader starts a call and loads the phase.
    LoadPhase(int, usize, Window),
    /// A reader loads the address.
    LoadAddr(int),
    /// A reader loads the window.
    LoadWindow(int),
    /// A reader tries to exchange armed for entered.
    Exchange(int),
    /// A parked reader loads the phase.
    LookReleased(int),
    /// A leaving reader stores the disarmed phase.
    StoreDisarmed(int),
}

impl Machine {
    /// Nobody has done anything yet.
    pub open spec fn initial(self) -> bool {
        &&& self.seam.phase is Disarmed
        &&& self.conductor is Idle
        &&& forall|t: int| (#[trigger] (self.readers)(t)) is Outside
    }

    /// The thread is at the point where it performs this access.
    pub open spec fn enabled(self, access: Access) -> bool {
        match access {
            Access::TakeDown(_, _) => self.conductor is Idle,
            Access::StoreAddr => self.conductor is TakenDown,
            Access::StoreWindow => self.conductor is AddrStored,
            Access::StoreArmed => self.conductor is KeyStored,
            Access::LookEntered => self.conductor is Waiting,
            Access::StoreReleased => self.conductor is Racing,
            Access::LookDisarmed => self.conductor is Releasing,
            Access::LoadPhase(t, _, _) => (self.readers)(t) is Outside,
            Access::LoadAddr(t) => (self.readers)(t) is SawArmed,
            Access::LoadWindow(t) => (self.readers)(t) is AddrMatched,
            Access::Exchange(t) => (self.readers)(t) is KeyMatched,
            Access::LookReleased(t) => (self.readers)(t) is Parked,
            Access::StoreDisarmed(t) => (self.readers)(t) is Leaving,
        }
    }

    /// The conductor moves on; the seam may change with it.
    pub open spec fn conducted(self, conductor: Conductor, seam: SeamView) -> Machine {
        Machine { conductor, seam, ..self }
    }

    /// A reader moves on.
    pub open spec fn moved(self, t: int, reader: Reader) -> Machine {
        Machine {
            readers: |u: int|
                if u == t {
                    reader
                } else {
                    (self.readers)(u)
                },
            ..self
        }
    }

    /// The machine after one access.
    pub open spec fn after(self, access: Access) -> Machine {
        match access {
            Access::TakeDown(a, w) => self.conducted(
                Conductor::TakenDown(a, w),
                self.seam.at(Phase::Disarmed),
            ),
            Access::StoreAddr => match self.conductor {
                Conductor::TakenDown(a, w) => self.conducted(
                    Conductor::AddrStored(a, w),
                    SeamView { storage_addr: a, ..self.seam },
                ),
                _ => self,
            },
            Access::StoreWindow => match self.conductor {
                Conductor::AddrStored(a, w) => self.conducted(
                    Conductor::KeyStored(a, w),
                    SeamView { window: w.code_of(), ..self.seam },
                ),
                _ => self,
            },
            Access::StoreArmed => match self.conductor {
                Conductor::KeyStored(a, w) => Machine {
                    round: self.round + 1,
                    ..self.conducted(Conductor::Waiting(a, w), self.seam.at(Phase::Armed))
                },
                _ => self,
            },
            Access::LookEntered => match self.conductor {
                Conductor::Waiting(a, w) => if self.seam.phase is Entered {
                    self.conducted(Conductor::Racing(a, w), self.seam)
                } else {
                    self
                },
                _ => self,
            },
            Access::StoreReleased => match self.conductor {
                Conductor::Racing(a, w) => self.conducted(
                    Conductor::Releasing(a, w),
                    self.seam.at(Phase::Released),
                ),
                _ => self,
            },
            Access::LookDisarmed => if self.seam.phase is Disarmed {
                self.conducted(Conductor::Idle, self.seam)
            } else {
                self
            },
            Access::LoadPhase(t, storage_addr, window) => if self.seam.phase is Armed {
                self.moved(t, Reader::SawArmed { storage_addr, window, round: self.round })
            } else {
                self
            },
            Access::LoadAddr(t) => match (self.readers)(t) {
                Reader::SawArmed { storage_addr, window, round } => if self.seam.storage_addr
                    == storage_addr {
                    self.moved(t, Reader::AddrMatched { storage_addr, window, round })
                } else {
                    self.moved(t, Reader::Outside)
                },
                _ => self,
            },
            Access::LoadWindow(t) => match (self.readers)(t) {
                Reader::AddrMatched { storage_addr, window, round } => if self.seam.window
                    == window.code_of() {
                    self.moved(t, Reader::KeyMatched { storage_addr, window, round })
                } else {
                    self.moved(t, Reader::Outside)
                },
                _ => self,
            },
            Access::Exchange(t) => match (self.readers)(t) {
                Reader::KeyMatched { storage_addr, window, .. } => if self.seam.phase is Armed {
                    Machine {
                        seam: self.seam.at(Phase::Entered),
                        ..self.moved(t, Reader::Parked { storage_addr, window })
                    }
                } else {
                    self.moved(t, Reader::Outside)
                },
                _ => self,
            },
            Access::LookReleased(t) => match (self.readers)(t) {
                Reader::Parked { storage_addr, window } => if self.seam.phase is Released {
                    self.moved(t, Reader::Leaving { storage_addr, window })
                } else {
                    self
                },
                _ => self,
            },
            Access::StoreDisarmed(t) => Machine {
                seam: self.seam.at(Phase::Disarmed),
                ..self.moved(t, Reader::Outside)
            },
        }
    }

    /// The key that the conductor arms or has armed.
    pub open spec fn key(self) -> Option<(usize, Window)> {
        match self.conductor {
            Conductor::Idle => None,
            Conductor::TakenDown(a, w) => Some((a, w)),
            Conductor::AddrStored(a, w) => Some((a, w)),
            Conductor::KeyStored(a, w) => Some((a, w)),
            Conductor::Waiting(a, w) => Some((a, w)),
            Conductor::Racing(a, w) => Some((a, w)),
            Conductor::Releasing(a, w) => Some((a, w)),
        }
    }

    /// No reader is held.
    pub open spec fn nobody_held(self) -> bool {
        forall|t: int| !(#[trigger] (self.readers)(t)).held()
    }

    /// One reader is held, and no other.
    pub open spec fn one_held(self) -> bool {
        exists|t: int| self.holds_only(t)
    }

    /// This reader is held, and no other.
    pub open spec fn holds_only(self, t: int) -> bool {
        forall|u: int| (#[trigger] (self.readers)(u)).held() <==> u == t
    }

    /// The phase, the conductor and the readers agree.
    pub open spec fn phases_agree(self) -> bool {
        match self.conductor {
            Conductor::Waiting(_, _) => {
                ||| self.seam.phase is Armed && self.nobody_held()
                ||| self.seam.phase is Entered && self.one_held()
            },
            Conductor::Racing(_, _) => self.seam.phase is Entered && self.one_held(),
            Conductor::Releasing(_, _) => {
                ||| self.seam.phase is Released && self.one_held()
                ||| self.seam.phase is Disarmed && self.nobody_held()
            },
            _ => self.seam.phase is Disarmed && self.nobody_held(),
        }
    }

    /// The key words hold what the conductor has stored so far.
    pub open spec fn key_agrees(self) -> bool {
        match self.conductor {
            Conductor::AddrStored(a, _) => self.seam.storage_addr == a,
            Conductor::KeyStored(a, w)
            | Conductor::Waiting(a, w)
            | Conductor::Racing(a, w)
            | Conductor::Releasing(a, w) => {
                &&& self.seam.storage_addr == a
                &&& self.seam.window == w.code_of()
            },
            _ => true,
        }
    }

    /// What a reader in the middle of a call knows.
    pub open spec fn reader_agrees(self, reader: Reader) -> bool {
        &&& (reader.round() matches Some(round) ==> round <= self.round)
        &&& (reader is Leaving ==> self.seam.phase is Released)
        &&& match reader {
            Reader::AddrMatched { storage_addr, round, .. } => self.seam.phase is Armed && round
                == self.round ==> self.seam.storage_addr == storage_addr,
            Reader::KeyMatched { storage_addr, window, round } => self.seam.phase is Armed && round
                == self.round ==> {
                &&& self.seam.storage_addr == storage_addr
                &&& self.seam.window == window.code_of()
            },
            _ => true,
        }
    }

    /// What holds in every state that can be reached.
    pub open spec fn inv(self) -> bool {
        &&& self.phases_agree()
        &&& self.key_agrees()
        &&& forall|t: int| self.reader_agrees(#[trigger] (self.readers)(t))
    }
}

/// The machine after a schedule of accesses.
pub open spec fn machine_run(m: Machine, schedule: Seq<Access>) -> Machine
    decreases schedule.len(),
{
    if schedule.len() == 0 {
        m
    } else {
        machine_run(m, schedule.drop_last()).after(schedule.last())
    }
}

/// Every access of a schedule is one that its thread performs next.
pub open spec fn possible(m: Machine, schedule: Seq<Access>) -> bool
    decreases schedule.len(),
{
    schedule.len() == 0 || {
        &&& possible(m, schedule.drop_last())
        &&& machine_run(m, schedule.drop_last()).enabled(schedule.last())
    }
}

proof fn lemma_inv_step(m: Machine, access: Access)
    requires
        m.inv(),
        m.enabled(access),
    ensures
        m.after(access).inv(),
{
    let n = m.after(access);
    if m.one_held() {
        let h = choose|t: int| m.holds_only(t);
        assert((m.readers)(h).held());
        match access {
            Access::StoreDisarmed(t) => {
                assert((m.readers)(t).held());
                assert(t == h);
                assert(n.nobody_held());
            },
            Access::LookReleased(t) => {
                assert((m.readers)(t).held());
                assert(n.holds_only(h));
            },
            _ => {
                assert(n.holds_only(h));
            },
        }
    } else {
        match access {
            Access::Exchange(t) => {
                if m.seam.phase is Armed {
                    assert(n.holds_only(t));
                }
            },
            _ => {},
        }
    }
    assert forall|u: int| n.reader_agrees(#[trigger] (n.readers)(u)) by {
        assert(m.reader_agrees((m.readers)(u)));
    }
}

proof fn lemma_inv_run(m: Machine, schedule: Seq<Access>)
    requires
        m.initial(),
        possible(m, schedule),
    ensures
        machine_run(m, schedule).inv(),
    decreases schedule.len(),
{
    if schedule.len() > 0 {
        lemma_inv_run(m, schedule.drop_last());
        lemma_inv_step(machine_run(m, schedule.drop_last()), schedule.last());
    } else {
        assert(m.nobody_held()) by {
            assert forall|t: int| !(#[trigger] (m.readers)(t)).held() by {
                assert((m.readers)(t) is Outside);
            }
        }
    }
}

/// Under every interleaving at most one reader is held at any time.
pub proof fn law_at_most_one_reader_is_held(m: Machine, schedule: Seq<Access>, t: int, u: int)
    requires
        m.initial(),
        possible(m, schedule),
        (machine_run(m, schedule).readers)(t).held(),
        (machine_run(m, schedule).readers)(u).held(),
    ensures
        t == u,
{
    lemma_inv_run(m, schedule);
}

/// The mistakes that `arm` and `release` report cannot happen while one thread conducts: it always
/// takes down a disarmed seam and releases an entered one, under every interleaving.
pub proof fn law_one_conductor_makes_no_mistake(m: Machine, schedule: Seq<Access>)
    requires
        m.initial(),
        possible(m, schedule),
    ensures
        machine_run(m, schedule).conductor is Idle ==> machine_run(
            m,
            schedule,
        ).seam.phase is Disarmed,
        machine_run(m, schedule).conductor is Racing ==> machine_run(
            m,
            schedule,
        ).seam.phase is Entered,
{
    lemma_inv_run(m, schedule);
}

/// The key is published before the phase: whoever finds the seam armed finds the key that it was
/// armed with.
pub proof fn law_the_key_is_published_before_the_phase(m: Machine, schedule: Seq<Access>)
    requires
        m.initial(),
        possible(m, schedule),
        machine_run(m, schedule).seam.phase is Armed,
    ensures
        machine_run(m, schedule).key() matches Some((storage_addr, window)) && machine_run(
            m,
            schedule,
        ).seam.armed_for(storage_addr, window),
{
    lemma_inv_run(m, schedule);
}

/// A reader parks only for the exact storage and window that were armed, as long as its call does
/// not reach from one arming into the next.
pub proof fn law_only_the_armed_key_parks(m: Machine, schedule: Seq<Access>, t: int)
    requires
        m.initial(),
        possible(m, schedule),
        machine_run(m, schedule).enabled(Access::Exchange(t)),
        (machine_run(m, schedule).after(Access::Exchange(t)).readers)(t) is Parked,
        (machine_run(m, schedule).readers)(t).round() == Some(machine_run(m, schedule).round),
    ensures
        (machine_run(m, schedule).readers)(t) matches Reader::KeyMatched {
            storage_addr,
            window,
            ..
        } && machine_run(m, schedule).key() == Some((storage_addr, window)),
{
    lemma_inv_run(m, schedule);
}

/// While the racing write runs, no call parks: the loads that the writer itself makes go on at
/// once, and so does every other reader, however far its call has come.
pub proof fn law_no_call_parks_during_the_race(
    m: Machine,
    schedule: Seq<Access>,
    access: Access,
    t: int,
)
    requires
        m.initial(),
        possible(m, schedule),
        machine_run(m, schedule).conductor is Racing,
        machine_run(m, schedule).enabled(access),
        !(machine_run(m, schedule).readers)(t).held(),
    ensures
        !(machine_run(m, schedule).after(access).readers)(t).held(),
{
    lemma_inv_run(m, schedule);
}

/// A released reader is never stuck: its next two accesses disarm the seam, and the conductor then
/// finishes.
pub proof fn law_a_released_reader_disarms(m: Machine, schedule: Seq<Access>, t: int)
    requires
        m.initial(),
        possible(m, schedule),
        machine_run(m, schedule).conductor is Releasing,
        (machine_run(m, schedule).readers)(t) is Parked,
    ensures
        ({
            let now = machine_run(m, schedule);
            let leaving = now.after(Access::LookReleased(t));
            let left = leaving.after(Access::StoreDisarmed(t));
            &&& leaving.enabled(Access::StoreDisarmed(t))
            &&& left.seam.phase is Disarmed
            &&& (left.readers)(t) is Outside
            &&& left.enabled(Access::LookDisarmed)
            &&& left.after(Access::LookDisarmed).conductor is Idle
        }),
{
    lemma_inv_run(m, schedule);
}

/// A call of `maybe_pause` that no other access interrupts does what its contract says in one step.
pub proof fn law_an_uninterrupted_call_is_one_step(
    m: Machine,
    t: int,
    storage_addr: usize,
    window: Window,
)
    requires
        (m.readers)(t) is Outside,
    ensures
        ({
            let seen = m.after(Access::LoadPhase(t, storage_addr, window));
            let addr_read = seen.after(Access::LoadAddr(t));
            let window_read = addr_read.after(Access::LoadWindow(t));
            let done = window_read.after(Access::Exchange(t));
            if m.seam.armed_for(storage_addr, window) {
                &&& (done.readers)(t) == (Reader::Parked { storage_addr, window })
                &&& done.seam == m.seam.at(Phase::Entered)
            } else {
                &&& (done.readers)(t) is Outside
                &&& done.seam == m.seam
            }
        }),
{
}

} // verus!
