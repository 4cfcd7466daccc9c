//! Whole operations: loads that run from checkpoint to checkpoint, and writes that pay all debts,
//! with the probes that they leave behind.

use vstd::prelude::*;

use crate::debt::books;
use crate::debt::books::{Books, Control, Op, Owner};
use crate::debt::steps;
use crate::debt::writes;
use crate::litmus;
use crate::litmus::ProbesView;

verus! {

/// How far an operation has come.
#[derive(Clone, Copy, Debug, PartialEq, Eq, Structural)]
pub enum Progress {
    /// It is done and handed out this claim.
    Done(usize),
    /// Its thread is parked at this checkpoint.
    Parked(usize),
}

/// A domain together with the probes that watch it.
#[verifier::ext_equal]
pub struct World {
    pub books: Books,
    pub probes: ProbesView,
}

impl Op {
    /// The checkpoint that a thread passes before the next step of this operation.
    pub open spec fn checkpoint(self) -> usize {
        match self {
            Op::Idle => litmus::CHECKPOINTS,
            Op::FastClaimed { .. } => litmus::CP_FAST_CLAIMED,
            Op::FastConfirming { .. } => litmus::CP_FAST_CONFIRM,
            Op::Reserved { .. } => litmus::CP_FALLBACK_GEN,
            Op::Loaded { .. } => litmus::CP_FALLBACK_CANDIDATE,
            Op::Published { .. } => litmus::CP_FALLBACK_CONFIRM,
            Op::Promoting { .. } => litmus::CP_INTO_INNER,
        }
    }

    /// How many new claims the operation may still make.
    pub open spec fn claims_ahead(self) -> nat {
        if self.steps_left() >= 3 {
            1
        } else {
            0
        }
    }

    /// How many steps are left at most.
    pub open spec fn steps_left(self) -> nat {
        match self {
            Op::Idle => 0,
            Op::Promoting { .. } => 1,
            Op::Published { .. } => 2,
            Op::Loaded { .. } => 3,
            Op::Reserved { .. } => 4,
            Op::FastConfirming { .. } => 5,
            Op::FastClaimed { .. } => 6,
        }
    }
}

impl ProbesView {
    /// An event is counted, if there is one.
    pub open spec fn noted(self, event: Option<usize>) -> ProbesView {
        match event {
            Some(idx) => self.counted(idx as int),
            None => self,
        }
    }

    /// Nothing has happened at the checkpoints.
    pub open spec fn same_checkpoints(self, later: ProbesView) -> bool {
        later.armed == self.armed && later.fired == self.fired
    }

    /// No arrival at any checkpoint would park.
    pub open spec fn lets_all_pass(self) -> bool {
        forall|idx: int| 0 <= idx < litmus::CHECKPOINTS ==> !#[trigger] self.parks(idx)
    }
}

impl Books {
    /// The event that giving up a claim is.
    pub open spec fn drop_event(self, c: int) -> Option<usize> {
        if self.claims[c].slot is None {
            None
        } else if self.is_debt(c) {
            Some(litmus::GUARD_DROP_DEBT_PAID)
        } else {
            Some(litmus::GUARD_DROP_ALREADY_PAID)
        }
    }

    /// The event that the next step of a thread is.
    pub open spec fn step_event(self, t: int) -> Option<usize> {
        let node = self.nodes[t];
        match node.op {
            Op::FastConfirming { storage, claim } => if self.storages[storage as int].ptr == Some(
                self.claims[claim as int].ptr,
            ) {
                Some(litmus::FAST_CONFIRMED)
            } else if self.is_debt(claim as int) {
                None
            } else {
                Some(litmus::FAST_ALREADY_PAID)
            },
            Op::Published { .. } => match node.control {
                Control::Replacement(_) => Some(litmus::FALLBACK_UPGRADED),
                _ => Some(litmus::FALLBACK_CONFIRMED),
            },
            Op::Promoting { claim } => if self.claims[claim as int].slot is None {
                None
            } else if self.is_debt(claim as int) {
                Some(litmus::INTO_INNER_DEBT_PAID)
            } else {
                Some(litmus::INTO_INNER_ALREADY_PAID)
            },
            _ => None,
        }
    }

    /// The lowest free slot of the `n` slots from `from` on.
    pub open spec fn first_free(self, from: int, n: nat) -> Option<int>
        decreases n,
    {
        if n == 0 {
            None
        } else if self.slots[from] is None {
            Some(from)
        } else {
            self.first_free(from + 1, (n - 1) as nat)
        }
    }

    /// The fast slot that a load by this thread on this storage takes, if there is one.
    pub open spec fn fast_slot_for(self, t: int, s: int) -> Option<int> {
        if self.storages[s].strategy is Hybrid {
            self.first_free(books::SLOTS * t, books::FAST_SLOTS as nat)
        } else {
            None
        }
    }

    /// The claims that were handed out stay as they are, but for one.
    pub open spec fn handles_stay(self, later: Books, but: int) -> bool {
        &&& self.claims.len() <= later.claims.len()
        &&& forall|c: int|
            self.is_handle(c) && c != but ==> #[trigger] later.claims[c] == self.claims[c]
    }
}

impl World {
    /// Both parts are valid, and nobody pays debts at the moment.
    pub open spec fn at_rest(self) -> bool {
        self.books.at_rest() && self.probes.wf()
    }

    /// A thread goes on in the operation that it is in the middle of, until it is done or parks.
    /// `released` says that it need not arrive at the checkpoint before its next step: it has been
    /// parked there.
    pub open spec fn run(self, t: usize, released: bool) -> (World, Progress)
        decreases self.books.nodes[t as int].op.steps_left(),
        when t < self.books.nodes.len() && !(self.books.nodes[t as int].op is Idle)
    {
        let op = self.books.nodes[t as int].op;
        if !released && self.probes.parks(op.checkpoint() as int) {
            (
                World { probes: self.probes.arrived(op.checkpoint() as int), ..self },
                Progress::Parked(op.checkpoint()),
            )
        } else {
            let next = World {
                books: self.books.stepped(t),
                probes: self.probes.noted(self.books.step_event(t as int)),
            };
            match self.books.yields(t) {
                Some(c) => (next, Progress::Done(c)),
                None => next.run(t, false),
            }
        }
    }

    /// A parked thread goes on if its checkpoint is no longer armed, else it stays parked.
    pub open spec fn resumed(self, t: usize) -> (World, Progress) {
        let cp = self.books.nodes[t as int].op.checkpoint();
        if self.probes.armed[cp as int] {
            (self, Progress::Parked(cp))
        } else {
            self.run(t, true)
        }
    }

    /// A thread loads from a storage.
    pub open spec fn load(self, t: usize, s: usize) -> (World, Progress) {
        if self.books.storages[s as int].strategy is RwLock {
            (
                World {
                    books: self.books.shared(self.books.storages[s as int].ptr->0, Owner::Handle),
                    ..self
                },
                Progress::Done(self.books.claims.len() as usize),
            )
        } else {
            let books = match self.books.fast_slot_for(t as int, s as int) {
                Some(k) => self.books.fast_claimed(t, s, k as usize),
                None => self.books.reserved(t as int, s),
            };
            World { books, ..self }.run(t, false)
        }
    }

    /// A thread turns a guard into an owned reference.
    pub open spec fn into_inner(self, t: usize, c: usize) -> (World, Progress) {
        World { books: self.books.promoting(t, c), ..self }.run(t, false)
    }

    /// A reference or a guard is given up.
    pub open spec fn dropped(self, c: int) -> World {
        World {
            books: self.books.given_up(c),
            probes: self.probes.noted(self.books.drop_event(c)),
        }
    }

    /// Writer `w` helps the load of thread `u`, if it reads the storage and needs help. The
    /// replacement is the result of a load by the writer itself, turned into an owned reference.
    pub open spec fn helped(self, w: int, u: usize, s: usize) -> World {
        if self.books.needs_help(u as int, s) {
            World {
                books: self.books.helped(u),
                probes: self.probes.counted(
                    if self.books.fast_slot_for(w, s as int) is Some {
                        litmus::FAST_CONFIRMED as int
                    } else {
                        litmus::FALLBACK_CONFIRMED as int
                    },
                ).counted(litmus::INTO_INNER_DEBT_PAID as int).counted(litmus::HELP_SUCCESS as int),
            }
        } else {
            self
        }
    }

    /// The debts on `q` in the `n` slots from `from` on are paid.
    pub open spec fn scanned(self, q: usize, from: int, n: nat) -> World
        decreases n,
    {
        if n == 0 {
            self
        } else {
            let before = self.scanned(q, from, (n - 1) as nat);
            let k = from + n - 1;
            if before.books.slots[k] == Some(q) {
                World {
                    books: before.books.paid(k),
                    probes: before.probes.counted(litmus::PAY_SLOT as int),
                }
            } else {
                before
            }
        }
    }

    /// Writer `w` has come by the first `n` thread nodes, after `q` was displaced from storage `s`:
    /// at each it helps first and then pays the debts.
    pub open spec fn walked(self, w: int, q: usize, s: usize, n: nat) -> World
        decreases n,
    {
        if n == 0 {
            self
        } else {
            let u = (n - 1) as nat;
            self.walked(w, q, s, u).helped(w, u as usize, s).scanned(
                q,
                books::SLOTS * u,
                books::SLOTS as nat,
            )
        }
    }

    /// Thread `w` puts an owned reference into a storage, or nothing. What the storage held becomes
    /// an owned reference, the next claim, and all debts on it are paid.
    pub open spec fn written(self, w: int, s: usize, new: Option<usize>) -> World {
        if self.books.storages[s as int].strategy.owes() {
            let q = self.books.storages[s as int].ptr->0;
            let walked = World { books: self.books.opened(s, new), ..self }.walked(
                w,
                q,
                s,
                self.books.nodes.len(),
            );
            World { books: walked.books.settled(), ..walked }
        } else {
            World { books: self.books.displaced(s as int, new), ..self }
        }
    }

    /// Like `written`, and what the storage held is given up.
    pub open spec fn replaced(self, w: int, s: usize, new: Option<usize>) -> World {
        self.written(w, s, new).dropped(self.books.claims.len() as int)
    }

    /// Thread `w` has loaded `guard` to compare it with `current` and to put `new` in its place.
    /// The result is the guard if that decides it; if the storage has changed since the load,
    /// everything has to be done again.
    pub open spec fn decided(
        self,
        w: int,
        s: usize,
        guard: usize,
        current: int,
        new: usize,
    ) -> (World, Option<usize>) {
        let p = self.books.claims[guard as int].ptr;
        if p != self.books.claims[current].ptr {
            (self.dropped(new as int), Some(guard))
        } else if self.books.storages[s as int].ptr == Some(p) {
            (self.replaced(w, s, Some(new)), Some(guard))
        } else {
            (self.dropped(guard as int), None)
        }
    }
}

impl World {
    /// A write to the storage does not park: the loads that it makes on the way to help others
    /// pass every checkpoint, or there is nobody to help.
    pub open spec fn unhindered(self, s: usize) -> bool {
        self.probes.lets_all_pass() || forall|u: int|
            0 <= u < self.books.nodes.len() ==> !#[trigger] self.books.needs_help(u, s)
    }

    /// Thread `t` compares what a storage holds with `current` and puts `new` in its place if they
    /// are the same.
    pub open spec fn swapped_if(self, t: usize, s: usize, current: int, new: usize) -> (
        World,
        Progress,
    ) {
        match self.load(t, s) {
            (x, Progress::Done(guard)) => (
                x.decided(t as int, s, guard, current, new).0,
                Progress::Done(guard),
            ),
            (x, Progress::Parked(idx)) => (x, Progress::Parked(idx)),
        }
    }
}

/// A run keeps the world in order, and touches nothing that was handed out before.
pub proof fn lemma_run(w: World, t: usize, released: bool)
    requires
        w.at_rest(),
        w.books.roomy(),
        w.books.claims.len() + w.books.nodes[t as int].op.claims_ahead() <= usize::MAX,
        t < w.books.nodes.len(),
        !(w.books.nodes[t as int].op is Idle),
    ensures
        ({
            let (x, progress) = w.run(t, released);
            &&& x.at_rest()
            &&& x.probes.armed == w.probes.armed
            &&& progress is Done ==> w.probes.same_checkpoints(x.probes)
            &&& x.books.nodes.len() == w.books.nodes.len()
            &&& x.books.storages == w.books.storages
            &&& x.books.objects.len() == w.books.objects.len()
            &&& x.books.claims.len() <= w.books.claims.len()
                + w.books.nodes[t as int].op.claims_ahead()
            &&& w.books.handles_stay(x.books, -1)
            &&& forall|u: int|
                0 <= u < w.books.nodes.len() && u != t ==> #[trigger] x.books.nodes[u]
                    == w.books.nodes[u]
            &&& match progress {
                Progress::Done(c) => {
                    &&& x.books.is_handle(c as int)
                    &&& !w.books.is_handle(c as int)
                    &&& x.books.nodes[t as int].op is Idle
                },
                Progress::Parked(idx) => {
                    &&& x.books.nodes[t as int].op !is Idle
                    &&& x.books.nodes[t as int].op.checkpoint() == idx
                },
            }
        }),
    decreases w.books.nodes[t as int].op.steps_left(),
{
    let b = w.books;
    let op = b.nodes[t as int].op;
    if released || !w.probes.parks(op.checkpoint() as int) {
        let d = b.stepped(t);
        steps::lemma_stepped(b, t);
        assert(b.node_fits(t as int));
        if b.yields(t) is None {
            let next = World { books: d, probes: w.probes.noted(b.step_event(t as int)) };
            lemma_run(next, t, false);
        }
    }
}

/// The lowest free slot is free, and one of those asked for.
pub proof fn lemma_first_free(b: Books, from: int, n: nat)
    ensures
        b.first_free(from, n) matches Some(k) ==> from <= k < from + n && b.slots[k] is None,
    decreases n,
{
    if n > 0 && b.slots[from] is Some {
        lemma_first_free(b, from + 1, (n - 1) as nat);
    }
}

/// The fast slot that a load takes is a free one of its thread.
pub proof fn lemma_fast_slot(b: Books, t: int, s: int)
    ensures
        b.fast_slot_for(t, s) matches Some(k) ==> {
            &&& books::is_fast_slot_of(k, t)
            &&& b.slots[k] is None
        },
{
    lemma_first_free(b, books::SLOTS * t, books::FAST_SLOTS as nat);
}

/// A load that nothing has interfered with has what the storage holds.
pub open spec fn undisturbed(b: Books, t: int, s: usize) -> bool {
    let node = b.nodes[t];
    let p = b.storages[s as int].ptr->0;
    match node.op {
        Op::Idle => false,
        Op::FastClaimed { storage, claim } => storage == s && b.claims[claim as int].ptr == p,
        Op::FastConfirming { storage, claim } => storage == s && b.claims[claim as int].ptr == p,
        Op::Reserved { storage } => storage == s && node.control is Generation,
        Op::Loaded { storage, ptr } => storage == s && ptr == p && node.control is Generation,
        Op::Published { storage, claim } => storage == s && b.claims[claim as int].ptr == p
            && node.control is Generation,
        Op::Promoting { claim } => b.claims[claim as int].ptr == p,
    }
}

/// A load that nothing interferes with returns what the storage holds, or parks on the way.
pub proof fn lemma_undisturbed(w: World, t: usize, s: usize, released: bool)
    requires
        w.at_rest(),
        w.books.roomy(),
        w.books.claims.len() + w.books.nodes[t as int].op.claims_ahead() <= usize::MAX,
        t < w.books.nodes.len(),
        w.books.loadable(s as int),
        undisturbed(w.books, t as int, s),
    ensures
        ({
            let (x, progress) = w.run(t, released);
            match progress {
                Progress::Done(c) => Some(x.books.claims[c as int].ptr)
                    == w.books.storages[s as int].ptr,
                Progress::Parked(_) => undisturbed(x.books, t as int, s),
            }
        }),
    decreases w.books.nodes[t as int].op.steps_left(),
{
    let b = w.books;
    let op = b.nodes[t as int].op;
    if released || !w.probes.parks(op.checkpoint() as int) {
        let d = b.stepped(t);
        steps::lemma_stepped(b, t);
        assert(b.node_fits(t as int));
        if b.yields(t) is None {
            let next = World { books: d, probes: w.probes.noted(b.step_event(t as int)) };
            assert(undisturbed(d, t as int, s));
            lemma_undisturbed(next, t, s, false);
        }
    }
}

/// A load keeps the world in order, and returns what the storage holds unless it parks on the way.
pub proof fn lemma_load(w: World, t: usize, s: usize)
    requires
        w.at_rest(),
        w.books.roomy(),
        w.books.claims.len() + 2 <= usize::MAX,
        t < w.books.nodes.len(),
        w.books.nodes[t as int].op is Idle,
        s < w.books.storages.len(),
        w.books.storages[s as int].ptr is Some,
    ensures
        ({
            let (x, progress) = w.load(t, s);
            &&& x.at_rest()
            &&& x.probes.armed == w.probes.armed
            &&& progress is Done ==> w.probes.same_checkpoints(x.probes)
            &&& x.books.nodes.len() == w.books.nodes.len()
            &&& x.books.storages == w.books.storages
            &&& x.books.objects.len() == w.books.objects.len()
            &&& x.books.claims.len() <= w.books.claims.len() + 2
            &&& w.books.handles_stay(x.books, -1)
            &&& forall|u: int|
                0 <= u < w.books.nodes.len() && u != t ==> #[trigger] x.books.nodes[u]
                    == w.books.nodes[u]
            &&& match progress {
                Progress::Done(c) => {
                    &&& x.books.is_handle(c as int)
                    &&& !w.books.is_handle(c as int)
                    &&& x.books.nodes[t as int].op is Idle
                    &&& Some(x.books.claims[c as int].ptr) == w.books.storages[s as int].ptr
                },
                Progress::Parked(idx) => {
                    &&& undisturbed(x.books, t as int, s)
                    &&& x.books.nodes[t as int].op.checkpoint() == idx
                },
            }
        }),
{
    let b = w.books;
    if b.storages[s as int].strategy is RwLock {
        writes::lemma_shared_stored(b, s as int);
    } else {
        assert(b.loadable(s as int));
        match b.fast_slot_for(t as int, s as int) {
            Some(k) => {
                lemma_fast_slot(b, t as int, s as int);
                assert(k < b.slots.len());
                steps::lemma_fast_claimed(b, t, s, k as usize);
                let x = World { books: b.fast_claimed(t, s, k as usize), ..w };
                lemma_run(x, t, false);
                lemma_undisturbed(x, t, s, false);
                assert(b.handles_stay(x.books, -1));
                assert(forall|c: int| b.is_handle(c) ==> x.books.is_handle(c));
            },
            None => {
                steps::lemma_reserved(b, t, s);
                let x = World { books: b.reserved(t as int, s), ..w };
                lemma_run(x, t, false);
                lemma_undisturbed(x, t, s, false);
                assert(forall|c: int| b.is_handle(c) ==> x.books.is_handle(c));
            },
        }
    }
}

/// Turning a guard into an owned reference keeps the world in order, and the reference is to the
/// same object.
pub proof fn lemma_into_inner(w: World, t: usize, c: usize)
    requires
        w.at_rest(),
        w.books.roomy(),
        t < w.books.nodes.len(),
        w.books.nodes[t as int].op is Idle,
        w.books.is_handle(c as int),
    ensures
        ({
            let (x, progress) = w.into_inner(t, c);
            &&& x.at_rest()
            &&& x.probes.armed == w.probes.armed
            &&& progress is Done ==> w.probes.same_checkpoints(x.probes)
            &&& x.books.objects.len() == w.books.objects.len()
            &&& x.books.claims.len() == w.books.claims.len()
            &&& x.books.storages == w.books.storages
            &&& x.books.nodes.len() == w.books.nodes.len()
            &&& forall|u: int|
                0 <= u < w.books.nodes.len() && u != t ==> #[trigger] x.books.nodes[u]
                    == w.books.nodes[u]
            &&& w.books.handles_stay(x.books, c as int)
            &&& x.books.claims[c as int].ptr == w.books.claims[c as int].ptr
            &&& match progress {
                Progress::Done(e) => {
                    &&& e == c
                    &&& x.books.is_owned(c as int)
                    &&& x.books.nodes[t as int].op is Idle
                },
                Progress::Parked(idx) => {
                    &&& idx == litmus::CP_INTO_INNER
                    &&& x.books.nodes[t as int].op == (Op::Promoting { claim: c })
                },
            }
        }),
{
    steps::lemma_promoting(w.books, t, c);
    let x = World { books: w.books.promoting(t, c), ..w };
    lemma_run(x, t, false);
}

/// Scanning slots pays every debt on the displaced object in them and nothing else.
pub proof fn lemma_scanned(w: World, q: usize, s: usize, from: int, n: nat)
    requires
        w.books.wf(),
        w.probes.wf(),
        w.books.roomy(),
        w.books.pending == Some((q, s)),
        0 <= from,
        from + n <= w.books.slots.len(),
    ensures
        ({
            let x = w.scanned(q, from, n);
            &&& x.books.wf()
            &&& x.probes.wf()
            &&& w.probes.same_checkpoints(x.probes)
            &&& x.books.roomy()
            &&& x.books.pending == w.books.pending
            &&& x.books.nodes == w.books.nodes
            &&& x.books.storages == w.books.storages
            &&& x.books.claims == w.books.claims
            &&& x.books.slots.len() == w.books.slots.len()
            &&& x.books.objects.len() == w.books.objects.len()
            &&& forall|k: int| from <= k < from + n ==> #[trigger] x.books.slots[k] != Some(q)
            &&& forall|k: int|
                0 <= k < w.books.slots.len() && #[trigger] x.books.slots[k] != w.books.slots[k]
                    ==> x.books.slots[k] is None
        }),
    decreases n,
{
    if n > 0 {
        lemma_scanned(w, q, s, from, (n - 1) as nat);
        let x = w.scanned(q, from, (n - 1) as nat);
        let k = from + n - 1;
        if x.books.slots[k] == Some(q) {
            writes::lemma_paid(x.books, k);
        }
    }
}

/// Walking thread nodes helps every load on the storage and pays every debt on the displaced object
/// that there is at them.
pub proof fn lemma_walked(w: World, t: int, q: usize, s: usize, n: nat)
    requires
        w.books.wf(),
        w.probes.wf(),
        w.books.roomy(),
        w.books.pending == Some((q, s)),
        n <= w.books.nodes.len(),
        w.books.claims.len() + n <= usize::MAX,
    ensures
        ({
            let x = w.walked(t, q, s, n);
            &&& x.books.wf()
            &&& x.probes.wf()
            &&& w.probes.same_checkpoints(x.probes)
            &&& x.books.roomy()
            &&& x.books.pending == w.books.pending
            &&& x.books.nodes.len() == w.books.nodes.len()
            &&& x.books.storages == w.books.storages
            &&& x.books.slots.len() == w.books.slots.len()
            &&& x.books.objects.len() == w.books.objects.len()
            &&& w.books.claims.len() <= x.books.claims.len() <= w.books.claims.len() + n
            &&& forall|c: int|
                0 <= c < w.books.claims.len() ==> #[trigger] x.books.claims[c] == w.books.claims[c]
            &&& forall|c: int|
                w.books.claims.len() <= c < x.books.claims.len()
                    ==> (#[trigger] x.books.claims[c]).owner !is Handle
            &&& forall|k: int|
                0 <= k < books::SLOTS * n ==> #[trigger] x.books.slots[k] != Some(q)
            &&& forall|u: int| 0 <= u < n ==> !#[trigger] x.books.needs_help(u, s)
            &&& forall|u: int|
                0 <= u < w.books.nodes.len() ==> (#[trigger] x.books.nodes[u]).op
                    == w.books.nodes[u].op
        }),
    decreases n,
{
    if n > 0 {
        let u = (n - 1) as nat;
        lemma_walked(w, t, q, s, u);
        let x = w.walked(t, q, s, u);
        let y = x.helped(t, u as usize, s);
        assert(u < usize::MAX) by {
            assert(x.books.slots.len() <= usize::MAX);
        }
        if x.books.needs_help(u as int, s) {
            writes::lemma_helped(x.books, u as usize);
        }
        assert(!y.books.needs_help(u as int, s));
        assert forall|v: int| 0 <= v < u implies !#[trigger] y.books.needs_help(v, s) by {
            assert(!x.books.needs_help(v, s));
        }
        lemma_scanned(y, q, s, books::SLOTS * u, books::SLOTS as nat);
        let z = w.walked(t, q, s, n);
        assert(z == y.scanned(q, books::SLOTS * u, books::SLOTS as nat));
        assert forall|v: int| 0 <= v < n implies !#[trigger] z.books.needs_help(v, s) by {
            assert(!y.books.needs_help(v, s));
        }
        assert forall|k: int| 0 <= k < books::SLOTS * n implies #[trigger] z.books.slots[k] != Some(
            q,
        ) by {
            if k < books::SLOTS * u {
                assert(y.books.slots[k] == x.books.slots[k]);
                assert(x.books.slots[k] != Some(q));
            }
        }
        assert(z.books.claims.len() <= w.books.claims.len() + n);
        assert forall|c: int| 0 <= c < w.books.claims.len() implies #[trigger] z.books.claims[c]
            == w.books.claims[c] by {
            assert(x.books.claims[c] == w.books.claims[c]);
        }
        assert forall|c: int|
            w.books.claims.len() <= c < z.books.claims.len() implies
            (#[trigger] z.books.claims[c]).owner !is Handle by {
            if c < x.books.claims.len() {
                assert(x.books.claims[c].owner !is Handle);
            }
        }
        assert forall|v: int| 0 <= v < w.books.nodes.len() implies (#[trigger] z.books.nodes[v]).op
            == w.books.nodes[v].op by {
            assert(x.books.nodes[v].op == w.books.nodes[v].op);
        }
    }
}

/// A write keeps the world in order: what the storage held becomes an owned reference, no debt on
/// it is left, and what was handed out before stays as it is.
pub proof fn lemma_written(w: World, t: int, s: usize, new: Option<usize>)
    requires
        w.at_rest(),
        w.books.roomy(),
        w.books.claims.len() + 1 + w.books.nodes.len() <= usize::MAX,
        s < w.books.storages.len(),
        w.books.storages[s as int].ptr is Some,
        new matches Some(c) ==> w.books.is_owned(c as int),
        new is None ==> w.books.quiet(s as int),
    ensures
        ({
            let x = w.written(t, s, new);
            let old = w.books.claims.len() as int;
            &&& x.at_rest()
            &&& w.probes.same_checkpoints(x.probes)
            &&& x.books.is_owned(old)
            &&& Some(x.books.claims[old].ptr) == w.books.storages[s as int].ptr
            &&& x.books.storages.len() == w.books.storages.len()
            &&& x.books.storages[s as int].ptr == (match new {
                Some(c) => Some(w.books.claims[c as int].ptr),
                None => None,
            })
            &&& forall|i: int|
                0 <= i < w.books.storages.len() && i != s ==> #[trigger] x.books.storages[i]
                    == w.books.storages[i]
            &&& x.books.storages[s as int].strategy == w.books.storages[s as int].strategy
            &&& x.books.nodes.len() == w.books.nodes.len()
            &&& forall|u: int|
                0 <= u < w.books.nodes.len() ==> (#[trigger] x.books.nodes[u]).op
                    == w.books.nodes[u].op
            &&& x.books.objects.len() == w.books.objects.len()
            &&& x.books.claims.len() <= w.books.claims.len() + 1 + w.books.nodes.len()
            &&& w.books.handles_stay(
                x.books,
                match new {
                    Some(c) => c as int,
                    None => -1,
                },
            )
            &&& w.books.storages[s as int].strategy.owes() ==> forall|k: int|
                0 <= k < x.books.slots.len() ==> #[trigger] x.books.slots[k]
                    != w.books.storages[s as int].ptr
        }),
{
    let b = w.books;
    let x = w.written(t, s, new);
    if b.storages[s as int].strategy.owes() {
        let q = b.storages[s as int].ptr->0;
        writes::lemma_opened(b, s, new);
        let y = World { books: b.opened(s, new), ..w };
        lemma_walked(y, t, q, s, b.nodes.len());
        let z = y.walked(t, q, s, b.nodes.len());
        writes::lemma_settled(z.books);
        assert(z.books.claims[b.claims.len() as int] == y.books.claims[b.claims.len() as int]);
        assert forall|c: int| b.is_handle(c) && c != (match new {
            Some(c) => c as int,
            None => -1,
        }) implies #[trigger] x.books.claims[c] == b.claims[c] by {
            assert(z.books.claims[c] == y.books.claims[c]);
        }
    } else {
        writes::lemma_displaced(b, s as int, new);
    }
}

/// A load that does not park leaves a write as unhindered as it was.
pub proof fn lemma_still_unhindered(w: World, t: usize, s: usize)
    requires
        w.at_rest(),
        w.books.roomy(),
        w.books.claims.len() + 2 <= usize::MAX,
        t < w.books.nodes.len(),
        w.books.nodes[t as int].op is Idle,
        w.books.is_open(s),
        w.unhindered(s),
    ensures
        w.load(t, s).1 is Done ==> w.load(t, s).0.unhindered(s),
{
    lemma_load(w, t, s);
    let (x, progress) = w.load(t, s);
    if progress is Done {
        if w.probes.lets_all_pass() {
            assert forall|idx: int| 0 <= idx < litmus::CHECKPOINTS implies
                !#[trigger] x.probes.parks(idx) by {
                assert(!w.probes.parks(idx));
            }
        } else {
            assert forall|u: int| 0 <= u < x.books.nodes.len() implies
                !#[trigger] x.books.needs_help(u, s) by {
                assert(!w.books.needs_help(u, s));
                assert(x.books.node_fits(t as int));
                if u != t {
                    assert(x.books.nodes[u] == w.books.nodes[u]);
                }
            }
        }
    }
}

} // verus!
