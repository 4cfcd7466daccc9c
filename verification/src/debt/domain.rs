//! A reclamation domain: reference-counted objects, the storages that publish them, and the threads
//! that load them under the protection of debts.
//!
//! The threads of a domain are logical: whoever drives the domain decides which of them moves. A
//! load runs until it is done or until it parks at an armed checkpoint of the probes, so that every
//! interleaving of loads and writes at checkpoints can be set up step by step.

use vstd::prelude::*;

use crate::debt::balance;
use crate::debt::books::{
    Books, Claim, Control, Node, Object, Op, Owner, Storage, Strategy, FAST_SLOTS, SLOTS,
};
use crate::debt::flow;
use crate::debt::flow::{Progress, World};
use crate::debt::steps;
use crate::debt::writes;
use crate::litmus;
use crate::litmus::{Arrival, Probes};

verus! {

/// The books of a domain in memory.
pub struct Domain {
    objects: Vec<Object>,
    storages: Vec<Storage>,
    slots: Vec<Option<usize>>,
    nodes: Vec<Node>,
    claims: Vec<Claim>,
    pending: Ghost<Option<(usize, usize)>>,
}

/// A storage of a domain. It is used with the domain that made it only: its address tells it from
/// the other storages of that domain.
#[derive(Debug)]
pub struct ArcSwapAny {
    storage_addr: usize,
}

impl View for Domain {
    type V = Books;

    closed spec fn view(&self) -> Books {
        Books {
            objects: self.objects@,
            storages: self.storages@,
            slots: self.slots@,
            nodes: self.nodes@,
            claims: self.claims@,
            pending: self.pending@,
        }
    }
}

impl View for ArcSwapAny {
    type V = usize;

    /// The address by which the threads know the storage.
    closed spec fn view(&self) -> usize {
        self.storage_addr
    }
}

impl ArcSwapAny {
    /// The address by which the threads know the storage.
    pub fn storage_addr(&self) -> (addr: usize)
        ensures
            addr == self@,
    {
        self.storage_addr
    }
}

/// A domain together with the probes that watch it.
pub open spec fn world(domain: Domain, probes: Probes) -> World {
    World { books: domain@, probes: probes@ }
}

// The primitive entries in the books.
impl Domain {
    /// The books fit in memory.
    proof fn lemma_roomy(&self)
        ensures
            self@.roomy(),
    {
        assert(self.storages.len() == self.storages@.len());
        assert(self.slots.len() == self.slots@.len());
        assert(self.claims.len() == self.claims@.len());
    }

    fn raise(&mut self, p: usize)
        requires
            p < old(self)@.objects.len(),
            old(self)@.objects[p as int].strong < u128::MAX,
        ensures
            final(self)@ == old(self)@.raised(p),
    {
        let mut object = self.objects[p];
        object.strong = object.strong + 1;
        self.objects[p] = object;
    }

    fn lower(&mut self, p: usize)
        requires
            old(self)@.dropped_once(),
            p < old(self)@.objects.len(),
            old(self)@.objects[p as int].strong > 0,
        ensures
            final(self)@ == old(self)@.lowered(p),
    {
        let mut object = self.objects[p];
        object.strong = object.strong - 1;
        if object.strong == 0 {
            object.drops = object.drops + 1;
        }
        self.objects[p] = object;
    }

    fn push_claim(&mut self, ptr: usize, slot: Option<usize>, owner: Owner) -> (c: usize)
        ensures
            final(self)@ == old(self)@.claimed_by(ptr, slot, owner),
            c == old(self)@.claims.len(),
    {
        let c = self.claims.len();
        self.claims.push(Claim { ptr, slot, owner, live: true });
        c
    }

    fn set_claim(&mut self, c: usize, claim: Claim)
        requires
            c < old(self)@.claims.len(),
        ensures
            final(self)@ == old(self)@.with_claim(c as int, claim),
    {
        self.claims[c] = claim;
    }

    fn end_claim(&mut self, c: usize)
        requires
            c < old(self)@.claims.len(),
        ensures
            final(self)@ == old(self)@.with_claim(c as int, old(self)@.claims[c as int].ended()),
    {
        let mut claim = self.claims[c];
        claim.live = false;
        self.set_claim(c, claim);
    }

    fn pass_claim(&mut self, c: usize, owner: Owner)
        requires
            c < old(self)@.claims.len(),
        ensures
            final(self)@ == old(self)@.with_claim(
                c as int,
                old(self)@.claims[c as int].passed_to(owner),
            ),
    {
        let mut claim = self.claims[c];
        claim.owner = owner;
        self.set_claim(c, claim);
    }

    fn set_slot(&mut self, k: usize, entry: Option<usize>)
        requires
            k < old(self)@.slots.len(),
        ensures
            final(self)@ == old(self)@.with_slot(k as int, entry),
    {
        self.slots[k] = entry;
    }

    fn set_node(&mut self, t: usize, node: Node)
        requires
            t < old(self)@.nodes.len(),
        ensures
            final(self)@ == old(self)@.with_node(t as int, node),
    {
        self.nodes[t] = node;
    }

    fn set_op(&mut self, t: usize, op: Op)
        requires
            t < old(self)@.nodes.len(),
        ensures
            final(self)@ == old(self)@.with_op(t as int, op),
    {
        let mut node = self.nodes[t];
        node.op = op;
        self.set_node(t, node);
    }

    fn is_debt(&self, c: usize) -> (debt: bool)
        requires
            self@.in_range(),
            c < self@.claims.len(),
        ensures
            debt == self@.is_debt(c as int),
    {
        match self.claims[c].slot {
            Some(k) => match self.slots[k] {
                Some(p) => p == self.claims[c].ptr,
                None => false,
            },
            None => false,
        }
    }

    fn give_up(&mut self, c: usize)
        requires
            old(self)@.accounted(),
            c < old(self)@.claims.len(),
            old(self)@.claims[c as int].live,
        ensures
            final(self)@ == old(self)@.given_up(c as int),
    {
        proof {
            balance::lemma_given_up(self@, c as int);
        }
        let claim = self.claims[c];
        if self.is_debt(c) {
            if let Some(k) = claim.slot {
                self.set_slot(k, None);
            }
        } else {
            self.lower(claim.ptr);
        }
        self.end_claim(c);
    }

    fn promote(&mut self, c: usize)
        requires
            old(self)@.accounted(),
            c < old(self)@.claims.len(),
            old(self)@.objects[old(self)@.claims[c as int].ptr as int].strong < u128::MAX,
        ensures
            final(self)@ == old(self)@.promoted(c as int),
    {
        let mut claim = self.claims[c];
        if self.is_debt(c) {
            self.raise(claim.ptr);
            if let Some(k) = claim.slot {
                self.set_slot(k, None);
            }
        }
        claim.slot = None;
        self.set_claim(c, claim);
    }

    fn first_free(&self, from: usize, n: usize) -> (slot: Option<usize>)
        requires
            from + n <= self@.slots.len(),
        ensures
            match slot {
                Some(k) => self@.first_free(from as int, n as nat) == Some(k as int),
                None => self@.first_free(from as int, n as nat) is None,
            },
    {
        let mut k = from;
        let mut left = n;
        while left > 0
            invariant
                k + left <= self@.slots.len(),
                self@.first_free(from as int, n as nat) == self@.first_free(k as int, left as nat),
            decreases left,
        {
            if self.slots[k].is_none() {
                return Some(k);
            }
            proof {
                self.lemma_roomy();
            }
            k = k + 1;
            left = left - 1;
        }
        None
    }

    fn fast_slot_for(&self, t: usize, s: usize) -> (slot: Option<usize>)
        requires
            self@.in_range(),
            t < self@.nodes.len(),
            s < self@.storages.len(),
        ensures
            match slot {
                Some(k) => self@.fast_slot_for(t as int, s as int) == Some(k as int),
                None => self@.fast_slot_for(t as int, s as int) is None,
            },
    {
        if self.storages[s].strategy == Strategy::Hybrid {
            proof {
                self.lemma_roomy();
            }
            self.first_free(SLOTS * t, FAST_SLOTS)
        } else {
            None
        }
    }
}

/// Counts an event, if there is one.
fn note(probes: &mut Probes, event: Option<usize>)
    requires
        event matches Some(idx) ==> idx < litmus::COUNTERS,
    ensures
        final(probes)@ == old(probes)@.noted(event),
{
    if let Some(idx) = event {
        litmus::count(probes, idx);
    }
}

// The steps of an operation.
impl Domain {
    /// The event that giving up a claim is.
    fn drop_event(&self, c: usize) -> (event: Option<usize>)
        requires
            self@.in_range(),
            c < self@.claims.len(),
        ensures
            event == self@.drop_event(c as int),
            event matches Some(idx) ==> idx < litmus::COUNTERS,
    {
        if self.claims[c].slot.is_none() {
            None
        } else if self.is_debt(c) {
            Some(litmus::GUARD_DROP_DEBT_PAID)
        } else {
            Some(litmus::GUARD_DROP_ALREADY_PAID)
        }
    }

    /// Takes the next step of a thread, and returns what it hands out and which event it is.
    fn step(&mut self, t: usize) -> (r: (Option<usize>, Option<usize>))
        requires
            old(self)@.at_rest(),
            t < old(self)@.nodes.len(),
            !(old(self)@.nodes[t as int].op is Idle),
            old(self)@.nodes[t as int].op is Loaded ==> old(self)@.claims.len() < usize::MAX,
        ensures
            final(self)@ == old(self)@.stepped(t),
            final(self)@.at_rest(),
            r.0 == old(self)@.yields(t),
            r.1 == old(self)@.step_event(t as int),
            r.1 matches Some(idx) ==> idx < litmus::COUNTERS,
    {
        proof {
            self.lemma_roomy();
            steps::lemma_stepped(self@, t);
            assert(self@.node_fits(t as int));
        }
        let node = self.nodes[t];
        match node.op {
            Op::Idle => (None, None),
            Op::FastClaimed { storage, claim } => {
                self.set_op(t, Op::FastConfirming { storage, claim });
                (None, None)
            },
            Op::FastConfirming { storage, claim } => {
                let confirmed = match self.storages[storage].ptr {
                    Some(p) => p == self.claims[claim].ptr,
                    None => false,
                };
                if confirmed {
                    self.pass_claim(claim, Owner::Handle);
                    self.set_op(t, Op::Idle);
                    (Some(claim), Some(litmus::FAST_CONFIRMED))
                } else if self.is_debt(claim) {
                    self.give_up(claim);
                    self.reserve(t, storage);
                    (None, None)
                } else {
                    let mut record = self.claims[claim];
                    record.slot = None;
                    record.owner = Owner::Handle;
                    self.set_claim(claim, record);
                    self.set_op(t, Op::Idle);
                    assert(self@ =~= old(self)@.stepped(t));
                    (Some(claim), Some(litmus::FAST_ALREADY_PAID))
                }
            },
            Op::Reserved { storage } => {
                if let Some(ptr) = self.storages[storage].ptr {
                    self.set_op(t, Op::Loaded { storage, ptr });
                }
                (None, None)
            },
            Op::Loaded { storage, ptr } => {
                let k = SLOTS * t + FAST_SLOTS;
                self.set_slot(k, Some(ptr));
                let claim = self.push_claim(ptr, Some(k), Owner::Op(t));
                self.set_op(t, Op::Published { storage, claim });
                (None, None)
            },
            Op::Published { storage: _, claim } => match node.control {
                Control::Replacement(r) => {
                    self.give_up(claim);
                    self.pass_claim(r, Owner::Handle);
                    self.set_node(
                        t,
                        Node {
                            control: Control::Idle,
                            active_addr: node.active_addr,
                            op: Op::Idle,
                        },
                    );
                    assert(self@ =~= old(self)@.stepped(t));
                    (Some(r), Some(litmus::FALLBACK_UPGRADED))
                },
                _ => {
                    self.set_node(
                        t,
                        Node {
                            control: Control::Idle,
                            active_addr: node.active_addr,
                            op: Op::Promoting { claim },
                        },
                    );
                    (None, Some(litmus::FALLBACK_CONFIRMED))
                },
            },
            Op::Promoting { claim } => {
                let event = if self.claims[claim].slot.is_none() {
                    None
                } else if self.is_debt(claim) {
                    Some(litmus::INTO_INNER_DEBT_PAID)
                } else {
                    Some(litmus::INTO_INNER_ALREADY_PAID)
                };
                proof {
                    steps::lemma_count_in_range(self@, self@.claims[claim as int].ptr);
                }
                self.promote(claim);
                self.pass_claim(claim, Owner::Handle);
                self.set_op(t, Op::Idle);
                (Some(claim), event)
            },
        }
    }

    fn reserve(&mut self, t: usize, s: usize)
        requires
            t < old(self)@.nodes.len(),
        ensures
            final(self)@ == old(self)@.reserved(t as int, s),
    {
        self.set_node(
            t,
            Node { control: Control::Generation, active_addr: s, op: Op::Reserved { storage: s } },
        );
    }
}

// Running operations.
impl Domain {
    /// Whether the domain is in order and nobody pays debts at the moment. Every operation keeps
    /// it so.
    pub open spec fn wf(&self) -> bool {
        self@.at_rest()
    }

    /// Runs a thread until it is done or parks.
    fn run(&mut self, probes: &mut Probes, t: usize, released: bool) -> (progress: Progress)
        requires
            old(self).wf(),
            t < old(self)@.nodes.len(),
            !(old(self)@.nodes[t as int].op is Idle),
            old(self)@.claims.len() + old(self)@.nodes[t as int].op.claims_ahead() <= usize::MAX,
        ensures
            world(*old(self), *old(probes)).run(t, released) == (
                world(*final(self), *final(probes)),
                progress,
            ),
        decreases old(self)@.nodes[t as int].op.steps_left(),
    {
        let ghost before = world(*self, *probes);
        if !released {
            let cp = self.checkpoint_of(t);
            match litmus::checkpoint(probes, cp) {
                Arrival::Park => {
                    return Progress::Parked(cp);
                },
                Arrival::Pass => {},
            }
        }
        proof {
            self.lemma_roomy();
            probes.lemma_wf();
        }
        let (handed_out, event) = self.step(t);
        note(probes, event);
        match handed_out {
            Some(c) => Progress::Done(c),
            None => {
                proof {
                    assert(before.books.node_fits(t as int));
                }
                self.run(probes, t, false)
            },
        }
    }

    /// The checkpoint that a thread passes before its next step.
    fn checkpoint_of(&self, t: usize) -> (cp: usize)
        requires
            t < self@.nodes.len(),
            !(self@.nodes[t as int].op is Idle),
        ensures
            cp == self@.nodes[t as int].op.checkpoint(),
            cp < litmus::CHECKPOINTS,
    {
        match self.nodes[t].op {
            Op::FastClaimed { .. } => litmus::CP_FAST_CLAIMED,
            Op::FastConfirming { .. } => litmus::CP_FAST_CONFIRM,
            Op::Reserved { .. } => litmus::CP_FALLBACK_GEN,
            Op::Loaded { .. } => litmus::CP_FALLBACK_CANDIDATE,
            Op::Published { .. } => litmus::CP_FALLBACK_CONFIRM,
            _ => litmus::CP_INTO_INNER,
        }
    }
}

// Paying debts.
impl Domain {
    /// Helps the load of thread `u`, if it reads the storage and needs help.
    fn help(&mut self, probes: &mut Probes, w: usize, u: usize, s: usize)
        requires
            old(self)@.wf(),
            old(self)@.claims.len() < usize::MAX,
            w < old(self)@.nodes.len(),
            u < old(self)@.nodes.len(),
        ensures
            world(*final(self), *final(probes)) == world(*old(self), *old(probes)).helped(
                w as int,
                u,
                s,
            ),
    {
        let mut node = self.nodes[u];
        if node.control == Control::Generation && node.active_addr == s {
            proof {
                self.lemma_roomy();
                assert(self@.node_fits(u as int));
                balance::lemma_stored_alive(self@, s as int);
                steps::lemma_count_in_range(self@, self@.storages[s as int].ptr->0);
            }
            let path = if self.fast_slot_for(w, s).is_some() {
                litmus::FAST_CONFIRMED
            } else {
                litmus::FALLBACK_CONFIRMED
            };
            if let Some(p) = self.storages[s].ptr {
                self.raise(p);
                let c = self.push_claim(p, None, Owner::Handover(u));
                node.control = Control::Replacement(c);
                self.set_node(u, node);
            }
            litmus::count(probes, path);
            litmus::count(probes, litmus::INTO_INNER_DEBT_PAID);
            litmus::count(probes, litmus::HELP_SUCCESS);
        }
    }

    /// Pays the debts on `q` in the slots of thread `u`.
    fn scan(&mut self, probes: &mut Probes, q: usize, Ghost(s): Ghost<usize>, u: usize)
        requires
            old(self)@.wf(),
            old(self)@.pending == Some((q, s)),
            u < old(self)@.nodes.len(),
        ensures
            world(*final(self), *final(probes)) == world(*old(self), *old(probes)).scanned(
                q,
                SLOTS * u,
                SLOTS as nat,
            ),
    {
        let ghost before = world(*self, *probes);
        proof {
            self.lemma_roomy();
            probes.lemma_wf();
        }
        let mut i: usize = 0;
        while i < SLOTS
            invariant
                i <= SLOTS,
                before.books.wf(),
                before.probes.wf(),
                before.books.roomy(),
                before.books.pending == Some((q, s)),
                u < before.books.nodes.len(),
                world(*self, *probes) == before.scanned(q, SLOTS * u, i as nat),
            decreases SLOTS - i,
        {
            proof {
                flow::lemma_scanned(before, q, s, SLOTS * u, i as nat);
            }
            let k = SLOTS * u + i;
            let owed = match self.slots[k] {
                Some(p) => p == q,
                None => false,
            };
            if owed {
                proof {
                    writes::lemma_paid(self@, k as int);
                }
                self.raise(q);
                self.set_slot(k, None);
                litmus::count(probes, litmus::PAY_SLOT);
            }
            i = i + 1;
        }
    }

    /// Comes by every thread node after `q` was displaced from storage `s`.
    fn walk(&mut self, probes: &mut Probes, w: usize, q: usize, s: usize)
        requires
            old(self)@.wf(),
            old(self)@.pending == Some((q, s)),
            w < old(self)@.nodes.len(),
            old(self)@.claims.len() + old(self)@.nodes.len() <= usize::MAX,
        ensures
            world(*final(self), *final(probes)) == world(*old(self), *old(probes)).walked(
                w as int,
                q,
                s,
                old(self)@.nodes.len(),
            ),
    {
        let ghost before = world(*self, *probes);
        let n = self.nodes.len();
        proof {
            self.lemma_roomy();
            probes.lemma_wf();
        }
        let mut u: usize = 0;
        while u < n
            invariant
                u <= n,
                n == before.books.nodes.len(),
                w < n,
                before.books.wf(),
                before.probes.wf(),
                before.books.roomy(),
                before.books.pending == Some((q, s)),
                before.books.claims.len() + n <= usize::MAX,
                world(*self, *probes) == before.walked(w as int, q, s, u as nat),
            decreases n - u,
        {
            proof {
                flow::lemma_walked(before, w as int, q, s, u as nat);
                if self@.needs_help(u as int, s) {
                    writes::lemma_helped(self@, u);
                }
            }
            self.help(probes, w, u, s);
            self.scan(probes, q, Ghost(s), u);
            u = u + 1;
        }
    }

    /// Puts an owned reference into a storage, or nothing, and pays all debts on what it held.
    fn write(
        &mut self,
        probes: &mut Probes,
        w: usize,
        s: usize,
        new: Option<usize>,
    ) -> (displaced: usize)
        requires
            old(self).wf(),
            w < old(self)@.nodes.len(),
            old(self)@.is_open(s),
            new matches Some(c) ==> old(self)@.is_owned(c as int),
            new is None ==> old(self)@.quiet(s as int),
            old(self)@.claims.len() + 1 + old(self)@.nodes.len() <= usize::MAX,
        ensures
            world(*final(self), *final(probes)) == world(*old(self), *old(probes)).written(
                w as int,
                s,
                new,
            ),
            displaced == old(self)@.claims.len(),
            world(*final(self), *final(probes)).at_rest(),
    {
        let ghost before = world(*self, *probes);
        proof {
            self.lemma_roomy();
            probes.lemma_wf();
            flow::lemma_written(before, w as int, s, new);
            if before.books.storages[s as int].strategy.owes() {
                writes::lemma_opened(before.books, s, new);
            }
        }
        let mut storage = self.storages[s];
        let q = match storage.ptr {
            Some(p) => p,
            None => 0,
        };
        match new {
            Some(c) => {
                storage.ptr = Some(self.claims[c].ptr);
                self.storages[s] = storage;
                self.end_claim(c);
            },
            None => {
                storage.ptr = None;
                self.storages[s] = storage;
            },
        }
        let displaced = self.push_claim(q, None, Owner::Handle);
        assert(self@ =~= before.books.displaced(s as int, new));
        if storage.strategy != Strategy::RwLock {
            self.pending = Ghost(Some((q, s)));
            assert(self@ =~= before.books.opened(s, new));
            self.walk(probes, w, q, s);
            self.pending = Ghost(None);
        }
        displaced
    }
}

// What a driver does with a domain.
impl Domain {
    /// The thread is there and in the middle of nothing.
    pub open spec fn idle(&self, t: usize) -> bool {
        t < self@.nodes.len() && self@.nodes[t as int].op is Idle
    }

    /// The thread is there and in the middle of something.
    pub open spec fn busy(&self, t: usize) -> bool {
        t < self@.nodes.len() && self@.nodes[t as int].op !is Idle
    }

    /// There is room for this many more claims.
    pub open spec fn room(&self, n: nat) -> bool {
        self@.claims.len() + n <= usize::MAX
    }

    /// A domain without threads and objects.
    pub fn new() -> (domain: Domain)
        ensures
            domain@ == Books::empty(),
            domain.wf(),
            domain@.objects.len() == 0,
            domain@.storages.len() == 0,
            domain@.slots.len() == 0,
            domain@.nodes.len() == 0,
            domain@.claims.len() == 0,
    {
        let domain = Domain {
            objects: Vec::new(),
            storages: Vec::new(),
            slots: Vec::new(),
            nodes: Vec::new(),
            claims: Vec::new(),
            pending: Ghost(None),
        };
        proof {
            assert(domain@ =~= Books::empty());
            balance::lemma_empty();
        }
        domain
    }

    /// A new thread, with all its debt slots free.
    pub fn join(&mut self) -> (t: usize)
        requires
            old(self).wf(),
            old(self)@.slots.len() + SLOTS <= usize::MAX,
        ensures
            final(self).wf(),
            final(self)@ == old(self)@.joined(),
            t == old(self)@.nodes.len(),
            final(self)@.nodes == old(self)@.nodes.push(
                Node { control: Control::Idle, active_addr: 0, op: Op::Idle },
            ),
            final(self)@.slots.len() == old(self)@.slots.len() + 9,
            forall|k: int|
                0 <= k < final(self)@.slots.len() ==> #[trigger] final(self)@.slots[k] == (if k
                    < old(self)@.slots.len() {
                    old(self)@.slots[k]
                } else {
                    None
                }),
            final(self)@.objects == old(self)@.objects,
            final(self)@.storages == old(self)@.storages,
            final(self)@.claims == old(self)@.claims,
    {
        let ghost before = self@;
        proof {
            writes::lemma_joined(self@);
        }
        let t = self.nodes.len();
        let mut i: usize = 0;
        while i < SLOTS
            invariant
                i <= SLOTS,
                self@ == (Books {
                    slots: before.slots + Seq::new(i as nat, |j: int| None::<usize>),
                    ..before
                }),
            decreases SLOTS - i,
        {
            self.slots.push(None);
            i = i + 1;
            assert(self@.slots =~= before.slots + Seq::new(i as nat, |j: int| None::<usize>));
        }
        self.nodes.push(Node { control: Control::Idle, active_addr: 0, op: Op::Idle });
        t
    }

    /// A new object. The result is an owned reference to it, and the object itself, by which its
    /// drops are counted.
    pub fn token(&mut self, id: u32) -> (token: (usize, usize))
        requires
            old(self).wf(),
            old(self)@.objects.len() < usize::MAX,
            old(self).room(1),
        ensures
            final(self).wf(),
            final(self)@ == old(self)@.allocated(id),
            token.0 == old(self)@.claims.len(),
            token.1 == old(self)@.objects.len(),
            final(self)@.is_owned(token.0 as int),
            old(self)@.handles_stay(final(self)@, -1),
            final(self)@.objects == old(self)@.objects.push(Object { id, strong: 1, drops: 0 }),
            final(self)@.claims == old(self)@.claims.push(
                Claim { ptr: token.1, slot: None, owner: Owner::Handle, live: true },
            ),
            final(self)@.storages == old(self)@.storages,
            final(self)@.slots == old(self)@.slots,
            final(self)@.nodes == old(self)@.nodes,
    {
        proof {
            writes::lemma_allocated(self@, id);
        }
        let object = self.objects.len();
        self.objects.push(Object { id, strong: 1, drops: 0 });
        let claim = self.push_claim(object, None, Owner::Handle);
        (claim, object)
    }

    /// Another owned reference to what a reference or guard protects.
    pub fn share(&mut self, c: usize) -> (shared: usize)
        requires
            old(self).wf(),
            old(self)@.is_handle(c as int),
            old(self).room(1),
        ensures
            final(self).wf(),
            final(self)@ == old(self)@.shared(old(self)@.claims[c as int].ptr, Owner::Handle),
            shared == old(self)@.claims.len(),
            final(self)@.is_owned(shared as int),
            old(self)@.handles_stay(final(self)@, -1),
            final(self)@.objects.len() == old(self)@.objects.len(),
            forall|p: int|
                0 <= p < old(self)@.objects.len() ==> {
                    &&& (#[trigger] final(self)@.objects[p]).id == old(self)@.objects[p].id
                    &&& final(self)@.objects[p].drops == old(self)@.objects[p].drops
                    &&& final(self)@.objects[p].strong == old(self)@.objects[p].strong + (if p
                        == old(self)@.claims[c as int].ptr {
                        1int
                    } else {
                        0
                    })
                },
            final(self)@.claims == old(self)@.claims.push(
                Claim {
                    ptr: old(self)@.claims[c as int].ptr,
                    slot: None,
                    owner: Owner::Handle,
                    live: true,
                },
            ),
            final(self)@.storages == old(self)@.storages,
            final(self)@.slots == old(self)@.slots,
            final(self)@.nodes == old(self)@.nodes,
    {
        proof {
            self.lemma_roomy();
            writes::lemma_shared(self@, c as int);
            steps::lemma_count_in_range(self@, self@.claims[c as int].ptr);
        }
        let p = self.claims[c].ptr;
        self.raise(p);
        self.push_claim(p, None, Owner::Handle)
    }

    /// A new storage that takes over an owned reference.
    pub fn storage(&mut self, c: usize, strategy: Strategy) -> (swap: ArcSwapAny)
        requires
            old(self).wf(),
            old(self)@.is_owned(c as int),
            old(self)@.storages.len() < usize::MAX,
        ensures
            final(self).wf(),
            final(self)@ == old(self)@.stored_from(c as int, strategy),
            swap@ == old(self)@.storages.len(),
            final(self)@.is_open(swap@),
            old(self)@.handles_stay(final(self)@, c as int),
            final(self)@.storages == old(self)@.storages.push(
                Storage { ptr: Some(old(self)@.claims[c as int].ptr), strategy },
            ),
            final(self)@.claims == old(self)@.claims.update(
                c as int,
                Claim { live: false, ..old(self)@.claims[c as int] },
            ),
            final(self)@.objects == old(self)@.objects,
            final(self)@.slots == old(self)@.slots,
            final(self)@.nodes == old(self)@.nodes,
    {
        proof {
            writes::lemma_stored_from(self@, c as int, strategy);
        }
        let storage_addr = self.storages.len();
        self.storages.push(Storage { ptr: Some(self.claims[c].ptr), strategy });
        self.end_claim(c);
        assert(self@ =~= old(self)@.stored_from(c as int, strategy));
        ArcSwapAny { storage_addr }
    }

    /// Loads a guard from a storage. Unless the load parks on the way, the guard protects what the
    /// storage holds.
    pub fn load(&mut self, probes: &mut Probes, t: usize, swap: &ArcSwapAny) -> (progress: Progress)
        requires
            old(self).wf(),
            old(self).idle(t),
            old(self)@.is_open(swap@),
            old(self).room(2),
        ensures
            world(*old(self), *old(probes)).load(t, swap@) == (
                world(*final(self), *final(probes)),
                progress,
            ),
            final(self).wf(),
            final(self)@.objects.len() == old(self)@.objects.len(),
            final(probes)@.armed == old(probes)@.armed,
            progress is Done ==> old(probes)@.same_checkpoints(final(probes)@),
            final(self)@.storages == old(self)@.storages,
            final(self)@.nodes.len() == old(self)@.nodes.len(),
            final(self)@.claims.len() <= old(self)@.claims.len() + 2,
            old(self)@.handles_stay(final(self)@, -1),
            match progress {
                Progress::Done(c) => {
                    &&& final(self).idle(t)
                    &&& final(self)@.is_handle(c as int)
                    &&& !old(self)@.is_handle(c as int)
                    &&& Some(final(self)@.claims[c as int].ptr)
                        == old(self)@.storages[swap@ as int].ptr
                },
                Progress::Parked(idx) => {
                    &&& final(self).busy(t)
                    &&& idx == final(self)@.nodes[t as int].op.checkpoint()
                },
            },
    {
        let s = swap.storage_addr;
        let ghost before = world(*self, *probes);
        proof {
            self.lemma_roomy();
            probes.lemma_wf();
            flow::lemma_load(before, t, s);
            flow::lemma_fast_slot(self@, t as int, s as int);
        }
        let p = match self.storages[s].ptr {
            Some(p) => p,
            None => 0,
        };
        if self.storages[s].strategy == Strategy::RwLock {
            proof {
                balance::lemma_stored_alive(self@, s as int);
                steps::lemma_count_in_range(self@, p);
            }
            self.raise(p);
            let c = self.push_claim(p, None, Owner::Handle);
            return Progress::Done(c);
        }
        match self.fast_slot_for(t, s) {
            Some(k) => {
                proof {
                    steps::lemma_fast_claimed(self@, t, s, k);
                }
                self.set_slot(k, Some(p));
                let claim = self.push_claim(p, Some(k), Owner::Op(t));
                self.set_op(t, Op::FastClaimed { storage: s, claim });
                assert(self@ =~= before.books.fast_claimed(t, s, k));
            },
            None => {
                proof {
                    steps::lemma_reserved(self@, t, s);
                }
                self.reserve(t, s);
            },
        }
        self.run(probes, t, false)
    }

    /// Lets a parked thread go on, if its checkpoint is no longer armed; else it stays parked.
    pub fn resume(&mut self, probes: &mut Probes, t: usize) -> (progress: Progress)
        requires
            old(self).wf(),
            old(self).busy(t),
            old(self).room(1),
        ensures
            world(*old(self), *old(probes)).resumed(t) == (
                world(*final(self), *final(probes)),
                progress,
            ),
            final(self).wf(),
            final(self)@.objects.len() == old(self)@.objects.len(),
            final(probes)@.armed == old(probes)@.armed,
            progress is Done ==> old(probes)@.same_checkpoints(final(probes)@),
            final(self)@.storages == old(self)@.storages,
            final(self)@.nodes.len() == old(self)@.nodes.len(),
            final(self)@.claims.len() <= old(self)@.claims.len() + 1,
            old(self)@.handles_stay(final(self)@, -1),
            match progress {
                Progress::Done(c) => {
                    &&& final(self).idle(t)
                    &&& final(self)@.is_handle(c as int)
                    &&& !old(self)@.is_handle(c as int)
                },
                Progress::Parked(idx) => {
                    &&& final(self).busy(t)
                    &&& idx == final(self)@.nodes[t as int].op.checkpoint()
                },
            },
    {
        proof {
            self.lemma_roomy();
            probes.lemma_wf();
            flow::lemma_run(world(*self, *probes), t, true);
        }
        let cp = self.checkpoint_of(t);
        if litmus::is_armed(probes, cp) {
            Progress::Parked(cp)
        } else {
            self.run(probes, t, true)
        }
    }

    /// Turns a guard into an owned reference to the same object.
    pub fn into_inner(&mut self, probes: &mut Probes, t: usize, c: usize) -> (progress: Progress)
        requires
            old(self).wf(),
            old(self).idle(t),
            old(self)@.is_handle(c as int),
        ensures
            world(*old(self), *old(probes)).into_inner(t, c) == (
                world(*final(self), *final(probes)),
                progress,
            ),
            final(self).wf(),
            final(self)@.objects.len() == old(self)@.objects.len(),
            final(probes)@.armed == old(probes)@.armed,
            progress is Done ==> old(probes)@.same_checkpoints(final(probes)@),
            final(self)@.claims.len() == old(self)@.claims.len(),
            final(self)@.storages == old(self)@.storages,
            final(self)@.nodes.len() == old(self)@.nodes.len(),
            old(self)@.handles_stay(final(self)@, c as int),
            match progress {
                Progress::Done(e) => {
                    &&& e == c
                    &&& final(self).idle(t)
                    &&& final(self)@.is_owned(c as int)
                    &&& final(self)@.claims[c as int].ptr == old(self)@.claims[c as int].ptr
                },
                Progress::Parked(idx) => final(self).busy(t) && idx == litmus::CP_INTO_INNER,
            },
    {
        let ghost before = world(*self, *probes);
        proof {
            self.lemma_roomy();
            probes.lemma_wf();
            flow::lemma_into_inner(before, t, c);
            steps::lemma_promoting(self@, t, c);
        }
        self.pass_claim(c, Owner::Op(t));
        self.set_op(t, Op::Promoting { claim: c });
        assert(self@ =~= before.books.promoting(t, c));
        self.run(probes, t, false)
    }

    /// Gives up a reference or a guard.
    pub fn drop_claim(&mut self, probes: &mut Probes, c: usize)
        requires
            old(self).wf(),
            old(self)@.is_handle(c as int),
        ensures
            world(*final(self), *final(probes)) == world(*old(self), *old(probes)).dropped(
                c as int,
            ),
            final(self).wf(),
            final(self)@.objects.len() == old(self)@.objects.len(),
            final(self)@.claims.len() == old(self)@.claims.len(),
            final(self)@.nodes == old(self)@.nodes,
            final(self)@.storages == old(self)@.storages,
            old(probes)@.same_checkpoints(final(probes)@),
            old(self)@.handles_stay(final(self)@, c as int),
    {
        proof {
            writes::lemma_given_up(self@, c as int);
        }
        let event = self.drop_event(c);
        self.give_up(c);
        note(probes, event);
    }

    /// Puts an owned reference into a storage and returns an owned reference to what it held. No
    /// debt on that is left.
    pub fn swap(
        &mut self,
        probes: &mut Probes,
        t: usize,
        swap: &ArcSwapAny,
        new: usize,
    ) -> (old_value: usize)
        requires
            old(self).wf(),
            old(self).idle(t),
            old(self)@.is_open(swap@),
            old(self)@.is_owned(new as int),
            world(*old(self), *old(probes)).unhindered(swap@),
            old(self).room(1 + old(self)@.nodes.len()),
        ensures
            world(*final(self), *final(probes)) == world(*old(self), *old(probes)).written(
                t as int,
                swap@,
                Some(new),
            ),
            old_value == old(self)@.claims.len(),
            final(self).wf(),
            final(self)@.objects.len() == old(self)@.objects.len(),
            old(probes)@.same_checkpoints(final(probes)@),
            final(self)@.nodes.len() == old(self)@.nodes.len(),
            final(self)@.claims.len() <= old(self)@.claims.len() + 1 + old(self)@.nodes.len(),
            final(self).idle(t),
            final(self)@.is_open(swap@),
            final(self)@.is_owned(old_value as int),
            Some(final(self)@.claims[old_value as int].ptr)
                == old(self)@.storages[swap@ as int].ptr,
            old(self)@.handles_stay(final(self)@, new as int),
    {
        proof {
            self.lemma_roomy();
            probes.lemma_wf();
            flow::lemma_written(world(*self, *probes), t as int, swap@, Some(new));
        }
        self.write(probes, t, swap.storage_addr, Some(new))
    }

    /// Puts an owned reference into a storage and gives up what it held.
    pub fn store(&mut self, probes: &mut Probes, t: usize, swap: &ArcSwapAny, new: usize)
        requires
            old(self).wf(),
            old(self).idle(t),
            old(self)@.is_open(swap@),
            old(self)@.is_owned(new as int),
            world(*old(self), *old(probes)).unhindered(swap@),
            old(self).room(1 + old(self)@.nodes.len()),
        ensures
            world(*final(self), *final(probes)) == world(*old(self), *old(probes)).replaced(
                t as int,
                swap@,
                Some(new),
            ),
            final(self).wf(),
            final(self)@.objects.len() == old(self)@.objects.len(),
            old(probes)@.same_checkpoints(final(probes)@),
            final(self)@.nodes.len() == old(self)@.nodes.len(),
            final(self)@.claims.len() <= old(self)@.claims.len() + 1 + old(self)@.nodes.len(),
            final(self).idle(t),
            final(self)@.is_open(swap@),
            old(self)@.handles_stay(final(self)@, new as int),
    {
        let old_value = self.swap(probes, t, swap, new);
        self.drop_claim(probes, old_value);
    }

    /// Takes what a storage holds out of it; the storage is gone.
    pub fn take(&mut self, probes: &mut Probes, t: usize, swap: ArcSwapAny) -> (value: usize)
        requires
            old(self).wf(),
            old(self).idle(t),
            old(self)@.is_open(swap@),
            old(self)@.quiet(swap@ as int),
            old(self).room(1 + old(self)@.nodes.len()),
        ensures
            world(*final(self), *final(probes)) == world(*old(self), *old(probes)).written(
                t as int,
                swap@,
                None,
            ),
            value == old(self)@.claims.len(),
            final(self).wf(),
            final(self)@.objects.len() == old(self)@.objects.len(),
            old(probes)@.same_checkpoints(final(probes)@),
            final(self)@.nodes.len() == old(self)@.nodes.len(),
            final(self)@.claims.len() <= old(self)@.claims.len() + 1 + old(self)@.nodes.len(),
            final(self).idle(t),
            final(self)@.is_owned(value as int),
            Some(final(self)@.claims[value as int].ptr) == old(self)@.storages[swap@ as int].ptr,
            old(self)@.handles_stay(final(self)@, -1),
    {
        proof {
            self.lemma_roomy();
            probes.lemma_wf();
            flow::lemma_written(world(*self, *probes), t as int, swap@, None);
        }
        self.write(probes, t, swap.storage_addr, None)
    }

    /// Destroys a storage and gives up what it held.
    pub fn drop_storage(&mut self, probes: &mut Probes, t: usize, swap: ArcSwapAny)
        requires
            old(self).wf(),
            old(self).idle(t),
            old(self)@.is_open(swap@),
            old(self)@.quiet(swap@ as int),
            old(self).room(1 + old(self)@.nodes.len()),
        ensures
            world(*final(self), *final(probes)) == world(*old(self), *old(probes)).replaced(
                t as int,
                swap@,
                None,
            ),
            final(self).wf(),
            final(self)@.objects.len() == old(self)@.objects.len(),
            old(probes)@.same_checkpoints(final(probes)@),
            final(self)@.nodes.len() == old(self)@.nodes.len(),
            final(self)@.claims.len() <= old(self)@.claims.len() + 1 + old(self)@.nodes.len(),
            final(self).idle(t),
            old(self)@.handles_stay(final(self)@, -1),
    {
        let value = self.take(probes, t, swap);
        self.drop_claim(probes, value);
    }

    /// The second half of a compare-and-swap, after a thread has loaded `guard`. If the guard is of
    /// another object than `current`, `new` is given up and the guard is the result. Else, if the
    /// storage still holds that object, `new` takes its place and the guard is the result. Else the
    /// guard is given up, and the whole operation starts again with a load.
    pub fn decide(
        &mut self,
        probes: &mut Probes,
        t: usize,
        swap: &ArcSwapAny,
        guard: usize,
        current: usize,
        new: usize,
    ) -> (result: Option<usize>)
        requires
            old(self).wf(),
            old(self).idle(t),
            old(self)@.is_open(swap@),
            old(self)@.is_handle(guard as int),
            old(self)@.is_handle(current as int),
            old(self)@.is_owned(new as int),
            guard != new,
            world(*old(self), *old(probes)).unhindered(swap@),
            old(self).room(1 + old(self)@.nodes.len()),
        ensures
            world(*old(self), *old(probes)).decided(
                t as int,
                swap@,
                guard,
                current as int,
                new,
            ) == (world(*final(self), *final(probes)), result),
            final(self).wf(),
            final(self)@.objects.len() == old(self)@.objects.len(),
            old(probes)@.same_checkpoints(final(probes)@),
            final(self)@.nodes.len() == old(self)@.nodes.len(),
            final(self)@.claims.len() <= old(self)@.claims.len() + 1 + old(self)@.nodes.len(),
            final(self).idle(t),
            final(self)@.is_open(swap@),
            match result {
                Some(g) => {
                    &&& g == guard
                    &&& old(self)@.handles_stay(final(self)@, new as int)
                },
                None => old(self)@.handles_stay(final(self)@, guard as int),
            },
    {
        if self.claims[guard].ptr != self.claims[current].ptr {
            self.drop_claim(probes, new);
            return Some(guard);
        }
        let unchanged = match self.storages[swap.storage_addr].ptr {
            Some(p) => p == self.claims[guard].ptr,
            None => false,
        };
        if unchanged {
            self.store(probes, t, swap, new);
            Some(guard)
        } else {
            self.drop_claim(probes, guard);
            None
        }
    }

    /// Compares what a storage holds with `current`, and puts `new` in its place if they are the
    /// same; else `new` is given up. The result is a guard of what the storage held. If the load
    /// parks on the way, the rest is up to [`Domain::resume`] and [`Domain::decide`].
    pub fn compare_and_swap(
        &mut self,
        probes: &mut Probes,
        t: usize,
        swap: &ArcSwapAny,
        current: usize,
        new: usize,
    ) -> (progress: Progress)
        requires
            old(self).wf(),
            old(self).idle(t),
            old(self)@.is_open(swap@),
            old(self)@.is_handle(current as int),
            old(self)@.is_owned(new as int),
            world(*old(self), *old(probes)).unhindered(swap@),
            old(self).room(3 + old(self)@.nodes.len()),
        ensures
            world(*old(self), *old(probes)).swapped_if(t, swap@, current as int, new) == (
                world(*final(self), *final(probes)),
                progress,
            ),
            final(self).wf(),
            final(self)@.objects.len() == old(self)@.objects.len(),
            final(self)@.nodes.len() == old(self)@.nodes.len(),
            final(self)@.claims.len() <= old(self)@.claims.len() + 3 + old(self)@.nodes.len(),
            final(probes)@.armed == old(probes)@.armed,
            progress is Done ==> old(probes)@.same_checkpoints(final(probes)@),
            final(self)@.is_open(swap@),
            match progress {
                Progress::Done(guard) => {
                    &&& final(self).idle(t)
                    &&& final(self)@.is_handle(guard as int)
                    &&& Some(final(self)@.claims[guard as int].ptr)
                        == old(self)@.storages[swap@ as int].ptr
                    &&& old(self)@.handles_stay(final(self)@, new as int)
                },
                Progress::Parked(_) => {
                    &&& final(self).busy(t)
                    &&& old(self)@.handles_stay(final(self)@, -1)
                },
            },
    {
        proof {
            self.lemma_roomy();
            probes.lemma_wf();
            flow::lemma_load(world(*self, *probes), t, swap@);
            flow::lemma_still_unhindered(world(*self, *probes), t, swap@);
        }
        match self.load(probes, t, swap) {
            Progress::Done(guard) => {
                self.decide(probes, t, swap, guard, current, new);
                Progress::Done(guard)
            },
            parked => parked,
        }
    }

    /// How many counted references to the object there are.
    pub fn strong_count(&self, c: usize) -> (count: u128)
        requires
            self.wf(),
            self@.is_handle(c as int),
        ensures
            count == self@.objects[self@.claims[c as int].ptr as int].strong,
            count > 0,
    {
        proof {
            balance::lemma_claim_alive(self@, c as int);
        }
        self.objects[self.claims[c].ptr].strong
    }

    /// The identity of the object that a reference or guard protects.
    pub fn id(&self, c: usize) -> (id: u32)
        requires
            self.wf(),
            self@.is_handle(c as int),
        ensures
            id == self@.objects[self@.claims[c as int].ptr as int].id,
    {
        self.objects[self.claims[c].ptr].id
    }

    /// How often an object was dropped.
    pub fn drops(&self, object: usize) -> (drops: usize)
        requires
            object < self@.objects.len(),
        ensures
            drops == self@.objects[object as int].drops,
    {
        self.objects[object].drops
    }
}

} // verus!
