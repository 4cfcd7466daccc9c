//! The steps of loads and writes, and why the books stay in order over each of them.

use vstd::prelude::*;

use crate::debt::balance;
use crate::debt::books;
use crate::debt::books::{Books, Control, Node, Op, Owner};

verus! {

impl Books {
    /// A thread goes on to another operation.
    pub open spec fn with_op(self, t: int, op: Op) -> Books {
        self.with_node(t, Node { op, ..self.nodes[t] })
    }

    /// A fast load reads the storage and claims a free slot for what it read.
    pub open spec fn fast_claimed(self, t: usize, s: usize, k: usize) -> Books {
        self.indebted(self.storages[s as int].ptr->0, k, Owner::Op(t)).with_op(
            t as int,
            Op::FastClaimed { storage: s, claim: self.claims.len() as usize },
        )
    }

    /// A fallback load publishes the storage that it reads and its generation.
    pub open spec fn reserved(self, t: int, s: usize) -> Books {
        self.with_node(
            t,
            Node { control: Control::Generation, active_addr: s, op: Op::Reserved { storage: s } },
        )
    }

    /// A claim is handed out; the thread is done.
    pub open spec fn handed_out(self, t: int, c: int) -> Books {
        self.with_claim(c, self.claims[c].passed_to(Owner::Handle)).with_op(t, Op::Idle)
    }

    /// A guard is about to be turned into an owned reference.
    pub open spec fn promoting(self, t: usize, c: usize) -> Books {
        self.with_claim(c as int, self.claims[c as int].passed_to(Owner::Op(t))).with_op(
            t as int,
            Op::Promoting { claim: c },
        )
    }

    /// A new thread, with all its slots free.
    pub open spec fn joined(self) -> Books {
        Books {
            nodes: self.nodes.push(Node { control: Control::Idle, active_addr: 0, op: Op::Idle }),
            slots: self.slots + Seq::new(books::SLOTS as nat, |i: int| None::<usize>),
            ..self
        }
    }

    /// The step that a thread takes next in the operation that it is in the middle of.
    pub open spec fn stepped(self, t: usize) -> Books {
        let node = self.nodes[t as int];
        match node.op {
            Op::Idle => self,
            Op::FastClaimed { storage, claim } => self.with_op(
                t as int,
                Op::FastConfirming { storage, claim },
            ),
            Op::FastConfirming { storage, claim } => {
                let c = claim as int;
                if self.storages[storage as int].ptr == Some(self.claims[c].ptr) {
                    self.handed_out(t as int, c)
                } else if self.is_debt(c) {
                    self.given_up(c).reserved(t as int, storage)
                } else {
                    self.with_claim(c, self.claims[c].counted()).handed_out(t as int, c)
                }
            },
            Op::Reserved { storage } => self.with_op(
                t as int,
                Op::Loaded { storage, ptr: self.storages[storage as int].ptr->0 },
            ),
            Op::Loaded { storage, ptr } => self.indebted(
                ptr,
                books::helping_slot_of(t as int) as usize,
                Owner::Op(t),
            ).with_op(t as int, Op::Published { storage, claim: self.claims.len() as usize }),
            Op::Published { storage, claim } => match node.control {
                Control::Replacement(r) => self.given_up(claim as int).with_node(
                    t as int,
                    Node { control: Control::Idle, ..node },
                ).handed_out(t as int, r as int),
                _ => self.with_node(
                    t as int,
                    Node { control: Control::Idle, op: Op::Promoting { claim }, ..node },
                ),
            },
            Op::Promoting { claim } => self.promoted(claim as int).handed_out(
                t as int,
                claim as int,
            ),
        }
    }

    /// The claim that a thread hands out with its next step, if it does.
    pub open spec fn yields(self, t: usize) -> Option<usize> {
        let node = self.nodes[t as int];
        match node.op {
            Op::FastConfirming { storage, claim } => if self.storages[storage as int].ptr == Some(
                self.claims[claim as int].ptr,
            ) || !self.is_debt(claim as int) {
                Some(claim)
            } else {
                None
            },
            Op::Published { .. } => match node.control {
                Control::Replacement(r) => Some(r),
                _ => None,
            },
            Op::Promoting { claim } => Some(claim),
            _ => None,
        }
    }
}

impl Books {
    /// The books fit in memory.
    pub open spec fn roomy(self) -> bool {
        &&& self.storages.len() <= usize::MAX
        &&& self.slots.len() <= usize::MAX
        &&& self.claims.len() <= usize::MAX
    }
}

/// No count is ever out of range.
pub proof fn lemma_count_in_range(b: Books, p: usize)
    requires
        b.accounted(),
        b.roomy(),
        p < b.objects.len(),
    ensures
        b.objects[p as int].strong < u128::MAX,
{
    balance::lemma_owed_within_claims(b, p);
}

/// Claiming a fast slot keeps the books in order.
pub proof fn lemma_fast_claimed(b: Books, t: usize, s: usize, k: usize)
    requires
        b.wf(),
        t < b.nodes.len(),
        b.nodes[t as int].op is Idle,
        b.loadable(s as int),
        books::is_fast_slot_of(k as int, t as int),
        b.slots[k as int] is None,
        b.claims.len() < usize::MAX,
    ensures
        b.fast_claimed(t, s, k).wf(),
{
    let p = b.storages[s as int].ptr->0;
    let d = b.fast_claimed(t, s, k);
    assert(b.node_fits(t as int));
    balance::lemma_slot_of(k as int, t as int);
    balance::lemma_indebted(b, p, k, Owner::Op(t));
    balance::lemma_node_free(b.indebted(p, k, Owner::Op(t)), t as int, d.nodes[t as int]);
    lemma_kept_frame(b, d);
    assert forall|j: int| 0 <= j < d.slots.len() implies (#[trigger] d.slots[j] matches Some(q)
        ==> d.stale(j) || d.kept(q)) by {
        if j == k {
            assert(b.keeps(s as int, p));
            assert(d.keeps(s as int, p));
        }
    }
    assert forall|u: int| 0 <= u < d.nodes.len() implies #[trigger] d.node_fits(u) by {
        assert(b.node_fits(u));
        balance::lemma_slot_of(k as int, u);
    }
    assert forall|c: int|
        0 <= c < d.claims.len() && (#[trigger] d.claims[c]).live implies d.owner_fits(c) by {
        if c < b.claims.len() {
            assert(b.owner_fits(c));
        }
    }
}

/// What is kept alive stays so as long as the storages, the pending displacement and the owned
/// references stay.
pub proof fn lemma_kept_frame(b: Books, d: Books)
    requires
        d.storages == b.storages,
        d.pending == b.pending,
        d.claims.len() >= b.claims.len(),
        b.pending_held(),
        b.pending is None || forall|c: int|
            0 <= c < b.claims.len() && b.claims[c].live && b.claims[c].slot is None ==> {
                &&& (#[trigger] d.claims[c]).live
                &&& d.claims[c].slot is None
                &&& d.claims[c].ptr == b.claims[c].ptr
            },
    ensures
        d.pending_held(),
        forall|p: usize| b.kept(p) ==> #[trigger] d.kept(p),
{
    if let Some((q, _)) = b.pending {
        let c = choose|c: int| b.held(c, q);
        assert(b.held(c, q));
        assert(d.claims[c].live);
        assert(d.held(c, q));
    }
    assert forall|p: usize| b.kept(p) implies #[trigger] d.kept(p) by {
        if exists|s: int| b.keeps(s, p) {
            let s = choose|s: int| b.keeps(s, p);
            assert(b.keeps(s, p));
            assert(d.keeps(s, p));
        }
    }
}

/// What can change in the books so that the other threads and claims still fit: the nodes of other
/// threads stay, and so do the claims that they work on.
pub proof fn lemma_nodes_frame(b: Books, d: Books, t: int)
    requires
        b.wf(),
        d.objects.len() == b.objects.len(),
        d.storages == b.storages,
        d.pending == b.pending,
        d.nodes.len() == b.nodes.len(),
        d.claims.len() >= b.claims.len(),
        d.slots.len() == b.slots.len(),
        forall|u: int| 0 <= u < b.nodes.len() && u != t ==> #[trigger] d.nodes[u] == b.nodes[u],
        forall|u: int|
            0 <= u < b.nodes.len() && u != t ==> #[trigger] d.slots[books::helping_slot_of(u)]
                == b.slots[books::helping_slot_of(u)],
        forall|c: int|
            0 <= c < b.claims.len() && b.claims[c].live && (match b.claims[c].owner {
                Owner::Handle => false,
                Owner::Op(u) => u != t,
                Owner::Handover(u) => u != t,
            }) ==> #[trigger] d.claims[c] == b.claims[c],
    ensures
        forall|u: int| 0 <= u < d.nodes.len() && u != t ==> #[trigger] d.node_fits(u),
{
    assert forall|u: int| 0 <= u < d.nodes.len() && u != t implies #[trigger] d.node_fits(u) by {
        assert(b.node_fits(u));
        assert(d.nodes[u] == b.nodes[u]);
        let h = books::helping_slot_of(u);
        assert(d.slots[h] == b.slots[h]);
        if let Some(c) = b.nodes[u].op.claim() {
            assert(d.claims[c as int] == b.claims[c as int]);
        }
        if let Control::Replacement(c) = b.nodes[u].control {
            assert(d.claims[c as int] == b.claims[c as int]);
        }
    }
}

proof fn lemma_step_fast_claimed(b: Books, t: usize)
    requires
        b.wf(),
        t < b.nodes.len(),
        b.nodes[t as int].op is FastClaimed,
    ensures
        b.stepped(t).wf(),
{
    let d = b.stepped(t);
    assert(b.node_fits(t as int));
    balance::lemma_node_free(b, t as int, d.nodes[t as int]);
    lemma_kept_frame(b, d);
    lemma_nodes_frame(b, d, t as int);
    assert forall|c: int|
        0 <= c < d.claims.len() && (#[trigger] d.claims[c]).live implies d.owner_fits(c) by {
        assert(b.owner_fits(c));
    }
    assert(d.node_fits(t as int));
    assert forall|j: int| 0 <= j < d.slots.len() implies (#[trigger] d.slots[j] matches Some(q)
        ==> d.stale(j) || d.kept(q)) by {
        assert(b.slots[j] matches Some(q) ==> b.stale(j) || b.kept(q));
    }
}

proof fn lemma_step_fast_confirming(b: Books, t: usize)
    requires
        b.wf(),
        b.roomy(),
        t < b.nodes.len(),
        b.nodes[t as int].op is FastConfirming,
    ensures
        b.stepped(t).wf(),
{
    let d = b.stepped(t);
    assert(b.node_fits(t as int));
    let (s, c) = match b.nodes[t as int].op {
        Op::FastConfirming { storage, claim } => (storage as int, claim as int),
        _ => (0, 0),
    };
    let k = b.claims[c].slot->0 as int;
    balance::lemma_slot_of(k, t as int);
    if b.storages[s].ptr == Some(b.claims[c].ptr) {
        balance::lemma_owner_free(b, c, Owner::Handle);
        let e = b.with_claim(c, b.claims[c].passed_to(Owner::Handle));
        balance::lemma_node_free(e, t as int, d.nodes[t as int]);
    } else if b.is_debt(c) {
        balance::lemma_given_up(b, c);
        balance::lemma_node_free(b.given_up(c), t as int, d.nodes[t as int]);
    } else {
        balance::lemma_counted_claim(b, c);
        lemma_count_in_range(b, b.claims[c].ptr);
        balance::lemma_promoted(b, c);
        let e = b.with_claim(c, b.claims[c].counted());
        assert(e == b.promoted(c));
        balance::lemma_owner_free(e, c, Owner::Handle);
        let f = e.with_claim(c, e.claims[c].passed_to(Owner::Handle));
        balance::lemma_node_free(f, t as int, d.nodes[t as int]);
    }
    lemma_kept_frame(b, d);
    assert forall|u: int| 0 <= u < b.nodes.len() && u != t implies
        #[trigger] d.slots[books::helping_slot_of(u)]
        == b.slots[books::helping_slot_of(u)] by {
        balance::lemma_slot_of(k, u);
    }
    lemma_nodes_frame(b, d, t as int);
    balance::lemma_slot_of(k, t as int);
    assert(d.node_fits(t as int));
    assert forall|e: int|
        0 <= e < d.claims.len() && (#[trigger] d.claims[e]).live implies d.owner_fits(e) by {
        assert(b.owner_fits(e));
    }
    assert forall|j: int| 0 <= j < d.slots.len() implies (#[trigger] d.slots[j] matches Some(q)
        ==> d.stale(j) || d.kept(q)) by {
        assert(b.slots[j] matches Some(q) ==> b.stale(j) || b.kept(q));
    }
}

proof fn lemma_step_reserved(b: Books, t: usize)
    requires
        b.wf(),
        t < b.nodes.len(),
        b.nodes[t as int].op is Reserved,
    ensures
        b.stepped(t).wf(),
{
    let d = b.stepped(t);
    assert(b.node_fits(t as int));
    balance::lemma_node_free(b, t as int, d.nodes[t as int]);
    lemma_kept_frame(b, d);
    lemma_nodes_frame(b, d, t as int);
    assert(d.node_fits(t as int));
    assert forall|e: int|
        0 <= e < d.claims.len() && (#[trigger] d.claims[e]).live implies d.owner_fits(e) by {
        if e < b.claims.len() {
            assert(b.owner_fits(e));
        }
    }
    assert forall|j: int| 0 <= j < d.slots.len() implies (#[trigger] d.slots[j] matches Some(q)
        ==> d.stale(j) || d.kept(q)) by {
        assert(b.slots[j] matches Some(q) ==> b.stale(j) || b.kept(q));
        balance::lemma_slot_of(j, t as int);
    }
}

proof fn lemma_step_loaded(b: Books, t: usize)
    requires
        b.wf(),
        b.roomy(),
        b.claims.len() < usize::MAX,
        t < b.nodes.len(),
        b.nodes[t as int].op is Loaded,
    ensures
        b.stepped(t).wf(),
{
    let d = b.stepped(t);
    assert(b.node_fits(t as int));
    let (s, p) = match b.nodes[t as int].op {
        Op::Loaded { storage, ptr } => (storage as int, ptr),
        _ => (0, 0),
    };
    let k = books::helping_slot_of(t as int);
    balance::lemma_slot_of(k, t as int);
    assert(k < b.slots.len());
    balance::lemma_indebted(b, p, k as usize, Owner::Op(t));
    let e = b.indebted(p, k as usize, Owner::Op(t));
    balance::lemma_node_free(e, t as int, d.nodes[t as int]);
    lemma_kept_frame(b, d);
    assert forall|u: int| 0 <= u < b.nodes.len() && u != t implies
        #[trigger] d.slots[books::helping_slot_of(u)]
        == b.slots[books::helping_slot_of(u)] by {
        balance::lemma_slot_of(k, u);
    }
    lemma_nodes_frame(b, d, t as int);
    assert(d.node_fits(t as int));
    if b.nodes[t as int].control is Generation {
        assert(b.current(s, p));
        if b.storages[s].ptr == Some(p) {
            assert(d.keeps(s, p));
            assert(d.kept(p));
        }
    }
    assert forall|e: int|
        0 <= e < d.claims.len() && (#[trigger] d.claims[e]).live implies d.owner_fits(e) by {
        if e < b.claims.len() {
            assert(b.owner_fits(e));
        }
    }
    assert forall|j: int| 0 <= j < d.slots.len() implies (#[trigger] d.slots[j] matches Some(q)
        ==> d.stale(j) || d.kept(q)) by {
        assert(b.slots[j] matches Some(q) ==> b.stale(j) || b.kept(q));
        balance::lemma_slot_of(j, t as int);
    }
}

proof fn lemma_step_published(b: Books, t: usize)
    requires
        b.wf(),
        t < b.nodes.len(),
        b.nodes[t as int].op is Published,
    ensures
        b.stepped(t).wf(),
{
    let d = b.stepped(t);
    assert(b.node_fits(t as int));
    let c = match b.nodes[t as int].op {
        Op::Published { claim, .. } => claim as int,
        _ => 0,
    };
    let k = books::helping_slot_of(t as int);
    balance::lemma_slot_of(k, t as int);
    match b.nodes[t as int].control {
        Control::Replacement(r) => {
            balance::lemma_given_up(b, c);
            let e = b.given_up(c);
            let n = Node { control: Control::Idle, ..b.nodes[t as int] };
            balance::lemma_node_free(e, t as int, n);
            let f = e.with_node(t as int, n);
            balance::lemma_owner_free(f, r as int, Owner::Handle);
            let g = f.with_claim(r as int, f.claims[r as int].passed_to(Owner::Handle));
            balance::lemma_node_free(g, t as int, d.nodes[t as int]);
        },
        _ => {
            balance::lemma_node_free(b, t as int, d.nodes[t as int]);
        },
    }
    lemma_kept_frame(b, d);
    assert forall|u: int| 0 <= u < b.nodes.len() && u != t implies
        #[trigger] d.slots[books::helping_slot_of(u)]
        == b.slots[books::helping_slot_of(u)] by {
        balance::lemma_slot_of(k, u);
    }
    lemma_nodes_frame(b, d, t as int);
    assert(d.node_fits(t as int));
    assert forall|e: int|
        0 <= e < d.claims.len() && (#[trigger] d.claims[e]).live implies d.owner_fits(e) by {
        if e < b.claims.len() {
            assert(b.owner_fits(e));
        }
    }
    assert forall|j: int| 0 <= j < d.slots.len() implies (#[trigger] d.slots[j] matches Some(q)
        ==> d.stale(j) || d.kept(q)) by {
        assert(b.slots[j] matches Some(q) ==> b.stale(j) || b.kept(q));
        balance::lemma_slot_of(j, t as int);
    }
}

proof fn lemma_step_promoting(b: Books, t: usize)
    requires
        b.wf(),
        b.roomy(),
        t < b.nodes.len(),
        b.nodes[t as int].op is Promoting,
    ensures
        b.stepped(t).wf(),
{
    let d = b.stepped(t);
    assert(b.node_fits(t as int));
    let c = match b.nodes[t as int].op {
        Op::Promoting { claim } => claim as int,
        _ => 0,
    };
    assert(b.is_good(c));
    balance::lemma_claim_alive(b, c);
    lemma_count_in_range(b, b.claims[c].ptr);
    balance::lemma_promoted(b, c);
    let e = b.promoted(c);
    balance::lemma_owner_free(e, c, Owner::Handle);
    let f = e.with_claim(c, e.claims[c].passed_to(Owner::Handle));
    balance::lemma_node_free(f, t as int, d.nodes[t as int]);
    let k = match b.claims[c].slot {
        Some(k) => k as int,
        None => books::helping_slot_of(t as int),
    };
    balance::lemma_slot_of(k, t as int);
    lemma_kept_frame(b, d);
    assert forall|u: int| 0 <= u < b.nodes.len() && u != t implies
        #[trigger] d.slots[books::helping_slot_of(u)]
        == b.slots[books::helping_slot_of(u)] by {
        balance::lemma_slot_of(k, u);
    }
    lemma_nodes_frame(b, d, t as int);
    assert(d.node_fits(t as int));
    assert forall|e: int|
        0 <= e < d.claims.len() && (#[trigger] d.claims[e]).live implies d.owner_fits(e) by {
        if e < b.claims.len() {
            assert(b.owner_fits(e));
        }
    }
    assert forall|j: int| 0 <= j < d.slots.len() implies (#[trigger] d.slots[j] matches Some(q)
        ==> d.stale(j) || d.kept(q)) by {
        assert(b.slots[j] matches Some(q) ==> b.stale(j) || b.kept(q));
        balance::lemma_slot_of(j, t as int);
    }
}

/// Every step of an operation keeps the books in order.
pub proof fn lemma_stepped(b: Books, t: usize)
    requires
        b.wf(),
        b.roomy(),
        b.nodes[t as int].op is Loaded ==> b.claims.len() < usize::MAX,
        t < b.nodes.len(),
        !(b.nodes[t as int].op is Idle),
    ensures
        b.stepped(t).wf(),
{
    match b.nodes[t as int].op {
        Op::Idle => {},
        Op::FastClaimed { .. } => lemma_step_fast_claimed(b, t),
        Op::FastConfirming { .. } => lemma_step_fast_confirming(b, t),
        Op::Reserved { .. } => lemma_step_reserved(b, t),
        Op::Loaded { .. } => lemma_step_loaded(b, t),
        Op::Published { .. } => lemma_step_published(b, t),
        Op::Promoting { .. } => lemma_step_promoting(b, t),
    }
}

/// Publishing a generation keeps the books in order.
pub proof fn lemma_reserved(b: Books, t: usize, s: usize)
    requires
        b.wf(),
        t < b.nodes.len(),
        b.nodes[t as int].op is Idle,
        b.loadable(s as int),
    ensures
        b.reserved(t as int, s).wf(),
{
    let d = b.reserved(t as int, s);
    assert(b.node_fits(t as int));
    balance::lemma_node_free(b, t as int, d.nodes[t as int]);
    lemma_kept_frame(b, d);
    lemma_nodes_frame(b, d, t as int);
    assert(d.node_fits(t as int));
    assert forall|e: int|
        0 <= e < d.claims.len() && (#[trigger] d.claims[e]).live implies d.owner_fits(e) by {
        if e < b.claims.len() {
            assert(b.owner_fits(e));
        }
    }
    assert forall|j: int| 0 <= j < d.slots.len() implies (#[trigger] d.slots[j] matches Some(q)
        ==> d.stale(j) || d.kept(q)) by {
        assert(b.slots[j] matches Some(q) ==> b.stale(j) || b.kept(q));
        balance::lemma_slot_of(j, t as int);
    }
}

/// Starting to turn a guard into an owned reference keeps the books in order.
pub proof fn lemma_promoting(b: Books, t: usize, c: usize)
    requires
        b.wf(),
        t < b.nodes.len(),
        b.nodes[t as int].op is Idle,
        b.is_handle(c as int),
    ensures
        b.promoting(t, c).wf(),
{
    let d = b.promoting(t, c);
    assert(b.node_fits(t as int));
    assert(b.owner_fits(c as int));
    balance::lemma_owner_free(b, c as int, Owner::Op(t));
    let e = b.with_claim(c as int, b.claims[c as int].passed_to(Owner::Op(t)));
    balance::lemma_node_free(e, t as int, d.nodes[t as int]);
    lemma_kept_frame(b, d);
    lemma_nodes_frame(b, d, t as int);
    assert(d.node_fits(t as int));
    assert forall|e: int|
        0 <= e < d.claims.len() && (#[trigger] d.claims[e]).live implies d.owner_fits(e) by {
        if e < b.claims.len() {
            assert(b.owner_fits(e));
        }
    }
    assert forall|j: int| 0 <= j < d.slots.len() implies (#[trigger] d.slots[j] matches Some(q)
        ==> d.stale(j) || d.kept(q)) by {
        assert(b.slots[j] matches Some(q) ==> b.stale(j) || b.kept(q));
        balance::lemma_slot_of(j, t as int);
    }
}

} // verus!
