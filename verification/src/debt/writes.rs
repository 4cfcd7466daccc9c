//! What writers and owners do, and why the books stay in order over it.

use vstd::prelude::*;

use crate::debt::balance;
use crate::debt::books;
use crate::debt::books::{Books, Control, Node, Owner, Strategy};
use crate::debt::steps;
use crate::debt::tally;

verus! {

impl Books {
    /// Nobody pays debts at the moment.
    pub open spec fn at_rest(self) -> bool {
        self.wf() && self.pending is None
    }

    /// The storage holds something.
    pub open spec fn is_open(self, s: usize) -> bool {
        s < self.storages.len() && self.storages[s as int].ptr is Some
    }

    /// No load is under way on the storage.
    pub open spec fn quiet(self, s: int) -> bool {
        forall|t: int|
            0 <= t < self.nodes.len() ==> !((#[trigger] self.nodes[t]).op.storage() matches Some(x)
                && x == s)
    }

    /// A storage gives its reference up, and the debts on it are about to be paid.
    pub open spec fn opened(self, s: usize, new: Option<usize>) -> Books {
        Books {
            pending: Some((self.storages[s as int].ptr->0, s)),
            ..self.displaced(s as int, new)
        }
    }

    /// All debts are paid.
    pub open spec fn settled(self) -> Books {
        Books { pending: None, ..self }
    }

    /// A load of this thread on this storage has published its generation and nobody has helped it.
    pub open spec fn needs_help(self, u: int, s: usize) -> bool {
        self.nodes[u].control is Generation && self.nodes[u].active_addr == s
    }

    /// The load of a thread is handed an owned reference to what its storage holds now.
    pub open spec fn helped(self, u: usize) -> Books {
        let node = self.nodes[u as int];
        self.shared(
            self.storages[node.active_addr as int].ptr->0,
            Owner::Handover(u),
        ).with_node(
            u as int,
            Node { control: Control::Replacement(self.claims.len() as usize), ..node },
        )
    }
}

/// Giving up a reference or a guard that was handed out keeps the books in order.
pub proof fn lemma_given_up(b: Books, c: int)
    requires
        b.at_rest(),
        b.is_handle(c),
    ensures
        b.given_up(c).at_rest(),
{
    let d = b.given_up(c);
    balance::lemma_given_up(b, c);
    assert(b.owner_fits(c));
    steps::lemma_kept_frame(b, d);
    assert forall|u: int| 0 <= u < b.nodes.len() implies #[trigger] d.slots[books::helping_slot_of(
        u,
    )] == b.slots[books::helping_slot_of(u)] by {
        if b.is_debt(c) {
            balance::lemma_slot_of(b.claims[c].slot->0 as int, u);
        }
    }
    steps::lemma_nodes_frame(b, d, -1);
    lemma_rest_frame(b, d);
}

/// What of the claims and slots may change without a change to the nodes.
proof fn lemma_rest_frame(b: Books, d: Books)
    requires
        b.wf(),
        d.nodes == b.nodes,
        d.slots.len() == b.slots.len(),
        forall|j: int|
            0 <= j < d.slots.len() && (#[trigger] d.slots[j]) is Some ==> d.slots[j] == b.slots[j],
        forall|p: usize| b.kept(p) ==> #[trigger] d.kept(p),
        forall|c: int|
            0 <= c < d.claims.len() && (#[trigger] d.claims[c]).live && c < b.claims.len() ==> {
                &&& b.claims[c].live
                &&& d.claims[c].owner == b.claims[c].owner
                &&& d.claims[c].slot == b.claims[c].slot
            },
        forall|c: int|
            b.claims.len() <= c < d.claims.len() && (#[trigger] d.claims[c]).live ==> {
                &&& d.claims[c].owner is Handle
                &&& d.claims[c].slot is None
            },
    ensures
        d.backed(),
        forall|c: int|
            0 <= c < d.claims.len() && (#[trigger] d.claims[c]).live ==> d.owner_fits(c),
{
    assert forall|e: int|
        0 <= e < d.claims.len() && (#[trigger] d.claims[e]).live implies d.owner_fits(e) by {
        if e < b.claims.len() {
            assert(b.owner_fits(e));
        }
    }
    assert forall|j: int| 0 <= j < d.slots.len() implies (#[trigger] d.slots[j] matches Some(q)
        ==> d.stale(j) || d.kept(q)) by {
        assert(b.slots[j] matches Some(q) ==> b.stale(j) || b.kept(q));
    }
}

/// A new object keeps the books in order.
pub proof fn lemma_allocated(b: Books, id: u32)
    requires
        b.at_rest(),
        b.objects.len() < usize::MAX,
    ensures
        b.allocated(id).at_rest(),
{
    let d = b.allocated(id);
    balance::lemma_allocated(b, id);
    steps::lemma_kept_frame(b, d);
    assert forall|u: int| 0 <= u < d.nodes.len() implies #[trigger] d.node_fits(u) by {
        assert(b.node_fits(u));
    }
    lemma_rest_frame(b, d);
}

/// Another reference to what a handle protects keeps the books in order.
pub proof fn lemma_shared(b: Books, c: int)
    requires
        b.at_rest(),
        b.roomy(),
        b.is_handle(c),
    ensures
        b.shared(b.claims[c].ptr, Owner::Handle).at_rest(),
{
    balance::lemma_claim_alive(b, c);
    lemma_shared_ptr(b, b.claims[c].ptr);
}

/// Another reference to what a storage holds keeps the books in order.
pub proof fn lemma_shared_stored(b: Books, s: int)
    requires
        b.at_rest(),
        b.roomy(),
        0 <= s < b.storages.len(),
        b.storages[s].ptr is Some,
    ensures
        b.shared(b.storages[s].ptr->0, Owner::Handle).at_rest(),
{
    balance::lemma_stored_alive(b, s);
    lemma_shared_ptr(b, b.storages[s].ptr->0);
}

proof fn lemma_shared_ptr(b: Books, p: usize)
    requires
        b.at_rest(),
        b.roomy(),
        p < b.objects.len(),
        b.objects[p as int].strong > 0,
    ensures
        b.shared(p, Owner::Handle).at_rest(),
{
    let d = b.shared(p, Owner::Handle);
    steps::lemma_count_in_range(b, p);
    balance::lemma_shared(b, p, Owner::Handle);
    steps::lemma_kept_frame(b, d);
    steps::lemma_nodes_frame(b, d, -1);
    lemma_rest_frame(b, d);
}

/// A new storage keeps the books in order.
pub proof fn lemma_stored_from(b: Books, c: int, strategy: Strategy)
    requires
        b.at_rest(),
        b.is_owned(c),
    ensures
        b.stored_from(c, strategy).at_rest(),
{
    let d = b.stored_from(c, strategy);
    balance::lemma_stored_from(b, c, strategy);
    assert forall|p: usize| b.kept(p) implies #[trigger] d.kept(p) by {
        let s = choose|s: int| b.keeps(s, p);
        assert(b.keeps(s, p));
        assert(d.keeps(s, p));
    }
    assert forall|u: int| 0 <= u < d.nodes.len() implies #[trigger] d.node_fits(u) by {
        assert(b.node_fits(u));
    }
    lemma_rest_frame(b, d);
}

/// A new thread keeps the books in order.
pub proof fn lemma_joined(b: Books)
    requires
        b.at_rest(),
    ensures
        b.joined().at_rest(),
{
    let d = b.joined();
    let free = Seq::new(books::SLOTS as nat, |i: int| None::<usize>);
    assert forall|q: usize| q < d.objects.len() implies #[trigger] d.balanced(q) by {
        assert(b.balanced(q));
        tally::lemma_append(b.slots, free, books::names(q));
        tally::lemma_none(free, books::names(q));
    }
    assert forall|k: int| 0 <= k < d.slots.len() && (#[trigger] d.slots[k]) is Some implies
        exists|e: int| d.covers(e, k) by {
        assert(k < b.slots.len());
        assert(b.slots[k] is Some);
        let e = choose|e: int| b.covers(e, k);
        assert(b.covers(e, k));
        assert(d.covers(e, k));
    }
    steps::lemma_kept_frame(b, d);
    assert forall|j: int| 0 <= j < d.slots.len() implies (#[trigger] d.slots[j] matches Some(q)
        ==> d.stale(j) || d.kept(q)) by {
        if j < b.slots.len() {
            assert(b.slots[j] matches Some(q) ==> b.stale(j) || b.kept(q));
            assert(0 <= j / 9 < b.nodes.len());
        }
    }
    assert forall|u: int| 0 <= u < d.nodes.len() implies #[trigger] d.node_fits(u) by {
        if u < b.nodes.len() {
            assert(b.node_fits(u));
        }
    }
    assert forall|e: int|
        0 <= e < d.claims.len() && (#[trigger] d.claims[e]).live implies d.owner_fits(e) by {
        assert(b.owner_fits(e));
    }
}

/// Taking an object out of a storage that owes its readers keeps the books in order, with the debts
/// on it to be paid next.
pub proof fn lemma_opened(b: Books, s: usize, new: Option<usize>)
    requires
        b.at_rest(),
        b.loadable(s as int),
        new matches Some(c) ==> b.is_owned(c as int),
        new is None ==> b.quiet(s as int),
    ensures
        b.opened(s, new).wf(),
{
    let q = b.storages[s as int].ptr->0;
    let e = b.displaced(s as int, new);
    let d = b.opened(s, new);
    balance::lemma_displaced(b, s as int, new);
    assert(d.accounted()) by {
        assert forall|p: usize| p < d.objects.len() implies #[trigger] d.balanced(p) by {
            assert(e.balanced(p));
        }
        assert forall|k: int| 0 <= k < d.slots.len() && (#[trigger] d.slots[k]) is Some implies
            exists|c: int| d.covers(c, k) by {
            assert(e.slots[k] is Some);
            let c = choose|c: int| e.covers(c, k);
            assert(e.covers(c, k));
            assert(d.covers(c, k));
        }
    }
    assert forall|p: usize| b.kept(p) implies #[trigger] d.kept(p) by {
        if p != q {
            let x = choose|x: int| b.keeps(x, p);
            assert(b.keeps(x, p));
            assert(d.keeps(x, p));
        }
    }
    assert forall|u: int| 0 <= u < d.nodes.len() implies #[trigger] d.node_fits(u) by {
        assert(b.node_fits(u));
        assert(b.nodes[u].op.storage() matches Some(x) ==> b.loadable(x as int) && d.loadable(
            x as int,
        ));
    }
    lemma_rest_frame(b, d);
    assert(d.pending_held()) by {
        if let Some((x, _)) = d.pending {
            assert(d.held(b.claims.len() as int, x));
        }
    }
}

/// Taking an object out of a storage that owes nothing keeps the books in order.
pub proof fn lemma_displaced(b: Books, s: int, new: Option<usize>)
    requires
        b.at_rest(),
        0 <= s < b.storages.len(),
        b.storages[s].ptr is Some,
        !b.storages[s].strategy.owes(),
        new matches Some(c) ==> b.is_owned(c as int),
    ensures
        b.displaced(s, new).at_rest(),
{
    let d = b.displaced(s, new);
    balance::lemma_displaced(b, s, new);
    assert forall|p: usize| b.kept(p) implies #[trigger] d.kept(p) by {
        let x = choose|x: int| b.keeps(x, p);
        assert(b.keeps(x, p));
        assert(d.keeps(x, p));
    }
    assert forall|u: int| 0 <= u < d.nodes.len() implies #[trigger] d.node_fits(u) by {
        assert(b.node_fits(u));
        assert(b.nodes[u].op.storage() matches Some(x) ==> b.loadable(x as int) && d.loadable(
            x as int,
        ));
    }
    lemma_rest_frame(b, d);
}

/// Helping a load keeps the books in order.
pub proof fn lemma_helped(b: Books, u: usize)
    requires
        b.wf(),
        b.roomy(),
        b.claims.len() < usize::MAX,
        u < b.nodes.len(),
        b.nodes[u as int].control is Generation,
    ensures
        b.helped(u).wf(),
        b.helped(u).objects.len() == b.objects.len(),
{
    let d = b.helped(u);
    assert(b.node_fits(u as int));
    let x = b.nodes[u as int].active_addr as int;
    let p = b.storages[x].ptr->0;
    balance::lemma_stored_alive(b, x);
    steps::lemma_count_in_range(b, p);
    balance::lemma_shared(b, p, Owner::Handover(u));
    balance::lemma_node_free(b.shared(p, Owner::Handover(u)), u as int, d.nodes[u as int]);
    steps::lemma_kept_frame(b, d);
    steps::lemma_nodes_frame(b, d, u as int);
    assert(d.node_fits(u as int));
    assert forall|e: int|
        0 <= e < d.claims.len() && (#[trigger] d.claims[e]).live implies d.owner_fits(e) by {
        if e < b.claims.len() {
            assert(b.owner_fits(e));
        }
    }
    assert forall|j: int| 0 <= j < d.slots.len() implies (#[trigger] d.slots[j] matches Some(q)
        ==> d.stale(j) || d.kept(q)) by {
        assert(b.slots[j] matches Some(q) ==> b.stale(j) || b.kept(q));
    }
}

/// Paying a debt on the object that was just displaced keeps the books in order.
pub proof fn lemma_paid(b: Books, k: int)
    requires
        b.wf(),
        b.roomy(),
        0 <= k < b.slots.len(),
        b.pending matches Some((q, _)) && b.slots[k] == Some(q),
    ensures
        b.paid(k).wf(),
        0 < b.objects[b.slots[k]->0 as int].strong < u128::MAX,
{
    let d = b.paid(k);
    let q = b.slots[k]->0;
    let c = choose|c: int| b.held(c, q);
    assert(b.held(c, q));
    balance::lemma_counted_claim(b, c);
    steps::lemma_count_in_range(b, q);
    balance::lemma_paid(b, k);
    steps::lemma_kept_frame(b, d);
    assert forall|u: int| 0 <= u < d.nodes.len() implies #[trigger] d.node_fits(u) by {
        assert(b.node_fits(u));
    }
    lemma_rest_frame(b, d);
}

/// Once no debt on the displaced object is left and nobody needs help any more, the books are in
/// order without the displacement.
pub proof fn lemma_settled(b: Books)
    requires
        b.wf(),
        b.pending matches Some((q, s)) && {
            &&& forall|k: int| 0 <= k < b.slots.len() ==> #[trigger] b.slots[k] != Some(q)
            &&& forall|u: int| 0 <= u < b.nodes.len() ==> !#[trigger] b.needs_help(u, s)
        },
    ensures
        b.settled().at_rest(),
{
    let d = b.settled();
    let (q, s) = b.pending->0;
    assert forall|p: usize| p < d.objects.len() implies #[trigger] d.balanced(p) by {
        assert(b.balanced(p));
    }
    assert forall|k: int| 0 <= k < d.slots.len() && (#[trigger] d.slots[k]) is Some implies
        exists|c: int| d.covers(c, k) by {
        assert(b.slots[k] is Some);
        let c = choose|c: int| b.covers(c, k);
        assert(b.covers(c, k));
        assert(d.covers(c, k));
    }
    assert forall|j: int| 0 <= j < d.slots.len() implies (#[trigger] d.slots[j] matches Some(p)
        ==> d.stale(j) || d.kept(p)) by {
        if let Some(p) = b.slots[j] {
            assert(b.stale(j) || b.kept(p));
            if b.kept(p) {
                let x = choose|x: int| b.keeps(x, p);
                assert(b.keeps(x, p));
                assert(d.keeps(x, p));
            }
        }
    }
    assert forall|u: int| 0 <= u < d.nodes.len() implies #[trigger] d.node_fits(u) by {
        assert(b.node_fits(u));
        assert(!b.needs_help(u, s));
    }
    assert forall|e: int|
        0 <= e < d.claims.len() && (#[trigger] d.claims[e]).live implies d.owner_fits(e) by {
        assert(b.owner_fits(e));
    }
}

} // verus!
