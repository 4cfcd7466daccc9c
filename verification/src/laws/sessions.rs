//! What holds of a reclamation domain over every sequence of operations.

use vstd::prelude::*;

use crate::debt::balance;
use crate::debt::books::{Books, Owner, Strategy};
use crate::debt::flow;
use crate::debt::flow::World;
use crate::debt::writes;
use crate::laws::probes;
use crate::laws::probes::ProbeEvent;
use crate::laws::resumes;
use crate::laws::resumes::stands_at;
use crate::litmus::ProbesView;

verus! {

/// One operation on a domain or its probes. The other operations are made of these: a store is a
/// write and a drop of what was displaced, and a compare-and-swap is a load followed by a write or
/// a drop.
pub enum DomainEvent {
    /// `join`
    Join,
    /// `token`
    Token(u32),
    /// `share`
    Share(usize),
    /// `storage`
    Store(usize, Strategy),
    /// `load`, by a thread on a storage
    Load(usize, usize),
    /// `resume`
    Resume(usize),
    /// `into_inner`, by a thread on a guard
    IntoInner(usize, usize),
    /// `drop_claim`
    Drop(usize),
    /// `swap` with an owned reference, or `take`, by a thread on a storage
    Write(usize, usize, Option<usize>),
    /// An operation on the probes alone
    Probe(ProbeEvent),
}

/// The operation is one that a driver may perform; every call that meets the `requires` of its
/// function is among these.
pub open spec fn allowed(w: World, event: DomainEvent) -> bool {
    let b = w.books;
    &&& b.roomy()
    &&& match event {
        DomainEvent::Join => true,
        DomainEvent::Token(_) => b.objects.len() < usize::MAX,
        DomainEvent::Share(c) => b.is_handle(c as int),
        DomainEvent::Store(c, _) => b.is_owned(c as int),
        DomainEvent::Load(t, s) => {
            &&& t < b.nodes.len()
            &&& b.nodes[t as int].op is Idle
            &&& b.is_open(s)
            &&& b.claims.len() + 2 <= usize::MAX
        },
        DomainEvent::Resume(t) => {
            &&& t < b.nodes.len()
            &&& b.nodes[t as int].op !is Idle
            &&& b.claims.len() + 1 <= usize::MAX
        },
        DomainEvent::IntoInner(t, c) => {
            &&& t < b.nodes.len()
            &&& b.nodes[t as int].op is Idle
            &&& b.is_handle(c as int)
        },
        DomainEvent::Drop(c) => b.is_handle(c as int),
        DomainEvent::Write(_, s, new) => {
            &&& b.is_open(s)
            &&& new matches Some(c) ==> b.is_owned(c as int)
            &&& new is None ==> b.quiet(s as int)
            &&& b.claims.len() + 1 + b.nodes.len() <= usize::MAX
        },
        DomainEvent::Probe(event) => event.valid(),
    }
}

/// The world after one operation, as the contract of the operation says.
pub open spec fn world_after(w: World, event: DomainEvent) -> World {
    match event {
        DomainEvent::Join => World { books: w.books.joined(), ..w },
        DomainEvent::Token(id) => World { books: w.books.allocated(id), ..w },
        DomainEvent::Share(c) => World {
            books: w.books.shared(w.books.claims[c as int].ptr, Owner::Handle),
            ..w
        },
        DomainEvent::Store(c, strategy) => World {
            books: w.books.stored_from(c as int, strategy),
            ..w
        },
        DomainEvent::Load(t, s) => w.load(t, s).0,
        DomainEvent::Resume(t) => w.resumed(t).0,
        DomainEvent::IntoInner(t, c) => w.into_inner(t, c).0,
        DomainEvent::Drop(c) => w.dropped(c as int),
        DomainEvent::Write(t, s, new) => w.written(t as int, s, new),
        DomainEvent::Probe(event) => World { probes: probes::probes_after(w.probes, event), ..w },
    }
}

/// The world after a sequence of operations.
pub open spec fn world_run(w: World, trace: Seq<DomainEvent>) -> World
    decreases trace.len(),
{
    if trace.len() == 0 {
        w
    } else {
        world_after(world_run(w, trace.drop_last()), trace.last())
    }
}

/// Every operation of a sequence is one that a driver may perform in the state it meets.
pub open spec fn all_allowed(w: World, trace: Seq<DomainEvent>) -> bool
    decreases trace.len(),
{
    trace.len() == 0 || {
        &&& all_allowed(w, trace.drop_last())
        &&& allowed(world_run(w, trace.drop_last()), trace.last())
    }
}

/// The operation puts something else into the storage.
pub open spec fn writes_to(event: DomainEvent, s: int) -> bool {
    event matches DomainEvent::Write(_, x, _) && x == s
}

/// What one operation does to the storages.
proof fn lemma_one_operation(w: World, event: DomainEvent)
    requires
        w.at_rest(),
        allowed(w, event),
    ensures
        ({
            let x = world_after(w, event);
            &&& x.at_rest()
            &&& x.books.storages.len() == w.books.storages.len() + (if event is Store {
                1nat
            } else {
                0nat
            })
            &&& forall|s: int|
                0 <= s < w.books.storages.len() ==> {
                    &&& (#[trigger] x.books.storages[s]).strategy == w.books.storages[s].strategy
                    &&& !writes_to(event, s) ==> x.books.storages[s] == w.books.storages[s]
                }
        }),
{
    let b = w.books;
    match event {
        DomainEvent::Join => writes::lemma_joined(b),
        DomainEvent::Token(id) => writes::lemma_allocated(b, id),
        DomainEvent::Share(c) => writes::lemma_shared(b, c as int),
        DomainEvent::Store(c, strategy) => writes::lemma_stored_from(b, c as int, strategy),
        DomainEvent::Load(t, s) => flow::lemma_load(w, t, s),
        DomainEvent::Resume(t) => flow::lemma_run(w, t, true),
        DomainEvent::IntoInner(t, c) => flow::lemma_into_inner(w, t, c),
        DomainEvent::Drop(c) => writes::lemma_given_up(b, c as int),
        DomainEvent::Write(t, s, new) => flow::lemma_written(w, t as int, s, new),
        DomainEvent::Probe(event) => {},
    }
}

/// Whatever is done, and at whichever checkpoints threads are parked in between, the books stay in
/// order. So everything that holds of books in order holds at every moment: what is protected is
/// alive, and what is not is dropped exactly once.
pub proof fn law_every_session_keeps_the_books_in_order(w: World, trace: Seq<DomainEvent>)
    requires
        w.at_rest(),
        all_allowed(w, trace),
    ensures
        world_run(w, trace).at_rest(),
    decreases trace.len(),
{
    if trace.len() > 0 {
        law_every_session_keeps_the_books_in_order(w, trace.drop_last());
        lemma_one_operation(world_run(w, trace.drop_last()), trace.last());
    }
}

/// A new domain with fresh probes is in order.
pub proof fn law_a_new_domain_is_in_order()
    ensures
        (World { books: Books::empty(), probes: ProbesView::pristine() }).at_rest(),
{
    balance::lemma_empty();
}

/// The address of a storage stands for that storage for good: no operation takes it away, its
/// strategy stays, and only a write to this very storage changes what it holds.
pub proof fn law_an_address_stands_for_its_storage(w: World, trace: Seq<DomainEvent>, s: int)
    requires
        w.at_rest(),
        all_allowed(w, trace),
        0 <= s < w.books.storages.len(),
    ensures
        s < world_run(w, trace).books.storages.len(),
        world_run(w, trace).books.storages[s].strategy == w.books.storages[s].strategy,
        (forall|k: int| 0 <= k < trace.len() ==> !writes_to(#[trigger] trace[k], s))
            ==> world_run(w, trace).books.storages[s] == w.books.storages[s],
    decreases trace.len(),
{
    if trace.len() > 0 {
        let earlier = trace.drop_last();
        law_an_address_stands_for_its_storage(w, earlier, s);
        law_every_session_keeps_the_books_in_order(w, earlier);
        lemma_one_operation(world_run(w, earlier), trace.last());
        if forall|k: int| 0 <= k < trace.len() ==> !writes_to(#[trigger] trace[k], s) {
            assert forall|k: int| 0 <= k < earlier.len() implies !writes_to(
                #[trigger] earlier[k],
                s,
            ) by {
                assert(earlier[k] == trace[k]);
            }
            assert(!writes_to(trace[trace.len() - 1], s));
        }
    }
}

/// Every storage of a domain has an address of its own: one that is made later, whatever happens in
/// between and whatever the two hold, has another address.
pub proof fn law_storages_have_addresses_of_their_own(
    w: World,
    c: usize,
    strategy: Strategy,
    between: Seq<DomainEvent>,
)
    requires
        w.at_rest(),
        allowed(w, DomainEvent::Store(c, strategy)),
        all_allowed(world_after(w, DomainEvent::Store(c, strategy)), between),
    ensures
        ({
            let first = w.books.storages.len();
            let made = world_after(w, DomainEvent::Store(c, strategy));
            let second = world_run(made, between).books.storages.len();
            &&& first < made.books.storages.len()
            &&& first != second
        }),
{
    let made = world_after(w, DomainEvent::Store(c, strategy));
    lemma_one_operation(w, DomainEvent::Store(c, strategy));
    law_an_address_stands_for_its_storage(made, between, w.books.storages.len() as int);
}

/// A thread that is parked at an armed checkpoint takes no step, whatever is done by whomever, in
/// whichever order, until that checkpoint is released or everything is reset: it is in the middle
/// of the very same thing, and its checkpoint is still armed.
pub proof fn law_a_parked_thread_takes_no_step(w: World, trace: Seq<DomainEvent>, t: usize)
    requires
        w.at_rest(),
        all_allowed(w, trace),
        t < w.books.nodes.len(),
        w.books.nodes[t as int].op !is Idle,
        w.probes.armed[stands_at(w.books.nodes[t as int].op) as int],
        forall|k: int|
            0 <= k < trace.len() ==> {
                &&& #[trigger] trace[k] != DomainEvent::Probe(
                    ProbeEvent::Release(stands_at(w.books.nodes[t as int].op) as int),
                )
                &&& trace[k] != DomainEvent::Probe(ProbeEvent::Reset)
            },
    ensures
        t < world_run(w, trace).books.nodes.len(),
        world_run(w, trace).books.nodes[t as int].op == w.books.nodes[t as int].op,
        world_run(w, trace).probes.armed[stands_at(w.books.nodes[t as int].op) as int],
    decreases trace.len(),
{
    if trace.len() > 0 {
        let earlier = trace.drop_last();
        let op = w.books.nodes[t as int].op;
        assert forall|k: int| 0 <= k < earlier.len() implies {
            &&& #[trigger] earlier[k] != DomainEvent::Probe(
                ProbeEvent::Release(stands_at(op) as int),
            )
            &&& earlier[k] != DomainEvent::Probe(ProbeEvent::Reset)
        } by {
            assert(earlier[k] == trace[k]);
        }
        law_a_parked_thread_takes_no_step(w, earlier, t);
        law_every_session_keeps_the_books_in_order(w, earlier);
        let x = world_run(w, earlier);
        let event = trace[trace.len() - 1];
        assert(event == trace.last());
        match event {
            DomainEvent::Join => writes::lemma_joined(x.books),
            DomainEvent::Load(u, s) => flow::lemma_load(x, u, s),
            DomainEvent::Resume(u) => {
                resumes::law_an_armed_checkpoint_holds_its_thread(x, t);
                flow::lemma_run(x, u, true);
            },
            DomainEvent::IntoInner(u, c) => flow::lemma_into_inner(x, u, c),
            DomainEvent::Write(u, s, new) => flow::lemma_written(x, u as int, s, new),
            _ => {},
        }
    }
}

} // verus!
