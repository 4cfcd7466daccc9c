//! What a drop, a write and a compare-and-swap do, in terms of the slots, counts and counters that
//! a driver can look at.

use vstd::prelude::*;

use crate::debt::balance;
use crate::debt::books;
use crate::debt::books::{Books, Claim, Control, Node, Owner, Storage};
use crate::debt::flow;
use crate::debt::flow::{Progress, World};
use crate::debt::steps;
use crate::debt::tally;
use crate::debt::writes;
use crate::laws::debts;
use crate::laws::loads;
use crate::laws::loads::{gained, none_fired, nothing_waits, recounted};
use crate::laws::resumes::{claims_stay, unpaid};
use crate::litmus;
use crate::litmus::ProbesView;

verus! {

/// Giving up a reference or guard. An unpaid debt is returned to its slot, and that is counted as
/// such; no count changes. A guard whose debt a writer has paid gives up the count that it got, and
/// that is counted as such. An owned reference gives up its count, and nothing is counted. The last
/// count drops the object.
pub proof fn law_giving_up_returns_a_debt_or_a_count(w: World, c: int)
    requires
        w.at_rest(),
        w.books.is_handle(c),
    ensures
        ({
            let b = w.books;
            let x = w.dropped(c);
            &&& x.books.storages == b.storages
            &&& x.books.nodes == b.nodes
            &&& none_fired(w.probes, x.probes)
            &&& claims_stay(b, x.books, c, c)
            &&& x.books.claims.len() == b.claims.len()
            &&& !x.books.claims[c].live
            &&& if unpaid(b, c) {
                &&& x.books.objects == b.objects
                &&& x.books.slots == b.slots.update(b.claims[c].slot->0 as int, None)
            } else {
                &&& x.books.slots == b.slots
                &&& recounted(b, x.books, b.claims[c].ptr as int, -1)
            }
            &&& gained(
                w.probes,
                x.probes,
                |i: int|
                    if i == litmus::GUARD_DROP_DEBT_PAID && unpaid(b, c) {
                        1nat
                    } else if i == litmus::GUARD_DROP_ALREADY_PAID && b.claims[c].slot is Some
                        && !unpaid(b, c) {
                        1nat
                    } else {
                        0nat
                    },
            )
        }),
{
    balance::lemma_given_up(w.books, c);
}

/// How many of these slots hold a debt on `q`.
pub open spec fn debts_on(slots: Seq<Option<usize>>, q: usize) -> nat {
    tally::tally(slots, |entry: Option<usize>| entry == Some(q))
}

/// How many of these threads are in a fallback load on the storage that nobody has helped.
pub open spec fn in_need(nodes: Seq<Node>, s: usize) -> nat {
    tally::tally(nodes, |node: Node| node.control is Generation && node.active_addr == s)
}

/// The slots of which the debts on `q` among the first `n` are gone.
pub open spec fn cleared(
    before: Seq<Option<usize>>,
    after: Seq<Option<usize>>,
    q: usize,
    n: int,
) -> bool {
    &&& after.len() == before.len()
    &&& forall|k: int|
        0 <= k < before.len() ==> #[trigger] after[k] == (if k < n && before[k] == Some(q) {
            None
        } else {
            before[k]
        })
}

/// The objects are the same, but that `q` has `paid` and `p` has `given` counted references more.
pub open spec fn raised_by(
    before: Books,
    after: Books,
    q: int,
    paid: nat,
    p: Option<usize>,
    given: nat,
) -> bool {
    &&& after.objects.len() == before.objects.len()
    &&& forall|o: int|
        0 <= o < before.objects.len() ==> {
            &&& (#[trigger] after.objects[o]).id == before.objects[o].id
            &&& after.objects[o].drops == before.objects[o].drops
            &&& after.objects[o].strong == before.objects[o].strong + (if o == q {
                paid
            } else {
                0
            }) + (if p matches Some(x) && x == o {
                given
            } else {
                0
            })
        }
}

/// What becomes of a thread when a writer comes by: a load in need has been handed a counted
/// reference to what the storage holds now; any other thread is left alone.
pub open spec fn served(
    before: Node,
    after: Books,
    u: int,
    s: usize,
    from: int,
    p: Option<usize>,
) -> bool {
    if before.control is Generation && before.active_addr == s {
        &&& after.nodes[u].op == before.op
        &&& after.nodes[u].active_addr == before.active_addr
        &&& after.nodes[u].control matches Control::Replacement(r)
        &&& from <= r < after.claims.len()
        &&& Some(after.claims[r as int].ptr) == p
        &&& after.claims[r as int].slot is None
        &&& after.claims[r as int].live
        &&& after.claims[r as int].owner matches Owner::Handover(v) && v == u
    } else {
        after.nodes[u] == before
    }
}

proof fn lemma_scan(w: World, q: usize, s: usize, from: int, n: nat)
    requires
        w.books.wf(),
        w.probes.wf(),
        w.books.roomy(),
        w.books.pending == Some((q, s)),
        0 <= from,
        from + n <= w.books.slots.len(),
    ensures
        ({
            let x = w.scanned(q, from, n);
            let paid = debts_on(w.books.slots.subrange(from, from + n), q);
            &&& x.books.slots.len() == w.books.slots.len()
            &&& forall|k: int|
                0 <= k < w.books.slots.len() ==> #[trigger] x.books.slots[k] == (if from <= k < from
                    + n && w.books.slots[k] == Some(q) {
                    None
                } else {
                    w.books.slots[k]
                })
            &&& raised_by(w.books, x.books, q as int, paid, None, 0)
            &&& gained(
                w.probes,
                x.probes,
                |i: int|
                    if i == litmus::PAY_SLOT {
                        paid
                    } else {
                        0nat
                    },
            )
        }),
    decreases n,
{
    if n > 0 {
        let m = (n - 1) as nat;
        lemma_scan(w, q, s, from, m);
        flow::lemma_scanned(w, q, s, from, m);
        let before = w.scanned(q, from, m);
        let x = w.scanned(q, from, n);
        let k = from + n - 1;
        let part = w.books.slots.subrange(from, from + n);
        assert(part.drop_last() =~= w.books.slots.subrange(from, from + m));
        assert(part.last() == w.books.slots[k]);
        assert(before.books.slots[k] == w.books.slots[k]);
        if before.books.slots[k] == Some(q) {
            writes::lemma_paid(before.books, k);
            assert(x.books == before.books.paid(k));
        }
    }
}

/// What a writer does at one thread before it pays the debts there. The result is whether its own
/// load went through a fast slot.
proof fn lemma_help(w: World, t: int, u: usize, s: usize, q: usize) -> (fast: bool)
    requires
        w.books.wf(),
        w.probes.wf(),
        w.books.roomy(),
        w.books.claims.len() < usize::MAX,
        0 <= t < w.books.nodes.len(),
        u < w.books.nodes.len(),
        s < w.books.storages.len(),
    ensures
        ({
            let y = w.helped(t, u, s);
            let node = w.books.nodes[u as int];
            let needy = node.control is Generation && node.active_addr == s;
            let p = w.books.storages[s as int].ptr;
            &&& fast <==> needy && w.books.storages[s as int].strategy is Hybrid
                && loads::has_free_fast_slot(w.books, t)
            &&& y.books.wf()
            &&& y.probes.wf()
            &&& y.books.roomy()
            &&& y.books.pending == w.books.pending
            &&& y.books.storages == w.books.storages
            &&& y.books.slots == w.books.slots
            &&& raised_by(w.books, y.books, q as int, 0, p, tally::one_if(needy))
            &&& y.books.claims.len() == w.books.claims.len() + tally::one_if(needy)
            &&& claims_stay(w.books, y.books, -1, -1)
            &&& loads::others_stay(w.books, y.books, u as int)
            &&& served(node, y.books, u as int, s, w.books.claims.len() as int, p)
            &&& none_fired(w.probes, y.probes)
            &&& gained(
                w.probes,
                y.probes,
                write_events(0, tally::one_if(needy), tally::one_if(fast)),
            )
        }),
{
    let b = w.books;
    let fast = b.needs_help(u as int, s) && b.fast_slot_for(t, s as int) is Some;
    if b.needs_help(u as int, s) {
        writes::lemma_helped(b, u);
        assert(b.node_fits(u as int));
        steps::lemma_count_in_range(b, b.storages[s as int].ptr->0);
        loads::lemma_first_free_complete(b, 9 * t, 8);
        if fast {
            assert(b.slots[b.fast_slot_for(t, s as int)->0] is None);
        }
    }
    fast
}

/// How many of a writer's own loads go through a fast slot, while it comes by the first `n`
/// threads: all, if it has a fast slot free from the start; else those after it has come by its own
/// debts, if one of them is on what it displaced and so is paid; else none.
pub open spec fn fast_helps(b: Books, t: int, q: usize, s: usize, n: int) -> nat {
    if b.storages[s as int].strategy !is Hybrid {
        0
    } else if loads::has_free_fast_slot(b, t) {
        in_need(b.nodes.take(n), s)
    } else if owes_fast(b, t, q) && t + 1 <= n {
        in_need(b.nodes.subrange(t + 1, n), s)
    } else {
        0
    }
}

/// A fast slot of the thread holds a debt on `q`.
pub open spec fn owes_fast(b: Books, t: int, q: usize) -> bool {
    exists|k: int| 9 * t <= k < 9 * t + 8 && #[trigger] b.slots[k] == Some(q)
}

/// The thread has a fast slot free, once the debts at the first `u` threads are paid.
proof fn lemma_freed(b: Books, x: Books, t: int, q: usize, u: int)
    requires
        b.slots.len() == 9 * b.nodes.len(),
        0 <= t < b.nodes.len(),
        cleared(b.slots, x.slots, q, 9 * u),
    ensures
        loads::has_free_fast_slot(x, t) <==> loads::has_free_fast_slot(b, t) || (t < u && owes_fast(
            b,
            t,
            q,
        )),
{
    if loads::has_free_fast_slot(x, t) {
        let k = choose|k: int| 9 * t <= k < 9 * t + 8 && #[trigger] x.slots[k] is None;
        if b.slots[k] is Some {
            assert(b.slots[k] == Some(q));
        }
    }
    if loads::has_free_fast_slot(b, t) {
        let k = choose|k: int| 9 * t <= k < 9 * t + 8 && #[trigger] b.slots[k] is None;
        assert(x.slots[k] is None);
    }
    if t < u && owes_fast(b, t, q) {
        let k = choose|k: int| 9 * t <= k < 9 * t + 8 && #[trigger] b.slots[k] == Some(q);
        assert(x.slots[k] is None);
    }
}

/// One more thread that may be in need.
proof fn lemma_one_more_in_need(nodes: Seq<Node>, from: int, u: int, s: usize)
    requires
        0 <= from <= u < nodes.len(),
    ensures
        in_need(nodes.subrange(from, u + 1), s) == in_need(nodes.subrange(from, u), s)
            + tally::one_if(nodes[u].control is Generation && nodes[u].active_addr == s),
        in_need(nodes.subrange(u, u), s) == 0,
{
    let longer = nodes.subrange(from, u + 1);
    assert(longer.drop_last() =~= nodes.subrange(from, u));
    assert(longer.last() == nodes[u]);
    assert(nodes.subrange(u, u).len() == 0);
}

/// One more thread, at which the writer has `x` before it.
proof fn lemma_fast_helps(b: Books, x: Books, t: int, q: usize, s: usize, u: int)
    requires
        b.slots.len() == 9 * b.nodes.len(),
        0 <= t < b.nodes.len(),
        0 <= u < b.nodes.len(),
        cleared(b.slots, x.slots, q, 9 * u),
    ensures
        fast_helps(b, t, q, s, u + 1) == fast_helps(b, t, q, s, u) + tally::one_if(
            b.storages[s as int].strategy is Hybrid && loads::has_free_fast_slot(x, t)
                && b.nodes[u].control is Generation && b.nodes[u].active_addr == s,
        ),
{
    lemma_freed(b, x, t, q, u);
    if loads::has_free_fast_slot(b, t) {
        lemma_one_more_in_need(b.nodes, 0, u, s);
        assert(b.nodes.take(u + 1) =~= b.nodes.subrange(0, u + 1));
        assert(b.nodes.take(u) =~= b.nodes.subrange(0, u));
    } else if t < u {
        lemma_one_more_in_need(b.nodes, t + 1, u, s);
    } else {
        assert(b.nodes.subrange(u + 1, u + 1).len() == 0);
    }
}

/// Events add up.
proof fn lemma_events_add_up(
    a: ProbesView,
    b: ProbesView,
    c: ProbesView,
    first: (nat, nat, nat),
    then_given: nat,
    then_fast: nat,
    d: ProbesView,
    then_paid: nat,
)
    requires
        first.2 <= first.1,
        then_fast <= then_given,
        gained(a, b, write_events(first.0, first.1, first.2)),
        gained(b, c, write_events(0, then_given, then_fast)),
        gained(
            c,
            d,
            |i: int|
                if i == litmus::PAY_SLOT {
                    then_paid
                } else {
                    0nat
                },
        ),
    ensures
        gained(
            a,
            d,
            write_events(first.0 + then_paid, first.1 + then_given, first.2 + then_fast),
        ),
{
    assert forall|i: int| 0 <= i < litmus::COUNTERS implies #[trigger] d.counts[i] as int == (
    a.counts[i] + write_events(
        first.0 + then_paid,
        first.1 + then_given,
        first.2 + then_fast,
    )(i)) % 0x1_0000_0000_0000_0000 by {
        assert(c.counts[i] as int == (b.counts[i] + write_events(0, then_given, then_fast)(i))
            % 0x1_0000_0000_0000_0000);
        assert(b.counts[i] as int == (a.counts[i] + write_events(first.0, first.1, first.2)(i))
            % 0x1_0000_0000_0000_0000);
    }
}

/// Counts add up.
proof fn lemma_counts_add_up(
    a: Books,
    b: Books,
    c: Books,
    d: Books,
    q: int,
    p: Option<usize>,
    paid: nat,
    given: nat,
    then_given: nat,
    then_paid: nat,
)
    requires
        raised_by(a, b, q, paid, p, given),
        raised_by(b, c, q, 0, p, then_given),
        raised_by(c, d, q, then_paid, None, 0),
    ensures
        raised_by(a, d, q, paid + then_paid, p, given + then_given),
{
    assert forall|o: int| 0 <= o < a.objects.len() implies {
        &&& (#[trigger] d.objects[o]).id == a.objects[o].id
        &&& d.objects[o].drops == a.objects[o].drops
        &&& d.objects[o].strong == a.objects[o].strong + (if o == q {
            paid + then_paid
        } else {
            0
        }) + (if p matches Some(x) && x == o {
            given + then_given
        } else {
            0
        })
    } by {
        assert(c.objects[o].id == b.objects[o].id);
        assert(b.objects[o].id == a.objects[o].id);
    }
}

/// What a writer has done when it has come by the first `n` threads. The result is how many of its
/// own loads went through a fast slot.
proof fn lemma_walk(w: World, t: int, q: usize, s: usize, n: nat) -> (fast: nat)
    requires
        w.books.wf(),
        w.probes.wf(),
        w.books.roomy(),
        w.books.pending == Some((q, s)),
        n <= w.books.nodes.len(),
        0 <= t < w.books.nodes.len(),
        w.books.claims.len() + n <= usize::MAX,
        s < w.books.storages.len(),
    ensures
        fast <= in_need(w.books.nodes.take(n as int), s),
        fast == fast_helps(w.books, t, q, s, n as int),
        ({
            let x = w.walked(t, q, s, n);
            let paid = debts_on(w.books.slots.take(9 * n as int), q);
            let given = in_need(w.books.nodes.take(n as int), s);
            let p = w.books.storages[s as int].ptr;
            &&& cleared(w.books.slots, x.books.slots, q, 9 * n as int)
            &&& raised_by(w.books, x.books, q as int, paid, p, given)
            &&& x.books.claims.len() == w.books.claims.len() + given
            &&& claims_stay(w.books, x.books, -1, -1)
            &&& x.books.nodes.len() == w.books.nodes.len()
            &&& forall|u: int|
                0 <= u < n ==> #[trigger] served(
                    w.books.nodes[u],
                    x.books,
                    u,
                    s,
                    w.books.claims.len() as int,
                    p,
                )
            &&& forall|u: int|
                n <= u < w.books.nodes.len() ==> #[trigger] x.books.nodes[u] == w.books.nodes[u]
            &&& none_fired(w.probes, x.probes)
            &&& gained(w.probes, x.probes, write_events(paid, given, fast))
        }),
    decreases n,
{
    let p = w.books.storages[s as int].ptr;
    if n == 0 {
        assert(w.books.slots.take(0).len() == 0);
        assert(w.books.nodes.take(0).len() == 0);
        0
    } else {
        let u = (n - 1) as nat;
        let fast = lemma_walk(w, t, q, s, u);
        flow::lemma_walked(w, t, q, s, u);
        let x = w.walked(t, q, s, u);
        let y = x.helped(t, u as usize, s);
        let z = w.walked(t, q, s, n);
        assert(u < usize::MAX) by {
            assert(x.books.slots.len() <= usize::MAX);
        }
        assert(w.books.nodes.take(n as int).drop_last() =~= w.books.nodes.take(u as int));
        assert(w.books.nodes.take(n as int).last() == w.books.nodes[u as int]);
        assert(x.books.nodes[u as int] == w.books.nodes[u as int]);
        let needy = w.books.nodes[u as int].control is Generation
            && w.books.nodes[u as int].active_addr == s;
        let through_fast = lemma_help(x, t, u as usize, s, q);
        flow::lemma_scanned(y, q, s, 9 * u as int, 9);
        lemma_scan(y, q, s, 9 * u as int, 9);
        assert(z == y.scanned(q, 9 * u as int, 9));
        // The debts that were there are those at the threads before and those at this one.
        let head = w.books.slots.take(9 * u as int);
        let part = w.books.slots.subrange(9 * u as int, 9 * u as int + 9);
        assert(w.books.slots.take(9 * n as int) =~= head + part);
        tally::lemma_append(head, part, |entry: Option<usize>| entry == Some(q));
        assert(y.books.slots.subrange(9 * u as int, 9 * u as int + 9) =~= part);
        let given = in_need(w.books.nodes.take(u as int), s);
        lemma_counts_add_up(
            w.books,
            x.books,
            y.books,
            z.books,
            q as int,
            p,
            debts_on(head, q),
            given,
            tally::one_if(needy),
            debts_on(part, q),
        );
        lemma_events_add_up(
            w.probes,
            x.probes,
            y.probes,
            (debts_on(head, q), given, fast),
            tally::one_if(needy),
            tally::one_if(through_fast),
            z.probes,
            debts_on(part, q),
        );
        lemma_fast_helps(w.books, x.books, t, q, s, u as int);
        lemma_still_served(w.books, x.books, y.books, z.books, s, u as int, p);
        fast + tally::one_if(through_fast)
    }
}

/// Who has been served stays so when the writer moves on by one thread.
proof fn lemma_still_served(
    w: Books,
    x: Books,
    y: Books,
    z: Books,
    s: usize,
    u: int,
    p: Option<usize>,
)
    requires
        0 <= u < w.nodes.len(),
        x.nodes.len() == w.nodes.len(),
        w.claims.len() <= x.claims.len(),
        loads::others_stay(x, y, u),
        claims_stay(w, x, -1, -1),
        claims_stay(x, y, -1, -1),
        z.nodes == y.nodes,
        z.claims == y.claims,
        x.nodes[u] == w.nodes[u],
        forall|v: int|
            0 <= v < u ==> #[trigger] served(w.nodes[v], x, v, s, w.claims.len() as int, p),
        forall|v: int| u <= v < w.nodes.len() ==> #[trigger] x.nodes[v] == w.nodes[v],
        served(x.nodes[u], y, u, s, x.claims.len() as int, p),
    ensures
        claims_stay(w, z, -1, -1),
        forall|v: int|
            0 <= v < u + 1 ==> #[trigger] served(w.nodes[v], z, v, s, w.claims.len() as int, p),
        forall|v: int| u + 1 <= v < w.nodes.len() ==> #[trigger] z.nodes[v] == w.nodes[v],
{
    assert forall|e: int| 0 <= e < w.claims.len() implies #[trigger] z.claims[e] == w.claims[e] by {
        assert(x.claims[e] == w.claims[e]);
        assert(y.claims[e] == x.claims[e]);
    }
    assert forall|v: int| 0 <= v < u + 1 implies #[trigger] served(
        w.nodes[v],
        z,
        v,
        s,
        w.claims.len() as int,
        p,
    ) by {
        if v < u {
            assert(served(w.nodes[v], x, v, s, w.claims.len() as int, p));
            assert(y.nodes[v] == x.nodes[v]);
            if let Control::Replacement(r) = x.nodes[v].control {
                if w.nodes[v].control is Generation && w.nodes[v].active_addr == s {
                    assert(y.claims[r as int] == x.claims[r as int]);
                }
            }
        }
    }
}

/// The events of a write that pays so many debts and helps so many loads.
pub open spec fn write_events(paid: nat, given: nat, fast: nat) -> spec_fn(int) -> nat {
    |i: int|
        if i == litmus::PAY_SLOT {
            paid
        } else if i == litmus::HELP_SUCCESS || i == litmus::INTO_INNER_DEBT_PAID {
            given
        } else if i == litmus::FAST_CONFIRMED {
            fast
        } else if i == litmus::FALLBACK_CONFIRMED {
            (given - fast) as nat
        } else {
            0nat
        }
}

/// What is asked of a write: the thread is there, the storage holds something, what is put into it
/// is owned, a storage that is taken down is not being loaded from, and there is room.
pub open spec fn may_write(w: World, t: int, s: usize, new: Option<usize>) -> bool {
    &&& w.at_rest()
    &&& w.books.roomy()
    &&& w.books.claims.len() + 1 + w.books.nodes.len() <= usize::MAX
    &&& 0 <= t < w.books.nodes.len()
    &&& s < w.books.storages.len()
    &&& w.books.storages[s as int].ptr is Some
    &&& new matches Some(c) ==> w.books.is_owned(c as int)
    &&& new is None ==> w.books.quiet(s as int)
}

/// A write to a storage may park its thread only if a checkpoint waits and somebody on the storage
/// is in need.
pub proof fn law_a_write_is_hindered_only_by_helping(w: World, s: usize)
    requires
        w.probes.wf(),
    ensures
        w.unhindered(s) <==> nothing_waits(w.probes) || forall|u: int|
            0 <= u < w.books.nodes.len() ==> !(#[trigger] w.books.nodes[u].control is Generation
                && w.books.nodes[u].active_addr == s),
{
    if nothing_waits(w.probes) {
        assert forall|idx: int| 0 <= idx < litmus::CHECKPOINTS implies !#[trigger] w.probes.parks(
            idx,
        ) by {
            assert(!loads::waits(w.probes, idx));
        }
    }
    if w.probes.lets_all_pass() {
        assert forall|idx: int| 0 <= idx < litmus::CHECKPOINTS implies !#[trigger] loads::waits(
            w.probes,
            idx,
        ) by {
            assert(!w.probes.parks(idx));
        }
    }
    if forall|u: int| 0 <= u < w.books.nodes.len() ==> !#[trigger] w.books.needs_help(u, s) {
        assert forall|u: int| 0 <= u < w.books.nodes.len() implies !(
        #[trigger] w.books.nodes[u].control is Generation && w.books.nodes[u].active_addr == s) by {
            assert(!w.books.needs_help(u, s));
        }
    }
}

/// The object that a storage is to hold after a write.
pub open spec fn written_ptr(b: Books, new: Option<usize>) -> Option<usize> {
    match new {
        Some(c) => Some(b.claims[c as int].ptr),
        None => None,
    }
}

/// How many debts a write to the storage pays: all that there are on what it holds, unless the
/// storage is locked and owes nothing.
pub open spec fn debts_paid(b: Books, s: usize) -> nat {
    if b.storages[s as int].strategy is RwLock {
        0
    } else {
        debts_on(b.slots, b.storages[s as int].ptr->0)
    }
}

/// A write puts the new reference into the storage and hands out what was there, neither of which
/// changes a count. Every debt on what was there is paid with a count and gone. Every fallback load
/// on the storage that was in need has been handed a counted reference to the new value. All of
/// this is counted, and nothing else is touched. The result is how many of the replacements came
/// from a load through a fast slot of the writer.
pub proof fn law_a_write_pays_and_helps(
    w: World,
    t: int,
    s: usize,
    new: Option<usize>,
) -> (fast: nat)
    requires
        may_write(w, t, s, new),
    ensures
        fast <= in_need(w.books.nodes, s),
        fast == fast_helps(
            w.books,
            t,
            w.books.storages[s as int].ptr->0,
            s,
            w.books.nodes.len() as int,
        ),
        ({
            let b = w.books;
            let q = b.storages[s as int].ptr->0;
            let p = written_ptr(b, new);
            let paid = debts_paid(b, s);
            let given = in_need(b.nodes, s);
            let old = b.claims.len() as int;
            let c = match new {
                Some(c) => c as int,
                None => -1,
            };
            let x = w.written(t, s, new);
            &&& x.books.storages == b.storages.update(
                s as int,
                Storage { ptr: p, strategy: b.storages[s as int].strategy },
            )
            &&& if b.storages[s as int].strategy is RwLock {
                x.books.slots == b.slots
            } else {
                cleared(b.slots, x.books.slots, q, b.slots.len() as int)
            }
            &&& raised_by(b, x.books, q as int, paid, p, given)
            &&& x.books.claims.len() == b.claims.len() + 1 + given
            &&& claims_stay(b, x.books, c, c)
            &&& new is Some ==> !x.books.claims[c].live
            &&& x.books.claims[old] == (Claim {
                ptr: q,
                slot: None,
                owner: Owner::Handle,
                live: true,
            })
            &&& x.books.nodes.len() == b.nodes.len()
            &&& forall|u: int|
                0 <= u < b.nodes.len() ==> #[trigger] served(b.nodes[u], x.books, u, s, old + 1, p)
            &&& none_fired(w.probes, x.probes)
            &&& gained(w.probes, x.probes, write_events(paid, given, fast))
        }),
{
    let b = w.books;
    let q = b.storages[s as int].ptr->0;
    let p = written_ptr(b, new);
    let n = b.nodes.len();
    let x = w.written(t, s, new);
    flow::lemma_written(w, t, s, new);
    assert(b.nodes.take(n as int) =~= b.nodes);
    assert(b.slots.take(9 * n as int) =~= b.slots);
    if b.storages[s as int].strategy is RwLock {
        writes::lemma_displaced(b, s as int, new);
        assert forall|u: int| 0 <= u < b.nodes.len() implies !(
        #[trigger] b.nodes[u].control is Generation && b.nodes[u].active_addr == s) by {
            assert(b.node_fits(u));
        }
        tally::lemma_none(
            b.nodes,
            |node: Node| node.control is Generation && node.active_addr == s,
        );
        assert(x.books.storages =~= b.storages.update(
            s as int,
            Storage { ptr: p, strategy: b.storages[s as int].strategy },
        ));
        0
    } else {
        writes::lemma_opened(b, s, new);
        let y = World { books: b.opened(s, new), ..w };
        let fast = lemma_walk(y, t, q, s, n);
        let z = y.walked(t, q, s, n);
        flow::lemma_walked(y, t, q, s, n);
        assert(y.books.nodes == b.nodes);
        assert(y.books.slots == b.slots);
        assert(z.books.claims[b.claims.len() as int] == y.books.claims[b.claims.len() as int]);
        let c = match new {
            Some(c) => c as int,
            None => -1,
        };
        assert forall|e: int| 0 <= e < b.claims.len() && e != c implies #[trigger] x.books.claims[e]
            == b.claims[e] by {
            assert(z.books.claims[e] == y.books.claims[e]);
        }
        if new is Some {
            assert(z.books.claims[c] == y.books.claims[c]);
        }
        assert forall|u: int| 0 <= u < b.nodes.len() implies #[trigger] served(
            b.nodes[u],
            x.books,
            u,
            s,
            b.claims.len() as int + 1,
            p,
        ) by {
            assert(served(y.books.nodes[u], z.books, u, s, y.books.claims.len() as int, p));
        }
        assert(x.books.storages =~= b.storages.update(
            s as int,
            Storage { ptr: p, strategy: b.storages[s as int].strategy },
        ));
        fast
    }
}

/// The counts after a write whose displaced reference has been given up: what was displaced has one
/// count less than after the write alone, and it is dropped if none is left.
pub open spec fn settled_counts(
    before: Books,
    after: Books,
    q: int,
    paid: nat,
    p: Option<usize>,
    given: nat,
) -> bool {
    &&& after.objects.len() == before.objects.len()
    &&& forall|o: int|
        0 <= o < before.objects.len() ==> {
            &&& (#[trigger] after.objects[o]).id == before.objects[o].id
            &&& after.objects[o].strong == before.objects[o].strong + (if o == q {
                paid - 1
            } else {
                0
            }) + (if p matches Some(x) && x == o {
                given as int
            } else {
                0
            })
            &&& after.objects[o].drops == before.objects[o].drops + (if o == q
                && after.objects[o].strong == 0 {
                1int
            } else {
                0
            })
        }
}

/// A store is a swap whose result is given up. For a storage of every strategy the displaced object
/// loses exactly one reference among the storages and claims, if another object takes its place;
/// one that only the storage referred to is dropped, then and there.
pub proof fn law_a_store_releases_what_it_displaced(
    w: World,
    t: int,
    s: usize,
    new: Option<usize>,
) -> (fast: nat)
    requires
        may_write(w, t, s, new),
    ensures
        fast == fast_helps(
            w.books,
            t,
            w.books.storages[s as int].ptr->0,
            s,
            w.books.nodes.len() as int,
        ),
        ({
            let b = w.books;
            let q = b.storages[s as int].ptr->0;
            let p = written_ptr(b, new);
            let paid = debts_paid(b, s);
            let given = in_need(b.nodes, s);
            let old = b.claims.len() as int;
            let c = match new {
                Some(c) => c as int,
                None => -1,
            };
            let x = w.replaced(t, s, new);
            &&& x == w.written(t, s, new).dropped(old)
            &&& x.books.storages == b.storages.update(
                s as int,
                Storage { ptr: p, strategy: b.storages[s as int].strategy },
            )
            &&& x.books.slots == w.written(t, s, new).books.slots
            &&& settled_counts(b, x.books, q as int, paid, p, given)
            &&& claims_stay(b, x.books, c, c)
            &&& new is Some ==> !x.books.claims[c].live
            &&& !x.books.claims[old].live
            &&& none_fired(w.probes, x.probes)
            &&& gained(w.probes, x.probes, write_events(paid, given, fast))
            &&& p != Some(q) ==> x.books.stored(q) + x.books.claimed(q) + 1 == b.stored(q)
                + b.claimed(q)
            &&& p != Some(q) && b.stored(q) == 1 && b.claimed(q) == 0
                ==> x.books.objects[q as int].drops == 1
        }),
{
    let b = w.books;
    let q = b.storages[s as int].ptr->0;
    let p = written_ptr(b, new);
    let old = b.claims.len() as int;
    let fast = law_a_write_pays_and_helps(w, t, s, new);
    flow::lemma_written(w, t, s, new);
    let y = w.written(t, s, new);
    law_giving_up_returns_a_debt_or_a_count(y, old);
    writes::lemma_given_up(y.books, old);
    let x = w.replaced(t, s, new);
    assert(x == y.dropped(old));
    assert(x.probes == y.probes);
    let c = match new {
        Some(c) => c as int,
        None => -1,
    };
    assert forall|e: int| 0 <= e < b.claims.len() && e != c implies #[trigger] x.books.claims[e]
        == b.claims[e] by {
        assert(y.books.claims[e] == b.claims[e]);
    }
    if new is Some {
        assert(x.books.claims[c] == y.books.claims[c]);
    }
    assert(y.books.balanced(q));
    assert(x.books.balanced(q));
    assert(b.balanced(q));
    lemma_debts_cleared(b.slots, y.books.slots, q);
    fast
}

/// Where all debts on `q` are gone, there is none.
proof fn lemma_debts_cleared(before: Seq<Option<usize>>, after: Seq<Option<usize>>, q: usize)
    ensures
        cleared(before, after, q, before.len() as int) ==> tally::tally(after, books::names(q))
            == 0,
        tally::tally(before, books::names(q)) == debts_on(before, q),
{
    assert(books::names(q) =~= (|entry: Option<usize>| entry == Some(q)));
    if cleared(before, after, q, before.len() as int) {
        assert forall|k: int| 0 <= k < after.len() implies !books::names(q)(
            #[trigger] after[k],
        ) by {}
        tally::lemma_none(after, books::names(q));
    }
}

/// The second half of a compare-and-swap goes by the objects alone: whether the guard and what it
/// is compared with are backed by a count or by a debt makes no difference. If the objects differ,
/// the candidate is given up and the storages stay. If they are the same and the storage still
/// holds this object, the candidate is stored. Else the guard is given up, the candidate is kept,
/// and the storages stay.
pub proof fn law_an_exchange_goes_by_the_objects(
    w: World,
    t: int,
    s: usize,
    guard: usize,
    current: int,
    new: usize,
)
    requires
        may_write(w, t, s, Some(new)),
        w.books.is_handle(guard as int),
        w.books.is_handle(current),
        guard != new,
    ensures
        ({
            let b = w.books;
            let held = b.storages[s as int].ptr;
            let (x, result) = w.decided(t, s, guard, current, new);
            if b.claims[guard as int].ptr != b.claims[current].ptr {
                &&& result == Some(guard)
                &&& x == w.dropped(new as int)
                &&& x.books.storages == b.storages
                &&& !x.books.claims[new as int].live
                &&& x.books.claims[guard as int] == b.claims[guard as int]
                &&& recounted(b, x.books, b.claims[new as int].ptr as int, -1)
            } else if held == Some(b.claims[current].ptr) {
                &&& result == Some(guard)
                &&& x == w.replaced(t, s, Some(new))
                &&& x.books.storages[s as int].ptr == Some(b.claims[new as int].ptr)
                &&& !x.books.claims[new as int].live
                &&& x.books.claims[guard as int] == b.claims[guard as int]
                &&& settled_counts(
                    b,
                    x.books,
                    b.claims[current].ptr as int,
                    debts_paid(b, s),
                    Some(b.claims[new as int].ptr),
                    in_need(b.nodes, s),
                )
            } else {
                &&& result is None
                &&& x == w.dropped(guard as int)
                &&& x.books.storages == b.storages
                &&& !x.books.claims[guard as int].live
                &&& x.books.claims[new as int] == b.claims[new as int]
            }
        }),
{
    let b = w.books;
    let (x, result) = w.decided(t, s, guard, current, new);
    if b.claims[guard as int].ptr != b.claims[current].ptr {
        law_giving_up_returns_a_debt_or_a_count(w, new as int);
        assert(x.books.claims[guard as int] == b.claims[guard as int]);
    } else if b.storages[s as int].ptr == Some(b.claims[current].ptr) {
        let fast = law_a_store_releases_what_it_displaced(w, t, s, Some(new));
        assert(x.books.claims[guard as int] == b.claims[guard as int]);
    } else {
        law_giving_up_returns_a_debt_or_a_count(w, guard as int);
        assert(x.books.claims[new as int] == b.claims[new as int]);
    }
}

/// A compare-and-swap is a load and, unless that parks, an exchange with the guard that it gave.
pub proof fn law_a_compare_and_swap_is_a_load_and_an_exchange(
    w: World,
    t: usize,
    s: usize,
    current: int,
    new: usize,
)
    ensures
        ({
            let (x, loaded) = w.load(t, s);
            let (y, progress) = w.swapped_if(t, s, current, new);
            &&& progress == loaded
            &&& match loaded {
                Progress::Parked(_) => y == x,
                Progress::Done(guard) => y == x.decided(t as int, s, guard, current, new).0,
            }
        }),
{
}

/// A compare-and-swap whose load is not parked, on a storage of every strategy and for whatever
/// reference or guard `current` it is compared with. If the storage holds the object of `current`,
/// it holds the object of `new` afterwards: every debt on the displaced object has been paid, what
/// was in need has been helped, and the displaced object has kept its count but for that, since the
/// returned guard took the place of the storage. If the storage holds another object, it still
/// does, and `new` has been given up. Either way the returned guard is of what the storage held.
pub proof fn law_a_compare_and_swap_stores_exactly_if_the_object_matches(
    w: World,
    t: usize,
    s: usize,
    current: usize,
    new: usize,
)
    requires
        w.at_rest(),
        w.books.roomy(),
        w.books.claims.len() + 3 + w.books.nodes.len() <= usize::MAX,
        t < w.books.nodes.len(),
        w.books.nodes[t as int].op is Idle,
        s < w.books.storages.len(),
        w.books.storages[s as int].ptr is Some,
        w.books.is_handle(current as int),
        w.books.is_owned(new as int),
        nothing_waits(w.probes),
    ensures
        ({
            let b = w.books;
            let q = b.storages[s as int].ptr->0;
            let p = b.claims[new as int].ptr;
            let g = b.claims.len() as usize;
            let (x, progress) = w.swapped_if(t, s, current as int, new);
            &&& progress == Progress::Done(g)
            &&& x.books.is_handle(g as int)
            &&& x.books.claims[g as int].ptr == q
            &&& !x.books.claims[new as int].live
            &&& claims_stay(b, x.books, new as int, new as int)
            &&& if b.claims[current as int].ptr == q {
                &&& x.books.storages == b.storages.update(
                    s as int,
                    Storage { ptr: Some(p), strategy: b.storages[s as int].strategy },
                )
                &&& raised_by(
                    b,
                    x.books,
                    q as int,
                    debts_paid(b, s),
                    Some(p),
                    in_need(b.nodes, s),
                )
            } else {
                &&& x.books.storages == b.storages
                &&& x.books.objects.len() == b.objects.len()
                &&& forall|o: int|
                    0 <= o < b.objects.len() ==> {
                        &&& (#[trigger] x.books.objects[o]).id == b.objects[o].id
                        &&& x.books.objects[o].strong == b.objects[o].strong + (if o == q
                            && x.books.claims[g as int].slot is None {
                            1int
                        } else {
                            0
                        }) - (if o == p {
                            1int
                        } else {
                            0
                        })
                        &&& x.books.objects[o].drops == b.objects[o].drops + (if o == p
                            && x.books.objects[o].strong == 0 {
                            1int
                        } else {
                            0
                        })
                    }
            }
        }),
{
    let b = w.books;
    let q = b.storages[s as int].ptr->0;
    let p = b.claims[new as int].ptr;
    let g = b.claims.len() as usize;
    assert forall|idx: int| 0 <= idx < litmus::CHECKPOINTS implies !#[trigger] w.probes.parks(
        idx,
    ) by {
        assert(!loads::waits(w.probes, idx));
    }
    flow::lemma_load(w, t, s);
    debts::lemma_load_outcome(w, t, s);
    flow::lemma_fast_slot(b, t as int, s as int);
    balance::lemma_stored_alive(b, s as int);
    steps::lemma_count_in_range(b, q);
    let (x, loaded) = w.load(t, s);
    assert(x.books.roomy());
    assert(x.books.claims[new as int] == b.claims[new as int]);
    assert(x.books.claims[current as int] == b.claims[current as int]);
    let (y, progress) = w.swapped_if(t, s, current as int, new);
    law_an_exchange_goes_by_the_objects(x, t as int, s, g, current as int, new);
    if b.claims[current as int].ptr == q {
        let fast = law_a_store_releases_what_it_displaced(x, t as int, s, Some(new));
        assert(b.node_fits(t as int));
        assert(x.books.node_fits(t as int));
        lemma_same_need(b, x.books, t as int, s);
        match b.fast_slot_for(t as int, s as int) {
            Some(k) => {
                tally::lemma_update(
                    b.slots,
                    k,
                    Some(q),
                    |entry: Option<usize>| entry == Some(q),
                );
                assert(debts_on(x.books.slots, q) == debts_on(b.slots, q) + 1);
            },
            None => {},
        }
        flow::lemma_written(x, t as int, s, Some(new));
        let z = x.written(t as int, s, Some(new));
        let spare = law_a_write_pays_and_helps(x, t as int, s, Some(new));
        writes::lemma_given_up(z.books, x.books.claims.len() as int);
        debts::law_a_handle_protects_its_object(y.books, g as int);
        assert forall|e: int|
            0 <= e < b.claims.len() && e != new implies #[trigger] y.books.claims[e]
            == b.claims[e] by {
            assert(x.books.claims[e] == b.claims[e]);
        }
        assert(raised_by(
            b,
            y.books,
            q as int,
            debts_paid(b, s),
            Some(p),
            in_need(b.nodes, s),
        ));
    } else {
        law_giving_up_returns_a_debt_or_a_count(x, new as int);
        assert forall|e: int|
            0 <= e < b.claims.len() && e != new implies #[trigger] y.books.claims[e]
            == b.claims[e] by {
            assert(x.books.claims[e] == b.claims[e]);
        }
    }
}

/// A compare-and-swap with checkpoints armed or not, for whatever reference or guard `current` it
/// is compared with. If its load parks, the storages, `current`, `new` and all other handles are as
/// before. If not, the storage holds the object of `new` afterwards exactly if it held the object
/// of `current`; no other storage is touched, `new` has gone either way, and the returned guard is
/// of what the storage held.
pub proof fn law_a_compare_and_swap_parks_or_goes_by_the_object(
    w: World,
    t: usize,
    s: usize,
    current: usize,
    new: usize,
)
    requires
        w.at_rest(),
        w.books.roomy(),
        w.books.claims.len() + 3 + w.books.nodes.len() <= usize::MAX,
        t < w.books.nodes.len(),
        w.books.nodes[t as int].op is Idle,
        s < w.books.storages.len(),
        w.books.storages[s as int].ptr is Some,
        w.books.is_handle(current as int),
        w.books.is_owned(new as int),
    ensures
        ({
            let b = w.books;
            let held = b.storages[s as int].ptr;
            let (x, progress) = w.swapped_if(t, s, current as int, new);
            &&& forall|c: int|
                0 <= c < b.claims.len() && b.claims[c].live && b.claims[c].owner is Handle && c
                    != new ==> #[trigger] x.books.claims[c] == b.claims[c]
            &&& match progress {
                Progress::Parked(_) => {
                    &&& x.books.storages == b.storages
                    &&& x.books.claims[new as int] == b.claims[new as int]
                },
                Progress::Done(g) => {
                    &&& x.books.is_handle(g as int)
                    &&& !b.is_handle(g as int)
                    &&& Some(x.books.claims[g as int].ptr) == held
                    &&& !x.books.claims[new as int].live
                    &&& x.books.storages == if held == Some(b.claims[current as int].ptr) {
                        b.storages.update(
                            s as int,
                            Storage {
                                ptr: Some(b.claims[new as int].ptr),
                                strategy: b.storages[s as int].strategy,
                            },
                        )
                    } else {
                        b.storages
                    }
                },
            }
        }),
{
    let b = w.books;
    flow::lemma_load(w, t, s);
    let (x, loaded) = w.load(t, s);
    assert(x.books.claims[current as int] == b.claims[current as int]);
    assert(x.books.claims[new as int] == b.claims[new as int]);
    if let Progress::Done(g) = loaded {
        let (y, progress) = w.swapped_if(t, s, current as int, new);
        law_an_exchange_goes_by_the_objects(x, t as int, s, g, current as int, new);
        if b.storages[s as int].ptr == Some(b.claims[current as int].ptr) {
            let fast = law_a_store_releases_what_it_displaced(x, t as int, s, Some(new));
        } else {
            law_giving_up_returns_a_debt_or_a_count(x, new as int);
        }
        assert forall|c: int|
            0 <= c < b.claims.len() && b.claims[c].live && b.claims[c].owner is Handle && c
                != new implies #[trigger] y.books.claims[c] == b.claims[c] by {
            assert(b.is_handle(c));
            assert(x.books.claims[c] == b.claims[c]);
        }
    }
}

/// A load by a thread that is done again leaves who is in need as it was.
proof fn lemma_same_need(b: Books, x: Books, t: int, s: usize)
    requires
        x.nodes.len() == b.nodes.len(),
        0 <= t < b.nodes.len(),
        b.nodes[t].control is Idle,
        x.nodes[t].control is Idle,
        forall|u: int| 0 <= u < b.nodes.len() && u != t ==> #[trigger] x.nodes[u] == b.nodes[u],
    ensures
        in_need(x.nodes, s) == in_need(b.nodes, s),
{
    let needy = |node: Node| node.control is Generation && node.active_addr == s;
    assert(x.nodes =~= b.nodes.update(t, x.nodes[t]));
    tally::lemma_update(b.nodes, t, x.nodes[t], needy);
}

} // verus!
