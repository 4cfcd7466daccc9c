//! What holds of the diagnostics of the helping pass over every sequence of events.

use vstd::prelude::*;

use crate::strategy::test_ctl::next_tally;

verus! {

/// One event of the helping pass, on whichever thread.
pub enum HelperEvent {
    /// `helper_saw_gen`
    SawGen,
    /// `helper_handover_ok`
    HandoverOk,
}

/// The counters after one event, as the contract of its function says.
pub open spec fn helpers_after(counters: (usize, usize), event: HelperEvent) -> (usize, usize) {
    match event {
        HelperEvent::SawGen => (next_tally(counters.0), counters.1),
        HelperEvent::HandoverOk => (counters.0, next_tally(counters.1)),
    }
}

/// The counters after a sequence of events.
pub open spec fn helpers_run(counters: (usize, usize), trace: Seq<HelperEvent>) -> (usize, usize)
    decreases trace.len(),
{
    if trace.len() == 0 {
        counters
    } else {
        helpers_after(helpers_run(counters, trace.drop_last()), trace.last())
    }
}

/// How often an event occurs in a sequence.
pub open spec fn occurrences(trace: Seq<HelperEvent>, event: HelperEvent) -> nat
    decreases trace.len(),
{
    if trace.len() == 0 {
        0
    } else {
        occurrences(trace.drop_last(), event) + (if trace.last() == event {
            1nat
        } else {
            0nat
        })
    }
}

/// One more event adds one, modulo the number of values.
proof fn lemma_next_tally(n: usize, events: int)
    requires
        n as int == events % (usize::MAX + 1),
    ensures
        next_tally(n) as int == (events + 1) % (usize::MAX + 1),
{
    let m = usize::MAX + 1;
    let q = events / m;
    vstd::arithmetic::div_mod::lemma_fundamental_div_mod(events, m);
    if n == usize::MAX {
        assert(events + 1 == (q + 1) * m + 0) by (nonlinear_arith)
            requires
                events == m * q + (m - 1),
        ;
        vstd::arithmetic::div_mod::lemma_fundamental_div_mod_converse(events + 1, m, q + 1, 0);
    } else {
        assert(events + 1 == q * m + (n + 1)) by (nonlinear_arith)
            requires
                events == m * q + n,
        ;
        vstd::arithmetic::div_mod::lemma_fundamental_div_mod_converse(events + 1, m, q, n + 1);
    }
}

/// From a fresh start each counter is the number of its own events, modulo the number of values of
/// a counter; events of the other kind do not move it.
pub proof fn law_each_helper_counter_counts_its_events(trace: Seq<HelperEvent>)
    ensures
        helpers_run((0, 0), trace).0 as int == occurrences(trace, HelperEvent::SawGen) as int % (
        usize::MAX + 1),
        helpers_run((0, 0), trace).1 as int == occurrences(trace, HelperEvent::HandoverOk) as int
            % (usize::MAX + 1),
    decreases trace.len(),
{
    if trace.len() > 0 {
        let earlier = trace.drop_last();
        law_each_helper_counter_counts_its_events(earlier);
        let (seen, handed) = helpers_run((0, 0), earlier);
        match trace.last() {
            HelperEvent::SawGen => lemma_next_tally(
                seen,
                occurrences(earlier, HelperEvent::SawGen) as int,
            ),
            HelperEvent::HandoverOk => lemma_next_tally(
                handed,
                occurrences(earlier, HelperEvent::HandoverOk) as int,
            ),
        }
    }
}

} // verus!
