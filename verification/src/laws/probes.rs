//! What holds of the litmus probes over every sequence of operations.

use vstd::prelude::*;

use crate::litmus;
use crate::litmus::{ProbesView, Wait, CHECKPOINTS, COUNTERS, WAIT_LIMIT_NANOS};
use crate::text;

verus! {

/// One operation on the probes, by whichever thread.
pub enum ProbeEvent {
    /// `count`
    Count(int),
    /// `checkpoint`
    Arrive(int),
    /// `reset`
    Reset,
    /// `arm`
    Arm(int),
    /// `release`
    Release(int),
}

impl ProbeEvent {
    /// The operation names a counter or checkpoint that there is.
    pub open spec fn valid(self) -> bool {
        match self {
            ProbeEvent::Count(idx) => 0 <= idx < COUNTERS,
            ProbeEvent::Arrive(idx) => 0 <= idx < CHECKPOINTS,
            ProbeEvent::Reset => true,
            ProbeEvent::Arm(idx) => 0 <= idx < CHECKPOINTS,
            ProbeEvent::Release(idx) => 0 <= idx < CHECKPOINTS,
        }
    }
}

/// Every operation of a sequence is valid.
pub open spec fn all_valid(trace: Seq<ProbeEvent>) -> bool {
    forall|k: int| 0 <= k < trace.len() ==> (#[trigger] trace[k]).valid()
}

/// The operation does not occur in a sequence.
pub open spec fn without(trace: Seq<ProbeEvent>, event: ProbeEvent) -> bool {
    forall|k: int| 0 <= k < trace.len() ==> #[trigger] trace[k] != event
}

/// The probes after one operation, as the contract of the operation says.
pub open spec fn probes_after(v: ProbesView, event: ProbeEvent) -> ProbesView {
    match event {
        ProbeEvent::Count(idx) => v.counted(idx),
        ProbeEvent::Arrive(idx) => v.arrived(idx),
        ProbeEvent::Reset => ProbesView::pristine(),
        ProbeEvent::Arm(idx) => v.with_armed(idx),
        ProbeEvent::Release(idx) => v.with_released(idx),
    }
}

/// The probes after a sequence of operations.
pub open spec fn probes_run(v: ProbesView, trace: Seq<ProbeEvent>) -> ProbesView
    decreases trace.len(),
{
    if trace.len() == 0 {
        v
    } else {
        probes_after(probes_run(v, trace.drop_last()), trace.last())
    }
}

/// How often an operation occurs in a sequence.
pub open spec fn occurrences(trace: Seq<ProbeEvent>, event: ProbeEvent) -> nat
    decreases trace.len(),
{
    if trace.len() == 0 {
        0
    } else {
        occurrences(trace.drop_last(), event) + (if trace.last() == event {
            1nat
        } else {
            0nat
        })
    }
}

/// How many of the arrivals at checkpoint `idx` park, over a sequence of operations.
pub open spec fn parkings(v: ProbesView, trace: Seq<ProbeEvent>, idx: int) -> nat
    decreases trace.len(),
{
    if trace.len() == 0 {
        0
    } else {
        let before = probes_run(v, trace.drop_last());
        parkings(v, trace.drop_last(), idx) + (if trace.last() == ProbeEvent::Arrive(idx)
            && before.parks(idx) {
            1nat
        } else {
            0nat
        })
    }
}

/// Probes keep one entry per counter and per checkpoint.
pub proof fn lemma_run_wf(v: ProbesView, trace: Seq<ProbeEvent>)
    requires
        v.wf(),
        all_valid(trace),
    ensures
        probes_run(v, trace).wf(),
    decreases trace.len(),
{
    if trace.len() > 0 {
        lemma_run_wf(v, trace.drop_last());
    }
}

/// Each arming lets at most one thread park: over any sequence of operations, no more arrivals
/// park at a checkpoint than the times it was armed, plus one if it was waiting from the start.
pub proof fn law_each_arming_parks_at_most_one(v: ProbesView, trace: Seq<ProbeEvent>, idx: int)
    requires
        v.wf(),
        all_valid(trace),
        0 <= idx < CHECKPOINTS,
    ensures
        parkings(v, trace, idx) <= occurrences(trace, ProbeEvent::Arm(idx)) + (if v.parks(idx) {
            1nat
        } else {
            0nat
        }),
{
    lemma_parkings_budget(v, trace, idx);
}

proof fn lemma_parkings_budget(v: ProbesView, trace: Seq<ProbeEvent>, idx: int)
    requires
        v.wf(),
        all_valid(trace),
        0 <= idx < CHECKPOINTS,
    ensures
        parkings(v, trace, idx) + (if probes_run(v, trace).parks(idx) {
            1nat
        } else {
            0nat
        }) <= occurrences(trace, ProbeEvent::Arm(idx)) + (if v.parks(idx) {
            1nat
        } else {
            0nat
        }),
    decreases trace.len(),
{
    if trace.len() > 0 {
        lemma_parkings_budget(v, trace.drop_last(), idx);
        lemma_run_wf(v, trace.drop_last());
    }
}

/// The first arrival at an armed checkpoint parks and every later one passes through: while the
/// checkpoint is neither armed again nor released nor reset, exactly one arrival parks, if there
/// is an arrival at all.
pub proof fn law_only_the_first_arrival_parks(v: ProbesView, trace: Seq<ProbeEvent>, idx: int)
    requires
        v.wf(),
        all_valid(trace),
        0 <= idx < CHECKPOINTS,
        without(trace, ProbeEvent::Arm(idx)),
        without(trace, ProbeEvent::Release(idx)),
        without(trace, ProbeEvent::Reset),
    ensures
        parkings(v.with_armed(idx), trace, idx) == (if occurrences(trace, ProbeEvent::Arrive(idx))
            == 0 {
            0nat
        } else {
            1nat
        }),
        probes_run(v.with_armed(idx), trace).parks(idx) <==> occurrences(
            trace,
            ProbeEvent::Arrive(idx),
        ) == 0,
    decreases trace.len(),
{
    if trace.len() > 0 {
        law_only_the_first_arrival_parks(v, trace.drop_last(), idx);
        lemma_run_wf(v.with_armed(idx), trace.drop_last());
        law_a_parked_thread_stays_parked(v.with_armed(idx), trace.drop_last(), idx);
    }
}

/// Once an arrival has consumed the arming, nobody parks at the checkpoint before it is armed
/// again; a driver that waits for the arrival finds it however late it looks.
pub proof fn law_a_consumed_checkpoint_lets_everyone_pass(
    v: ProbesView,
    trace: Seq<ProbeEvent>,
    idx: int,
)
    requires
        v.wf(),
        all_valid(trace),
        0 <= idx < CHECKPOINTS,
        v.fired[idx],
        without(trace, ProbeEvent::Arm(idx)),
        without(trace, ProbeEvent::Reset),
    ensures
        probes_run(v, trace).fired[idx],
        !probes_run(v, trace).parks(idx),
        parkings(v, trace, idx) == 0,
    decreases trace.len(),
{
    if trace.len() > 0 {
        law_a_consumed_checkpoint_lets_everyone_pass(v, trace.drop_last(), idx);
        lemma_run_wf(v, trace.drop_last());
    }
}

/// A parked thread goes on only after its checkpoint was released or everything was reset.
pub proof fn law_a_parked_thread_stays_parked(v: ProbesView, trace: Seq<ProbeEvent>, idx: int)
    requires
        v.wf(),
        all_valid(trace),
        0 <= idx < CHECKPOINTS,
        v.armed[idx],
        without(trace, ProbeEvent::Release(idx)),
        without(trace, ProbeEvent::Reset),
    ensures
        probes_run(v, trace).armed[idx],
    decreases trace.len(),
{
    if trace.len() > 0 {
        law_a_parked_thread_stays_parked(v, trace.drop_last(), idx);
        lemma_run_wf(v, trace.drop_last());
    }
}

/// A released checkpoint holds nobody, parked or arriving, until it is armed again.
pub proof fn law_a_released_checkpoint_holds_nobody(
    v: ProbesView,
    trace: Seq<ProbeEvent>,
    idx: int,
)
    requires
        v.wf(),
        all_valid(trace),
        0 <= idx < CHECKPOINTS,
        without(trace, ProbeEvent::Arm(idx)),
    ensures
        !probes_run(v.with_released(idx), trace).armed[idx],
        parkings(v.with_released(idx), trace, idx) == 0,
    decreases trace.len(),
{
    if trace.len() > 0 {
        law_a_released_checkpoint_holds_nobody(v, trace.drop_last(), idx);
        lemma_run_wf(v.with_released(idx), trace.drop_last());
    }
}

/// At a checkpoint that is not armed, a release is a no-op and so is an arrival, which passes.
pub proof fn law_an_unarmed_checkpoint_is_inert(v: ProbesView, idx: int)
    requires
        v.wf(),
        0 <= idx < CHECKPOINTS,
        !v.armed[idx],
    ensures
        v.with_released(idx) == v,
        v.arrived(idx) == v,
        !v.parks(idx),
{
    assert(v.with_released(idx).armed =~= v.armed);
}

/// Nothing from before a reset is seen after it: whatever happened earlier, a scenario that starts
/// with a reset ends in the same state.
pub proof fn law_reset_leaves_no_leftovers(
    v: ProbesView,
    earlier: Seq<ProbeEvent>,
    scenario: Seq<ProbeEvent>,
)
    ensures
        probes_run(v, earlier.push(ProbeEvent::Reset) + scenario) == probes_run(
            ProbesView::pristine(),
            scenario,
        ),
    decreases scenario.len(),
{
    let all = earlier.push(ProbeEvent::Reset) + scenario;
    if scenario.len() == 0 {
        assert(all =~= earlier.push(ProbeEvent::Reset));
        assert(all.last() == ProbeEvent::Reset);
    } else {
        law_reset_leaves_no_leftovers(v, earlier, scenario.drop_last());
        assert(all.drop_last() =~= earlier.push(ProbeEvent::Reset) + scenario.drop_last());
        assert(all.last() == scenario.last());
    }
}

/// A counter is the number of its events since it was last reset, modulo 2^64; no other operation
/// moves it.
pub proof fn law_a_counter_counts_its_events(v: ProbesView, trace: Seq<ProbeEvent>, idx: int)
    requires
        v.wf(),
        all_valid(trace),
        0 <= idx < COUNTERS,
        without(trace, ProbeEvent::Reset),
    ensures
        probes_run(v, trace).counts[idx] as int == (v.counts[idx] + occurrences(
            trace,
            ProbeEvent::Count(idx),
        )) % 0x1_0000_0000_0000_0000,
    decreases trace.len(),
{
    if trace.len() > 0 {
        law_a_counter_counts_its_events(v, trace.drop_last(), idx);
        lemma_run_wf(v, trace.drop_last());
    }
}

/// Checkpoints do not touch one another: while no operation names a checkpoint and nothing is
/// reset, it stays as it is.
pub proof fn law_checkpoints_are_independent(v: ProbesView, trace: Seq<ProbeEvent>, idx: int)
    requires
        v.wf(),
        all_valid(trace),
        0 <= idx < CHECKPOINTS,
        without(trace, ProbeEvent::Arrive(idx)),
        without(trace, ProbeEvent::Arm(idx)),
        without(trace, ProbeEvent::Release(idx)),
        without(trace, ProbeEvent::Reset),
    ensures
        probes_run(v, trace).armed[idx] == v.armed[idx],
        probes_run(v, trace).fired[idx] == v.fired[idx],
    decreases trace.len(),
{
    if trace.len() > 0 {
        law_checkpoints_are_independent(v, trace.drop_last(), idx);
        lemma_run_wf(v, trace.drop_last());
    }
}

/// Texts one after the other, with a comma between any two.
pub open spec fn joined(texts: Seq<Seq<char>>) -> Seq<char>
    decreases texts.len(),
{
    if texts.len() == 0 {
        seq![]
    } else if texts.len() == 1 {
        texts[0]
    } else {
        texts[0] + seq![','] + joined(texts.drop_first())
    }
}

/// The entry of one counter: its name and its value.
pub open spec fn entry_of(counts: Seq<u64>, i: int) -> Seq<char> {
    litmus::counter_name_of(i) + seq!['='] + text::decimal(counts[i] as nat)
}

/// Adding one text at the end adds a comma and the text.
proof fn lemma_joined_push(texts: Seq<Seq<char>>, last: Seq<char>)
    requires
        texts.len() > 0,
    ensures
        joined(texts.push(last)) == joined(texts) + seq![','] + last,
    decreases texts.len(),
{
    let all = texts.push(last);
    assert(all[0] == texts[0]);
    assert(all.drop_first() =~= texts.drop_first().push(last));
    if texts.len() == 1 {
        assert(joined(all.drop_first()) == last);
        assert(joined(texts) == texts[0]);
        assert(joined(all) =~= joined(texts) + seq![','] + last);
    } else {
        lemma_joined_push(texts.drop_first(), last);
        assert(joined(all) =~= joined(texts) + seq![','] + last);
    }
}

/// A snapshot is one entry for each of the ten counters, in their order, with commas between them
/// and nothing else. Each value is shown in full.
pub proof fn law_a_snapshot_is_its_entries(counts: Seq<u64>)
    ensures
        litmus::snapshot_of(counts, 10) == joined(Seq::new(10, |i: int| entry_of(counts, i))),
        forall|i: int|
            0 <= i < 10 ==> text::value_of(#[trigger] text::decimal(counts[i] as nat)) == counts[i],
{
    lemma_snapshot_entries(counts, 10);
    assert forall|i: int| 0 <= i < 10 implies text::value_of(
        #[trigger] text::decimal(counts[i] as nat),
    ) == counts[i] by {
        text::law_decimal_reads_back(counts[i] as nat);
    }
}

proof fn lemma_snapshot_entries(counts: Seq<u64>, n: nat)
    ensures
        litmus::snapshot_of(counts, n) == joined(Seq::new(n, |i: int| entry_of(counts, i))),
    decreases n,
{
    let entries = Seq::new(n, |i: int| entry_of(counts, i));
    reveal_strlit("=");
    reveal_strlit(",");
    assert("="@ =~= seq!['=']);
    assert(","@ =~= seq![',']);
    if n == 0 {
        assert(litmus::snapshot_of(counts, n) =~= joined(entries));
    } else {
        let earlier = Seq::new((n - 1) as nat, |i: int| entry_of(counts, i));
        lemma_snapshot_entries(counts, (n - 1) as nat);
        assert(entries =~= earlier.push(entry_of(counts, n - 1)));
        if n > 1 {
            lemma_joined_push(earlier, entry_of(counts, n - 1));
        }
    }
}

/// A snapshot shows every counter: different counters make different snapshots.
pub proof fn law_a_snapshot_tells_every_counter(a: Seq<u64>, b: Seq<u64>)
    requires
        a.len() == COUNTERS,
        b.len() == COUNTERS,
        litmus::snapshot_of(a, COUNTERS as nat) == litmus::snapshot_of(
            b,
            COUNTERS as nat,
        ),
    ensures
        a == b,
{
    lemma_snapshot_tells(a, b, COUNTERS as nat);
    assert(a =~= b);
}

proof fn lemma_snapshot_tells(a: Seq<u64>, b: Seq<u64>, n: nat)
    requires
        n <= a.len(),
        n <= b.len(),
        litmus::snapshot_of(a, n) == litmus::snapshot_of(b, n),
    ensures
        forall|i: int| 0 <= i < n ==> a[i] == b[i],
    decreases n,
{
    if n > 0 {
        let i = n - 1;
        let name = litmus::counter_name_of(i);
        let da = text::decimal(a[i] as nat);
        let db = text::decimal(b[i] as nat);
        let sa = litmus::snapshot_of(a, i as nat);
        let sb = litmus::snapshot_of(b, i as nat);
        let (before_a, before_b) = if i == 0 {
            (name, name)
        } else {
            (sa + ","@ + name, sb + ","@ + name)
        };
        reveal_strlit("=");
        reveal_strlit(",");
        assert("="@ =~= seq!['=']);
        assert(litmus::snapshot_of(a, n) =~= before_a + seq!['='] + da);
        assert(litmus::snapshot_of(b, n) =~= before_b + seq!['='] + db);
        text::lemma_decimal_digits(a[i] as nat);
        text::lemma_decimal_digits(b[i] as nat);
        text::lemma_split_at_last(before_a, da, before_b, db, '=');
        text::law_decimal_is_injective(a[i] as nat, b[i] as nat);
        if i > 0 {
            assert(sa =~= before_a.take(before_a.len() - name.len() - 1));
            assert(sb =~= before_b.take(before_b.len() - name.len() - 1));
            lemma_snapshot_tells(a, b, i as nat);
        }
    }
}

/// Every wait is bounded: from the limit on, a waiter is done or fails, and a failure shows the
/// message.
pub proof fn law_every_wait_is_bounded(w: Wait, ready: bool, waited: int, message: Seq<char>)
    requires
        litmus::is_verdict(w, ready, waited, message),
        waited >= WAIT_LIMIT_NANOS,
    ensures
        w !is Pending,
        w is TimedOut <==> !ready,
        w matches Wait::TimedOut(text) ==> text@ == message,
{
}

} // verus!
