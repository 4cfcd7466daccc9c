//! Deterministic-interleaving probes for the debt and helping protocol.
//!
//! The probes are two things:
//!
//! * A fixed set of counters that record *which* provenance branch a load, a compare-and-swap or a
//!   guard drop actually took. Counters make otherwise invisible linearization choices observable.
//! * One-shot checkpoints: named rendez-vous points inside the reader and writer critical sections.
//!   A driver arms a checkpoint, lets a thread run until it parks there, moves the other threads,
//!   and then releases it.
//!
//! [`Probes`] is the whole state, and every operation on it is one indivisible step. Threads share
//! it behind a lock. Waiting is not done here: [`checkpoint_wait`] and [`wait_fired`] say for one
//! observation whether a waiter may go on, has to look again, or has waited for too long and must
//! fail with a message that names the checkpoint and shows every counter.

use vstd::prelude::*;
use vstd::string::*;

use crate::text;

verus! {

/// Fast slot confirmed: both storage reads matched and the debt is live.
pub const FAST_CONFIRMED: usize = 0;

/// Fast confirm lost the race; the slot had already been paid by a writer.
pub const FAST_ALREADY_PAID: usize = 1;

/// Helping fallback confirmed the reader's own candidate debt.
pub const FALLBACK_CONFIRMED: usize = 2;

/// Helping fallback was handed a writer-protected replacement.
pub const FALLBACK_UPGRADED: usize = 3;

/// A writer paid one debt slot while it paid all debts on a pointer.
pub const PAY_SLOT: usize = 4;

/// A writer completed a reader's half-published helping reservation.
pub const HELP_SUCCESS: usize = 5;

/// Guard drop returned a live debt to its slot.
pub const GUARD_DROP_DEBT_PAID: usize = 6;

/// Guard drop found its debt pre-paid and gave up the owned reference.
pub const GUARD_DROP_ALREADY_PAID: usize = 7;

/// `into_inner` cancelled a live debt with the speculative increment.
pub const INTO_INNER_DEBT_PAID: usize = 8;

/// `into_inner` found the debt pre-paid and rolled the increment back.
pub const INTO_INNER_ALREADY_PAID: usize = 9;

/// How many counters there are.
pub const COUNTERS: usize = 10;

/// Reader parked right after claiming a fast slot, before the confirming load.
pub const CP_FAST_CLAIMED: usize = 0;

/// Reader parked immediately before the second (confirming) storage load on the fast path.
pub const CP_FAST_CONFIRM: usize = 1;

/// Reader parked after publishing the helping generation, before loading the candidate.
pub const CP_FALLBACK_GEN: usize = 2;

/// Reader parked after the candidate load, before confirming the helping transaction.
pub const CP_FALLBACK_CANDIDATE: usize = 3;

/// Reader parked at the helping confirm attempt itself.
pub const CP_FALLBACK_CONFIRM: usize = 4;

/// Guard parked at entry to `into_inner`, before the speculative increment and debt pay-back.
pub const CP_INTO_INNER: usize = 5;

/// How many checkpoints there are.
pub const CHECKPOINTS: usize = 6;

/// A waiter that has waited this long, in nanoseconds, gives up (fifteen seconds).
pub const WAIT_LIMIT_NANOS: u128 = 15_000_000_000;

/// The counters and checkpoints of one audit.
#[derive(Debug)]
pub struct Probes {
    counts: [u64; COUNTERS],
    armed: [bool; CHECKPOINTS],
    fired: [bool; CHECKPOINTS],
}

/// What [`Probes`] holds: the value of each counter, and for each checkpoint whether it is armed
/// and whether an arrival has already consumed the arming.
#[verifier::ext_equal]
pub struct ProbesView {
    pub counts: Seq<u64>,
    pub armed: Seq<bool>,
    pub fired: Seq<bool>,
}

impl View for Probes {
    type V = ProbesView;

    closed spec fn view(&self) -> ProbesView {
        ProbesView { counts: self.counts@, armed: self.armed@, fired: self.fired@ }
    }
}

impl ProbesView {
    /// There is one entry per counter and per checkpoint.
    pub open spec fn wf(self) -> bool {
        &&& self.counts.len() == COUNTERS
        &&& self.armed.len() == CHECKPOINTS
        &&& self.fired.len() == CHECKPOINTS
    }

    /// Every counter at zero, no checkpoint armed, none fired.
    pub open spec fn pristine() -> ProbesView {
        ProbesView {
            counts: Seq::new(COUNTERS as nat, |i: int| 0u64),
            armed: Seq::new(CHECKPOINTS as nat, |i: int| false),
            fired: Seq::new(CHECKPOINTS as nat, |i: int| false),
        }
    }

    /// Counter `idx` has seen one more event.
    pub open spec fn counted(self, idx: int) -> ProbesView {
        ProbesView { counts: self.counts.update(idx, next_count(self.counts[idx])), ..self }
    }

    /// The next arrival at checkpoint `idx` parks.
    pub open spec fn parks(self, idx: int) -> bool {
        self.armed[idx] && !self.fired[idx]
    }

    /// A thread has arrived at checkpoint `idx`.
    pub open spec fn arrived(self, idx: int) -> ProbesView {
        if self.parks(idx) {
            ProbesView { fired: self.fired.update(idx, true), ..self }
        } else {
            self
        }
    }

    /// Checkpoint `idx` waits for its first arrival.
    pub open spec fn with_armed(self, idx: int) -> ProbesView {
        ProbesView {
            fired: self.fired.update(idx, false),
            armed: self.armed.update(idx, true),
            ..self
        }
    }

    /// Checkpoint `idx` holds nobody.
    pub open spec fn with_released(self, idx: int) -> ProbesView {
        ProbesView { armed: self.armed.update(idx, false), ..self }
    }
}

/// The value of a counter after one more event: counters wrap around.
pub open spec fn next_count(n: u64) -> u64 {
    if n == u64::MAX {
        0
    } else {
        (n + 1) as u64
    }
}

/// What a thread does on arriving at a checkpoint.
#[derive(Clone, Copy, Debug, PartialEq, Eq, Structural)]
pub enum Arrival {
    /// Go on without waiting.
    Pass,
    /// Wait until [`checkpoint_wait`] says `Ready`.
    Park,
}

/// What one observation means for a waiter.
#[derive(Debug, PartialEq, Eq)]
pub enum Wait {
    /// What it waited for has happened.
    Ready,
    /// It has to look again.
    Pending,
    /// It has waited too long and fails with this message.
    TimedOut(String),
}

/// `w` is the verdict on a waiter that has waited for `waited` nanoseconds: `Ready` exactly if
/// `ready`, else `TimedOut` with `message` exactly from the limit on.
pub open spec fn is_verdict(w: Wait, ready: bool, waited: int, message: Seq<char>) -> bool {
    match w {
        Wait::Ready => ready,
        Wait::Pending => !ready && waited < WAIT_LIMIT_NANOS,
        Wait::TimedOut(text) => !ready && waited >= WAIT_LIMIT_NANOS && text@ == message,
    }
}

/// The name of a counter, as diagnostics show it.
pub open spec fn counter_name_of(idx: int) -> Seq<char> {
    if idx == FAST_CONFIRMED {
        "FAST_CONFIRMED"@
    } else if idx == FAST_ALREADY_PAID {
        "FAST_ALREADY_PAID"@
    } else if idx == FALLBACK_CONFIRMED {
        "FALLBACK_CONFIRMED"@
    } else if idx == FALLBACK_UPGRADED {
        "FALLBACK_UPGRADED"@
    } else if idx == PAY_SLOT {
        "PAY_SLOT"@
    } else if idx == HELP_SUCCESS {
        "HELP_SUCCESS"@
    } else if idx == GUARD_DROP_DEBT_PAID {
        "GUARD_DROP_DEBT_PAID"@
    } else if idx == GUARD_DROP_ALREADY_PAID {
        "GUARD_DROP_ALREADY_PAID"@
    } else if idx == INTO_INNER_DEBT_PAID {
        "INTO_INNER_DEBT_PAID"@
    } else {
        "INTO_INNER_ALREADY_PAID"@
    }
}

/// The name of a checkpoint, as diagnostics show it.
pub open spec fn checkpoint_name_of(idx: int) -> Seq<char> {
    if idx == CP_FAST_CLAIMED {
        "CP_FAST_CLAIMED"@
    } else if idx == CP_FAST_CONFIRM {
        "CP_FAST_CONFIRM"@
    } else if idx == CP_FALLBACK_GEN {
        "CP_FALLBACK_GEN"@
    } else if idx == CP_FALLBACK_CANDIDATE {
        "CP_FALLBACK_CANDIDATE"@
    } else if idx == CP_FALLBACK_CONFIRM {
        "CP_FALLBACK_CONFIRM"@
    } else {
        "CP_INTO_INNER"@
    }
}

/// The first `n` counters as `NAME=value`, joined by commas.
pub open spec fn snapshot_of(counts: Seq<u64>, n: nat) -> Seq<char>
    decreases n,
{
    if n == 0 {
        seq![]
    } else {
        let i = n - 1;
        let entry = counter_name_of(i) + "="@ + text::decimal(counts[i] as nat);
        if i == 0 {
            entry
        } else {
            snapshot_of(counts, i as nat) + ","@ + entry
        }
    }
}

/// The message of a thread that was never let go from checkpoint `idx`.
pub open spec fn stuck_message(idx: int, counts: Seq<u64>) -> Seq<char> {
    "litmus checkpoint "@ + checkpoint_name_of(idx) + " stuck while armed; counters = "@
        + snapshot_of(counts, COUNTERS as nat)
}

/// The message of a driver that saw nobody arrive at checkpoint `idx`.
pub open spec fn unreached_message(idx: int, counts: Seq<u64>) -> Seq<char> {
    "litmus timed out waiting for "@ + checkpoint_name_of(idx) + "; counters = "@ + snapshot_of(
        counts,
        COUNTERS as nat,
    )
}

impl Probes {
    /// Probes with every counter at zero and no checkpoint armed.
    pub fn new() -> (probes: Probes)
        ensures
            probes@ == ProbesView::pristine(),
            forall|i: int| 0 <= i < COUNTERS ==> #[trigger] probes@.counts[i] == 0,
            forall|i: int| 0 <= i < CHECKPOINTS ==> !#[trigger] probes@.armed[i],
            forall|i: int| 0 <= i < CHECKPOINTS ==> !#[trigger] probes@.fired[i],
    {
        Probes { counts: [0u64; 10], armed: [false; 6], fired: [false; 6] }
    }

    /// Probes always have one entry per counter and per checkpoint.
    pub broadcast proof fn lemma_wf(&self)
        ensures
            (#[trigger] self@).wf(),
    {
    }
}

/// Adds one to a counter.
pub fn count(probes: &mut Probes, idx: usize)
    requires
        idx < COUNTERS,
    ensures
        final(probes)@ == old(probes)@.counted(idx as int),
        final(probes)@.counts[idx as int] as int == (old(probes)@.counts[idx as int] + 1)
            % 0x1_0000_0000_0000_0000,
        forall|i: int|
            0 <= i < COUNTERS && i != idx ==> #[trigger] final(probes)@.counts[i]
                == old(probes)@.counts[i],
        final(probes)@.armed == old(probes)@.armed,
        final(probes)@.fired == old(probes)@.fired,
{
    let n: u64 = probes.counts[idx].wrapping_add(1);
    probes.counts[idx] = n;
}

/// Called at a named interleaving point.
///
/// Only the first arrival at an armed checkpoint parks; later arrivals pass through until it is
/// armed again. This matters because a writer that pays debts runs a nested load over the very same
/// points: the driver starts the writer only after the reader has parked, so the writer's own
/// arrival finds the arming consumed and goes on.
pub fn checkpoint(probes: &mut Probes, idx: usize) -> (arrival: Arrival)
    requires
        idx < CHECKPOINTS,
    ensures
        arrival == (if old(probes)@.parks(idx as int) {
            Arrival::Park
        } else {
            Arrival::Pass
        }),
        final(probes)@ == old(probes)@.arrived(idx as int),
        arrival is Park <==> old(probes)@.armed[idx as int] && !old(probes)@.fired[idx as int],
        final(probes)@.counts == old(probes)@.counts,
        final(probes)@.armed == old(probes)@.armed,
        final(probes)@.fired == (if arrival is Park {
            old(probes)@.fired.update(idx as int, true)
        } else {
            old(probes)@.fired
        }),
{
    if probes.armed[idx] {
        if !probes.fired[idx] {
            probes.fired[idx] = true;
            return Arrival::Park;
        }
    }
    Arrival::Pass
}

/// What a thread that parked at checkpoint `idx` does next, after `waited` nanoseconds: it goes on
/// once the checkpoint is no longer armed.
pub fn checkpoint_wait(probes: &Probes, idx: usize, waited: u128) -> (wait: Wait)
    requires
        idx < CHECKPOINTS,
    ensures
        is_verdict(
            wait,
            !probes@.armed[idx as int],
            waited as int,
            stuck_message(idx as int, probes@.counts),
        ),
        wait is Ready <==> !probes@.armed[idx as int],
        wait is Pending <==> probes@.armed[idx as int] && waited < 15_000_000_000,
        wait matches Wait::TimedOut(text) ==> text@ == "litmus checkpoint "@ + checkpoint_name_of(
            idx as int,
        ) + " stuck while armed; counters = "@ + snapshot_of(probes@.counts, 10),
{
    if !probes.armed[idx] {
        Wait::Ready
    } else if waited >= WAIT_LIMIT_NANOS {
        let mut text = String::from_str("litmus checkpoint ");
        text.append(checkpoint_name(idx));
        text.append(" stuck while armed; counters = ");
        let counters = snapshot(probes);
        text.append(counters.as_str());
        Wait::TimedOut(text)
    } else {
        Wait::Pending
    }
}

/// Resets every counter and checkpoint, so that leftovers from one scenario can never contaminate
/// the next.
pub fn reset(probes: &mut Probes)
    ensures
        final(probes)@ == ProbesView::pristine(),
        forall|i: int| 0 <= i < COUNTERS ==> #[trigger] final(probes)@.counts[i] == 0,
        forall|i: int| 0 <= i < CHECKPOINTS ==> !#[trigger] final(probes)@.armed[i],
        forall|i: int| 0 <= i < CHECKPOINTS ==> !#[trigger] final(probes)@.fired[i],
{
    *probes = Probes::new();
}

/// Arms a checkpoint before letting the probed thread run.
pub fn arm(probes: &mut Probes, idx: usize)
    requires
        idx < CHECKPOINTS,
    ensures
        final(probes)@ == old(probes)@.with_armed(idx as int),
        final(probes)@.counts == old(probes)@.counts,
        final(probes)@.armed == old(probes)@.armed.update(idx as int, true),
        final(probes)@.fired == old(probes)@.fired.update(idx as int, false),
{
    probes.fired[idx] = false;
    probes.armed[idx] = true;
}

/// Releases a thread parked at a checkpoint.
pub fn release(probes: &mut Probes, idx: usize)
    requires
        idx < CHECKPOINTS,
    ensures
        final(probes)@ == old(probes)@.with_released(idx as int),
        final(probes)@.counts == old(probes)@.counts,
        final(probes)@.armed == old(probes)@.armed.update(idx as int, false),
        final(probes)@.fired == old(probes)@.fired,
{
    probes.armed[idx] = false;
}

/// What a driver that waits for a thread to reach checkpoint `idx` does next, after `waited`
/// nanoseconds.
pub fn wait_fired(probes: &Probes, idx: usize, waited: u128) -> (wait: Wait)
    requires
        idx < CHECKPOINTS,
    ensures
        is_verdict(
            wait,
            probes@.fired[idx as int],
            waited as int,
            unreached_message(idx as int, probes@.counts),
        ),
        wait is Ready <==> probes@.fired[idx as int],
        wait is Pending <==> !probes@.fired[idx as int] && waited < 15_000_000_000,
        wait matches Wait::TimedOut(text) ==> text@ == "litmus timed out waiting for "@
            + checkpoint_name_of(idx as int) + "; counters = "@ + snapshot_of(probes@.counts, 10),
{
    if probes.fired[idx] {
        Wait::Ready
    } else if waited >= WAIT_LIMIT_NANOS {
        let mut text = String::from_str("litmus timed out waiting for ");
        text.append(checkpoint_name(idx));
        text.append("; counters = ");
        let counters = snapshot(probes);
        text.append(counters.as_str());
        Wait::TimedOut(text)
    } else {
        Wait::Pending
    }
}

/// Reads one counter.
pub fn counter(probes: &Probes, idx: usize) -> (n: u64)
    requires
        idx < COUNTERS,
    ensures
        n == probes@.counts[idx as int],
{
    probes.counts[idx]
}

/// Whether a checkpoint is armed: a thread that parked there may not go on.
pub(crate) fn is_armed(probes: &Probes, idx: usize) -> (armed: bool)
    requires
        idx < CHECKPOINTS,
    ensures
        armed == probes@.armed[idx as int],
{
    probes.armed[idx]
}

/// Every counter as `NAME=value`, joined by commas.
pub fn snapshot(probes: &Probes) -> (text: String)
    ensures
        text@ == snapshot_of(probes@.counts, COUNTERS as nat),
{
    let mut text = String::new();
    let mut i: usize = 0;
    while i < COUNTERS
        invariant
            i <= COUNTERS,
            text@ == snapshot_of(probes@.counts, i as nat),
        decreases COUNTERS - i,
    {
        if i > 0 {
            text.append(",");
        }
        text.append(counter_name(i));
        text.append("=");
        text::append_decimal(&mut text, probes.counts[i]);
        i = i + 1;
        assert(text@ =~= snapshot_of(probes@.counts, i as nat));
    }
    text
}

/// The name of a counter.
fn counter_name(idx: usize) -> (name: &'static str)
    requires
        idx < COUNTERS,
    ensures
        name@ == counter_name_of(idx as int),
{
    match idx {
        FAST_CONFIRMED => "FAST_CONFIRMED",
        FAST_ALREADY_PAID => "FAST_ALREADY_PAID",
        FALLBACK_CONFIRMED => "FALLBACK_CONFIRMED",
        FALLBACK_UPGRADED => "FALLBACK_UPGRADED",
        PAY_SLOT => "PAY_SLOT",
        HELP_SUCCESS => "HELP_SUCCESS",
        GUARD_DROP_DEBT_PAID => "GUARD_DROP_DEBT_PAID",
        GUARD_DROP_ALREADY_PAID => "GUARD_DROP_ALREADY_PAID",
        INTO_INNER_DEBT_PAID => "INTO_INNER_DEBT_PAID",
        _ => "INTO_INNER_ALREADY_PAID",
    }
}

/// The name of a checkpoint.
fn checkpoint_name(idx: usize) -> (name: &'static str)
    requires
        idx < CHECKPOINTS,
    ensures
        name@ == checkpoint_name_of(idx as int),
{
    match idx {
        CP_FAST_CLAIMED => "CP_FAST_CLAIMED",
        CP_FAST_CONFIRM => "CP_FAST_CONFIRM",
        CP_FALLBACK_GEN => "CP_FALLBACK_GEN",
        CP_FALLBACK_CANDIDATE => "CP_FALLBACK_CANDIDATE",
        CP_FALLBACK_CONFIRM => "CP_FALLBACK_CONFIRM",
        _ => "CP_INTO_INNER",
    }
}

} // verus!
