//! What holds of the rendezvous seam over every sequence of operations.

use vstd::prelude::*;

use crate::strategy::test_ctl;
use crate::strategy::test_ctl::{Phase, SeamView, Window};
use crate::text;

verus! {

/// One operation on the seam, by whichever thread.
pub enum SeamEvent {
    /// `arm`
    Arm(usize, Window),
    /// `maybe_pause`
    Pause(usize, Window),
    /// `release`
    Release,
    /// `try_resume`
    Resume,
}

/// The seam after one operation, as the contract of the operation says.
pub open spec fn seam_after(v: SeamView, event: SeamEvent) -> SeamView {
    match event {
        SeamEvent::Arm(storage_addr, window) => if v.phase is Disarmed {
            SeamView::keyed(storage_addr, window)
        } else {
            v.at(Phase::Disarmed)
        },
        SeamEvent::Pause(storage_addr, window) => if v.armed_for(storage_addr, window) {
            v.at(Phase::Entered)
        } else {
            v
        },
        SeamEvent::Release => v.at(Phase::Released),
        SeamEvent::Resume => if v.phase is Released {
            v.at(Phase::Disarmed)
        } else {
            v
        },
    }
}

/// The operation parks the thread that performs it.
pub open spec fn parks(v: SeamView, event: SeamEvent) -> bool {
    event matches SeamEvent::Pause(storage_addr, window) && v.armed_for(storage_addr, window)
}

/// The operation lets a parked thread go on.
pub open spec fn resumes(v: SeamView, event: SeamEvent) -> bool {
    event is Resume && v.phase is Released
}

/// The operation arms the seam.
pub open spec fn arms(v: SeamView, event: SeamEvent) -> bool {
    event is Arm && v.phase is Disarmed
}

/// The operation is not reported as a mistake of the harness.
pub open spec fn in_order(v: SeamView, event: SeamEvent) -> bool {
    match event {
        SeamEvent::Arm(_, _) => v.phase is Disarmed,
        SeamEvent::Release => v.phase is Entered,
        _ => true,
    }
}

/// The seam after a sequence of operations.
pub open spec fn seam_run(v: SeamView, trace: Seq<SeamEvent>) -> SeamView
    decreases trace.len(),
{
    if trace.len() == 0 {
        v
    } else {
        seam_after(seam_run(v, trace.drop_last()), trace.last())
    }
}

/// How many operations of a sequence have a property, each taken in the state it meets.
pub open spec fn tally(
    v: SeamView,
    trace: Seq<SeamEvent>,
    property: spec_fn(SeamView, SeamEvent) -> bool,
) -> nat
    decreases trace.len(),
{
    if trace.len() == 0 {
        0
    } else {
        tally(v, trace.drop_last(), property) + (if property(
            seam_run(v, trace.drop_last()),
            trace.last(),
        ) {
            1nat
        } else {
            0nat
        })
    }
}

/// The number of threads that parked.
pub open spec fn parkings(v: SeamView, trace: Seq<SeamEvent>) -> nat {
    tally(v, trace, |s: SeamView, e: SeamEvent| parks(s, e))
}

/// The number of parked threads that went on.
pub open spec fn resumptions(v: SeamView, trace: Seq<SeamEvent>) -> nat {
    tally(v, trace, |s: SeamView, e: SeamEvent| resumes(s, e))
}

/// The number of times the seam was armed.
pub open spec fn armings(v: SeamView, trace: Seq<SeamEvent>) -> nat {
    tally(v, trace, |s: SeamView, e: SeamEvent| arms(s, e))
}

/// No operation of a sequence is reported as a mistake of the harness.
pub open spec fn conducted(v: SeamView, trace: Seq<SeamEvent>) -> bool
    decreases trace.len(),
{
    trace.len() == 0 || {
        &&& conducted(v, trace.drop_last())
        &&& in_order(seam_run(v, trace.drop_last()), trace.last())
    }
}

/// The number by which the seam knows a window tells windows apart, and is never that of an
/// unarmed seam.
pub proof fn law_window_codes_are_distinct(a: Window, b: Window)
    ensures
        a.code_of() == b.code_of() <==> a == b,
        a.code_of() != 0,
{
}

/// The number by which diagnostics show a phase tells phases apart.
pub proof fn law_phase_codes_are_distinct(a: Phase, b: Phase)
    ensures
        a.code_of() == b.code_of() <==> a == b,
{
}

/// A release is a mistake exactly if no reader is parked. Also then the seam is left released with
/// its key untouched, and the diagnostic tells which of the three other phases was found.
pub proof fn law_a_release_without_a_reader_is_reported(v: SeamView)
    ensures
        in_order(v, SeamEvent::Release) <==> v.phase is Entered,
        seam_after(v, SeamEvent::Release) == v.at(Phase::Released),
        !in_order(v, SeamEvent::Release) ==> {
            &&& v.phase.code_of() == 0 || v.phase.code_of() == 1 || v.phase.code_of() == 3
            &&& forall|other: Phase|
                #[trigger] test_ctl::release_message(other) == test_ctl::release_message(v.phase)
                    ==> other == v.phase
        },
{
    assert forall|other: Phase|
        #[trigger] test_ctl::release_message(other) == test_ctl::release_message(v.phase)
        implies other == v.phase by {
        let start = "litmus seam released without a parked reader (state "@;
        let a = text::decimal(other.code_of() as nat);
        let b = text::decimal(v.phase.code_of() as nat);
        let end = ")"@;
        assert(a =~= test_ctl::release_message(other).subrange(
            start.len() as int,
            test_ctl::release_message(other).len() - end.len(),
        ));
        assert(b =~= test_ctl::release_message(v.phase).subrange(
            start.len() as int,
            test_ctl::release_message(v.phase).len() - end.len(),
        ));
        text::law_decimal_is_injective(
            other.code_of() as nat,
            v.phase.code_of() as nat,
        );
    }
}

/// The rendezvous runs its four phases: an armed seam parks the matching reader, the parked reader
/// is seen, the release is in order, the reader goes on and the seam is disarmed again.
pub proof fn law_a_rendezvous_completes(v: SeamView, storage_addr: usize, window: Window)
    requires
        v.phase is Disarmed,
    ensures
        ({
            let armed = seam_after(v, SeamEvent::Arm(storage_addr, window));
            let entered = seam_after(armed, SeamEvent::Pause(storage_addr, window));
            let released = seam_after(entered, SeamEvent::Release);
            let done = seam_after(released, SeamEvent::Resume);
            &&& in_order(v, SeamEvent::Arm(storage_addr, window))
            &&& armed.armed_for(storage_addr, window)
            &&& parks(armed, SeamEvent::Pause(storage_addr, window))
            &&& entered.phase is Entered
            &&& !resumes(entered, SeamEvent::Resume)
            &&& in_order(entered, SeamEvent::Release)
            &&& resumes(released, SeamEvent::Resume)
            &&& done.phase is Disarmed
        }),
{
}

/// Each arming parks at most one reader, whatever the harness and the readers do.
pub proof fn law_each_arming_parks_at_most_one(v: SeamView, trace: Seq<SeamEvent>)
    ensures
        parkings(v, trace) <= armings(v, trace) + (if v.phase is Armed {
            1nat
        } else {
            0nat
        }),
{
    lemma_parkings_budget(v, trace);
}

proof fn lemma_parkings_budget(v: SeamView, trace: Seq<SeamEvent>)
    ensures
        parkings(v, trace) + (if seam_run(v, trace).phase is Armed {
            1nat
        } else {
            0nat
        }) <= armings(v, trace) + (if v.phase is Armed {
            1nat
        } else {
            0nat
        }),
    decreases trace.len(),
{
    if trace.len() > 0 {
        lemma_parkings_budget(v, trace.drop_last());
    }
}

/// Exactly one call with the armed key goes from armed to entered and parks: while the harness
/// makes no mistake and does not arm again, the first such call parks and no other one does; until
/// there is one, the seam stays as it is.
pub proof fn law_exactly_one_matching_call_parks(
    v: SeamView,
    storage_addr: usize,
    window: Window,
    trace: Seq<SeamEvent>,
)
    requires
        v.armed_for(storage_addr, window),
        conducted(v, trace),
        forall|k: int| 0 <= k < trace.len() ==> (#[trigger] trace[k]) !is Arm,
    ensures
        trace.contains(SeamEvent::Pause(storage_addr, window)) ==> {
            &&& parkings(v, trace) == 1
            &&& seam_run(v, trace).phase !is Armed
        },
        !trace.contains(SeamEvent::Pause(storage_addr, window)) ==> {
            &&& parkings(v, trace) == 0
            &&& seam_run(v, trace) == v
        },
    decreases trace.len(),
{
    let matching = SeamEvent::Pause(storage_addr, window);
    if trace.len() > 0 {
        let earlier = trace.drop_last();
        let last = trace.len() - 1;
        law_exactly_one_matching_call_parks(v, storage_addr, window, earlier);
        assert(trace[last] == trace.last());
        if earlier.contains(matching) {
            let k = choose|k: int| 0 <= k < earlier.len() && earlier[k] == matching;
            assert(trace[k] == matching);
        } else if trace.last() != matching {
            assert forall|k: int| 0 <= k < trace.len() implies trace[k] != matching by {
                if k < last {
                    assert(earlier[k] == trace[k]);
                }
            }
            if let SeamEvent::Pause(_, other) = trace.last() {
                law_window_codes_are_distinct(window, other);
            }
        }
    }
}

/// While the harness makes no mistake, a reader is parked exactly while the seam is entered or
/// released, and it is only one.
pub proof fn law_at_most_one_reader_is_parked(v: SeamView, trace: Seq<SeamEvent>)
    requires
        v.phase is Disarmed,
        conducted(v, trace),
    ensures
        parkings(v, trace) == resumptions(v, trace) + (match seam_run(v, trace).phase {
            Phase::Entered | Phase::Released => 1nat,
            _ => 0nat,
        }),
    decreases trace.len(),
{
    if trace.len() > 0 {
        law_at_most_one_reader_is_parked(v, trace.drop_last());
    }
}

/// Only the exact storage and window pause: a seam armed for one key stays armed for it through
/// any number of calls with other keys, none of which parks.
pub proof fn law_other_keys_never_pause(
    v: SeamView,
    storage_addr: usize,
    window: Window,
    trace: Seq<SeamEvent>,
)
    requires
        v.armed_for(storage_addr, window),
        forall|k: int|
            0 <= k < trace.len() ==> (#[trigger] trace[k] matches SeamEvent::Pause(a, w) && (a
                != storage_addr || w != window)),
    ensures
        seam_run(v, trace) == v,
        parkings(v, trace) == 0,
    decreases trace.len(),
{
    if trace.len() > 0 {
        law_other_keys_never_pause(v, storage_addr, window, trace.drop_last());
        law_window_codes_are_distinct(window, trace.last()->Pause_1);
    }
}

/// Once a reader is parked, nobody else ever parks before the seam is armed again: the loads that
/// the writer runs while it pays debts go on at once, before and after the release.
pub proof fn law_nested_loads_never_block(v: SeamView, trace: Seq<SeamEvent>)
    requires
        !(v.phase is Armed),
        forall|k: int| 0 <= k < trace.len() ==> !(#[trigger] trace[k] is Arm),
    ensures
        !(seam_run(v, trace).phase is Armed),
        parkings(v, trace) == 0,
    decreases trace.len(),
{
    if trace.len() > 0 {
        law_nested_loads_never_block(v, trace.drop_last());
    }
}

/// A parked reader stays parked until the release.
pub proof fn law_a_parked_reader_waits_for_the_release(v: SeamView, trace: Seq<SeamEvent>)
    requires
        v.phase is Entered,
        forall|k: int|
            0 <= k < trace.len() ==> (#[trigger] trace[k] is Pause || trace[k] is Resume),
    ensures
        seam_run(v, trace) == v,
        resumptions(v, trace) == 0,
    decreases trace.len(),
{
    if trace.len() > 0 {
        law_a_parked_reader_waits_for_the_release(v, trace.drop_last());
    }
}

} // verus!
