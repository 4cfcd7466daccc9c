//! What holds of the interleave hooks over every sequence of registrations and reports.

use vstd::prelude::*;

use crate::strategy::test_hooks;
use crate::strategy::test_hooks::HookPoint;

verus! {

/// One operation on the hooks, by whichever thread.
pub enum HookEvent<F> {
    /// `install_hook`
    Install(Option<F>),
    /// `fire`
    Report(HookPoint, usize),
}

/// What is registered after one operation, as the contract of the operation says.
pub open spec fn registered_after<F>(registered: Option<F>, event: HookEvent<F>) -> Option<F> {
    match event {
        HookEvent::Install(hook) => hook,
        HookEvent::Report(_, _) => registered,
    }
}

/// What is registered after a sequence of operations.
pub open spec fn registered_run<F>(registered: Option<F>, trace: Seq<HookEvent<F>>) -> Option<F>
    decreases trace.len(),
{
    if trace.len() == 0 {
        registered
    } else {
        registered_after(registered_run(registered, trace.drop_last()), trace.last())
    }
}

/// The calls that a sequence of operations makes: each with its callback and its arguments.
pub open spec fn calls<F>(registered: Option<F>, trace: Seq<HookEvent<F>>) -> Seq<
    (F, (HookPoint, usize)),
>
    decreases trace.len(),
{
    if trace.len() == 0 {
        seq![]
    } else {
        let before = calls(registered, trace.drop_last());
        match trace.last() {
            HookEvent::Install(_) => before,
            HookEvent::Report(point, storage_addr) => match test_hooks::call_for(
                registered_run(registered, trace.drop_last()),
                point,
                storage_addr,
            ) {
                Some(call) => before.push(call),
                None => before,
            },
        }
    }
}

/// Nothing is registered or cleared in a sequence of operations.
pub open spec fn only_reports<F>(trace: Seq<HookEvent<F>>) -> bool {
    forall|k: int| 0 <= k < trace.len() ==> (#[trigger] trace[k]) is Report
}

/// While a callback stays registered, its calls are exactly the reports, one for one and in order:
/// no point and no address is filtered out, repeated reports are repeated calls, and a report does
/// not unregister it.
pub proof fn law_calls_are_reports_one_for_one<F>(hook: F, trace: Seq<HookEvent<F>>)
    requires
        only_reports(trace),
    ensures
        registered_run(Some(hook), trace) == Some(hook),
        calls(Some(hook), trace).len() == trace.len(),
        forall|k: int|
            0 <= k < trace.len() ==> (#[trigger] calls(Some(hook), trace)[k] == (
                hook,
                (trace[k]->Report_0, trace[k]->Report_1),
            )),
    decreases trace.len(),
{
    if trace.len() > 0 {
        law_calls_are_reports_one_for_one(hook, trace.drop_last());
        assert(trace.last() is Report) by {
            assert(trace[trace.len() - 1] is Report);
        }
    }
}

/// Without a registered callback a report does nothing.
pub proof fn law_nothing_is_called_without_a_callback<F>(trace: Seq<HookEvent<F>>)
    requires
        only_reports(trace),
    ensures
        registered_run(None::<F>, trace) == None::<F>,
        calls(None::<F>, trace).len() == 0,
    decreases trace.len(),
{
    if trace.len() > 0 {
        law_nothing_is_called_without_a_callback(trace.drop_last());
        assert(trace.last() is Report) by {
            assert(trace[trace.len() - 1] is Report);
        }
    }
}

/// After a registration only what it registered counts: what is called from then on does not depend
/// on what was registered before, and nothing is called by registering.
pub proof fn law_a_registration_replaces_the_one_before<F>(
    registered: Option<F>,
    earlier: Seq<HookEvent<F>>,
    hook: Option<F>,
    later: Seq<HookEvent<F>>,
)
    ensures
        registered_run(registered, earlier.push(HookEvent::Install(hook)) + later)
            == registered_run(hook, later),
        calls(registered, earlier.push(HookEvent::Install(hook)) + later) == calls(
            registered,
            earlier,
        ) + calls(hook, later),
    decreases later.len(),
{
    let first = earlier.push(HookEvent::Install(hook));
    let all = first + later;
    if later.len() == 0 {
        assert(all =~= first);
        assert(first.drop_last() =~= earlier);
        assert(calls(registered, all) =~= calls(registered, earlier) + calls(hook, later));
    } else {
        law_a_registration_replaces_the_one_before(registered, earlier, hook, later.drop_last());
        assert(all.drop_last() =~= first + later.drop_last());
        assert(all.last() == later.last());
        assert(calls(registered, all) =~= calls(registered, earlier) + calls(hook, later));
    }
}

} // verus!
