//! Properties of the engine that relate several operations or hold of every
//! state, proved over the models of the net and its transitions.

use vstd::prelude::*;

use crate::marking::{arc_holds, arcs_fit, covers, lemma_firing_keeps_non_negative, non_negative};
use crate::net::{Firing, NetView, Step};
use crate::transition::{FireError, TransitionView};

verus! {

/// Token counts stay non-negative in every reachable marking: a
/// well-formed net (whose marking is non-negative) stays well-formed through
/// any dispatch.
pub proof fn lemma_dispatch_keeps_tokens_non_negative(before: NetView, t: int, after: NetView, r: Result<Firing, FireError>)
    requires
        before.wf(),
        before.fires(t, after, r),
    ensures
        after.wf(),
        non_negative(after.marking),
{
    if 0 <= t < before.transitions.len() && before.transitions[t].enabled(before.marking)
        && covers(before.marking, before.transitions[t].input) {
        let tr = before.transitions[t];
        if tr.duration > 0 {
            assert forall|i: int| 0 <= i < after.transitions.len() implies #[trigger] after.transitions[i].fits(
                after.marking.len()) by {
                assert(before.transitions[i].fits(before.marking.len()));
            }
        } else if r is Ok {
            lemma_firing_keeps_non_negative(before.marking, tr.input, tr.output, after.marking);
            assert forall|i: int| 0 <= i < after.transitions.len() implies #[trigger] after.transitions[i].fits(
                after.marking.len()) by {
                assert(before.transitions[i].fits(before.marking.len()));
            }
        }
    }
}

/// Token counts stay non-negative through every completion of a timed
/// firing.
pub proof fn lemma_completion_keeps_tokens_non_negative(before: NetView, t: int, after: NetView, r: Result<(), FireError>)
    requires
        before.wf(),
        before.completes(t, after, r),
    ensures
        after.wf(),
        non_negative(after.marking),
{
    if 0 <= t < before.transitions.len() && before.transitions[t].processing {
        let tr = before.transitions[t];
        if r is Ok {
            lemma_firing_keeps_non_negative(before.marking, tr.input, tr.output, after.marking);
        }
        assert forall|i: int| 0 <= i < after.transitions.len() implies #[trigger] after.transitions[i].fits(
            after.marking.len()) by {
            assert(before.transitions[i].fits(before.marking.len()));
        }
    }
}

/// Token counts stay non-negative through every pass of the scheduler loop.
pub proof fn lemma_step_keeps_tokens_non_negative(before: NetView, after: NetView, r: Step)
    requires
        before.wf(),
        before.steps(after, r),
    ensures
        after.wf(),
        non_negative(after.marking),
{
    if before.remaining > 0 && before.live() {
        let t = r.chosen()->0 as int;
        let mid = NetView { remaining: before.remaining, ..after };
        match r {
            Step::Fired(_) => {
                lemma_dispatch_keeps_tokens_non_negative(before, t, mid, Ok(Firing::Instant));
                assert(after.marking == mid.marking && after.transitions == mid.transitions);
            },
            Step::Started(_) => {
                lemma_dispatch_keeps_tokens_non_negative(before, t, mid, Ok(Firing::Started));
                assert(after.marking == mid.marking && after.transitions == mid.transitions);
            },
            Step::Rejected(_, e) => {
                lemma_dispatch_keeps_tokens_non_negative(before, t, after, Err(e));
            },
            _ => {},
        }
    }
}

/// A transition whose input arcs are all inhibitory, and which is not in
/// flight, is enabled exactly when every place it reads holds fewer tokens
/// than its arc's threshold; it is disabled as soon as one place reaches
/// its threshold.
pub proof fn lemma_inhibitory_guards(t: TransitionView, m: Seq<i32>)
    requires
        !t.processing,
        arcs_fit(t.input, m.len()),
        forall|k: int| 0 <= k < t.input.len() ==> (#[trigger] t.input[k]).1 < 0,
    ensures
        t.enabled(m) <==> forall|k: int| 0 <= k < t.input.len() ==> (m[(#[trigger] t.input[k]).0 as int] as int) < -(
            t.input[k].1 as int),
        (exists|k: int| 0 <= k < t.input.len() && (m[(#[trigger] t.input[k]).0 as int] as int) >= -(
            t.input[k].1 as int)) ==> !t.enabled(m),
{
    assert forall|k: int| 0 <= k < t.input.len() implies arc_holds(m, #[trigger] t.input[k]) == ((m[t.input[k].0 as int] as int) < -(
        t.input[k].1 as int)) by {
    }
}

/// A transition that is in flight is never chosen by the scheduler loop,
/// whatever the marking; it stays in flight until its completion is reported.
pub proof fn lemma_in_flight_never_chosen(before: NetView, t: int, after: NetView, r: Step)
    requires
        0 <= t < before.transitions.len(),
        before.transitions[t].processing,
        before.steps(after, r),
    ensures
        r.chosen() is None || r.chosen()->0 as int != t,
        after.transitions[t].processing,
{
    if before.remaining > 0 && before.live() {
        let u = r.chosen()->0 as int;
        assert(u != t);
        let mid = NetView { remaining: before.remaining, ..after };
        match r {
            Step::Started(_) => {
                assert(mid.transitions[t] == before.transitions[t]);
            },
            _ => {},
        }
    }
}

/// Evaluating whether a transition is enabled has no effect and depends on
/// the transition and the marking alone: two evaluations with no change in
/// between give the same answer.
pub proof fn lemma_evaluation_is_repeatable(t: TransitionView, m: Seq<i32>, first: bool, second: bool)
    requires
        first == t.enabled(m),
        second == t.enabled(m),
    ensures
        first == second,
{
}

} // verus!
