//! Session-level guarantees of the submission pipeline, proved over
//! whole runs of the state machine.
//!
//! A run is any sequence of states the machine can pass through: each
//! step is allowed by [`next`], and every state is well formed — which
//! is exactly what [`Pipeline::on_event`] guarantees to its driver.

use vstd::prelude::*;

use crate::consolidate::groups_v;
use crate::pipeline::{
    next, pending_sources, Action, Event, Phase, Pipeline,
};
use crate::types::{refs_v, sources_of, OutputModel, RefModel};

verus! {

/// A run of the machine: consecutive states related by [`next`], each
/// state well formed.
pub open spec fn wf_run(states: Seq<Pipeline>, events: Seq<Event>, actions: Seq<Action>) -> bool {
    &&& states.len() == events.len() + 1
    &&& actions.len() == events.len()
    &&& forall|i: int|
        0 <= i < events.len() ==> #[trigger] next(states[i], events[i], states[i + 1], actions[i])
    &&& forall|i: int| 0 <= i < states.len() ==> (#[trigger] states[i]).wf()
}

/// Whether standing in this phase presupposes a successful
/// authorization.
pub open spec fn authorized_phase(p: Phase) -> bool {
    match p {
        Phase::Idle => false,
        Phase::AwaitingAuth { .. } => false,
        _ => true,
    }
}

/// The step at position `i` of a run is a `next` step.
pub proof fn lemma_run_step(states: Seq<Pipeline>, events: Seq<Event>, actions: Seq<Action>, i: int)
    requires
        wf_run(states, events, actions),
        0 <= i < events.len(),
    ensures
        next(states[i], events[i], states[i + 1], actions[i]),
{
}

/// One step never shrinks the spent-input set: the old record stands
/// unchanged in front of whatever the step commits.
pub proof fn lemma_step_spent_monotone(pre: Pipeline, e: Event, post: Pipeline, a: Action)
    requires
        next(pre, e, post, a),
    ensures
        pre.spent_refs().is_prefix_of(post.spent_refs()),
{
    assert(pre.spent_refs().is_prefix_of(pre.spent_refs())) by {
        assert(pre.spent_refs() =~= pre.spent_refs().take(pre.spent_refs().len() as int));
    }
    if post.spent_refs() != pre.spent_refs() {
        assert(pre.spent_refs().is_prefix_of(post.spent_refs())) by {
            assert(post.spent_refs().take(pre.spent_refs().len() as int) =~= pre.spent_refs());
        }
    }
}

/// Across a run the spent-input set only ever grows.
pub proof fn lemma_run_spent_monotone(
    states: Seq<Pipeline>,
    events: Seq<Event>,
    actions: Seq<Action>,
    i: int,
    m: int,
)
    requires
        wf_run(states, events, actions),
        0 <= i <= m < states.len(),
    ensures
        states[i].spent_refs().is_prefix_of(states[m].spent_refs()),
    decreases m - i,
{
    if i == m {
        assert(states[i].spent_refs() =~= states[i].spent_refs().take(
            states[i].spent_refs().len() as int,
        ));
    } else {
        lemma_run_spent_monotone(states, events, actions, i, m - 1);
        lemma_run_step(states, events, actions, m - 1);
        lemma_step_spent_monotone(states[m - 1], events[m - 1], states[m], actions[m - 1]);
        let a = states[i].spent_refs();
        let b = states[m - 1].spent_refs();
        let c = states[m].spent_refs();
        assert(a.is_prefix_of(c)) by {
            assert(c.take(a.len() as int) =~= a);
        }
    }
}

/// Every build request the machine ever issues excludes at least
/// everything committed as spent when the request is made.
pub proof fn lemma_build_excludes_spent(pre: Pipeline, e: Event, post: Pipeline, a: Action)
    requires
        next(pre, e, post, a),
        a is Build,
    ensures
        pre.spent_refs().is_prefix_of(refs_v((a->Build_exclude)@)),
{
    let ex = refs_v((a->Build_exclude)@);
    assert(pre.spent_refs().is_prefix_of(ex)) by {
        assert(ex.take(pre.spent_refs().len() as int) =~= pre.spent_refs());
    }
}

/// Authorization history: a run that starts outside the authorized
/// phases only reaches one by way of the prompt answering `true`.
pub proof fn lemma_authorized_needs_grant(
    states: Seq<Pipeline>,
    events: Seq<Event>,
    actions: Seq<Action>,
    i: int,
)
    requires
        wf_run(states, events, actions),
        !authorized_phase(states[0].phase()),
        0 <= i < states.len(),
        authorized_phase(states[i].phase()),
    ensures
        exists|j: int|
            0 <= j < i && #[trigger] events[j] == (Event::AuthResolved { accepted: true }),
    decreases i,
{
    assert(i > 0);
    if authorized_phase(states[i - 1].phase()) {
        lemma_authorized_needs_grant(states, events, actions, i - 1);
        let j = choose|j: int|
            0 <= j < i - 1 && #[trigger] events[j] == (Event::AuthResolved { accepted: true });
        assert(events[j] == (Event::AuthResolved { accepted: true }));
    } else {
        // The step from i-1 enters an authorized phase; only the
        // answer `true` does that.
        lemma_run_step(states, events, actions, i - 1);
        assert(events[i - 1] == (Event::AuthResolved { accepted: true }));
    }
}

/// Law: the machine never asks the driver to submit a transaction
/// before an authorization request has resolved `true` in the same run.
pub proof fn lemma_no_submit_before_grant(
    states: Seq<Pipeline>,
    events: Seq<Event>,
    actions: Seq<Action>,
    i: int,
)
    requires
        wf_run(states, events, actions),
        !authorized_phase(states[0].phase()),
        0 <= i < actions.len(),
        actions[i] is Submit,
    ensures
        exists|j: int|
            0 <= j <= i && #[trigger] events[j] == (Event::AuthResolved { accepted: true }),
{
    lemma_run_step(states, events, actions, i);
    assert(authorized_phase(states[i].phase()));
    lemma_authorized_needs_grant(states, events, actions, i);
    let j = choose|j: int|
        0 <= j < i && #[trigger] events[j] == (Event::AuthResolved { accepted: true });
    assert(events[j] == (Event::AuthResolved { accepted: true }));
}

/// Law: when a submission is accepted, its inputs are committed exactly
/// once — none of them was recorded before, afterwards each is recorded
/// once — and every build request made later in the run excludes them,
/// so the builder is never offered them again.
pub proof fn lemma_commit_exactly_once(
    states: Seq<Pipeline>,
    events: Seq<Event>,
    actions: Seq<Action>,
    i: int,
    committed: Seq<RefModel>,
)
    requires
        wf_run(states, events, actions),
        0 <= i < events.len(),
        states[i].phase() is Submitting,
        committed == refs_v((states[i].phase()->Submitting_inputs)@),
        events[i] is SubmitDone,
        (events[i]->SubmitDone_result) is Ok,
    ensures
        states[i + 1].spent_refs() == states[i].spent_refs() + committed,
        forall|r: RefModel| committed.contains(r) ==> !states[i].spent_refs().contains(r),
        states[i + 1].spent_refs().no_duplicates(),
        forall|m: int, r: RefModel|
            i < m < actions.len() && (#[trigger] actions[m]) is Build && #[trigger] committed.contains(
                r,
            ) ==> refs_v((actions[m]->Build_exclude)@).contains(r),
{
    lemma_run_step(states, events, actions, i);
    let spent0 = states[i].spent_refs();
    let whole = spent0 + committed;
    assert(whole.no_duplicates());
    assert forall|r: RefModel| committed.contains(r) implies !spent0.contains(r) by {
        if spent0.contains(r) && committed.contains(r) {
            let x = choose|x: int| 0 <= x < spent0.len() && spent0[x] == r;
            let y = choose|y: int| 0 <= y < committed.len() && committed[y] == r;
            assert(whole[x] == whole[spent0.len() + y]);
        }
    }
    assert forall|m: int, r: RefModel|
        i < m < actions.len() && (#[trigger] actions[m]) is Build && #[trigger] committed.contains(
            r,
        ) implies refs_v((actions[m]->Build_exclude)@).contains(r) by {
        lemma_run_step(states, events, actions, m);
        lemma_build_excludes_spent(states[m], events[m], states[m + 1], actions[m]);
        lemma_run_spent_monotone(states, events, actions, i + 1, m);
        let y = choose|y: int| 0 <= y < committed.len() && committed[y] == r;
        let p = spent0.len() + y;
        assert(states[i + 1].spent_refs()[p] == r);
        let mid = states[m].spent_refs();
        assert(mid.take(states[i + 1].spent_refs().len() as int) =~= states[i + 1].spent_refs());
        assert(mid[p] == r);
        let ex = refs_v((actions[m]->Build_exclude)@);
        assert(ex.take(mid.len() as int) =~= mid);
        assert(ex[p] == r);
        assert(ex.contains(r));
    }
}

/// Whether the machine stands inside a consolidation pass.
pub open spec fn in_consolidation(p: Phase) -> bool {
    match p {
        Phase::ConsolidationBuilding { .. } => true,
        Phase::ConsolidationPow { .. } => true,
        Phase::ConsolidationSubmitting { .. } => true,
        _ => false,
    }
}

/// The groups of the consolidation pass this phase stands in.
pub open spec fn cons_groups(p: Phase) -> Seq<Seq<OutputModel>> {
    match p {
        Phase::ConsolidationBuilding { groups, .. } => groups_v(groups@),
        Phase::ConsolidationPow { groups, .. } => groups_v(groups@),
        Phase::ConsolidationSubmitting { groups, .. } => groups_v(groups@),
        _ => Seq::empty(),
    }
}

/// The group the consolidation pass works on in this phase.
pub open spec fn cons_k(p: Phase) -> int {
    match p {
        Phase::ConsolidationBuilding { k, .. } => k as int,
        Phase::ConsolidationPow { k, .. } => k as int,
        Phase::ConsolidationSubmitting { k, .. } => k as int,
        _ => 0,
    }
}

/// Conservation across a consolidation pass: as long as the pass runs,
/// the groups never change, the group counter never goes back, and the
/// spent set holds exactly what it held at the start plus the sources
/// of every group merged so far — committed in order, group by group.
pub proof fn lemma_consolidation_conservation(
    states: Seq<Pipeline>,
    events: Seq<Event>,
    actions: Seq<Action>,
    i: int,
    m: int,
)
    requires
        wf_run(states, events, actions),
        0 <= i <= m < states.len(),
        forall|l: int| i <= l <= m ==> in_consolidation((#[trigger] states[l]).phase()),
    ensures
        cons_groups(states[m].phase()) == cons_groups(states[i].phase()),
        cons_k(states[i].phase()) <= cons_k(states[m].phase()),
        states[m].spent_refs() + pending_sources(
            cons_groups(states[m].phase()),
            cons_k(states[m].phase()),
        ) == states[i].spent_refs() + pending_sources(
            cons_groups(states[i].phase()),
            cons_k(states[i].phase()),
        ),
    decreases m - i,
{
    if i < m {
        lemma_consolidation_conservation(states, events, actions, i, m - 1);
        lemma_run_step(states, events, actions, m - 1);
        let pre = states[m - 1];
        let post = states[m];
        let groups = cons_groups(pre.phase());
        let k = cons_k(pre.phase());
        assert(in_consolidation(pre.phase()));
        assert(in_consolidation(post.phase()));
        match pre.phase() {
            Phase::ConsolidationBuilding { .. } => {
                assert(cons_groups(post.phase()) == groups && cons_k(post.phase()) == k
                    && post.spent_refs() == pre.spent_refs());
            },
            Phase::ConsolidationPow { .. } => {
                assert(cons_groups(post.phase()) == groups && cons_k(post.phase()) == k
                    && post.spent_refs() == pre.spent_refs());
            },
            Phase::ConsolidationSubmitting { .. } => {
                // A refused submission leaves the pass, so this step
                // merged group k: its sources moved from the waiting
                // side to the spent side.
                assert(cons_groups(post.phase()) == groups && cons_k(post.phase()) == k + 1
                    && post.spent_refs() == pre.spent_refs() + sources_of(groups[k]));
                crate::pipeline::lemma_pending_sources_step(groups, k);
                assert(post.spent_refs() + pending_sources(groups, k + 1) =~= pre.spent_refs()
                    + pending_sources(groups, k));
            },
            _ => {
                assert(false);
            },
        }
    }
}

/// Law: when the node refuses a consolidation self-payment, nothing
/// further is committed — the groups already merged stay recorded, and
/// neither the failing group nor any later one has touched the spent
/// set, so a future pass may still use them.
pub proof fn lemma_consolidation_failure_leaves_rest(
    pre: Pipeline,
    e: Event,
    post: Pipeline,
    a: Action,
)
    requires
        pre.wf(),
        next(pre, e, post, a),
        pre.phase() is ConsolidationSubmitting,
        e is SubmitDone,
        (e->SubmitDone_result) is Err,
    ensures
        post.spent_refs() == pre.spent_refs(),
        a matches Action::Finish { outcome } && outcome
            matches crate::types::SendOutcome::ConsolidationFailed { succeeded, error: _ }
            && succeeded == cons_k(pre.phase()),
        forall|j: int, r: RefModel|
            cons_k(pre.phase()) <= j < cons_groups(pre.phase()).len() && #[trigger] sources_of(
                cons_groups(pre.phase())[j],
            ).contains(r) ==> !post.spent_refs().contains(r),
{
    let groups = cons_groups(pre.phase());
    let k = cons_k(pre.phase());
    assert forall|j: int, r: RefModel|
        k <= j < groups.len() && #[trigger] sources_of(groups[j]).contains(r) implies !post
            .spent_refs().contains(r) by {
        lemma_pending_contains(groups, k, j, r);
        if post.spent_refs().contains(r) {
            let x = choose|x: int| 0 <= x < pre.spent_refs().len() && pre.spent_refs()[x] == r;
            let y = choose|y: int|
                0 <= y < pending_sources(groups, k).len() && pending_sources(groups, k)[y] == r;
            let whole = pre.spent_refs() + pending_sources(groups, k);
            assert(whole[x] == whole[pre.spent_refs().len() + y]);
            assert(!whole.no_duplicates());
        }
    }
}

/// A reference consumed by any group still waiting occurs among the
/// waiting sources.
proof fn lemma_pending_contains(groups: Seq<Seq<OutputModel>>, k: int, j: int, r: RefModel)
    requires
        0 <= k <= j < groups.len(),
        sources_of(groups[j]).contains(r),
    ensures
        pending_sources(groups, k).contains(r),
    decreases j - k,
{
    crate::pipeline::lemma_pending_sources_step(groups, k);
    if k == j {
        let y = choose|y: int|
            0 <= y < sources_of(groups[j]).len() && sources_of(groups[j])[y] == r;
        assert((sources_of(groups[k]) + pending_sources(groups, k + 1))[y] == r);
        assert(pending_sources(groups, k).contains(r)) by {
            assert(pending_sources(groups, k)[y] == r);
        }
    } else {
        lemma_pending_contains(groups, k + 1, j, r);
        let y = choose|y: int|
            0 <= y < pending_sources(groups, k + 1).len() && #[trigger] pending_sources(
                groups,
                k + 1,
            )[y] == r;
        assert(pending_sources(groups, k)[sources_of(groups[k]).len() + y] == r);
        assert(pending_sources(groups, k).contains(r));
    }
}

} // verus!
