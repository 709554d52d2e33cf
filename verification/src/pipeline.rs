//! The transaction submission pipeline, as a verified state machine.
//!
//! One send attempt runs: validate the recipient form, obtain a PIN
//! confirmation through the authorization gate, have the external
//! builder select inputs, compute proof-of-work, submit, and only then
//! commit the consumed inputs to the session's spent-input set. When the
//! builder reports that the payment would need too many inputs, the
//! machine falls back to consolidation: it fetches the wallet's
//! spendable outputs, drops the ones this session already spent,
//! partitions the rest into bounded groups, and merges each group, in
//! order, with one self-payment transaction.
//!
//! The machine never performs outside work itself: [`Pipeline::on_event`]
//! answers each completed step with the next [`Action`], and the
//! unverified driver performs it — shows the prompt, calls the builder
//! and the network, runs proof-of-work — and reports the result as the
//! next [`Event`]. Every transition is pinned by the relation [`next`],
//! so what the machine may do with the spent-input set, and when it may
//! ask for a submission, is proved rather than promised.

use vstd::prelude::*;

use crate::address::{address_of, valid_address};
use crate::amount::{amount_value, valid_amount};
use crate::consolidate::{
    chunk_count, chunk_of, fresh_outputs, fresh_outputs_spec, groups_v, is_chunking,
    lemma_fresh_outputs_props, lemma_fresh_sum_le, lemma_no_dups_concat, lemma_sources_concat,
    lemma_sum_nonneg, lemma_sum_subrange_le, partition_outputs,
};
use crate::spent::SpentInputSet;
use crate::types::{
    outs_v, rcpts_v, refs_v, sources_of, sum_amounts, BuildError, BuiltTx, InputRef, OutputModel,
    Recipient, RecipientModel, RefModel, SendError, SendOutcome, SpendableOutput, SubmitError,
};

verus! {

/// Where one send attempt stands. Each waiting phase names the result
/// the machine expects next.
pub enum Phase {
    /// No attempt is running.
    Idle,
    /// The validated recipients wait for the authorization answer.
    AwaitingAuth { recipients: Vec<Recipient> },
    /// The builder is selecting inputs for the payment.
    Building { recipients: Vec<Recipient> },
    /// Proof-of-work runs over the built payment.
    ComputingPow { inputs: Vec<InputRef> },
    /// The payment is on its way to the node.
    Submitting { inputs: Vec<InputRef> },
    /// The wallet's spendable outputs are being fetched for
    /// consolidation.
    FetchingOutputs,
    /// The builder is selecting inputs for the self-payment of group `k`.
    ConsolidationBuilding { groups: Vec<Vec<SpendableOutput>>, k: usize },
    /// Proof-of-work runs over the self-payment of group `k`.
    ConsolidationPow { groups: Vec<Vec<SpendableOutput>>, k: usize },
    /// The self-payment of group `k` is on its way to the node.
    ConsolidationSubmitting { groups: Vec<Vec<SpendableOutput>>, k: usize },
}

/// A completed piece of outside work, reported back by the driver.
pub enum Event {
    /// The user pressed send with this recipient form: pairs of address
    /// and amount fields, as entered.
    Start { recipients: Vec<(String, String)> },
    /// The authorization gate delivered its verdict.
    AuthResolved { accepted: bool },
    /// The external builder finished, or refused.
    BuildDone { result: Result<BuiltTx, BuildError> },
    /// Proof-of-work finished, or failed with this message.
    PowDone { result: Result<(), String> },
    /// The node accepted the submission, or refused.
    SubmitDone { result: Result<(), SubmitError> },
    /// The wallet's spendable outputs as the network reports them, or
    /// why they could not be fetched.
    OutputsFetched { result: Result<Vec<SpendableOutput>, String> },
}

/// What the driver must do next.
pub enum Action {
    /// Register a request with the authorization gate and wait for its
    /// verdict.
    RequestAuth,
    /// Have the external builder assemble a transaction paying
    /// `recipients`, never consuming any input in `exclude`; when
    /// `restrict` is given, only those outputs may fund it. `live` picks
    /// the user-facing priority class, `!live` the background one.
    Build {
        recipients: Vec<Recipient>,
        restrict: Option<Vec<SpendableOutput>>,
        exclude: Vec<InputRef>,
        live: bool,
    },
    /// Compute proof-of-work on the transaction just built, at the live
    /// or the background priority class.
    ComputePow { live: bool },
    /// Submit the transaction just mined.
    Submit,
    /// Fetch the wallet's spendable outputs.
    FetchOutputs,
    /// The attempt is over; report this outcome.
    Finish { outcome: SendOutcome },
}

/// Whether one recipient form entry is valid: the address parses and
/// the amount is a well-formed number of coins.
pub open spec fn entry_ok(e: (String, String)) -> bool {
    valid_address(e.0@) && valid_amount(e.1@)
}

/// Whether the whole recipient form is valid.
pub open spec fn all_entries_ok(raw: Seq<(String, String)>) -> bool {
    forall|i: int| 0 <= i < raw.len() ==> entry_ok(#[trigger] raw[i])
}

/// The position of the first invalid entry (the form's length when all
/// entries are valid).
pub open spec fn first_bad(raw: Seq<(String, String)>) -> int
    decreases raw.len(),
{
    if raw.len() == 0 {
        0
    } else if entry_ok(raw.first()) {
        1 + first_bad(raw.drop_first())
    } else {
        0
    }
}

/// The models of a valid recipient form, decoded.
pub open spec fn parsed_recipients(raw: Seq<(String, String)>) -> Seq<RecipientModel> {
    Seq::new(
        raw.len(),
        |i: int|
            RecipientModel {
                address: address_of(raw[i].0@).unwrap(),
                amount: amount_value(raw[i].1@),
            },
    )
}

/// The references of every output still waiting, from group `k` on.
pub open spec fn pending_sources(groups: Seq<Seq<OutputModel>>, k: int) -> Seq<RefModel> {
    sources_of(groups.skip(k).flatten())
}

/// Whether two input lists consume exactly the same outputs, each once.
pub open spec fn same_elements(a: Seq<RefModel>, b: Seq<RefModel>) -> bool {
    &&& a.no_duplicates()
    &&& forall|r: RefModel|
        #![trigger a.contains(r)]
        #![trigger b.contains(r)]
        a.contains(r) <==> b.contains(r)
}

/// Whether the two submit failures are the same report.
pub open spec fn submit_err_eq(x: SubmitError, y: SubmitError) -> bool {
    match (x, y) {
        (SubmitError::Transport(m1), SubmitError::Transport(m2)) => m1@ == m2@,
        (SubmitError::Rejected(m1), SubmitError::Rejected(m2)) => m1@ == m2@,
        _ => false,
    }
}

/// The note reported when the builder hands back an input this session
/// has already spent, or the same input twice.
pub open spec fn conflict_note() -> Seq<char> {
    "builder returned an already spent or repeated input"@
}

/// The note reported when a consolidation self-payment does not consume
/// exactly its group.
pub open spec fn mismatch_note() -> Seq<char> {
    "builder did not consume the consolidation group exactly"@
}

/// The submission pipeline of one wallet: its spent-input record and
/// the phase of the attempt in flight.
pub struct Pipeline {
    own_address: [u8; 32],
    max_io: usize,
    spent: SpentInputSet,
    state: Phase,
}

impl Pipeline {
    /// The phase the attempt in flight stands in.
    pub closed spec fn phase(&self) -> Phase {
        self.state
    }

    /// The inputs this session has consumed in accepted submissions the
    /// network has not yet confirmed.
    pub closed spec fn spent_refs(&self) -> Seq<RefModel> {
        self.spent@
    }

    /// The most inputs and outputs one transaction may carry.
    pub closed spec fn io_max(&self) -> int {
        self.max_io as int
    }

    /// The wallet's own address, the recipient of every consolidation
    /// self-payment.
    pub closed spec fn own_addr(&self) -> Seq<u8> {
        self.own_address@
    }

    /// Which groups are still unmerged and how they relate to the spent
    /// set while a consolidation pass runs: the current and later
    /// groups' outputs are pairwise distinct, none of them is spent yet,
    /// and each group's worth still fits a `u64`.
    pub open spec fn cons_wf(&self, groups: Seq<Seq<OutputModel>>, k: int) -> bool {
        &&& 0 <= k < groups.len()
        &&& (self.spent_refs() + pending_sources(groups, k)).no_duplicates()
        &&& forall|j: int|
            k <= j < groups.len() ==> sum_amounts(#[trigger] groups[j]) <= u64::MAX as int
        &&& forall|j: int, m: int|
            k <= j < groups.len() && 0 <= m < groups[j].len() ==> (#[trigger] groups[j][m]).amount
                >= 0
    }

    /// The machine's invariant: recorded inputs never repeat, and
    /// whatever the phase carries stays consistent with them.
    pub open spec fn wf(&self) -> bool {
        &&& self.io_max() >= 2
        &&& self.spent_refs().no_duplicates()
        &&& match self.phase() {
            Phase::ComputingPow { inputs } => (self.spent_refs()
                + refs_v(inputs@)).no_duplicates(),
            Phase::Submitting { inputs } => (self.spent_refs() + refs_v(inputs@)).no_duplicates(),
            Phase::ConsolidationBuilding { groups, k } => self.cons_wf(
                groups_v(groups@),
                k as int,
            ),
            Phase::ConsolidationPow { groups, k } => self.cons_wf(groups_v(groups@), k as int),
            Phase::ConsolidationSubmitting { groups, k } => self.cons_wf(
                groups_v(groups@),
                k as int,
            ),
            _ => true,
        }
    }

    /// Which event the machine expects in its current phase. The driver
    /// reports exactly the work the last action asked for; a fetched
    /// output list must also be worth at most what a `u64` holds, a
    /// machine limit the driver checks with wider arithmetic.
    pub open spec fn accepts(&self, e: Event) -> bool {
        match self.phase() {
            Phase::Idle => e is Start,
            Phase::AwaitingAuth { .. } => e is AuthResolved,
            Phase::Building { .. } => e is BuildDone,
            Phase::ComputingPow { .. } => e is PowDone,
            Phase::Submitting { .. } => e is SubmitDone,
            Phase::FetchingOutputs => e matches Event::OutputsFetched { result } && (
            result matches Ok(outputs) ==> sum_amounts(outs_v(outputs@)) <= u64::MAX as int),
            Phase::ConsolidationBuilding { .. } => e is BuildDone,
            Phase::ConsolidationPow { .. } => e is PowDone,
            Phase::ConsolidationSubmitting { .. } => e is SubmitDone,
        }
    }

    /// A fresh pipeline for the wallet at `own_address`, with nothing
    /// spent and nothing in flight.
    pub fn new(own_address: [u8; 32], max_io: usize) -> (p: Pipeline)
        requires
            max_io >= 2,
        ensures
            p.wf(),
            p.phase() is Idle,
            p.spent_refs() == Seq::<RefModel>::empty(),
            p.io_max() == max_io,
            p.own_addr() == own_address@,
    {
        Pipeline { own_address, max_io, spent: SpentInputSet::new(), state: Phase::Idle }
    }

    /// How many inputs this session has committed as spent.
    pub fn spent_count(&self) -> (n: usize)
        ensures
            n == self.spent_refs().len(),
    {
        self.spent.len()
    }

    /// Whether this session has committed `r` as spent.
    pub fn spent_contains(&self, r: &InputRef) -> (b: bool)
        ensures
            b == self.spent_refs().contains(r@),
    {
        self.spent.contains(r)
    }
}

/// What the start of an attempt does with the recipient form: a fully
/// valid form is decoded and goes to the authorization gate; otherwise
/// the attempt ends at the first invalid field, naming it, with no side
/// effect.
pub open spec fn next_start(pre: Pipeline, raw: Seq<(String, String)>, post: Pipeline, a: Action) -> bool {
    if all_entries_ok(raw) {
        &&& post.spent_refs() == pre.spent_refs()
        &&& post.phase() matches Phase::AwaitingAuth { recipients } && rcpts_v(recipients@)
            == parsed_recipients(raw)
        &&& a is RequestAuth
    } else {
        &&& post.spent_refs() == pre.spent_refs()
        &&& post.phase() is Idle
        &&& a matches Action::Finish { outcome }
        &&& outcome matches SendOutcome::Rejected(err)
        &&& if !valid_address(raw[first_bad(raw)].0@) {
            &&& err matches SendError::InvalidAddress { index }
            &&& index == first_bad(raw)
        } else {
            &&& err matches SendError::InvalidAmount { index }
            &&& index == first_bad(raw)
        }
    }
}

/// What the authorization answer does: `true` sends the decoded
/// recipients to the builder, excluding everything this session has
/// spent; `false` ends the attempt as unauthorized, with no side
/// effect.
pub open spec fn next_auth(
    pre: Pipeline,
    rcpts: Seq<RecipientModel>,
    accepted: bool,
    post: Pipeline,
    a: Action,
) -> bool {
    if accepted {
        &&& post.spent_refs() == pre.spent_refs()
        &&& post.phase() matches Phase::Building { recipients } && rcpts_v(recipients@) == rcpts
        &&& a matches Action::Build { recipients, restrict, exclude, live }
        &&& rcpts_v(recipients@) == rcpts
        &&& restrict is None
        &&& refs_v(exclude@) == pre.spent_refs()
        &&& live
    } else {
        &&& post.spent_refs() == pre.spent_refs()
        &&& post.phase() is Idle
        &&& a matches Action::Finish { outcome }
        &&& outcome matches SendOutcome::Rejected(err)
        &&& err is Unauthorized
    }
}

/// What the builder's answer to the payment does: a clean input
/// selection goes on to live proof-of-work; a too-many-inputs refusal
/// starts consolidation; anything else ends the attempt, the builder's
/// message verbatim, with no side effect.
pub open spec fn next_build(
    pre: Pipeline,
    result: Result<BuiltTx, BuildError>,
    post: Pipeline,
    a: Action,
) -> bool {
    match result {
        Ok(tx) => {
            if (pre.spent_refs() + tx@).no_duplicates() {
                &&& post.spent_refs() == pre.spent_refs()
                &&& post.phase() matches Phase::ComputingPow { inputs } && refs_v(inputs@) == tx@
                &&& a matches Action::ComputePow { live } && live
            } else {
                &&& post.spent_refs() == pre.spent_refs()
                &&& post.phase() is Idle
                &&& a matches Action::Finish { outcome }
                &&& outcome matches SendOutcome::Rejected(err)
                &&& err matches SendError::Build(m)
                &&& m@ == conflict_note()
            }
        },
        Err(BuildError::TooManyInputs) => {
            &&& post.spent_refs() == pre.spent_refs()
            &&& post.phase() is FetchingOutputs
            &&& a is FetchOutputs
        },
        Err(BuildError::Other(msg)) => {
            &&& post.spent_refs() == pre.spent_refs()
            &&& post.phase() is Idle
            &&& a matches Action::Finish { outcome }
            &&& outcome matches SendOutcome::Rejected(err)
            &&& err matches SendError::Build(m)
            &&& m@ == msg@
        },
    }
}

/// What finished proof-of-work does: success hands the payment on for
/// submission; failure ends the attempt with the message verbatim and
/// no side effect.
pub open spec fn next_pow(
    pre: Pipeline,
    inputs: Seq<RefModel>,
    result: Result<(), String>,
    post: Pipeline,
    a: Action,
) -> bool {
    match result {
        Ok(()) => {
            &&& post.spent_refs() == pre.spent_refs()
            &&& post.phase() matches Phase::Submitting { inputs: inp } && refs_v(inp@) == inputs
            &&& a is Submit
        },
        Err(msg) => {
            &&& post.spent_refs() == pre.spent_refs()
            &&& post.phase() is Idle
            &&& a matches Action::Finish { outcome }
            &&& outcome matches SendOutcome::Rejected(err)
            &&& err matches SendError::Pow(m)
            &&& m@ == msg@
        },
    }
}

/// What the node's answer to the payment does: acceptance commits the
/// consumed inputs — exactly once, behind everything committed before —
/// and reports success; refusal commits nothing and surfaces the report
/// verbatim, so a retry is safe.
pub open spec fn next_submit(
    pre: Pipeline,
    inputs: Seq<RefModel>,
    result: Result<(), SubmitError>,
    post: Pipeline,
    a: Action,
) -> bool {
    match result {
        Ok(()) => {
            &&& post.spent_refs() == pre.spent_refs() + inputs
            &&& post.phase() is Idle
            &&& a matches Action::Finish { outcome } && outcome is Submitted
        },
        Err(se) => {
            &&& post.spent_refs() == pre.spent_refs()
            &&& post.phase() is Idle
            &&& a matches Action::Finish { outcome }
            &&& outcome matches SendOutcome::Rejected(err)
            &&& err matches SendError::Submit(se2)
            &&& submit_err_eq(se2, se)
        },
    }
}

/// What the answer to the output fetch does. A failure ends the pass
/// before anything was merged, the report verbatim. Otherwise outputs
/// this session already spent, and repeated references, are dropped;
/// the rest is split into groups of at most `io_max - 1` in reported
/// order. With nothing left to merge the pass ends at zero groups;
/// otherwise the first group's self-payment goes to the builder,
/// restricted to exactly that group.
pub open spec fn next_outputs(
    pre: Pipeline,
    result: Result<Vec<SpendableOutput>, String>,
    post: Pipeline,
    a: Action,
) -> bool {
    match result {
        Ok(outputs) => next_outputs_ok(pre, outs_v(outputs@), post, a),
        Err(msg) => {
            &&& post.spent_refs() == pre.spent_refs()
            &&& post.phase() is Idle
            &&& a matches Action::Finish { outcome }
            &&& outcome matches SendOutcome::ConsolidationFailed { succeeded, error }
            &&& succeeded == 0
            &&& error matches SendError::Fetch(m)
            &&& m@ == msg@
        },
    }
}

/// What a fetched output list does once it is in hand.
pub open spec fn next_outputs_ok(pre: Pipeline, outs: Seq<OutputModel>, post: Pipeline, a: Action) -> bool {
    let fresh = fresh_outputs_spec(outs, pre.spent_refs());
    let cap = pre.io_max() - 1;
    if chunk_count(fresh.len() as int, cap) == 0 {
        &&& post.spent_refs() == pre.spent_refs()
        &&& post.phase() is Idle
        &&& a matches Action::Finish { outcome }
        &&& outcome matches SendOutcome::Consolidated { groups }
        &&& groups == 0
    } else {
        &&& post.spent_refs() == pre.spent_refs()
        &&& post.phase() matches Phase::ConsolidationBuilding { groups, k } && k == 0
            && is_chunking(groups_v(groups@), fresh, cap)
        &&& a matches Action::Build { recipients, restrict, exclude, live }
        &&& rcpts_v(recipients@) == seq![
            RecipientModel { address: pre.own_addr(), amount: sum_amounts(chunk_of(fresh, cap, 0)) },
        ]
        &&& restrict matches Some(r)
        &&& outs_v(r@) == chunk_of(fresh, cap, 0)
        &&& refs_v(exclude@) == pre.spent_refs()
        &&& !live
    }
}

/// What the builder's answer to a group's self-payment does: when it
/// consumes exactly the group, background proof-of-work follows; any
/// refusal, or a selection that is not exactly the group, ends the pass
/// with the count of groups already merged, later groups untouched.
pub open spec fn next_cons_build(
    pre: Pipeline,
    groups: Seq<Seq<OutputModel>>,
    k: int,
    result: Result<BuiltTx, BuildError>,
    post: Pipeline,
    a: Action,
) -> bool {
    match result {
        Ok(tx) => {
            if same_elements(tx@, sources_of(groups[k])) {
                &&& post.spent_refs() == pre.spent_refs()
                &&& post.phase() matches Phase::ConsolidationPow { groups: g2, k: k2 } && groups_v(
                    g2@,
                ) == groups && k2 == k
                &&& a matches Action::ComputePow { live } && !live
            } else {
                &&& post.spent_refs() == pre.spent_refs()
                &&& post.phase() is Idle
                &&& a matches Action::Finish { outcome }
                &&& outcome matches SendOutcome::ConsolidationFailed { succeeded, error }
                &&& succeeded == k
                &&& error matches SendError::Build(m)
                &&& m@ == mismatch_note()
            }
        },
        Err(BuildError::TooManyInputs) => {
            &&& post.spent_refs() == pre.spent_refs()
            &&& post.phase() is Idle
            &&& a matches Action::Finish { outcome }
            &&& outcome matches SendOutcome::ConsolidationFailed { succeeded, error }
            &&& succeeded == k
            &&& error is TooManyInputs
        },
        Err(BuildError::Other(msg)) => {
            &&& post.spent_refs() == pre.spent_refs()
            &&& post.phase() is Idle
            &&& a matches Action::Finish { outcome }
            &&& outcome matches SendOutcome::ConsolidationFailed { succeeded, error }
            &&& succeeded == k
            &&& error matches SendError::Build(m)
            &&& m@ == msg@
        },
    }
}

/// What finished proof-of-work on a group's self-payment does.
pub open spec fn next_cons_pow(
    pre: Pipeline,
    groups: Seq<Seq<OutputModel>>,
    k: int,
    result: Result<(), String>,
    post: Pipeline,
    a: Action,
) -> bool {
    match result {
        Ok(()) => {
            &&& post.spent_refs() == pre.spent_refs()
            &&& post.phase() matches Phase::ConsolidationSubmitting { groups: g2, k: k2 }
                && groups_v(g2@) == groups && k2 == k
            &&& a is Submit
        },
        Err(msg) => {
            &&& post.spent_refs() == pre.spent_refs()
            &&& post.phase() is Idle
            &&& a matches Action::Finish { outcome }
            &&& outcome matches SendOutcome::ConsolidationFailed { succeeded, error }
            &&& succeeded == k
            &&& error matches SendError::Pow(m)
            &&& m@ == msg@
        },
    }
}

/// What the node's answer to a group's self-payment does: acceptance
/// commits exactly that group's references — immediately, so no later
/// group and no resubmission can reuse them — and moves to the next
/// group, or reports the pass complete after the last one; refusal
/// commits nothing further and ends the pass with the count of groups
/// already merged, leaving later groups eligible for a future pass.
pub open spec fn next_cons_submit(
    pre: Pipeline,
    groups: Seq<Seq<OutputModel>>,
    k: int,
    result: Result<(), SubmitError>,
    post: Pipeline,
    a: Action,
) -> bool {
    match result {
        Ok(()) => {
            &&& post.spent_refs() == pre.spent_refs() + sources_of(groups[k])
            &&& if k + 1 < groups.len() {
                &&& post.phase() matches Phase::ConsolidationBuilding { groups: g2, k: k2 }
                    && groups_v(g2@) == groups && k2 == k + 1
                &&& a matches Action::Build { recipients, restrict, exclude, live }
                &&& rcpts_v(recipients@) == seq![
                    RecipientModel { address: pre.own_addr(), amount: sum_amounts(groups[k + 1]) },
                ]
                &&& restrict matches Some(r)
                &&& outs_v(r@) == groups[k + 1]
                &&& refs_v(exclude@) == post.spent_refs()
                &&& !live
            } else {
                &&& post.phase() is Idle
                &&& a matches Action::Finish { outcome }
                &&& outcome matches SendOutcome::Consolidated { groups: n }
                &&& n == groups.len()
            }
        },
        Err(se) => {
            &&& post.spent_refs() == pre.spent_refs()
            &&& post.phase() is Idle
            &&& a matches Action::Finish { outcome }
            &&& outcome matches SendOutcome::ConsolidationFailed { succeeded, error }
            &&& succeeded == k
            &&& error matches SendError::Submit(se2)
            &&& submit_err_eq(se2, se)
        },
    }
}

/// The machine's full transition relation: given the phase the attempt
/// stood in and the event the driver reports, exactly one step is
/// allowed, and it pins the new phase, the new spent-input set and the
/// action handed back.
pub open spec fn next(pre: Pipeline, e: Event, post: Pipeline, a: Action) -> bool {
    &&& post.own_addr() == pre.own_addr()
    &&& post.io_max() == pre.io_max()
    &&& match pre.phase() {
        Phase::Idle => e matches Event::Start { recipients } && next_start(
            pre,
            recipients@,
            post,
            a,
        ),
        Phase::AwaitingAuth { recipients } => e matches Event::AuthResolved { accepted }
            && next_auth(pre, rcpts_v(recipients@), accepted, post, a),
        Phase::Building { .. } => e matches Event::BuildDone { result } && next_build(
            pre,
            result,
            post,
            a,
        ),
        Phase::ComputingPow { inputs } => e matches Event::PowDone { result } && next_pow(
            pre,
            refs_v(inputs@),
            result,
            post,
            a,
        ),
        Phase::Submitting { inputs } => e matches Event::SubmitDone { result } && next_submit(
            pre,
            refs_v(inputs@),
            result,
            post,
            a,
        ),
        Phase::FetchingOutputs => e matches Event::OutputsFetched { result } && next_outputs(
            pre,
            result,
            post,
            a,
        ),
        Phase::ConsolidationBuilding { groups, k } => e matches Event::BuildDone { result }
            && next_cons_build(pre, groups_v(groups@), k as int, result, post, a),
        Phase::ConsolidationPow { groups, k } => e matches Event::PowDone { result }
            && next_cons_pow(pre, groups_v(groups@), k as int, result, post, a),
        Phase::ConsolidationSubmitting { groups, k } => e matches Event::SubmitDone { result }
            && next_cons_submit(pre, groups_v(groups@), k as int, result, post, a),
    }
}

/// With `k` groups still ahead, the waiting references split into the
/// current group's and the rest.
pub proof fn lemma_pending_sources_step(groups: Seq<Seq<OutputModel>>, k: int)
    requires
        0 <= k < groups.len(),
    ensures
        pending_sources(groups, k) == sources_of(groups[k]) + pending_sources(groups, k + 1),
{
    assert(groups.skip(k).drop_first() =~= groups.skip(k + 1));
    assert(groups.skip(k).first() == groups[k]);
    assert(groups.skip(k).flatten() == groups.skip(k).first() + groups.skip(
        k,
    ).drop_first().flatten());
    lemma_sources_concat(groups[k], groups.skip(k + 1).flatten());
}


/// A repeated entry on the right spoils a concatenation.
proof fn lemma_concat_dup_right(a: Seq<RefModel>, b: Seq<RefModel>, x: int, y: int)
    requires
        0 <= x < y < b.len(),
        b[x] == b[y],
    ensures
        !(a + b).no_duplicates(),
{
    assert((a + b)[a.len() + x] == b[x]);
    assert((a + b)[a.len() + y] == b[y]);
}

/// An entry shared by the two sides spoils a concatenation.
proof fn lemma_concat_dup_cross(a: Seq<RefModel>, b: Seq<RefModel>, x: int, y: int)
    requires
        0 <= x < a.len(),
        0 <= y < b.len(),
        a[x] == b[y],
    ensures
        !(a + b).no_duplicates(),
{
    assert((a + b)[x] == a[x]);
    assert((a + b)[a.len() + y] == b[y]);
}

/// A prefix of a duplicate-free sequence is duplicate-free.
proof fn lemma_no_dups_take(s: Seq<RefModel>, m: int)
    requires
        s.no_duplicates(),
        0 <= m <= s.len(),
    ensures
        s.take(m).no_duplicates(),
{
    assert forall|i: int, j: int| 0 <= i < j < s.take(m).len() implies s.take(m)[i] != s.take(
        m,
    )[j] by {
        assert(s.take(m)[i] == s[i] && s.take(m)[j] == s[j]);
    }
}

/// When the first `i` entries are valid and entry `i` is not, `i` is
/// the first invalid position.
proof fn lemma_first_bad_at(raw: Seq<(String, String)>, i: int)
    requires
        0 <= i < raw.len(),
        forall|j: int| 0 <= j < i ==> entry_ok(#[trigger] raw[j]),
        !entry_ok(raw[i]),
    ensures
        first_bad(raw) == i,
    decreases i,
{
    if i == 0 {
        assert(raw.first() == raw[0]);
    } else {
        assert(entry_ok(raw.first())) by {
            assert(raw.first() == raw[0]);
        }
        assert(forall|j: int| 0 <= j < i - 1 ==> entry_ok(#[trigger] raw.drop_first()[j])) by {
            assert(forall|j: int| 0 <= j < i - 1 ==> raw.drop_first()[j] == #[trigger] raw[j + 1]);
        }
        assert(raw.drop_first()[i - 1] == raw[i]);
        lemma_first_bad_at(raw.drop_first(), i - 1);
    }
}

/// A copy of the recipient list.
fn copy_recipients(v: &Vec<Recipient>) -> (r: Vec<Recipient>)
    ensures
        rcpts_v(r@) == rcpts_v(v@),
{
    let mut r: Vec<Recipient> = Vec::new();
    let mut i: usize = 0;
    while i < v.len()
        invariant
            0 <= i <= v@.len(),
            rcpts_v(r@) =~= rcpts_v(v@.take(i as int)),
        decreases v@.len() - i,
    {
        let ghost prev = r@;
        r.push(v[i]);
        proof {
            assert(rcpts_v(r@) =~= rcpts_v(prev).push(v@[i as int]@));
            assert(rcpts_v(v@.take(i + 1)) =~= rcpts_v(v@.take(i as int)).push(v@[i as int]@));
        }
        i += 1;
    }
    proof {
        assert(v@.take(v@.len() as int) =~= v@);
        assert(rcpts_v(r@) =~= rcpts_v(v@));
    }
    r
}

/// A copy of an output list.
fn copy_outputs(v: &Vec<SpendableOutput>) -> (r: Vec<SpendableOutput>)
    ensures
        outs_v(r@) == outs_v(v@),
{
    let mut r: Vec<SpendableOutput> = Vec::new();
    let mut i: usize = 0;
    while i < v.len()
        invariant
            0 <= i <= v@.len(),
            outs_v(r@) =~= outs_v(v@.take(i as int)),
        decreases v@.len() - i,
    {
        let ghost prev = r@;
        r.push(v[i]);
        proof {
            assert(outs_v(r@) =~= outs_v(prev).push(v@[i as int]@));
            assert(outs_v(v@.take(i + 1)) =~= outs_v(v@.take(i as int)).push(v@[i as int]@));
        }
        i += 1;
    }
    proof {
        assert(v@.take(v@.len() as int) =~= v@);
        assert(outs_v(r@) =~= outs_v(v@));
    }
    r
}

/// The references these outputs would consume, in order.
fn sources_vec(g: &Vec<SpendableOutput>) -> (r: Vec<InputRef>)
    ensures
        refs_v(r@) == sources_of(outs_v(g@)),
{
    let mut r: Vec<InputRef> = Vec::new();
    let mut i: usize = 0;
    while i < g.len()
        invariant
            0 <= i <= g@.len(),
            refs_v(r@) =~= sources_of(outs_v(g@.take(i as int))),
        decreases g@.len() - i,
    {
        let ghost prev = r@;
        r.push(g[i].source);
        proof {
            assert(refs_v(r@) =~= refs_v(prev).push(g@[i as int].source@));
            assert(sources_of(outs_v(g@.take(i + 1))) =~= sources_of(
                outs_v(g@.take(i as int)),
            ).push(g@[i as int].source@));
        }
        i += 1;
    }
    proof {
        assert(g@.take(g@.len() as int) =~= g@);
        assert(refs_v(r@) =~= sources_of(outs_v(g@)));
    }
    r
}

/// Whether `r` occurs among these references.
fn refs_contain(v: &Vec<InputRef>, r: &InputRef) -> (b: bool)
    ensures
        b == refs_v(v@).contains(r@),
{
    let mut i: usize = 0;
    while i < v.len()
        invariant
            0 <= i <= v@.len(),
            forall|j: int| 0 <= j < i ==> refs_v(v@)[j] != r@,
        decreases v@.len() - i,
    {
        if crate::types::input_ref_eq(&v[i], r) {
            proof {
                assert(refs_v(v@)[i as int] == r@);
            }
            return true;
        }
        i += 1;
    }
    false
}

/// Whether the batch is fresh: no entry repeats another, and none was
/// already committed as spent.
fn batch_fresh(spent: &SpentInputSet, batch: &Vec<InputRef>) -> (b: bool)
    requires
        spent.wf(),
    ensures
        b == (spent@ + refs_v(batch@)).no_duplicates(),
{
    let ghost whole = spent@ + refs_v(batch@);
    let mut i: usize = 0;
    while i < batch.len()
        invariant
            spent.wf(),
            whole == spent@ + refs_v(batch@),
            0 <= i <= batch@.len(),
            (spent@ + refs_v(batch@).take(i as int)).no_duplicates(),
        decreases batch@.len() - i,
    {
        if spent.contains(&batch[i]) {
            proof {
                let j = choose|j: int| 0 <= j < spent@.len() && spent@[j] == batch@[i as int]@;
                assert(refs_v(batch@)[i as int] == batch@[i as int]@);
                lemma_concat_dup_cross(spent@, refs_v(batch@), j, i as int);
            }
            return false;
        }
        let mut j: usize = 0;
        while j < i
            invariant
                0 <= j <= i < batch@.len(),
                forall|m: int| 0 <= m < j ==> refs_v(batch@)[m] != refs_v(batch@)[i as int],
            decreases i - j,
        {
            if crate::types::input_ref_eq(&batch[j], &batch[i]) {
                proof {
                    assert(refs_v(batch@)[j as int] == batch@[j as int]@);
                    assert(refs_v(batch@)[i as int] == batch@[i as int]@);
                    lemma_concat_dup_right(spent@, refs_v(batch@), j as int, i as int);
                }
                return false;
            }
            j += 1;
        }
        proof {
            let prefix = spent@ + refs_v(batch@).take(i as int);
            let stepped = spent@ + refs_v(batch@).take(i + 1);
            assert(stepped =~= prefix.push(refs_v(batch@)[i as int]));
            assert forall|x: int, y: int| 0 <= x < y < stepped.len() implies stepped[x]
                != stepped[y] by {
                if y < prefix.len() {
                    assert(stepped[x] == prefix[x] && stepped[y] == prefix[y]);
                } else {
                    assert(stepped[y] == refs_v(batch@)[i as int]);
                    assert(stepped[x] == prefix[x]);
                    if x < spent@.len() {
                        assert(prefix[x] == spent@[x]);
                        assert(!spent@.contains(refs_v(batch@)[i as int]));
                    } else {
                        assert(prefix[x] == refs_v(batch@)[x - spent@.len()]);
                    }
                }
            }
        }
        i += 1;
    }
    proof {
        assert(refs_v(batch@).take(batch@.len() as int) =~= refs_v(batch@));
    }
    true
}

/// Whether the two input lists consume exactly the same outputs, the
/// first consuming each at most once.
fn same_ref_elements(a: &Vec<InputRef>, b: &Vec<InputRef>) -> (r: bool)
    ensures
        r == same_elements(refs_v(a@), refs_v(b@)),
{
    let mut i: usize = 0;
    while i < a.len()
        invariant
            0 <= i <= a@.len(),
            forall|x: int, y: int| 0 <= x < y < i ==> refs_v(a@)[x] != refs_v(a@)[y],
            forall|x: int| 0 <= x < i ==> refs_v(b@).contains(#[trigger] refs_v(a@)[x]),
        decreases a@.len() - i,
    {
        let mut j: usize = 0;
        while j < i
            invariant
                0 <= j <= i < a@.len(),
                forall|m: int| 0 <= m < j ==> refs_v(a@)[m] != refs_v(a@)[i as int],
            decreases i - j,
        {
            if crate::types::input_ref_eq(&a[j], &a[i]) {
                proof {
                    assert(refs_v(a@)[j as int] == a@[j as int]@);
                    assert(refs_v(a@)[i as int] == a@[i as int]@);
                    assert(refs_v(a@)[j as int] == refs_v(a@)[i as int]);
                    assert(!refs_v(a@).no_duplicates());
                }
                return false;
            }
            j += 1;
        }
        if !refs_contain(b, &a[i]) {
            proof {
                assert(refs_v(a@).contains(refs_v(a@)[i as int]));
            }
            return false;
        }
        i += 1;
    }
    let mut j: usize = 0;
    while j < b.len()
        invariant
            0 <= j <= b@.len(),
            forall|x: int, y: int| 0 <= x < y < a@.len() ==> refs_v(a@)[x] != refs_v(a@)[y],
            forall|x: int| 0 <= x < a@.len() ==> refs_v(b@).contains(#[trigger] refs_v(a@)[x]),
            forall|y: int| 0 <= y < j ==> refs_v(a@).contains(#[trigger] refs_v(b@)[y]),
        decreases b@.len() - j,
    {
        if !refs_contain(a, &b[j]) {
            proof {
                assert(refs_v(b@).contains(refs_v(b@)[j as int]));
            }
            return false;
        }
        j += 1;
    }
    proof {
        assert forall|r: RefModel|
            #![trigger refs_v(a@).contains(r)]
            #![trigger refs_v(b@).contains(r)]
            refs_v(a@).contains(r) <==> refs_v(b@).contains(r) by {
            if refs_v(a@).contains(r) {
                let x = choose|x: int| 0 <= x < refs_v(a@).len() && refs_v(a@)[x] == r;
                assert(refs_v(b@).contains(refs_v(a@)[x]));
            }
            if refs_v(b@).contains(r) {
                let y = choose|y: int| 0 <= y < refs_v(b@).len() && refs_v(b@)[y] == r;
                assert(refs_v(a@).contains(refs_v(b@)[y]));
            }
        }
    }
    true
}

/// The total worth of one group, in nano units.
fn group_amount(g: &Vec<SpendableOutput>) -> (n: u64)
    requires
        sum_amounts(outs_v(g@)) <= u64::MAX as int,
    ensures
        n as int == sum_amounts(outs_v(g@)),
{
    proof {
        assert(forall|m: int| 0 <= m < outs_v(g@).len() ==> (#[trigger] outs_v(g@)[m]).amount >= 0);
    }
    let mut acc: u64 = 0;
    let mut i: usize = 0;
    while i < g.len()
        invariant
            0 <= i <= g@.len(),
            sum_amounts(outs_v(g@)) <= u64::MAX as int,
            forall|m: int| 0 <= m < outs_v(g@).len() ==> (#[trigger] outs_v(g@)[m]).amount >= 0,
            acc as int == sum_amounts(outs_v(g@).take(i as int)),
        decreases g@.len() - i,
    {
        proof {
            let all = outs_v(g@);
            assert(all.take(i + 1) =~= all.take(i as int).push(all[i as int]));
            crate::consolidate::lemma_sum_push(all.take(i as int), all[i as int]);
            assert(all =~= all.take(i + 1) + all.skip(i + 1));
            crate::consolidate::lemma_sum_concat(all.take(i + 1), all.skip(i + 1));
            assert(forall|m: int|
                0 <= m < all.skip(i + 1).len() ==> (#[trigger] all.skip(i + 1)[m]).amount >= 0);
            lemma_sum_nonneg(all.skip(i + 1));
        }
        acc = acc + g[i].amount;
        i += 1;
    }
    proof {
        assert(outs_v(g@).take(g@.len() as int) =~= outs_v(g@));
    }
    acc
}

impl Pipeline {
    /// Drive the attempt one step: take the result of the last piece of
    /// outside work and decide the next. The step taken is exactly the
    /// one [`next`] allows from the old state under `e`.
    #[verifier::rlimit(50)]
    pub fn on_event(&mut self, e: Event) -> (a: Action)
        requires
            old(self).wf(),
            old(self).accepts(e),
        ensures
            final(self).wf(),
            next(*old(self), e, *final(self), a),
    {
        let mut ph = Phase::Idle;
        core::mem::swap(&mut ph, &mut self.state);
        match ph {
            Phase::Idle => match e {
                Event::Start { recipients: raw } => {
                    let n = raw.len();
                    let mut parsed: Vec<Recipient> = Vec::new();
                    let mut i: usize = 0;
                    while i < n
                        invariant
                            old(self).wf(),
                            *self == (Pipeline { state: Phase::Idle, ..*old(self) }),
                            e == (Event::Start { recipients: raw }),
                            old(self).phase() is Idle,
                            i <= n,
                            n == raw@.len(),
                            parsed@.len() == i,
                            forall|j: int| 0 <= j < i ==> entry_ok(#[trigger] raw@[j]),
                            forall|j: int|
                                0 <= j < i ==> #[trigger] parsed@[j]@ == (RecipientModel {
                                    address: address_of(raw@[j].0@).unwrap(),
                                    amount: amount_value(raw@[j].1@),
                                }),
                        decreases n - i,
                    {
                        let addr = match crate::address::parse_address(raw[i].0.as_str()) {
                            Some(b) => b,
                            None => {
                                proof {
                                    assert(!entry_ok(raw@[i as int]));
                                    lemma_first_bad_at(raw@, i as int);
                                    assert(!all_entries_ok(raw@)) by {
                                        assert(!entry_ok(raw@[i as int]));
                                    }
                                }
                                return Action::Finish {
                                    outcome: SendOutcome::Rejected(
                                        SendError::InvalidAddress { index: i },
                                    ),
                                };
                            },
                        };
                        let amt = match crate::amount::parse_amount(raw[i].1.as_str()) {
                            Some(v) => v,
                            None => {
                                proof {
                                    assert(!entry_ok(raw@[i as int]));
                                    lemma_first_bad_at(raw@, i as int);
                                    assert(!all_entries_ok(raw@)) by {
                                        assert(!entry_ok(raw@[i as int]));
                                    }
                                }
                                return Action::Finish {
                                    outcome: SendOutcome::Rejected(
                                        SendError::InvalidAmount { index: i },
                                    ),
                                };
                            },
                        };
                        parsed.push(Recipient { address: addr, amount: amt });
                        i += 1;
                    }
                    proof {
                        assert(all_entries_ok(raw@));
                        assert(rcpts_v(parsed@) =~= parsed_recipients(raw@));
                    }
                    self.state = Phase::AwaitingAuth { recipients: parsed };
                    Action::RequestAuth
                },
                _ => {
                    proof {
                        assert(false);
                    }
                    Action::Submit
                },
            },
            Phase::AwaitingAuth { recipients } => match e {
                Event::AuthResolved { accepted } => {
                    if accepted {
                        let rcopy = copy_recipients(&recipients);
                        let exclude = self.spent.to_vec();
                        self.state = Phase::Building { recipients };
                        Action::Build { recipients: rcopy, restrict: None, exclude, live: true }
                    } else {
                        Action::Finish {
                            outcome: SendOutcome::Rejected(SendError::Unauthorized),
                        }
                    }
                },
                _ => {
                    proof {
                        assert(false);
                    }
                    Action::Submit
                },
            },
            Phase::Building { recipients: _ } => match e {
                Event::BuildDone { result } => match result {
                    Ok(tx) => {
                        if batch_fresh(&self.spent, &tx.inputs) {
                            self.state = Phase::ComputingPow { inputs: tx.inputs };
                            Action::ComputePow { live: true }
                        } else {
                            Action::Finish {
                                outcome: SendOutcome::Rejected(
                                    SendError::Build(
                                        "builder returned an already spent or repeated input".to_owned(),
                                    ),
                                ),
                            }
                        }
                    },
                    Err(BuildError::TooManyInputs) => {
                        self.state = Phase::FetchingOutputs;
                        Action::FetchOutputs
                    },
                    Err(BuildError::Other(msg)) => Action::Finish {
                        outcome: SendOutcome::Rejected(SendError::Build(msg)),
                    },
                },
                _ => {
                    proof {
                        assert(false);
                    }
                    Action::Submit
                },
            },
            Phase::ComputingPow { inputs } => match e {
                Event::PowDone { result } => match result {
                    Ok(()) => {
                        self.state = Phase::Submitting { inputs };
                        Action::Submit
                    },
                    Err(msg) => Action::Finish {
                        outcome: SendOutcome::Rejected(SendError::Pow(msg)),
                    },
                },
                _ => {
                    proof {
                        assert(false);
                    }
                    Action::Submit
                },
            },
            Phase::Submitting { inputs } => match e {
                Event::SubmitDone { result } => match result {
                    Ok(()) => {
                        self.spent.record(&inputs);
                        Action::Finish { outcome: SendOutcome::Submitted }
                    },
                    Err(se) => Action::Finish {
                        outcome: SendOutcome::Rejected(SendError::Submit(se)),
                    },
                },
                _ => {
                    proof {
                        assert(false);
                    }
                    Action::Submit
                },
            },
            Phase::FetchingOutputs => match e {
                Event::OutputsFetched { result: Err(msg) } => Action::Finish {
                    outcome: SendOutcome::ConsolidationFailed {
                        succeeded: 0,
                        error: SendError::Fetch(msg),
                    },
                },
                Event::OutputsFetched { result: Ok(outputs) } => {
                    proof {
                        assert(forall|m: int|
                            0 <= m < outs_v(outputs@).len() ==> (#[trigger] outs_v(
                                outputs@,
                            )[m]).amount >= 0);
                        lemma_fresh_outputs_props(outs_v(outputs@), self.spent@);
                        lemma_fresh_sum_le(outs_v(outputs@), self.spent@);
                    }
                    let filtered = fresh_outputs(&outputs, &self.spent);
                    let groups = partition_outputs(&filtered, self.max_io);
                    let ghost fresh = fresh_outputs_spec(outs_v(outputs@), self.spent@);
                    let ghost cap: int = self.max_io - 1;
                    if groups.len() == 0 {
                        Action::Finish { outcome: SendOutcome::Consolidated { groups: 0 } }
                    } else {
                        proof {
                            assert(forall|m: int|
                                0 <= m < fresh.len() ==> (#[trigger] fresh[m]).amount >= 0) by {
                                assert(fresh == outs_v(filtered@));
                            }
                            assert(groups_v(groups@)[0] == chunk_of(fresh, cap, 0));
                            assert(0 * cap == 0) by (nonlinear_arith);
                            assert(1 * cap == cap) by (nonlinear_arith);
                            lemma_chunk_sum(fresh, cap, 0);
                            assert(sum_amounts(outs_v(groups@[0]@)) <= u64::MAX as int);
                        }
                        let amount0 = group_amount(&groups[0]);
                        let restrict = copy_outputs(&groups[0]);
                        let exclude = self.spent.to_vec();
                        let mut recipients: Vec<Recipient> = Vec::new();
                        recipients.push(Recipient { address: self.own_address, amount: amount0 });
                        proof {
                            assert(groups_v(groups@)[0] == outs_v(groups@[0 as int]@));
                            assert(rcpts_v(recipients@) =~= seq![
                                RecipientModel {
                                    address: self.own_address@,
                                    amount: sum_amounts(chunk_of(fresh, cap, 0)),
                                },
                            ]);
                            // The new consolidation pass is well formed: the
                            // kept references repeat neither each other nor
                            // the spent set, and every group fits a u64.
                            assert(groups_v(groups@).skip(0) =~= groups_v(groups@));
                            assert(pending_sources(groups_v(groups@), 0) == sources_of(fresh));
                            assert forall|x: int, y: int|
                                0 <= x < self.spent@.len() && 0 <= y < sources_of(
                                    fresh,
                                ).len() implies #[trigger] self.spent@[x] != #[trigger] sources_of(
                                fresh,
                            )[y] by {
                                assert(sources_of(fresh).contains(sources_of(fresh)[y]));
                                if self.spent@[x] == sources_of(fresh)[y] {
                                    assert(self.spent@.contains(sources_of(fresh)[y]));
                                }
                            }
                            lemma_no_dups_concat(self.spent@, sources_of(fresh));
                            assert forall|j: int| 0 <= j < groups_v(groups@).len() implies
                                sum_amounts(#[trigger] groups_v(groups@)[j]) <= u64::MAX
                                as int by {
                                assert(groups_v(groups@)[j] == chunk_of(fresh, cap, j));
                                lemma_chunk_index_bound(fresh.len() as int, cap, j);
                                lemma_chunk_sum(fresh, cap, j);
                            }
                            assert forall|j: int, m: int|
                                0 <= j < groups_v(groups@).len() && 0 <= m < groups_v(
                                    groups@,
                                )[j].len() implies (#[trigger] groups_v(groups@)[j][m]).amount
                                >= 0 by {
                                assert(groups_v(groups@)[j] == outs_v(groups@[j]@));
                                assert(outs_v(groups@[j]@)[m] == groups@[j]@[m]@);
                            }
                        }
                        self.state = Phase::ConsolidationBuilding { groups, k: 0 };
                        Action::Build {
                            recipients,
                            restrict: Some(restrict),
                            exclude,
                            live: false,
                        }
                    }
                },
                _ => {
                    proof {
                        assert(false);
                    }
                    Action::Submit
                },
            },
            Phase::ConsolidationBuilding { groups, k } => match e {
                Event::BuildDone { result } => match result {
                    Ok(tx) => {
                        let expected = sources_vec(&groups[k]);
                        if same_ref_elements(&tx.inputs, &expected) {
                            self.state = Phase::ConsolidationPow { groups, k };
                            Action::ComputePow { live: false }
                        } else {
                            Action::Finish {
                                outcome: SendOutcome::ConsolidationFailed {
                                    succeeded: k,
                                    error: SendError::Build(
                                        "builder did not consume the consolidation group exactly".to_owned(),
                                    ),
                                },
                            }
                        }
                    },
                    Err(BuildError::TooManyInputs) => Action::Finish {
                        outcome: SendOutcome::ConsolidationFailed {
                            succeeded: k,
                            error: SendError::TooManyInputs,
                        },
                    },
                    Err(BuildError::Other(msg)) => Action::Finish {
                        outcome: SendOutcome::ConsolidationFailed {
                            succeeded: k,
                            error: SendError::Build(msg),
                        },
                    },
                },
                _ => {
                    proof {
                        assert(false);
                    }
                    Action::Submit
                },
            },
            Phase::ConsolidationPow { groups, k } => match e {
                Event::PowDone { result } => match result {
                    Ok(()) => {
                        self.state = Phase::ConsolidationSubmitting { groups, k };
                        Action::Submit
                    },
                    Err(msg) => Action::Finish {
                        outcome: SendOutcome::ConsolidationFailed {
                            succeeded: k,
                            error: SendError::Pow(msg),
                        },
                    },
                },
                _ => {
                    proof {
                        assert(false);
                    }
                    Action::Submit
                },
            },
            Phase::ConsolidationSubmitting { groups, k } => match e {
                Event::SubmitDone { result } => match result {
                    Ok(()) => {
                        let batch = sources_vec(&groups[k]);
                        proof {
                            let gv = groups_v(groups@);
                            lemma_pending_sources_step(gv, k as int);
                            assert(sources_of(gv[k as int]) == refs_v(batch@)) by {
                                assert(gv[k as int] == outs_v(groups@[k as int]@));
                            }
                            assert(self.spent@ + pending_sources(gv, k as int) =~= (self.spent@
                                + refs_v(batch@)) + pending_sources(gv, k as int + 1));
                            assert((self.spent@ + refs_v(batch@)) =~= (self.spent@
                                + pending_sources(gv, k as int)).take(
                                self.spent@.len() + refs_v(batch@).len() as int,
                            ));
                            lemma_no_dups_take(
                                self.spent@ + pending_sources(gv, k as int),
                                self.spent@.len() + refs_v(batch@).len() as int,
                            );
                        }
                        proof {
                            assert((k as int) < groups_v(groups@).len());
                            assert(k < groups@.len());
                        }
                        self.spent.record(&batch);
                        let glen = groups.len();
                        if k < glen - 1 {
                            proof {
                                let gv = groups_v(groups@);
                                assert(gv[k as int + 1] == outs_v(groups@[k as int + 1]@));
                                assert(sum_amounts(outs_v(groups@[k as int + 1]@)) <= u64::MAX
                                    as int);
                            }
                            let amount = group_amount(&groups[k + 1]);
                            let restrict = copy_outputs(&groups[k + 1]);
                            let exclude = self.spent.to_vec();
                            let mut recipients: Vec<Recipient> = Vec::new();
                            recipients.push(Recipient { address: self.own_address, amount });
                            proof {
                                let gv = groups_v(groups@);
                                assert(self.spent@ + pending_sources(gv, k as int + 1) =~= old(
                                    self,
                                ).spent_refs() + pending_sources(gv, k as int));
                                assert(rcpts_v(recipients@) =~= seq![
                                    RecipientModel {
                                        address: self.own_address@,
                                        amount: sum_amounts(gv[k as int + 1]),
                                    },
                                ]);
                            }
                            self.state = Phase::ConsolidationBuilding { groups, k: k + 1 };
                            Action::Build {
                                recipients,
                                restrict: Some(restrict),
                                exclude,
                                live: false,
                            }
                        } else {
                            let count = groups.len();
                            Action::Finish {
                                outcome: SendOutcome::Consolidated { groups: count },
                            }
                        }
                    },
                    Err(se) => Action::Finish {
                        outcome: SendOutcome::ConsolidationFailed {
                            succeeded: k,
                            error: SendError::Submit(se),
                        },
                    },
                },
                _ => {
                    proof {
                        assert(false);
                    }
                    Action::Submit
                },
            },
        }
    }
}

/// Every group index of a chunking starts inside the list.
proof fn lemma_chunk_index_bound(n: int, cap: int, j: int)
    requires
        cap >= 1,
        n >= 0,
        0 <= j < chunk_count(n, cap),
    ensures
        j * cap < n,
{
    assert(n != 0);
    assert(j * cap < n) by (nonlinear_arith)
        requires
            cap >= 1,
            n > 0,
            0 <= j,
            j < (n + cap - 1) / cap,
    ;
}

/// One chunk of a list is never worth more than the whole list, and
/// never a negative amount.
proof fn lemma_chunk_sum(all: Seq<OutputModel>, cap: int, j: int)
    requires
        forall|m: int| 0 <= m < all.len() ==> (#[trigger] all[m]).amount >= 0,
        cap >= 1,
        0 <= j,
        j * cap <= all.len(),
    ensures
        sum_amounts(chunk_of(all, cap, j)) <= sum_amounts(all),
        sum_amounts(chunk_of(all, cap, j)) >= 0,
{
    assert(j * cap >= 0) by (nonlinear_arith)
        requires
            j >= 0,
            cap >= 1,
    ;
    assert((j + 1) * cap > j * cap) by (nonlinear_arith)
        requires
            cap >= 1,
    ;
    lemma_sum_subrange_le(
        all,
        j * cap,
        if (j + 1) * cap <= all.len() {
            (j + 1) * cap
        } else {
            all.len() as int
        },
    );
}

} // verus!
