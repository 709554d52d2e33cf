//! Plain data carried through the submission pipeline, and the ghost
//! models the contracts speak of.
//!
//! Addresses and transaction identifiers are 32-byte values; amounts are
//! integer nano units (the chain's smallest grain), so no floating point
//! is involved anywhere in the verified core.

use vstd::prelude::*;

verus! {

/// A reference to one transaction output: the identifier of the
/// transaction that created it and the index of the output within that
/// transaction. Two such references name the same output exactly when
/// both fields agree.
#[derive(Clone, Copy, Debug)]
pub struct InputRef {
    pub tx_id: [u8; 32],
    pub output_index: usize,
}

/// Ghost model of an [`InputRef`].
#[verifier::ext_equal]
pub ghost struct RefModel {
    pub tx_id: Seq<u8>,
    pub output_index: int,
}

impl View for InputRef {
    type V = RefModel;

    open spec fn view(&self) -> RefModel {
        RefModel { tx_id: self.tx_id@, output_index: self.output_index as int }
    }
}

/// One spendable (unspent) output of the wallet: where it sits on the
/// chain and how many nano units it is worth.
#[derive(Clone, Copy, Debug)]
pub struct SpendableOutput {
    pub source: InputRef,
    pub amount: u64,
}

/// Ghost model of a [`SpendableOutput`].
#[verifier::ext_equal]
pub ghost struct OutputModel {
    pub source: RefModel,
    pub amount: int,
}

impl View for SpendableOutput {
    type V = OutputModel;

    open spec fn view(&self) -> OutputModel {
        OutputModel { source: self.source@, amount: self.amount as int }
    }
}

/// A validated payee: a 32-byte address and a non-negative amount in
/// nano units.
#[derive(Clone, Copy, Debug)]
pub struct Recipient {
    pub address: [u8; 32],
    pub amount: u64,
}

/// Ghost model of a [`Recipient`].
#[verifier::ext_equal]
pub ghost struct RecipientModel {
    pub address: Seq<u8>,
    pub amount: int,
}

impl View for Recipient {
    type V = RecipientModel;

    open spec fn view(&self) -> RecipientModel {
        RecipientModel { address: self.address@, amount: self.amount as int }
    }
}

/// What the pipeline reads of a transaction returned by the external
/// builder: the set of inputs it consumes. Signatures, nonce and
/// proof-of-work stay with the driver.
#[derive(Clone, Debug)]
pub struct BuiltTx {
    pub inputs: Vec<InputRef>,
}

impl View for BuiltTx {
    type V = Seq<RefModel>;

    open spec fn view(&self) -> Seq<RefModel> {
        refs_v(self.inputs@)
    }
}

/// Failure reported by the external transaction builder. The pipeline
/// only ever inspects whether the failure is the recoverable
/// too-many-inputs case; every other message is surfaced verbatim.
#[derive(Clone, Debug)]
pub enum BuildError {
    /// The payment would need more inputs than one transaction may carry.
    TooManyInputs,
    /// Any other builder failure, carried verbatim.
    Other(String),
}

/// Failure reported when a transaction is submitted. The two levels are
/// distinguishable: a transport failure never reached the node's
/// validation, an application rejection did.
#[derive(Clone, Debug)]
pub enum SubmitError {
    Transport(String),
    Rejected(String),
}

/// Why a send attempt ended without a submitted payment.
#[derive(Clone, Debug)]
pub enum SendError {
    /// The recipient address at this position does not parse.
    InvalidAddress { index: usize },
    /// The recipient amount at this position does not parse.
    InvalidAmount { index: usize },
    /// The authorization request resolved `false` or was abandoned.
    Unauthorized,
    /// Even one consolidation group would need more inputs than a
    /// transaction may carry.
    TooManyInputs,
    /// A non-recoverable builder failure, verbatim.
    Build(String),
    /// A failure while computing proof-of-work, verbatim.
    Pow(String),
    /// The wallet's spendable outputs could not be fetched, verbatim.
    Fetch(String),
    /// The submission failed; no inputs were committed.
    Submit(SubmitError),
}

/// Terminal report of one send attempt.
#[derive(Clone, Debug)]
pub enum SendOutcome {
    /// The payment was submitted and its inputs were committed; the
    /// recipient form may be reset.
    Submitted,
    /// The attempt failed before anything was committed.
    Rejected(SendError),
    /// The wallet's outputs were merged into this many consolidation
    /// transactions; the payment must be resubmitted once they confirm.
    Consolidated { groups: usize },
    /// Consolidation stopped early: this many groups were submitted and
    /// committed before the error; the rest were left untouched.
    ConsolidationFailed { succeeded: usize, error: SendError },
}

/// The models of a sequence of input references.
pub open spec fn refs_v(s: Seq<InputRef>) -> Seq<RefModel> {
    s.map_values(|r: InputRef| r@)
}

/// The models of a sequence of spendable outputs.
pub open spec fn outs_v(s: Seq<SpendableOutput>) -> Seq<OutputModel> {
    s.map_values(|o: SpendableOutput| o@)
}

/// The models of a sequence of recipients.
pub open spec fn rcpts_v(s: Seq<Recipient>) -> Seq<RecipientModel> {
    s.map_values(|r: Recipient| r@)
}

/// The references consumed when these outputs are spent.
pub open spec fn sources_of(s: Seq<OutputModel>) -> Seq<RefModel> {
    s.map_values(|o: OutputModel| o.source)
}

/// Total worth of these outputs, in nano units.
pub open spec fn sum_amounts(s: Seq<OutputModel>) -> int
    decreases s.len(),
{
    if s.len() == 0 {
        0
    } else {
        s[0].amount + sum_amounts(s.drop_first())
    }
}

/// Whether the two input references name the same output.
pub fn input_ref_eq(a: &InputRef, b: &InputRef) -> (r: bool)
    ensures
        r == (a@ == b@),
{
    if a.output_index != b.output_index {
        return false;
    }
    let mut i: usize = 0;
    while i < 32
        invariant
            0 <= i <= 32,
            a.output_index == b.output_index,
            forall|j: int| 0 <= j < i ==> a.tx_id@[j] == b.tx_id@[j],
        decreases 32 - i,
    {
        if a.tx_id[i] != b.tx_id[i] {
            proof {
                assert(a@.tx_id[i as int] != b@.tx_id[i as int]);
            }
            return false;
        }
        i += 1;
    }
    proof {
        assert(a.tx_id@ =~= b.tx_id@);
        assert(a@ =~= b@);
    }
    true
}

} // verus!
