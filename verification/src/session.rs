//! The one owned session value the surrounding program threads through
//! its surfaces, instead of ambient global state: the wallet set and
//! selection, the stored PIN, the authorization gate, and — once a
//! wallet is active — the submission pipeline with its spent-input
//! record.

use vstd::prelude::*;

use crate::auth::AuthGate;
use crate::pipeline::Pipeline;
use crate::wallets::WalletRegistry;

verus! {

/// Everything one running session owns.
pub struct Session {
    /// The named wallets and the selected one.
    pub wallets: WalletRegistry,
    /// The PIN that unlocked the session; the prompt compares entries
    /// against it.
    pub pin: String,
    /// The process-wide authorization gate.
    pub gate: AuthGate,
    /// The submission pipeline of the active wallet, once one is
    /// active.
    pub send: Option<Pipeline>,
}

impl Session {
    /// A fresh session: no wallets, no PIN, nothing pending, no
    /// pipeline.
    pub fn new() -> (s: Session)
        ensures
            s.wallets@ == Seq::<(Seq<char>, Seq<u8>)>::empty(),
            s.wallets.wf(),
            s.pin@ == Seq::<char>::empty(),
            s.gate.pending() == Seq::<u64>::empty(),
            s.gate.wf(),
            s.send is None,
    {
        Session { wallets: WalletRegistry::new(), pin: String::new(), gate: AuthGate::new(), send: None }
    }
}

} // verus!
