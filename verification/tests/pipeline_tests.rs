use snap_wallet::pipeline::{Action, Event, Pipeline};
use snap_wallet::types::{BuildError, BuiltTx, InputRef, SendError, SendOutcome, SpendableOutput, SubmitError};

fn valid_address() -> String {
    snap_coin::crypto::keys::Private::new_from_buf(&[7u8; 32]).to_public().dump_base36()
}

fn start_event(address: String, amount: &str) -> Event {
    Event::Start { recipients: vec![(address, amount.to_string())] }
}

fn output(index: usize, amount: u64) -> SpendableOutput {
    SpendableOutput { source: InputRef { tx_id: [3; 32], output_index: index }, amount }
}

#[test]
fn single_input_payment_commits_one_input() {
    // One recipient of 5.0 coins, funded by a single input: the send
    // succeeds, the spent set grows by exactly that input, and the
    // successful outcome tells the interface to reset the form.
    let mut p = Pipeline::new([1u8; 32], 150);
    let a = p.on_event(start_event(valid_address(), "5.0"));
    assert!(matches!(a, Action::RequestAuth));

    let a = p.on_event(Event::AuthResolved { accepted: true });
    match a {
        Action::Build { recipients, restrict, exclude, live } => {
            assert!(live);
            assert!(restrict.is_none());
            assert!(exclude.is_empty());
            assert_eq!(recipients.len(), 1);
            assert_eq!(recipients[0].amount, 500_000_000);
        },
        _ => panic!("expected a build request"),
    }

    let input = InputRef { tx_id: [2; 32], output_index: 0 };
    let a = p.on_event(Event::BuildDone { result: Ok(BuiltTx { inputs: vec![input] }) });
    assert!(matches!(a, Action::ComputePow { live: true }));

    let a = p.on_event(Event::PowDone { result: Ok(()) });
    assert!(matches!(a, Action::Submit));

    let a = p.on_event(Event::SubmitDone { result: Ok(()) });
    assert!(matches!(a, Action::Finish { outcome: SendOutcome::Submitted }));

    assert_eq!(p.spent_count(), 1);
    assert!(p.spent_contains(&input));
}

#[test]
fn decoded_address_reaches_the_builder() {
    // The base36 field "1" decodes to the 32-byte key 0...01: the build
    // request must carry those decoded bytes, not the field itself.
    let mut p = Pipeline::new([1u8; 32], 150);
    let a = p.on_event(start_event("1".to_string(), "2"));
    assert!(matches!(a, Action::RequestAuth));
    let a = p.on_event(Event::AuthResolved { accepted: true });
    match a {
        Action::Build { recipients, .. } => {
            let mut expected = [0u8; 32];
            expected[31] = 1;
            assert_eq!(recipients[0].address, expected);
            assert_eq!(recipients[0].amount, 200_000_000);
        },
        _ => panic!("expected a build request"),
    }
}

#[test]
fn invalid_address_is_named_and_nothing_happens() {
    let mut p = Pipeline::new([1u8; 32], 150);
    let a = p.on_event(Event::Start {
        recipients: vec![
            (valid_address(), "1.0".to_string()),
            ("!!not base36!!".to_string(), "1.0".to_string()),
        ],
    });
    match a {
        Action::Finish { outcome: SendOutcome::Rejected(SendError::InvalidAddress { index }) } => {
            assert_eq!(index, 1);
        },
        _ => panic!("expected the second address to be refused"),
    }
    assert_eq!(p.spent_count(), 0);
}

#[test]
fn invalid_amount_is_named_and_nothing_happens() {
    let mut p = Pipeline::new([1u8; 32], 150);
    let a = p.on_event(Event::Start {
        recipients: vec![(valid_address(), "12e4".to_string())],
    });
    match a {
        Action::Finish { outcome: SendOutcome::Rejected(SendError::InvalidAmount { index }) } => {
            assert_eq!(index, 0);
        },
        _ => panic!("expected the amount to be refused"),
    }
}

#[test]
fn dismissed_authorization_makes_no_network_call() {
    // The prompt was dismissed: the attempt ends as unauthorized and no
    // build, proof-of-work or submission was ever requested.
    let mut gate = snap_wallet::auth::AuthGate::new();
    let mut p = Pipeline::new([1u8; 32], 150);
    let a = p.on_event(start_event(valid_address(), "1.0"));
    assert!(matches!(a, Action::RequestAuth));
    let ticket = gate.request_confirmation();
    let delivered = gate.resolve(false); // dismissal resolves false
    assert_eq!(delivered, Some((ticket, false)));
    let a = p.on_event(Event::AuthResolved { accepted: false });
    assert!(matches!(
        a,
        Action::Finish { outcome: SendOutcome::Rejected(SendError::Unauthorized) }
    ));
    assert_eq!(p.spent_count(), 0);
}

#[test]
fn build_failure_is_surfaced_verbatim() {
    let mut p = Pipeline::new([1u8; 32], 150);
    p.on_event(start_event(valid_address(), "1.0"));
    p.on_event(Event::AuthResolved { accepted: true });
    let a = p.on_event(Event::BuildDone {
        result: Err(BuildError::Other("Insufficient funds to complete operation".to_string())),
    });
    match a {
        Action::Finish { outcome: SendOutcome::Rejected(SendError::Build(m)) } => {
            assert_eq!(m, "Insufficient funds to complete operation");
        },
        _ => panic!("expected the builder's message verbatim"),
    }
    assert_eq!(p.spent_count(), 0);
}

#[test]
fn submit_failure_commits_nothing() {
    let mut p = Pipeline::new([1u8; 32], 150);
    p.on_event(start_event(valid_address(), "1.0"));
    p.on_event(Event::AuthResolved { accepted: true });
    let input = InputRef { tx_id: [2; 32], output_index: 4 };
    p.on_event(Event::BuildDone { result: Ok(BuiltTx { inputs: vec![input] }) });
    p.on_event(Event::PowDone { result: Ok(()) });
    let a = p.on_event(Event::SubmitDone {
        result: Err(SubmitError::Rejected("double spend".to_string())),
    });
    match a {
        Action::Finish {
            outcome: SendOutcome::Rejected(SendError::Submit(SubmitError::Rejected(m))),
        } => {
            assert_eq!(m, "double spend");
        },
        _ => panic!("expected the node's rejection verbatim"),
    }
    // The inputs were not committed, so a retry may use them again.
    assert_eq!(p.spent_count(), 0);
    assert!(!p.spent_contains(&input));
}

#[test]
fn committed_inputs_are_refused_when_offered_again() {
    // A second attempt whose builder hands back an input the first
    // attempt already committed is stopped before proof-of-work.
    let mut p = Pipeline::new([1u8; 32], 150);
    let input = InputRef { tx_id: [2; 32], output_index: 0 };
    p.on_event(start_event(valid_address(), "1.0"));
    p.on_event(Event::AuthResolved { accepted: true });
    p.on_event(Event::BuildDone { result: Ok(BuiltTx { inputs: vec![input] }) });
    p.on_event(Event::PowDone { result: Ok(()) });
    p.on_event(Event::SubmitDone { result: Ok(()) });
    assert_eq!(p.spent_count(), 1);

    p.on_event(start_event(valid_address(), "1.0"));
    let a = p.on_event(Event::AuthResolved { accepted: true });
    match a {
        Action::Build { exclude, .. } => {
            // The committed input is on the exclusion list handed to
            // the builder.
            assert!(exclude.iter().any(|r| r.tx_id == input.tx_id
                && r.output_index == input.output_index));
        },
        _ => panic!("expected a build request"),
    }
    let a = p.on_event(Event::BuildDone { result: Ok(BuiltTx { inputs: vec![input] }) });
    assert!(matches!(
        a,
        Action::Finish { outcome: SendOutcome::Rejected(SendError::Build(_)) }
    ));
    assert_eq!(p.spent_count(), 1);
}

#[test]
fn fragmented_wallet_consolidates_in_four_ordered_groups() {
    // Fifty outputs of 0.1 each, sixteen inputs per transaction at
    // most: the payment overflows, consolidation splits the wallet
    // into ceil(50/15) = 4 groups and submits four self-payments in
    // order, then asks the user to resubmit.
    let own = [1u8; 32];
    let mut p = Pipeline::new(own, 16);
    p.on_event(start_event(valid_address(), "4.0"));
    p.on_event(Event::AuthResolved { accepted: true });
    let a = p.on_event(Event::BuildDone { result: Err(BuildError::TooManyInputs) });
    assert!(matches!(a, Action::FetchOutputs));

    let outputs: Vec<SpendableOutput> = (0..50).map(|i| output(i, 10_000_000)).collect();
    let mut a = p.on_event(Event::OutputsFetched { result: Ok(outputs) });
    let expected_sizes = [15usize, 15, 15, 5];
    for (round, expected_size) in expected_sizes.iter().enumerate() {
        let group = match a {
            Action::Build { recipients, restrict, live, .. } => {
                assert!(!live, "consolidation runs at background priority");
                assert_eq!(recipients.len(), 1);
                assert_eq!(recipients[0].address, own, "self-payment goes to the wallet");
                let group = restrict.expect("consolidation restricts the builder to the group");
                assert_eq!(group.len(), *expected_size);
                assert_eq!(
                    recipients[0].amount,
                    group.iter().map(|o| o.amount).sum::<u64>(),
                    "the self-payment is worth the whole group"
                );
                // Groups come in the network's reported order.
                assert_eq!(group[0].source.output_index, round * 15);
                group
            },
            _ => panic!("expected a build request for group {round}"),
        };
        let inputs: Vec<InputRef> = group.iter().map(|o| o.source).collect();
        let b = p.on_event(Event::BuildDone { result: Ok(BuiltTx { inputs }) });
        assert!(matches!(b, Action::ComputePow { live: false }));
        let b = p.on_event(Event::PowDone { result: Ok(()) });
        assert!(matches!(b, Action::Submit));
        a = p.on_event(Event::SubmitDone { result: Ok(()) });
        assert_eq!(p.spent_count(), 15 * round + expected_size);
    }
    match a {
        Action::Finish { outcome: SendOutcome::Consolidated { groups } } => {
            assert_eq!(groups, 4, "the user is told four merge transactions need confirmation");
        },
        _ => panic!("expected the consolidation report"),
    }
    assert_eq!(p.spent_count(), 50);
}

#[test]
fn consolidation_failure_keeps_earlier_groups_only() {
    // The second group's submission fails: the first group stays
    // committed, the failing group and the later ones stay untouched
    // and eligible for a future pass.
    let own = [1u8; 32];
    let mut p = Pipeline::new(own, 16);
    p.on_event(start_event(valid_address(), "4.0"));
    p.on_event(Event::AuthResolved { accepted: true });
    p.on_event(Event::BuildDone { result: Err(BuildError::TooManyInputs) });
    let outputs: Vec<SpendableOutput> = (0..50).map(|i| output(i, 10_000_000)).collect();

    // Group 0 merges cleanly.
    let a = p.on_event(Event::OutputsFetched { result: Ok(outputs.clone()) });
    let group0 = match a {
        Action::Build { restrict, .. } => restrict.unwrap(),
        _ => panic!("expected a build request"),
    };
    p.on_event(Event::BuildDone {
        result: Ok(BuiltTx { inputs: group0.iter().map(|o| o.source).collect() }),
    });
    p.on_event(Event::PowDone { result: Ok(()) });
    let a = p.on_event(Event::SubmitDone { result: Ok(()) });

    // Group 1 is built and mined, but the node refuses it.
    let group1 = match a {
        Action::Build { restrict, .. } => restrict.unwrap(),
        _ => panic!("expected a build request for the second group"),
    };
    p.on_event(Event::BuildDone {
        result: Ok(BuiltTx { inputs: group1.iter().map(|o| o.source).collect() }),
    });
    p.on_event(Event::PowDone { result: Ok(()) });
    let a = p.on_event(Event::SubmitDone {
        result: Err(SubmitError::Transport("connection reset".to_string())),
    });
    match a {
        Action::Finish {
            outcome: SendOutcome::ConsolidationFailed { succeeded, error: SendError::Submit(_) },
        } => {
            assert_eq!(succeeded, 1, "exactly one group was merged before the failure");
        },
        _ => panic!("expected the partial-failure report"),
    }
    assert_eq!(p.spent_count(), 15);
    for o in &group0 {
        assert!(p.spent_contains(&o.source));
    }
    for o in &group1 {
        assert!(!p.spent_contains(&o.source), "the failing group stays eligible");
    }
}

#[test]
fn consolidation_with_nothing_spendable_reports_zero_groups() {
    let mut p = Pipeline::new([1u8; 32], 16);
    p.on_event(start_event(valid_address(), "4.0"));
    p.on_event(Event::AuthResolved { accepted: true });
    p.on_event(Event::BuildDone { result: Err(BuildError::TooManyInputs) });
    let a = p.on_event(Event::OutputsFetched { result: Ok(Vec::new()) });
    assert!(matches!(
        a,
        Action::Finish { outcome: SendOutcome::Consolidated { groups: 0 } }
    ));
}

#[test]
fn consolidation_skips_outputs_already_spent_by_this_session() {
    // The node still reports the input the first send consumed; the
    // consolidation pass must not offer it to the builder again.
    let own = [1u8; 32];
    let mut p = Pipeline::new(own, 16);
    let committed = InputRef { tx_id: [3; 32], output_index: 0 };
    p.on_event(start_event(valid_address(), "1.0"));
    p.on_event(Event::AuthResolved { accepted: true });
    p.on_event(Event::BuildDone { result: Ok(BuiltTx { inputs: vec![committed] }) });
    p.on_event(Event::PowDone { result: Ok(()) });
    p.on_event(Event::SubmitDone { result: Ok(()) });
    assert_eq!(p.spent_count(), 1);

    p.on_event(start_event(valid_address(), "4.0"));
    p.on_event(Event::AuthResolved { accepted: true });
    p.on_event(Event::BuildDone { result: Err(BuildError::TooManyInputs) });
    // The report includes the already-spent output 0 and sixteen fresh ones.
    let outputs: Vec<SpendableOutput> = (0..17).map(|i| output(i, 10_000_000)).collect();
    let a = p.on_event(Event::OutputsFetched { result: Ok(outputs) });
    match a {
        Action::Build { restrict, .. } => {
            let group = restrict.unwrap();
            assert_eq!(group.len(), 15);
            assert!(group.iter().all(|o| o.source.output_index != 0));
        },
        _ => panic!("expected a build request"),
    }
}

#[test]
fn pow_failure_is_surfaced_and_commits_nothing() {
    let mut p = Pipeline::new([1u8; 32], 150);
    p.on_event(start_event(valid_address(), "1.0"));
    p.on_event(Event::AuthResolved { accepted: true });
    let input = InputRef { tx_id: [2; 32], output_index: 0 };
    p.on_event(Event::BuildDone { result: Ok(BuiltTx { inputs: vec![input] }) });
    let a = p.on_event(Event::PowDone { result: Err("encode error".to_string()) });
    match a {
        Action::Finish { outcome: SendOutcome::Rejected(SendError::Pow(m)) } => {
            assert_eq!(m, "encode error");
        },
        _ => panic!("expected the proof-of-work failure verbatim"),
    }
    assert_eq!(p.spent_count(), 0);
}

#[test]
fn consolidation_build_overflow_stops_the_pass() {
    let mut p = Pipeline::new([1u8; 32], 16);
    p.on_event(start_event(valid_address(), "4.0"));
    p.on_event(Event::AuthResolved { accepted: true });
    p.on_event(Event::BuildDone { result: Err(BuildError::TooManyInputs) });
    let outputs: Vec<SpendableOutput> = (0..20).map(|i| output(i, 1)).collect();
    p.on_event(Event::OutputsFetched { result: Ok(outputs) });
    let a = p.on_event(Event::BuildDone { result: Err(BuildError::TooManyInputs) });
    match a {
        Action::Finish {
            outcome:
                SendOutcome::ConsolidationFailed { succeeded, error: SendError::TooManyInputs },
        } => {
            assert_eq!(succeeded, 0);
        },
        _ => panic!("expected the pass to stop before any group was merged"),
    }
    assert_eq!(p.spent_count(), 0);
}

#[test]
fn consolidation_rejects_a_selection_beside_the_group() {
    // The builder hands back inputs other than the group it was
    // restricted to: the pass stops rather than commit the wrong ones.
    let mut p = Pipeline::new([1u8; 32], 16);
    p.on_event(start_event(valid_address(), "4.0"));
    p.on_event(Event::AuthResolved { accepted: true });
    p.on_event(Event::BuildDone { result: Err(BuildError::TooManyInputs) });
    let outputs: Vec<SpendableOutput> = (0..20).map(|i| output(i, 1)).collect();
    p.on_event(Event::OutputsFetched { result: Ok(outputs) });
    let stray = InputRef { tx_id: [8; 32], output_index: 99 };
    let a = p.on_event(Event::BuildDone { result: Ok(BuiltTx { inputs: vec![stray] }) });
    match a {
        Action::Finish {
            outcome: SendOutcome::ConsolidationFailed { succeeded, error: SendError::Build(_) },
        } => {
            assert_eq!(succeeded, 0);
        },
        _ => panic!("expected the stray selection to be refused"),
    }
    assert_eq!(p.spent_count(), 0);
}

#[test]
fn consolidation_fetch_failure_is_reported_with_nothing_merged() {
    let mut p = Pipeline::new([1u8; 32], 16);
    p.on_event(start_event(valid_address(), "4.0"));
    p.on_event(Event::AuthResolved { accepted: true });
    p.on_event(Event::BuildDone { result: Err(BuildError::TooManyInputs) });
    let a = p.on_event(Event::OutputsFetched { result: Err("node unreachable".to_string()) });
    match a {
        Action::Finish {
            outcome: SendOutcome::ConsolidationFailed { succeeded, error: SendError::Fetch(m) },
        } => {
            assert_eq!(succeeded, 0);
            assert_eq!(m, "node unreachable");
        },
        _ => panic!("expected the fetch failure to end the pass"),
    }
    assert_eq!(p.spent_count(), 0);
}
