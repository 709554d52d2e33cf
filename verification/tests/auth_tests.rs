use snap_wallet::auth::AuthGate;

#[test]
fn fresh_gate_shows_nothing() {
    let gate = AuthGate::new();
    assert_eq!(gate.current(), None);
}

#[test]
fn one_request_is_visible_until_resolved() {
    let mut gate = AuthGate::new();
    let t = gate.request_confirmation();
    assert_eq!(gate.current(), Some(t));
    let delivered = gate.resolve(true);
    assert_eq!(delivered, Some((t, true)));
    assert_eq!(gate.current(), None);
}

#[test]
fn dismissal_delivers_false_to_the_original_caller() {
    // The prompt is dismissed without a PIN: the visible request — the
    // one its caller is suspended on — resolves false, never true.
    let mut gate = AuthGate::new();
    let t = gate.request_confirmation();
    let delivered = gate.resolve(false);
    assert_eq!(delivered, Some((t, false)));
}

#[test]
fn queued_requests_are_served_one_at_a_time() {
    let mut gate = AuthGate::new();
    let t1 = gate.request_confirmation();
    let t2 = gate.request_confirmation();
    assert_ne!(t1, t2);
    // Only the first request is visible while both are pending.
    assert_eq!(gate.current(), Some(t1));
    assert_eq!(gate.resolve(false), Some((t1, false)));
    // Now the second, and only the second, is visible.
    assert_eq!(gate.current(), Some(t2));
    assert_eq!(gate.resolve(true), Some((t2, true)));
    assert_eq!(gate.current(), None);
}

#[test]
fn resolving_an_empty_gate_is_a_no_op() {
    let mut gate = AuthGate::new();
    assert_eq!(gate.resolve(true), None);
    assert_eq!(gate.resolve(false), None);
}
