use snap_wallet::prompt::{pin_complete, pin_input_acceptable, pin_matches};
use snap_wallet::session::Session;

#[test]
fn pin_field_takes_up_to_six_digits() {
    assert!(pin_input_acceptable(""));
    assert!(pin_input_acceptable("123456"));
    assert!(!pin_input_acceptable("1234567"));
    assert!(!pin_input_acceptable("12a4"));
    assert!(!pin_input_acceptable("12 45"));
}

#[test]
fn entry_is_complete_at_six_digits() {
    assert!(!pin_complete("12345"));
    assert!(pin_complete("123456"));
}

#[test]
fn prompt_verdict_follows_the_stored_pin() {
    let stored = "123456".to_string();
    assert!(pin_matches(&"123456".to_string(), &stored));
    assert!(!pin_matches(&"654321".to_string(), &stored));
}

#[test]
fn fresh_session_owns_empty_components() {
    let s = Session::new();
    assert_eq!(s.wallets.len(), 0);
    assert_eq!(s.pin, "");
    assert!(s.send.is_none());
    let mut gate = s.gate;
    assert_eq!(gate.current(), None);
    assert_eq!(gate.resolve(true), None);
}
