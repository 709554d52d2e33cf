use snap_wallet::wallets::WalletRegistry;

#[test]
fn inserting_needs_a_fresh_nonempty_name() {
    let mut w = WalletRegistry::new();
    assert!(w.insert("Main Wallet".to_string(), [1; 32]));
    assert!(!w.insert("Main Wallet".to_string(), [2; 32]), "a taken name is refused");
    assert!(!w.insert("".to_string(), [3; 32]), "an empty name is refused");
    assert_eq!(w.len(), 1);
    assert_eq!(w.get(&"Main Wallet".to_string()), Some([1; 32]));
    assert_eq!(w.get(&"Other".to_string()), None);
}

#[test]
fn selection_follows_a_rename() {
    let mut w = WalletRegistry::new();
    w.insert("Old".to_string(), [1; 32]);
    w.insert("Other".to_string(), [2; 32]);
    assert!(w.select(&"Old".to_string()));
    assert!(w.rename(&"Old".to_string(), "New".to_string()));
    assert_eq!(w.selected().as_str(), "New");
    assert_eq!(w.get(&"New".to_string()), Some([1; 32]));
    assert_eq!(w.get(&"Old".to_string()), None);
}

#[test]
fn renaming_to_a_taken_name_is_refused() {
    let mut w = WalletRegistry::new();
    w.insert("A".to_string(), [1; 32]);
    w.insert("B".to_string(), [2; 32]);
    assert!(!w.rename(&"A".to_string(), "B".to_string()));
    assert!(!w.rename(&"A".to_string(), "".to_string()));
    assert!(w.rename(&"A".to_string(), "A".to_string()), "renaming to itself is allowed");
    assert_eq!(w.get(&"A".to_string()), Some([1; 32]));
}

#[test]
fn deleting_the_selected_wallet_falls_back_to_the_first() {
    let mut w = WalletRegistry::new();
    w.insert("A".to_string(), [1; 32]);
    w.insert("B".to_string(), [2; 32]);
    w.insert("C".to_string(), [3; 32]);
    assert!(w.select(&"B".to_string()));
    assert!(w.remove(&"B".to_string()));
    assert_eq!(w.selected().as_str(), "A", "the first remaining wallet becomes selected");
    assert_eq!(w.len(), 2);
}

#[test]
fn deleting_the_last_wallet_clears_the_selection() {
    let mut w = WalletRegistry::new();
    w.insert("Only".to_string(), [1; 32]);
    w.select(&"Only".to_string());
    assert!(w.remove(&"Only".to_string()));
    assert_eq!(w.selected().as_str(), "");
    assert!(!w.remove(&"Only".to_string()), "a missing wallet cannot be deleted");
}

#[test]
fn deleting_an_unselected_wallet_keeps_the_selection() {
    let mut w = WalletRegistry::new();
    w.insert("A".to_string(), [1; 32]);
    w.insert("B".to_string(), [2; 32]);
    w.select(&"A".to_string());
    assert!(w.remove(&"B".to_string()));
    assert_eq!(w.selected().as_str(), "A");
}

#[test]
fn entries_keep_insertion_order() {
    let mut w = WalletRegistry::new();
    w.insert("A".to_string(), [1; 32]);
    w.insert("B".to_string(), [2; 32]);
    let (name0, key0) = w.entry_at(0);
    let (name1, key1) = w.entry_at(1);
    assert_eq!((name0.as_str(), key0), ("A", [1; 32]));
    assert_eq!((name1.as_str(), key1), ("B", [2; 32]));
}
