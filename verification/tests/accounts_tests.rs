use mpkg::PkgError;
use mpkg::accounts::Accounts;

#[test]
fn register_then_authenticate() {
    let mut accounts = Accounts::new();
    accounts
        .register_user("alice".to_string(), "wonder".to_string())
        .unwrap();
    assert!(accounts.authenticate("alice", "wonder"));
    assert!(!accounts.authenticate("alice", "wrong"));
    assert!(!accounts.authenticate("bob", "wonder"));
}

#[test]
fn duplicate_username_is_a_conflict() {
    let mut accounts = Accounts::new();
    accounts
        .register_user("alice".to_string(), "one".to_string())
        .unwrap();
    assert_eq!(
        accounts.register_user("alice".to_string(), "two".to_string()),
        Err(PkgError::Conflict)
    );
    assert!(accounts.authenticate("alice", "one"));
    assert!(!accounts.authenticate("alice", "two"));
}

#[test]
fn empty_book_authenticates_nobody() {
    let accounts = Accounts::new();
    assert!(!accounts.authenticate("anyone", ""));
}
