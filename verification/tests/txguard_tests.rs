use customallocator::txguard::{Transaction, TxError, TxGuard, TxType};

fn transfer(from: &str, to: &str, amount: i64, timestamp: u64) -> Transaction {
    Transaction {
        from: from.to_string(),
        to: to.to_string(),
        amount,
        timestamp,
        tx_type: TxType::Transfer,
    }
}

fn guard() -> TxGuard {
    let mut guard = TxGuard::new(10);
    guard.add_user("ram", 100);
    guard.add_user("raghu", 50);
    guard
}

#[test]
fn guard_starts_without_users() {
    let guard = TxGuard::new(10);
    assert_eq!(guard.user_count(), 0);
    assert_eq!(guard.balance("ram"), None);
}

#[test]
fn add_user_adds_or_replaces() {
    let mut guard = guard();
    assert_eq!(guard.user_count(), 2);
    assert_eq!(guard.balance("ram"), Some(100));
    assert_eq!(guard.balance("raghu"), Some(50));
    assert_eq!(guard.last_tx_timestamp("ram"), Some(0));
    guard.add_user("ram", 7);
    assert_eq!(guard.user_count(), 2);
    assert_eq!(guard.balance("ram"), Some(7));
    assert_eq!(guard.balance("raghu"), Some(50));
    assert_eq!(guard.balance("sita"), None);
}

#[test]
fn add_user_forgets_the_previous_transfer() {
    let mut guard = guard();
    assert_eq!(guard.execute(transfer("ram", "raghu", 30, 20)), Ok(()));
    assert_eq!(guard.last_tx_timestamp("ram"), Some(20));
    guard.add_user("ram", 100);
    assert_eq!(guard.last_tx_timestamp("ram"), Some(0));
}

#[test]
fn valid_transfer_is_approved_and_applied() {
    let mut guard = guard();
    let tx = transfer("ram", "raghu", 30, 20);
    assert_eq!(guard.validate(&tx), Ok(()));
    assert_eq!(guard.execute(tx), Ok(()));
    assert_eq!(guard.balance("ram"), Some(70));
    assert_eq!(guard.balance("raghu"), Some(80));
    assert_eq!(guard.last_tx_timestamp("ram"), Some(20));
    assert_eq!(guard.last_tx_timestamp("raghu"), Some(0));
}

#[test]
fn same_sender_and_receiver_is_refused() {
    let mut guard = guard();
    assert_eq!(guard.validate(&transfer("ram", "ram", 30, 20)), Err(TxError::SameSenderReceiver));
    assert_eq!(guard.validate(&transfer("nobody", "nobody", 0, 0)), Err(TxError::SameSenderReceiver));
    assert_eq!(guard.execute(transfer("ram", "ram", 30, 20)), Err(TxError::SameSenderReceiver));
    assert_eq!(guard.balance("ram"), Some(100));
}

#[test]
fn amount_must_be_positive() {
    let guard = guard();
    assert_eq!(guard.validate(&transfer("ram", "raghu", 0, 20)), Err(TxError::InvalidAmount));
    assert_eq!(guard.validate(&transfer("ram", "raghu", -5, 20)), Err(TxError::InvalidAmount));
    assert_eq!(guard.validate(&transfer("nobody", "raghu", -5, 20)), Err(TxError::InvalidAmount));
}

#[test]
fn unknown_sender_is_refused() {
    let mut guard = guard();
    assert_eq!(guard.validate(&transfer("sita", "raghu", 5, 20)), Err(TxError::UserNotFound));
    assert_eq!(guard.execute(transfer("sita", "raghu", 5, 20)), Err(TxError::UserNotFound));
    assert_eq!(guard.balance("raghu"), Some(50));
}

#[test]
fn balance_must_cover_the_amount() {
    let mut guard = guard();
    assert_eq!(guard.validate(&transfer("raghu", "ram", 51, 20)), Err(TxError::InsufficientBalance));
    assert_eq!(guard.validate(&transfer("raghu", "ram", 50, 20)), Ok(()));
    assert_eq!(guard.execute(transfer("raghu", "ram", 51, 20)), Err(TxError::InsufficientBalance));
    assert_eq!(guard.balance("raghu"), Some(50));
    assert_eq!(guard.balance("ram"), Some(100));
}

#[test]
fn transfers_must_be_spaced() {
    let mut guard = guard();
    assert_eq!(guard.validate(&transfer("ram", "raghu", 1, 9)), Err(TxError::RateLimitExceeded));
    assert_eq!(guard.validate(&transfer("ram", "raghu", 1, 10)), Ok(()));
    assert_eq!(guard.execute(transfer("ram", "raghu", 1, 10)), Ok(()));
    assert_eq!(guard.execute(transfer("ram", "raghu", 1, 19)), Err(TxError::RateLimitExceeded));
    assert_eq!(guard.balance("ram"), Some(99));
    assert_eq!(guard.last_tx_timestamp("ram"), Some(10));
    assert_eq!(guard.execute(transfer("ram", "raghu", 1, 20)), Ok(()));
    assert_eq!(guard.balance("ram"), Some(98));
    assert_eq!(guard.balance("raghu"), Some(52));
    assert_eq!(guard.execute(transfer("raghu", "ram", 2, 10)), Ok(()));
    assert_eq!(guard.balance("raghu"), Some(50));
}

#[test]
fn checks_come_in_order() {
    let guard = guard();
    assert_eq!(guard.validate(&transfer("ram", "raghu", 1000, 5)), Err(TxError::InsufficientBalance));
    assert_eq!(guard.validate(&transfer("sita", "raghu", 1000, 5)), Err(TxError::UserNotFound));
    assert_eq!(guard.validate(&transfer("sita", "sita", -1, 5)), Err(TxError::SameSenderReceiver));
}

#[test]
fn guard_tells_what_it_can_take() {
    let mut guard = guard();
    assert!(guard.may_validate(&transfer("ram", "raghu", 30, 0)));
    assert!(guard.may_execute(&transfer("ram", "raghu", 30, 20)));
    assert!(guard.may_execute(&transfer("ram", "ram", 30, 20)));
    assert!(guard.may_execute(&transfer("ram", "raghu", 1000, 20)));
    assert!(!guard.may_execute(&transfer("ram", "sita", 30, 20)));
    assert!(guard.may_execute(&transfer("ram", "sita", 30, 5)));
    assert_eq!(guard.execute(transfer("ram", "raghu", 30, 20)), Ok(()));
    assert!(!guard.may_validate(&transfer("ram", "raghu", 30, 19)));
    assert!(!guard.may_execute(&transfer("ram", "raghu", 30, 19)));
    assert!(guard.may_validate(&transfer("ram", "raghu", 300, 19)));
    guard.add_user("midas", i64::MAX);
    assert!(!guard.may_execute(&transfer("ram", "midas", 1, 40)));
    assert_eq!(guard.min_tx_interval(), 10);
}
