use customallocator::ledger::{can_credit, can_debit, credit, debit, Account};

fn account(balance: i64) -> Account {
    Account { id: String::from("alice"), balance }
}

#[test]
fn credit_adds_to_the_balance() {
    let mut alice = account(0);
    credit(&mut alice, 100);
    assert_eq!(alice.balance, 100);
    credit(&mut alice, -30);
    assert_eq!(alice.balance, 70);
    assert_eq!(alice.id, "alice");
}

#[test]
fn debit_takes_from_the_balance() {
    let mut alice = account(100);
    assert_eq!(debit(&mut alice, 40), Ok(()));
    assert_eq!(alice.balance, 60);
    assert_eq!(debit(&mut alice, 60), Ok(()));
    assert_eq!(alice.balance, 0);
}

#[test]
fn debit_refuses_more_than_the_balance() {
    let mut alice = account(10);
    assert_eq!(debit(&mut alice, 11), Err(String::from("Insufficient balance")));
    assert_eq!(alice.balance, 10);
    assert_eq!(alice.id, "alice");
}

#[test]
fn credit_then_debit_as_in_the_demo() {
    let mut alice = account(0);
    credit(&mut alice, 100);
    assert!(debit(&mut alice, 40).is_ok());
    assert_eq!(alice.balance, 60);
}

#[test]
fn credit_and_debit_tell_what_fits() {
    let rich = account(i64::MAX);
    assert!(!can_credit(&rich, 1));
    assert!(can_credit(&rich, 0));
    assert!(can_credit(&rich, -1));
    assert!(!can_credit(&account(i64::MIN), -1));
    assert!(can_debit(&rich, 1));
    assert!(!can_debit(&rich, -1));
    assert!(can_debit(&account(0), 1));
    assert!(can_debit(&account(-5), -4));
    assert!(can_debit(&account(i64::MIN), i64::MIN));
}
