//! A ledger account and the two ways to move its balance.

use vstd::prelude::*;

verus! {

/// An account with a signed balance.
pub struct Account {
    pub id: String,
    pub balance: i64,
}

/// What `debit` answers where the balance is below the amount.
pub open spec fn insufficient_balance() -> Seq<char> {
    "Insufficient balance"@
}

/// Whether `amount` can be added to the balance: the sum is a balance.
pub open spec fn credit_fits(account: &Account, amount: i64) -> bool {
    i64::MIN <= account.balance + amount <= i64::MAX
}

/// Whether `amount` can be asked of the account: where the balance covers
/// it, the difference is a balance.
pub open spec fn debit_fits(account: &Account, amount: i64) -> bool {
    account.balance >= amount ==> account.balance - amount <= i64::MAX
}

/// Tests what `credit` asks of its caller.
pub fn can_credit(account: &Account, amount: i64) -> (r: bool)
    ensures
        r == credit_fits(account, amount),
{
    account.balance.checked_add(amount).is_some()
}

/// Tests what `debit` asks of its caller.
pub fn can_debit(account: &Account, amount: i64) -> (r: bool)
    ensures
        r == debit_fits(account, amount),
{
    account.balance < amount || account.balance.checked_sub(amount).is_some()
}

/// Adds `amount` to the balance. The sum must be a balance.
pub fn credit(account: &mut Account, amount: i64)
    requires
        credit_fits(old(account), amount),
    ensures
        final(account).balance == old(account).balance + amount,
        final(account).id == old(account).id,
{
    account.balance += amount;
}

/// Takes `amount` from the balance, unless the balance is below it: then the
/// account stays as it is and the answer says so. The difference must be a
/// balance.
pub fn debit(account: &mut Account, amount: i64) -> (r: Result<(), String>)
    requires
        debit_fits(old(account), amount),
    ensures
        r.is_err() <==> old(account).balance < amount,
        r matches Err(message) ==> message@ == insufficient_balance()
            && *final(account) == *old(account),
        r.is_ok() ==> final(account).balance == old(account).balance - amount
            && final(account).id == old(account).id,
{
    if account.balance < amount {
        return Err("Insufficient balance".to_owned());
    }
    account.balance -= amount;
    Ok(())
}

} // verus!
