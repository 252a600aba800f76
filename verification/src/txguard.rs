//! A guard that validates transfers between users before it applies them.
//!
//! A transfer is refused, in this order, where sender and receiver are the
//! same, where the amount is not positive, where the sender is unknown, where
//! the sender's balance is below the amount, and where the sender's previous
//! transfer is more recent than the guard's minimum interval.

use vstd::prelude::*;

verus! {

/// A user known to the guard.
pub struct User {
    pub id: String,
    pub balance: i64,
    pub last_tx_timestamp: u64,
}

/// The kinds of transaction.
#[derive(Clone, Copy, Debug, PartialEq, Eq, Structural)]
pub enum TxType {
    Transfer,
}

/// A transfer of `amount` from one user to another at `timestamp`.
pub struct Transaction {
    pub from: String,
    pub to: String,
    pub amount: i64,
    pub timestamp: u64,
    pub tx_type: TxType,
}

/// Why a transaction was refused.
#[derive(Clone, Copy, Debug, PartialEq, Eq, Structural)]
pub enum TxError {
    SameSenderReceiver,
    InvalidAmount,
    InsufficientBalance,
    RateLimitExceeded,
    UserNotFound,
}

/// The guard: its users, no two with the same id, and the least time that
/// must pass between two transfers of one sender.
pub struct TxGuard {
    users: Vec<User>,
    min_tx_interval: u64,
}

impl TxGuard {
    /// The users, in the order in which their ids were first added.
    pub closed spec fn users(&self) -> Seq<User> {
        self.users@
    }

    /// The least time between two transfers of one sender.
    pub closed spec fn min_interval(&self) -> u64 {
        self.min_tx_interval
    }

    /// No two users have the same id.
    pub open spec fn wf(&self) -> bool {
        forall|i: int, j: int|
            0 <= i < j < self.users().len() ==> (#[trigger] self.users()[i]).id@
                != (#[trigger] self.users()[j]).id@
    }

    /// Whether a user with this id is known.
    pub open spec fn has_user(&self, id: Seq<char>) -> bool {
        exists|i: int| 0 <= i < self.users().len() && (#[trigger] self.users()[i]).id@ == id
    }

    /// The position of the user with this id.
    pub open spec fn index_of(&self, id: Seq<char>) -> int {
        choose|i: int| 0 <= i < self.users().len() && (#[trigger] self.users()[i]).id@ == id
    }

    /// The balance of the user with this id.
    pub open spec fn balance_of(&self, id: Seq<char>) -> i64 {
        self.users()[self.index_of(id)].balance
    }

    /// When the user with this id last sent a transfer; 0 if never.
    pub open spec fn last_tx_of(&self, id: Seq<char>) -> u64 {
        self.users()[self.index_of(id)].last_tx_timestamp
    }

    /// Whether validation of `tx` gets as far as the rate check.
    pub open spec fn reaches_rate_check(&self, tx: &Transaction) -> bool {
        &&& tx.from@ != tx.to@
        &&& tx.amount > 0
        &&& self.has_user(tx.from@)
        &&& self.balance_of(tx.from@) >= tx.amount
    }

    /// What validation says of `tx`.
    pub open spec fn verdict(&self, tx: &Transaction) -> Result<(), TxError> {
        if tx.from@ == tx.to@ {
            Err(TxError::SameSenderReceiver)
        } else if tx.amount <= 0 {
            Err(TxError::InvalidAmount)
        } else if !self.has_user(tx.from@) {
            Err(TxError::UserNotFound)
        } else if self.balance_of(tx.from@) < tx.amount {
            Err(TxError::InsufficientBalance)
        } else if tx.timestamp - self.last_tx_of(tx.from@) < self.min_interval() {
            Err(TxError::RateLimitExceeded)
        } else {
            Ok(())
        }
    }

    /// What `validate` asks of its caller: where the rate check is reached,
    /// the transfer is not older than the sender's previous one.
    pub open spec fn can_validate(&self, tx: &Transaction) -> bool {
        self.reaches_rate_check(tx) ==> tx.timestamp >= self.last_tx_of(tx.from@)
    }

    /// What `execute` asks of its caller: what `validate` asks, and for a
    /// valid transfer a receiver that is known and whose new balance is a
    /// balance.
    pub open spec fn can_execute(&self, tx: &Transaction) -> bool {
        &&& self.can_validate(tx)
        &&& self.verdict(tx).is_ok() ==> self.has_user(tx.to@) && self.balance_of(tx.to@)
            + tx.amount <= i64::MAX
    }

    /// Whether all users but the one with `id` are in `other` as they are here.
    pub open spec fn same_users_but(&self, other: &TxGuard, id: Seq<char>) -> bool {
        forall|k: Seq<char>|
            k != id ==> (#[trigger] self.has_user(k) == other.has_user(k)) && (other.has_user(k)
                ==> self.balance_of(k) == other.balance_of(k) && self.last_tx_of(k)
                == other.last_tx_of(k))
    }

    /// A user at position `i` is the user of its id.
    pub proof fn lemma_index(&self, i: int)
        requires
            self.wf(),
            0 <= i < self.users().len(),
        ensures
            self.has_user(self.users()[i].id@),
            self.index_of(self.users()[i].id@) == i,
    {
        let id: Seq<char> = self.users()[i].id@;
        let j: int = self.index_of(id);
        if j < i {
            assert(self.users()[j].id@ != self.users()[i].id@);
        } else if i < j {
            assert(self.users()[i].id@ != self.users()[j].id@);
        }
    }

    /// A guard without users.
    pub fn new(min_tx_interval: u64) -> (r: TxGuard)
        ensures
            r.wf(),
            r.users().len() == 0,
            r.min_interval() == min_tx_interval,
    {
        TxGuard { users: Vec::new(), min_tx_interval }
    }

    /// Finds the position of the user with this id.
    fn find(&self, id: &String) -> (r: Option<usize>)
        requires
            self.wf(),
        ensures
            r.is_some() <==> self.has_user(id@),
            r matches Some(i) ==> i == self.index_of(id@) && i < self.users().len(),
    {
        let mut i: usize = 0;
        while i < self.users.len()
            invariant
                self.wf(),
                0 <= i <= self.users.len(),
                forall|k: int| 0 <= k < i ==> (#[trigger] self.users()[k]).id@ != id@,
            decreases self.users.len() - i,
        {
            if self.users[i].id == *id {
                proof {
                    self.lemma_index(i as int);
                }
                return Some(i);
            }
            i += 1;
        }
        None
    }

    /// Adds the user `id` with `balance`, or replaces the user of that id:
    /// either way the user has afterwards the balance given and has never
    /// sent a transfer. All other users stay as they are.
    pub fn add_user(&mut self, id: &str, balance: i64)
        requires
            old(self).wf(),
        ensures
            final(self).wf(),
            final(self).min_interval() == old(self).min_interval(),
            final(self).has_user(id@),
            final(self).balance_of(id@) == balance,
            final(self).last_tx_of(id@) == 0,
            final(self).same_users_but(old(self), id@),
            final(self).users().len() == old(self).users().len() + (if old(self).has_user(id@) {
                0int
            } else {
                1int
            }),
    {
        let key: String = id.to_owned();
        let user: User = User { id: id.to_owned(), balance, last_tx_timestamp: 0 };
        match self.find(&key) {
            Some(i) => {
                self.users[i] = user;
                proof {
                    Self::lemma_replaced(old(self), self, i as int);
                }
            },
            None => {
                self.users.push(user);
                proof {
                    let n: int = old(self).users().len() as int;
                    assert(self.users()[n].id@ == id@);
                    assert forall|a: int, b: int| 0 <= a < b < self.users().len() implies (
                    #[trigger] self.users()[a]).id@ != (#[trigger] self.users()[b]).id@ by {
                        assert(self.users()[a] == old(self).users()[a]);
                        if b < n {
                            assert(self.users()[b] == old(self).users()[b]);
                        }
                    }
                    self.lemma_index(n);
                    assert forall|k: Seq<char>| k != id@ implies (#[trigger] self.has_user(k)
                        == old(self).has_user(k)) && (old(self).has_user(k) ==> self.balance_of(k)
                        == old(self).balance_of(k) && self.last_tx_of(k) == old(self).last_tx_of(
                        k,
                    )) by {
                        if old(self).has_user(k) {
                            let j: int = old(self).index_of(k);
                            assert(self.users()[j] == old(self).users()[j]);
                            self.lemma_index(j);
                        }
                        if self.has_user(k) {
                            let j: int = self.index_of(k);
                            assert(j < n);
                            assert(self.users()[j] == old(self).users()[j]);
                        }
                    }
                }
            },
        }
    }

    /// What holds of a guard in which the user at position `i` changed its
    /// balance or timestamp at most.
    proof fn lemma_replaced(pre: &TxGuard, post: &TxGuard, i: int)
        requires
            pre.wf(),
            0 <= i < pre.users().len(),
            post.users().len() == pre.users().len(),
            post.users()[i].id@ == pre.users()[i].id@,
            forall|j: int|
                0 <= j < pre.users().len() && j != i ==> #[trigger] post.users()[j]
                    == pre.users()[j],
        ensures
            post.wf(),
            post.has_user(pre.users()[i].id@),
            post.index_of(pre.users()[i].id@) == i,
            post.same_users_but(pre, pre.users()[i].id@),
            forall|k: Seq<char>| #[trigger] post.has_user(k) == pre.has_user(k),
            forall|k: Seq<char>| pre.has_user(k) ==> #[trigger] post.index_of(k) == pre.index_of(k),
    {
        assert forall|a: int| 0 <= a < post.users().len() implies (#[trigger] post.users()[a]).id@
            == pre.users()[a].id@ by {}
        assert forall|a: int, b: int| 0 <= a < b < post.users().len() implies (
        #[trigger] post.users()[a]).id@ != (#[trigger] post.users()[b]).id@ by {
            assert(pre.users()[a].id@ != pre.users()[b].id@);
        }
        post.lemma_index(i);
        assert forall|k: Seq<char>| #[trigger] post.has_user(k) == pre.has_user(k) by {
            if pre.has_user(k) {
                let j: int = pre.index_of(k);
                assert(post.users()[j].id@ == k);
            }
            if post.has_user(k) {
                let j: int = post.index_of(k);
                assert(pre.users()[j].id@ == k);
            }
        }
        assert forall|k: Seq<char>| pre.has_user(k) implies #[trigger] post.index_of(k)
            == pre.index_of(k) by {
            let j: int = pre.index_of(k);
            assert(post.users()[j].id@ == k);
            post.lemma_index(j);
        }
        assert forall|k: Seq<char>| k != pre.users()[i].id@ implies (#[trigger] post.has_user(k)
            == pre.has_user(k)) && (pre.has_user(k) ==> post.balance_of(k) == pre.balance_of(k)
            && post.last_tx_of(k) == pre.last_tx_of(k)) by {
            if pre.has_user(k) {
                let j: int = pre.index_of(k);
                assert(post.index_of(k) == j);
                assert(post.users()[j] == pre.users()[j]);
            }
        }
    }

    /// Says whether `tx` may be applied, and if not, why; the checks come in
    /// the order of `verdict`. Where the rate check is reached, the transfer
    /// must not be older than the sender's previous one.
    pub fn validate(&self, tx: &Transaction) -> (r: Result<(), TxError>)
        requires
            self.wf(),
            self.can_validate(tx),
        ensures
            r == self.verdict(tx),
    {
        if tx.from == tx.to {
            return Err(TxError::SameSenderReceiver);
        }
        if tx.amount <= 0 {
            return Err(TxError::InvalidAmount);
        }
        let i: usize = match self.find(&tx.from) {
            Some(i) => i,
            None => {
                return Err(TxError::UserNotFound);
            },
        };
        if self.users[i].balance < tx.amount {
            return Err(TxError::InsufficientBalance);
        }
        if tx.timestamp - self.users[i].last_tx_timestamp < self.min_tx_interval {
            return Err(TxError::RateLimitExceeded);
        }
        Ok(())
    }

    /// Applies `tx` if it is valid: the amount moves from the sender to the
    /// receiver, and the sender's previous transfer is now this one. A
    /// transaction that is refused changes nothing. The receiver of a valid
    /// transfer must be known, and its new balance must be a balance.
    pub fn execute(&mut self, tx: Transaction) -> (r: Result<(), TxError>)
        requires
            old(self).wf(),
            old(self).can_execute(&tx),
        ensures
            final(self).wf(),
            final(self).min_interval() == old(self).min_interval(),
            r == old(self).verdict(&tx),
            r.is_err() ==> final(self).users() == old(self).users(),
            r.is_ok() ==> {
                &&& final(self).balance_of(tx.from@) == old(self).balance_of(tx.from@) - tx.amount
                &&& final(self).last_tx_of(tx.from@) == tx.timestamp
                &&& final(self).balance_of(tx.to@) == old(self).balance_of(tx.to@) + tx.amount
                &&& final(self).last_tx_of(tx.to@) == old(self).last_tx_of(tx.to@)
                &&& forall|k: Seq<char>| #[trigger] final(self).has_user(k) == old(self).has_user(k)
                &&& forall|k: Seq<char>|
                    k != tx.from@ && k != tx.to@ && old(self).has_user(k)
                        ==> #[trigger] final(self).balance_of(k) == old(self).balance_of(k)
                        && final(self).last_tx_of(k) == old(self).last_tx_of(k)
            },
    {
        match self.validate(&tx) {
            Err(e) => {
                return Err(e);
            },
            Ok(_) => {},
        }
        let sender: usize = match self.find(&tx.from) {
            Some(i) => i,
            None => {
                return Err(TxError::UserNotFound);
            },
        };
        let receiver: usize = match self.find(&tx.to) {
            Some(i) => i,
            None => {
                return Err(TxError::UserNotFound);
            },
        };
        let sender_balance: i64 = self.users[sender].balance;
        let receiver_balance: i64 = self.users[receiver].balance;
        self.users[sender].balance = sender_balance - tx.amount;
        self.users[sender].last_tx_timestamp = tx.timestamp;
        let ghost mid: TxGuard = *self;
        proof {
            Self::lemma_replaced(old(self), &mid, sender as int);
        }
        self.users[receiver].balance = receiver_balance + tx.amount;
        proof {
            Self::lemma_replaced(&mid, self, receiver as int);
            assert forall|k: Seq<char>|
                k != tx.from@ && k != tx.to@ && old(self).has_user(k)
                    implies #[trigger] self.balance_of(
                k,
            ) == old(self).balance_of(k) && self.last_tx_of(k) == old(self).last_tx_of(k) by {
                assert(mid.has_user(k));
            }
        }
        Ok(())
    }

    /// Tests what `validate` asks of its caller.
    pub fn may_validate(&self, tx: &Transaction) -> (r: bool)
        requires
            self.wf(),
        ensures
            r == self.can_validate(tx),
    {
        if tx.from == tx.to || tx.amount <= 0 {
            return true;
        }
        match self.find(&tx.from) {
            Some(i) => self.users[i].balance < tx.amount || tx.timestamp
                >= self.users[i].last_tx_timestamp,
            None => true,
        }
    }

    /// Tests what `execute` asks of its caller.
    pub fn may_execute(&self, tx: &Transaction) -> (r: bool)
        requires
            self.wf(),
        ensures
            r == self.can_execute(tx),
    {
        if !self.may_validate(tx) {
            return false;
        }
        match self.validate(tx) {
            Err(_) => true,
            Ok(_) => match self.find(&tx.to) {
                Some(i) => self.users[i].balance.checked_add(tx.amount).is_some(),
                None => false,
            },
        }
    }

    /// The least time between two transfers of one sender.
    pub fn min_tx_interval(&self) -> (r: u64)
        ensures
            r == self.min_interval(),
    {
        self.min_tx_interval
    }

    /// Number of users.
    pub fn user_count(&self) -> (r: usize)
        ensures
            r == self.users().len(),
    {
        self.users.len()
    }

    /// The balance of the user `id`, if there is one.
    pub fn balance(&self, id: &str) -> (r: Option<i64>)
        requires
            self.wf(),
        ensures
            r.is_some() <==> self.has_user(id@),
            r matches Some(b) ==> b == self.balance_of(id@),
    {
        let key: String = id.to_owned();
        match self.find(&key) {
            Some(i) => Some(self.users[i].balance),
            None => None,
        }
    }

    /// When the user `id` last sent a transfer, if there is such a user.
    pub fn last_tx_timestamp(&self, id: &str) -> (r: Option<u64>)
        requires
            self.wf(),
        ensures
            r.is_some() <==> self.has_user(id@),
            r matches Some(t) ==> t == self.last_tx_of(id@),
    {
        let key: String = id.to_owned();
        match self.find(&key) {
            Some(i) => Some(self.users[i].last_tx_timestamp),
            None => None,
        }
    }
}

} // verus!
