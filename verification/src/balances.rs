//! The payment capability: a ledger of account balances with an atomic
//! balance transfer.  `buy` uses it to move exactly the stored price from the
//! buyer to the seller; a rejected transfer leaves both balances unchanged.

use crate::types::Error;
use vstd::prelude::*;

verus! {

/// A ledger mapping accounts to their free balance.  Accounts without an
/// entry hold a balance of 0.
pub struct Balances {
    accounts: Vec<(u64, u64)>,
}

impl Balances {
    /// Each account appears at most once.
    pub closed spec fn wf(self) -> bool {
        forall|i: int, j: int|
            0 <= i < j < self.accounts@.len() ==> (#[trigger] self.accounts@[i]).0 != (
            #[trigger] self.accounts@[j]).0
    }

    closed spec fn has_acct(self, a: u64) -> bool {
        exists|i: int| 0 <= i < self.accounts@.len() && (#[trigger] self.accounts@[i]).0 == a
    }

    closed spec fn acct_at(self, a: u64) -> int {
        choose|i: int| 0 <= i < self.accounts@.len() && (#[trigger] self.accounts@[i]).0 == a
    }

    /// The balance currently held by `a`.
    pub closed spec fn balance_of(self, a: u64) -> u64 {
        if self.has_acct(a) {
            self.accounts@[self.acct_at(a)].1
        } else {
            0
        }
    }

    proof fn lemma_acct_unique(self, a: u64, i: int)
        requires
            self.wf(),
            0 <= i < self.accounts@.len(),
            self.accounts@[i].0 == a,
        ensures
            self.has_acct(a),
            self.acct_at(a) == i,
            self.balance_of(a) == self.accounts@[i].1,
    {
        assert(self.has_acct(a));
        let j = self.acct_at(a);
        if j < i {
            assert(self.accounts@[j].0 != self.accounts@[i].0);
        } else if j > i {
            assert(self.accounts@[i].0 != self.accounts@[j].0);
        }
    }

    /// An empty ledger: every account holds 0.
    pub fn new() -> (r: Balances)
        ensures
            r.wf(),
            forall|a: u64| r.balance_of(a) == 0,
    {
        Balances { accounts: Vec::new() }
    }

    fn find(&self, a: u64) -> (r: Option<usize>)
        requires
            self.wf(),
        ensures
            match r {
                Some(i) => i < self.accounts@.len() && self.accounts@[i as int].0 == a
                    && self.has_acct(a) && self.acct_at(a) == i
                    && self.balance_of(a) == self.accounts@[i as int].1,
                None => !self.has_acct(a) && self.balance_of(a) == 0,
            },
    {
        let n = self.accounts.len();
        let mut i: usize = 0;
        while i < n
            invariant
                i <= n,
                n == self.accounts@.len(),
                self.wf(),
                forall|j: int| 0 <= j < i ==> (#[trigger] self.accounts@[j]).0 != a,
            decreases n - i,
        {
            if self.accounts[i].0 == a {
                proof {
                    self.lemma_acct_unique(a, i as int);
                }
                return Some(i);
            }
            i += 1;
        }
        None
    }

    /// The free balance of `a` (0 for accounts never funded).
    pub fn free_balance(&self, a: u64) -> (r: u64)
        requires
            self.wf(),
        ensures
            r == self.balance_of(a),
    {
        match self.find(a) {
            Some(i) => self.accounts[i].1,
            None => 0,
        }
    }

    fn set_balance(&mut self, i: usize, amount: u64)
        requires
            old(self).wf(),
            i < old(self).accounts@.len(),
        ensures
            final(self).accounts@ == old(self).accounts@.update(
                i as int,
                (old(self).accounts@[i as int].0, amount),
            ),
            final(self).wf(),
            final(self).balance_of(old(self).accounts@[i as int].0) == amount,
            forall|b: u64|
                b != old(self).accounts@[i as int].0 ==> final(self).balance_of(b) == old(
                    self,
                ).balance_of(b),
    {
        let a = self.accounts[i].0;
        let entry = self.accounts.remove(i);
        self.accounts.insert(i, (entry.0, amount));
        proof {
            assert(self.accounts@ =~= old(self).accounts@.update(
                i as int,
                (old(self).accounts@[i as int].0, amount),
            ));
            assert forall|p: int, q: int| 0 <= p < q < self.accounts@.len() implies (
            #[trigger] self.accounts@[p]).0 != (#[trigger] self.accounts@[q]).0 by {
                assert(self.accounts@[p].0 == old(self).accounts@[p].0);
                assert(self.accounts@[q].0 == old(self).accounts@[q].0);
            }
            self.lemma_acct_unique(a, i as int);
            assert forall|b: u64| b != a implies self.balance_of(b) == old(self).balance_of(b) by {
                if self.has_acct(b) {
                    let j = self.acct_at(b);
                    old(self).lemma_acct_unique(b, j);
                    self.lemma_acct_unique(b, j);
                } else {
                    if old(self).has_acct(b) {
                        let j = old(self).acct_at(b);
                        assert(self.accounts@[j].0 == b);
                    }
                }
            }
        }
    }

    /// Funds `a` with `amount` more units.  Fails with `Overflow`, changing
    /// nothing, exactly when the new balance would not be representable.
    pub fn deposit(&mut self, a: u64, amount: u64) -> (r: Result<(), Error>)
        requires
            old(self).wf(),
        ensures
            final(self).wf(),
            r is Ok <==> old(self).balance_of(a) + amount <= u64::MAX,
            r is Err ==> *final(self) == *old(self) && r == Err::<(), Error>(Error::Overflow),
            r is Ok ==> final(self).balance_of(a) == old(self).balance_of(a) + amount && forall|
                b: u64,
            |
                b != a ==> final(self).balance_of(b) == old(self).balance_of(b),
    {
        match self.find(a) {
            Some(i) => {
                let cur = self.accounts[i].1;
                match cur.checked_add(amount) {
                    Some(total) => {
                        self.set_balance(i, total);
                        Ok(())
                    },
                    None => Err(Error::Overflow),
                }
            },
            None => {
                let ghost pre = *self;
                let n = self.accounts.len();
                self.accounts.push((a, amount));
                proof {
                    assert forall|p: int, q: int| 0 <= p < q < self.accounts@.len() implies (
                    #[trigger] self.accounts@[p]).0 != (#[trigger] self.accounts@[q]).0 by {
                        if q < n {
                            assert(pre.accounts@[p].0 != pre.accounts@[q].0);
                        } else {
                            assert(self.accounts@[q].0 == a);
                            assert(pre.accounts@[p].0 != a) by {
                                if pre.accounts@[p].0 == a {
                                    pre.lemma_acct_unique(a, p);
                                }
                            }
                        }
                    }
                    self.lemma_acct_unique(a, n as int);
                    assert forall|b: u64| b != a implies self.balance_of(b) == pre.balance_of(b)
                    by {
                        if self.has_acct(b) {
                            let j = self.acct_at(b);
                            assert(self.accounts@[j].0 == b);
                            assert(j < n);
                            pre.lemma_acct_unique(b, j);
                            self.lemma_acct_unique(b, j);
                        } else {
                            if pre.has_acct(b) {
                                let j = pre.acct_at(b);
                                assert(self.accounts@[j].0 == b);
                            }
                        }
                    }
                }
                Ok(())
            },
        }
    }

    /// Moves exactly `amount` from `from` to `to`.  Rejects the transfer,
    /// changing nothing, when `from` holds less than `amount` or when `to`'s
    /// balance would overflow; a transfer to oneself only checks the balance.
    pub fn make_transfer(&mut self, from: u64, to: u64, amount: u64) -> (r: Result<(), Error>)
        requires
            old(self).wf(),
        ensures
            final(self).wf(),
            r is Ok <==> old(self).balance_of(from) >= amount && (from == to || old(
                self,
            ).balance_of(to) + amount <= u64::MAX),
            r is Err ==> *final(self) == *old(self) && r == Err::<(), Error>(Error::PaymentFailed),
            r is Ok && from != to ==> final(self).balance_of(from) == old(self).balance_of(from)
                - amount && final(self).balance_of(to) == old(self).balance_of(to) + amount,
            r is Ok ==> forall|b: u64|
                b != from && b != to ==> final(self).balance_of(b) == old(self).balance_of(b),
            r is Ok && from == to ==> *final(self) == *old(self),
    {
        let from_balance = self.free_balance(from);
        if from_balance < amount {
            return Err(Error::PaymentFailed);
        }
        if from == to {
            return Ok(());
        }
        let to_balance = self.free_balance(to);
        match to_balance.checked_add(amount) {
            Some(new_to) => {
                let i = match self.find(from) {
                    Some(i) => i,
                    None => {
                        // An account without an entry holds 0, so the amount
                        // being moved is 0 and nothing needs to change.
                        return Ok(());
                    },
                };
                self.set_balance(i, from_balance - amount);
                let j = match self.find(to) {
                    Some(j) => j,
                    None => {
                        let ghost mid = *self;
                        let n = self.accounts.len();
                        self.accounts.push((to, new_to));
                        proof {
                            assert forall|p: int, q: int|
                                0 <= p < q < self.accounts@.len() implies (
                            #[trigger] self.accounts@[p]).0 != (#[trigger] self.accounts@[q]).0 by {
                                if q < n {
                                    assert(mid.accounts@[p].0 != mid.accounts@[q].0);
                                } else {
                                    assert(mid.accounts@[p].0 != to) by {
                                        if mid.accounts@[p].0 == to {
                                            mid.lemma_acct_unique(to, p);
                                        }
                                    }
                                }
                            }
                            self.lemma_acct_unique(to, n as int);
                            assert forall|b: u64| b != to implies self.balance_of(b)
                                == mid.balance_of(b) by {
                                if self.has_acct(b) {
                                    let k = self.acct_at(b);
                                    assert(self.accounts@[k].0 == b);
                                    assert(k < n);
                                    mid.lemma_acct_unique(b, k);
                                    self.lemma_acct_unique(b, k);
                                } else {
                                    if mid.has_acct(b) {
                                        let k = mid.acct_at(b);
                                        assert(self.accounts@[k].0 == b);
                                    }
                                }
                            }
                        }
                        return Ok(());
                    },
                };
                self.set_balance(j, new_to);
                Ok(())
            },
            None => Err(Error::PaymentFailed),
        }
    }
}

} // verus!
