//! Storage-credit bookkeeping: registration, deposits, bounds and
//! footprint checks.
//!
//! Each registered account pre-pays a credit that must cover the cost of
//! its footprint in the ledger: a base charge plus one charge per distinct
//! token id it holds, each priced at the configured byte cost. The
//! environment-facing parts (who called, what deposit was attached, the
//! byte price of storage, paying refunds out) live with the embedding
//! program; these operations take and return plain values.

use vstd::prelude::*;

use crate::errors::TokenError;
use crate::holdings::HoldingView;
use crate::token::CreditEntry;
use crate::token::CreditView;
use crate::token::MultiToken;

verus! {

/// The credit stored for account `a`, scanning from the end.
pub open spec fn credit_at(s: Seq<CreditView>, a: Seq<char>) -> Option<u128>
    decreases s.len(),
{
    if s.len() == 0 {
        Option::None
    } else if s.last().account == a {
        Option::Some(s.last().amount)
    } else {
        credit_at(s.drop_last(), a)
    }
}

/// How many distinct token ids `o` holds (each holding is one token id,
/// and the store keeps no zero-amount holding).
pub open spec fn token_count(s: Seq<HoldingView>, o: Seq<char>) -> nat
    decreases s.len(),
{
    if s.len() == 0 {
        0
    } else {
        token_count(s.drop_last(), o) + if s.last().owner == o {
            1nat
        } else {
            0
        }
    }
}

pub proof fn lemma_credit_at_none(s: Seq<CreditView>, a: Seq<char>)
    requires
        forall|j: int| 0 <= j < s.len() ==> #[trigger] s[j].account != a,
    ensures
        credit_at(s, a) is None,
    decreases s.len(),
{
    if s.len() > 0 {
        assert(s.last() == s[s.len() - 1]);
        assert(forall|j: int|
            0 <= j < s.drop_last().len() ==> #[trigger] s.drop_last()[j] == s[j]);
        lemma_credit_at_none(s.drop_last(), a);
    }
}

pub proof fn lemma_credit_at_unique(s: Seq<CreditView>, i: int, a: Seq<char>)
    requires
        0 <= i < s.len(),
        s[i].account == a,
        forall|j: int| 0 <= j < s.len() && j != i ==> #[trigger] s[j].account != a,
    ensures
        credit_at(s, a) == Option::Some(s[i].amount),
    decreases s.len(),
{
    assert(s.last() == s[s.len() - 1]);
    assert(forall|j: int|
        0 <= j < s.drop_last().len() ==> #[trigger] s.drop_last()[j] == s[j]);
    if i == s.len() - 1 {
    } else {
        lemma_credit_at_unique(s.drop_last(), i, a);
    }
}

proof fn lemma_credit_at_update(s: Seq<CreditView>, i: int, c2: CreditView, a2: Seq<char>)
    requires
        0 <= i < s.len(),
        c2.account == s[i].account,
        forall|j: int| 0 <= j < s.len() && j != i ==> #[trigger] s[j].account != s[i].account,
    ensures
        credit_at(s.update(i, c2), a2) == if s[i].account == a2 {
            Option::Some(c2.amount)
        } else {
            credit_at(s, a2)
        },
    decreases s.len(),
{
    let s2 = s.update(i, c2);
    assert(s.last() == s[s.len() - 1]);
    assert(forall|j: int|
        0 <= j < s.drop_last().len() ==> #[trigger] s.drop_last()[j] == s[j]);
    if i == s.len() - 1 {
        assert(s2.drop_last() =~= s.drop_last());
        assert(s2.last() == c2);
    } else {
        assert(s2.drop_last() =~= s.drop_last().update(i, c2));
        assert(s2.last() == s.last());
        lemma_credit_at_update(s.drop_last(), i, c2, a2);
    }
}

proof fn lemma_credit_at_push(s: Seq<CreditView>, c: CreditView, a2: Seq<char>)
    ensures
        credit_at(s.push(c), a2) == if c.account == a2 {
            Option::Some(c.amount)
        } else {
            credit_at(s, a2)
        },
{
    assert(s.push(c).drop_last() =~= s);
    assert(s.push(c).last() == c);
}

proof fn lemma_credit_at_remove(s: Seq<CreditView>, i: int, a2: Seq<char>)
    requires
        0 <= i < s.len(),
        forall|j: int| 0 <= j < s.len() && j != i ==> #[trigger] s[j].account != s[i].account,
    ensures
        credit_at(s.remove(i), a2) == if s[i].account == a2 {
            Option::<u128>::None
        } else {
            credit_at(s, a2)
        },
    decreases s.len(),
{
    let s2 = s.remove(i);
    assert(s.last() == s[s.len() - 1]);
    assert(forall|j: int|
        0 <= j < s.drop_last().len() ==> #[trigger] s.drop_last()[j] == s[j]);
    if i == s.len() - 1 {
        assert(s2 =~= s.drop_last());
        if s[i].account == a2 {
            lemma_credit_at_none(s.drop_last(), a2);
        }
    } else {
        assert(s2.drop_last() =~= s.drop_last().remove(i));
        assert(s2.last() == s.last());
        lemma_credit_at_remove(s.drop_last(), i, a2);
    }
}

/// A storage balance: the account's total credit and the part of it not
/// needed by the current footprint.
#[derive(Clone, Copy, Debug, PartialEq, Eq)]
pub struct StorageBalance {
    pub total: u128,
    pub available: u128,
}

/// The registration bounds: the minimum deposit, and no maximum (the
/// footprint grows with the number of distinct token ids held).
#[derive(Clone, Copy, Debug, PartialEq, Eq)]
pub struct StorageBalanceBounds {
    pub min: u128,
    pub max: Option<u128>,
}

impl MultiToken {
    /// The credit stored for account `a`.
    pub open spec fn credit_of(&self, a: Seq<char>) -> Option<u128> {
        credit_at(self.credits(), a)
    }

    /// Whether account `a` has a storage-credit entry.
    pub open spec fn registered(&self, a: Seq<char>) -> bool {
        self.credit_of(a) is Some
    }

    /// How many distinct token ids `o` holds.
    pub open spec fn token_count_of(&self, o: Seq<char>) -> nat {
        token_count(self.holdings(), o)
    }

    /// The minimum registration deposit: the base charge plus one
    /// per-token charge, at the configured byte cost.
    pub open spec fn min_deposit(&self) -> nat {
        ((self.account_storage_usage + self.storage_usage_per_token) as nat) * (
        self.storage_byte_cost as nat)
    }

    /// The cost of `o`'s current footprint: its distinct token ids each
    /// cost one per-token charge on top of the base charge; an account
    /// holding nothing is priced at the registration minimum.
    pub open spec fn footprint_cost(&self, o: Seq<char>) -> nat {
        if self.token_count_of(o) > 0 {
            (self.token_count_of(o) * (self.storage_usage_per_token as nat) + (
            self.account_storage_usage as nat)) * (self.storage_byte_cost as nat)
        } else {
            self.min_deposit()
        }
    }

    /// The machine bounds under which the cost arithmetic of `o` fits in
    /// `u128`.
    pub open spec fn cost_fits(&self, o: Seq<char>) -> bool {
        &&& self.token_count_of(o) * (self.storage_usage_per_token as nat) + (
        self.account_storage_usage as nat) <= u128::MAX
        &&& self.footprint_cost(o) <= u128::MAX
        &&& self.min_deposit() <= u128::MAX
    }

    /// The index of the credit entry for `account`, if any.
    fn find_credit(&self, account: &String) -> (r: Option<usize>)
        ensures
            match r {
                Option::Some(i) => i < self.credits().len() && self.credits()[i as int].account
                    == account@,
                Option::None => forall|j: int|
                    0 <= j < self.credits().len() ==> #[trigger] self.credits()[j].account
                        != account@,
            },
    {
        let n = self.accounts_storage.len();
        let mut i: usize = 0;
        while i < n
            invariant
                n == self.credits().len(),
                i <= n,
                forall|j: int| 0 <= j < i ==> #[trigger] self.credits()[j].account != account@,
            decreases n - i,
        {
            if self.accounts_storage[i].account == *account {
                return Option::Some(i);
            }
            i = i + 1;
        }
        Option::None
    }

    /// How many distinct token ids `account` currently holds.
    pub fn get_tokens_amount(&self, account: &String) -> (r: u64)
        requires
            self.wf(),
        ensures
            r == self.token_count_of(account@),
    {
        let ghost h = self.holdings();
        let n = self.ownership.holding_count();
        let mut cnt: usize = 0;
        let mut i: usize = 0;
        while i < n
            invariant
                self.wf(),
                h == self.holdings(),
                n == h.len(),
                i <= n,
                cnt <= i,
                cnt == token_count(h.take(i as int), account@),
            decreases n - i,
        {
            proof {
                assert(h.take(i + 1).drop_last() =~= h.take(i as int));
                assert(h.take(i + 1).last() == h[i as int]);
            }
            if self.ownership.holding_owner_is(i, account) {
                cnt = cnt + 1;
            }
            i = i + 1;
        }
        proof {
            assert(h.take(n as int) =~= h);
        }
        cnt as u64
    }

    /// The registration bounds; the maximum is unbounded.
    pub fn storage_balance_bounds(&self) -> (r: StorageBalanceBounds)
        requires
            self.min_deposit() <= u128::MAX,
        ensures
            r.min == self.min_deposit(),
            r.max is None,
    {
        let base = self.account_storage_usage as u128 + self.storage_usage_per_token as u128;
        StorageBalanceBounds { min: base * self.storage_byte_cost, max: Option::None }
    }

    /// The cost of `account`'s current footprint.
    fn storage_cost(&self, account: &String) -> (r: u128)
        requires
            self.wf(),
            self.cost_fits(account@),
        ensures
            r == self.footprint_cost(account@),
    {
        let cnt = self.get_tokens_amount(account);
        if cnt > 0 {
            (cnt as u128 * self.storage_usage_per_token as u128
                + self.account_storage_usage as u128) * self.storage_byte_cost
        } else {
            let base = self.account_storage_usage as u128 + self.storage_usage_per_token as u128;
            base * self.storage_byte_cost
        }
    }

    /// The storage balance a registered account is reported with at
    /// registration granularity: its minimum, all of it in use.
    pub fn internal_storage_balance_of(&self, account: &String) -> (r: Option<StorageBalance>)
        requires
            self.wf(),
            self.min_deposit() <= u128::MAX,
        ensures
            match r {
                Option::Some(b) => self.registered(account@) && b.total == self.min_deposit()
                    && b.available == 0,
                Option::None => !self.registered(account@),
            },
    {
        match self.find_credit(account) {
            Option::Some(i) => {
                proof {
                    lemma_credit_at_unique(self.credits(), i as int, account@);
                }
                let bounds = self.storage_balance_bounds();
                Option::Some(StorageBalance { total: bounds.min, available: 0 })
            },
            Option::None => {
                proof {
                    lemma_credit_at_none(self.credits(), account@);
                }
                Option::None
            },
        }
    }

    /// The account's actual credit and what part of it the current
    /// footprint leaves available.
    pub fn storage_balance_of(&self, account: &String) -> (r: Option<StorageBalance>)
        requires
            self.wf(),
            self.cost_fits(account@),
        ensures
            match r {
                Option::Some(b) => self.registered(account@) && b.total == self.credit_of(
                    account@,
                )->Some_0 && b.available as int == if self.credit_of(account@)->Some_0
                    >= self.footprint_cost(account@) {
                    self.credit_of(account@)->Some_0 - self.footprint_cost(account@)
                } else {
                    0
                },
                Option::None => !self.registered(account@),
            },
    {
        match self.find_credit(account) {
            Option::Some(i) => {
                proof {
                    lemma_credit_at_unique(self.credits(), i as int, account@);
                }
                let total = self.accounts_storage[i].amount;
                let cost = self.storage_cost(account);
                let available = if total >= cost {
                    total - cost
                } else {
                    0
                };
                Option::Some(StorageBalance { total, available })
            },
            Option::None => {
                proof {
                    lemma_credit_at_none(self.credits(), account@);
                }
                Option::None
            },
        }
    }

    /// Check that the account's credit covers its current footprint:
    /// `NotRegistered` without an entry, `InsufficientStorageBalance` when
    /// the credit falls short, success otherwise.
    pub fn assert_storage_usage(&self, account: &String) -> (r: Result<(), TokenError>)
        requires
            self.wf(),
            self.cost_fits(account@),
        ensures
            r == if !self.registered(account@) {
                Result::<(), TokenError>::Err(TokenError::NotRegistered)
            } else if self.credit_of(account@)->Some_0 < self.footprint_cost(account@) {
                Result::<(), TokenError>::Err(TokenError::InsufficientStorageBalance)
            } else {
                Result::<(), TokenError>::Ok(())
            },
    {
        match self.find_credit(account) {
            Option::None => {
                proof {
                    lemma_credit_at_none(self.credits(), account@);
                }
                Result::Err(TokenError::NotRegistered)
            },
            Option::Some(i) => {
                proof {
                    lemma_credit_at_unique(self.credits(), i as int, account@);
                }
                let balance = self.accounts_storage[i].amount;
                let cost = self.storage_cost(account);
                if balance < cost {
                    Result::Err(TokenError::InsufficientStorageBalance)
                } else {
                    Result::Ok(())
                }
            },
        }
    }

    /// Register `account` or top up its credit with the attached
    /// `deposit`. An already-registered account asking for registration
    /// only gets the whole deposit back (the second component); a fresh
    /// registration below the minimum deposit is rejected with
    /// `InsufficientStorageBalance` and nothing changes.
    pub fn storage_deposit(
        &mut self,
        account: &String,
        deposit: u128,
        registration_only: Option<bool>,
    ) -> (r: Result<(StorageBalance, u128), TokenError>)
        requires
            old(self).wf(),
            old(self).min_deposit() <= u128::MAX,
            old(self).credit_of(account@) matches Option::Some(c) ==> (registration_only is None
                ==> c + deposit <= u128::MAX),
        ensures
            final(self).wf(),
            final(self).holdings() == old(self).holdings(),
            final(self).grants() == old(self).grants(),
            final(self).config() == old(self).config(),
            old(self).registered(account@) && registration_only is Some ==> (r matches Result::Ok(
                (b, refund),
            ) && refund == deposit && b.total == old(self).min_deposit() && b.available == 0
                && final(self).credits() == old(self).credits()),
            !(old(self).registered(account@) && registration_only is Some) && deposit < old(
                self,
            ).min_deposit() ==> r == Result::<(StorageBalance, u128), TokenError>::Err(
                TokenError::InsufficientStorageBalance,
            ) && final(self).credits() == old(self).credits(),
            !(old(self).registered(account@) && registration_only is Some) && deposit >= old(
                self,
            ).min_deposit() ==> (r matches Result::Ok((b, refund)) && refund == 0 && b.total
                == old(self).min_deposit() && b.available == 0 && forall|a2: Seq<char>|
                #[trigger] final(self).credit_of(a2) == if a2 == account@ {
                    Option::Some(
                        (match old(self).credit_of(a2) {
                            Option::Some(c) => c + deposit,
                            Option::None => deposit as int,
                        }) as u128,
                    )
                } else {
                    old(self).credit_of(a2)
                }),

    {
        let ghost c0 = self.credits();
        match self.find_credit(account) {
            Option::Some(i) => {
                proof {
                    lemma_credit_at_unique(c0, i as int, account@);
                }
                if registration_only.is_some() {
                    let bounds = self.storage_balance_bounds();
                    Result::Ok((StorageBalance { total: bounds.min, available: 0 }, deposit))
                } else {
                    if deposit < self.storage_balance_bounds().min {
                        return Result::Err(TokenError::InsufficientStorageBalance);
                    }
                    let mut entry = self.accounts_storage.remove(i);
                    entry.amount = entry.amount + deposit;
                    self.accounts_storage.insert(i, entry);
                    proof {
                        let c2 = CreditView {
                            account: account@,
                            amount: (c0[i as int].amount + deposit) as u128,
                        };
                        assert(self.credits() =~= c0.update(i as int, c2));
                        assert forall|a2: Seq<char>| #[trigger] credit_at(self.credits(), a2)
                            == if a2 == account@ {
                            Option::Some((c0[i as int].amount + deposit) as u128)
                        } else {
                            credit_at(c0, a2)
                        } by {
                            lemma_credit_at_update(c0, i as int, c2, a2);
                        }
                        assert forall|i2: int, j2: int|
                            #![trigger self.credits()[i2], self.credits()[j2]]
                            0 <= i2 < self.credits().len() && 0 <= j2 < self.credits().len() && i2
                            != j2 implies self.credits()[i2].account
                            != self.credits()[j2].account by {
                            assert(self.credits()[i2].account == c0[i2].account);
                            assert(self.credits()[j2].account == c0[j2].account);
                        }
                    }
                    let bounds = self.storage_balance_bounds();
                    Result::Ok((StorageBalance { total: bounds.min, available: 0 }, 0))
                }
            },
            Option::None => {
                proof {
                    lemma_credit_at_none(c0, account@);
                }
                if deposit < self.storage_balance_bounds().min {
                    return Result::Err(TokenError::InsufficientStorageBalance);
                }
                self.accounts_storage.push(
                    CreditEntry { account: account.clone(), amount: deposit },
                );
                proof {
                    let c2 = CreditView { account: account@, amount: deposit };
                    assert(self.credits() =~= c0.push(c2));
                    assert forall|a2: Seq<char>| #[trigger] credit_at(self.credits(), a2) == if a2
                        == account@ {
                        Option::Some(deposit)
                    } else {
                        credit_at(c0, a2)
                    } by {
                        lemma_credit_at_push(c0, c2, a2);
                    }
                    assert forall|i2: int, j2: int|
                        #![trigger self.credits()[i2], self.credits()[j2]]
                        0 <= i2 < self.credits().len() && 0 <= j2 < self.credits().len() && i2
                        != j2 implies self.credits()[i2].account
                        != self.credits()[j2].account by {
                        if i2 < c0.len() && j2 < c0.len() {
                            assert(self.credits()[i2] == c0[i2]);
                            assert(self.credits()[j2] == c0[j2]);
                        } else if i2 < c0.len() {
                            assert(self.credits()[i2] == c0[i2] && self.credits()[j2] == c2);
                        } else {
                            assert(self.credits()[i2] == c2 && self.credits()[j2] == c0[j2]);
                        }
                    }
                }
                let bounds = self.storage_balance_bounds();
                Result::Ok((StorageBalance { total: bounds.min, available: 0 }, 0))
            },
        }
    }

    /// Report the withdrawable balance. The minimum bound equals the
    /// account's locked cost here, so a positive withdrawal is always
    /// rejected with `InsufficientStorageBalance`; an unregistered caller
    /// gets `NotRegistered`.
    pub fn storage_withdraw(&self, account: &String, amount: Option<u128>) -> (r: Result<
        StorageBalance,
        TokenError,
    >)
        requires
            self.wf(),
            self.min_deposit() <= u128::MAX,
        ensures
            r == if !self.registered(account@) {
                Result::<StorageBalance, TokenError>::Err(TokenError::NotRegistered)
            } else if amount matches Option::Some(x) && x > 0 {
                Result::<StorageBalance, TokenError>::Err(TokenError::InsufficientStorageBalance)
            } else {
                Result::<StorageBalance, TokenError>::Ok(
                    StorageBalance { total: self.min_deposit() as u128, available: 0 },
                )
            },
    {
        match self.internal_storage_balance_of(account) {
            Option::None => Result::Err(TokenError::NotRegistered),
            Option::Some(b) => {
                match amount {
                    Option::Some(x) => {
                        if x > 0 {
                            Result::Err(TokenError::InsufficientStorageBalance)
                        } else {
                            Result::Ok(b)
                        }
                    },
                    Option::None => Result::Ok(b),
                }
            },
        }
    }

    /// Unregister `account`, handing back its whole credit for the caller
    /// to refund; `None` when the account was never registered. Only an
    /// account with an empty token footprint may be unregistered.
    pub fn internal_storage_unregister(&mut self, account: &String) -> (r: Option<u128>)
        requires
            old(self).wf(),
            old(self).registered(account@) ==> old(self).token_count_of(account@) == 0,
        ensures
            final(self).wf(),
            final(self).holdings() == old(self).holdings(),
            final(self).grants() == old(self).grants(),
            final(self).config() == old(self).config(),
            match r {
                Option::Some(b) => old(self).credit_of(account@) == Option::Some(b) && (forall|
                    a2: Seq<char>,
                |
                    #[trigger] final(self).credit_of(a2) == if a2 == account@ {
                        Option::<u128>::None
                    } else {
                        old(self).credit_of(a2)
                    }),
                Option::None => !old(self).registered(account@) && final(self).credits() == old(
                    self,
                ).credits(),
            },
    {
        let ghost c0 = self.credits();
        match self.find_credit(account) {
            Option::None => {
                proof {
                    lemma_credit_at_none(c0, account@);
                }
                Option::None
            },
            Option::Some(i) => {
                proof {
                    lemma_credit_at_unique(c0, i as int, account@);
                }
                let entry = self.accounts_storage.remove(i);
                proof {
                    assert(self.credits() =~= c0.remove(i as int));
                    assert forall|a2: Seq<char>| #[trigger] credit_at(self.credits(), a2) == if a2
                        == account@ {
                        Option::<u128>::None
                    } else {
                        credit_at(c0, a2)
                    } by {
                        lemma_credit_at_remove(c0, i as int, a2);
                    }
                    assert forall|i2: int, j2: int|
                        #![trigger self.credits()[i2], self.credits()[j2]]
                        0 <= i2 < self.credits().len() && 0 <= j2 < self.credits().len() && i2
                        != j2 implies self.credits()[i2].account
                        != self.credits()[j2].account by {
                        let oi = if i2 < i as int { i2 } else { i2 + 1 };
                        let oj = if j2 < i as int { j2 } else { j2 + 1 };
                        assert(self.credits()[i2] == c0[oi]);
                        assert(self.credits()[j2] == c0[oj]);
                    }
                }
                Option::Some(entry.amount)
            },
        }
    }

    /// Unregister the account, reporting whether an entry was removed.
    /// Forced unregistration is not supported: the caller rejects it
    /// before calling in, as it rejects a non-empty footprint.
    pub fn storage_unregister(&mut self, account: &String, force: Option<bool>) -> (r: bool)
        requires
            old(self).wf(),
            force != Option::Some(true),
            old(self).registered(account@) ==> old(self).token_count_of(account@) == 0,
        ensures
            final(self).wf(),
            r == old(self).registered(account@),
            r ==> forall|a2: Seq<char>|
                #[trigger] final(self).credit_of(a2) == if a2 == account@ {
                    Option::<u128>::None
                } else {
                    old(self).credit_of(a2)
                },
            !r ==> final(self).credits() == old(self).credits(),
            final(self).holdings() == old(self).holdings(),
            final(self).grants() == old(self).grants(),
            final(self).config() == old(self).config(),
    {
        self.internal_storage_unregister(account).is_some()
    }
}

} // verus!
