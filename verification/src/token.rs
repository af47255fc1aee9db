//! The multi-token ledger and its transfer engine.
//!
//! `MultiToken` bundles the ownership store, the approval registry and the
//! storage-credit book. The transfer engine validates ownership, approval
//! and self-transfer rules, applies single transfers as an atomic paired
//! debit and credit, and applies batches all-or-nothing: when a pair
//! fails, every previously applied pair is reversed in reverse order --
//! including its consumed approval -- so that no error lets a partial
//! mutation escape.

use vstd::prelude::*;

use crate::approvals::ApprovalRegistry;
use crate::approvals::RecordView;
use crate::approvals::consume_outcome;
use crate::approvals::grant_of;
use crate::approvals::next_id_of;
use crate::approvals::wf_registry;
use crate::errors::TokenError;
use crate::holdings::HoldingView;
use crate::holdings::OwnershipStore;
use crate::holdings::amount_for;
use crate::holdings::supply_of;
use crate::holdings::wf_holdings;

verus! {

/// The mathematical image of one storage-credit entry.
pub struct CreditView {
    pub account: Seq<char>,
    pub amount: u128,
}

/// One account's storage credit.
pub struct CreditEntry {
    pub account: String,
    pub amount: u128,
}

impl View for CreditEntry {
    type V = CreditView;

    open spec fn view(&self) -> CreditView {
        CreditView { account: self.account@, amount: self.amount }
    }
}

pub open spec fn credits_view(cs: Seq<CreditEntry>) -> Seq<CreditView> {
    cs.map_values(|c: CreditEntry| c@)
}

/// No two credit entries share an account.
pub open spec fn wf_credits(s: Seq<CreditView>) -> bool {
    forall|i: int, j: int|
        #![trigger s[i], s[j]]
        0 <= i < s.len() && 0 <= j < s.len() && i != j ==> s[i].account != s[j].account
}

pub open spec fn strs_view(ts: Seq<String>) -> Seq<Seq<char>> {
    ts.map_values(|s: String| s@)
}

/// The multi-asset token ledger.
///
/// All mutation goes through the credit / debit / approve / consume /
/// transfer operations; nothing in this crate touches the fields behind
/// their backs.
pub struct MultiToken {
    pub ownership: OwnershipStore,
    pub approvals: ApprovalRegistry,
    pub accounts_storage: Vec<CreditEntry>,
    pub account_storage_usage: u64,
    pub storage_usage_per_token: u64,
    pub storage_byte_cost: u128,
}

impl MultiToken {
    pub open spec fn holdings(&self) -> Seq<HoldingView> {
        self.ownership@
    }

    pub open spec fn grants(&self) -> Seq<RecordView> {
        self.approvals@
    }

    pub open spec fn credits(&self) -> Seq<CreditView> {
        credits_view(self.accounts_storage@)
    }

    pub open spec fn config(&self) -> (u64, u64, u128) {
        (self.account_storage_usage, self.storage_usage_per_token, self.storage_byte_cost)
    }

    /// Every component invariant at once.
    pub open spec fn wf(&self) -> bool {
        &&& wf_holdings(self.holdings())
        &&& wf_registry(self.grants())
        &&& wf_credits(self.credits())
    }

    /// The balance of `o` for token id `t`.
    pub open spec fn bal(&self, o: Seq<char>, t: Seq<char>) -> nat {
        amount_for(self.holdings(), o, t)
    }

    /// The circulating supply of token id `t`.
    pub open spec fn supply(&self, t: Seq<char>) -> nat {
        supply_of(self.holdings(), t)
    }

    /// The grant stored for delegate `d` on (t, o).
    pub open spec fn grant(&self, t: Seq<char>, o: Seq<char>, d: Seq<char>) -> Option<(u64, u128)> {
        grant_of(self.grants(), t, o, d)
    }

    /// The approval-id counter of (t, o).
    pub open spec fn next_approval_id(&self, t: Seq<char>, o: Seq<char>) -> u64 {
        next_id_of(self.grants(), t, o)
    }

    /// A fresh, empty ledger with the given storage-cost configuration.
    pub fn new(account_storage_usage: u64, storage_usage_per_token: u64, storage_byte_cost: u128) -> (r:
        MultiToken)
        ensures
            r.wf(),
            r.holdings() =~= Seq::<HoldingView>::empty(),
            r.grants() =~= Seq::<RecordView>::empty(),
            r.credits() =~= Seq::<CreditView>::empty(),
            r.config() == (account_storage_usage, storage_usage_per_token, storage_byte_cost),
    {
        let r = MultiToken {
            ownership: OwnershipStore::new(),
            approvals: ApprovalRegistry::new(),
            accounts_storage: Vec::new(),
            account_storage_usage,
            storage_usage_per_token,
            storage_byte_cost,
        };
        proof {
            assert(r.credits() =~= Seq::<CreditView>::empty());
        }
        r
    }

    /// Mint or deposit: increase `owner`'s balance for `token`. The caller
    /// validates that the amount is nonzero and the supply stays within
    /// `u128`.
    pub fn credit(&mut self, owner: &String, token: &String, amount: u128)
        requires
            old(self).wf(),
            amount > 0,
            old(self).supply(token@) + amount <= u128::MAX,
        ensures
            final(self).wf(),
            forall|o2: Seq<char>, t2: Seq<char>|
                #[trigger] final(self).bal(o2, t2) == old(self).bal(o2, t2) + if o2 == owner@ && t2
                    == token@ {
                    amount as nat
                } else {
                    0
                },
            forall|t2: Seq<char>|
                #[trigger] final(self).supply(t2) == old(self).supply(t2) + if t2 == token@ {
                    amount as nat
                } else {
                    0
                },
            final(self).grants() == old(self).grants(),
            final(self).credits() == old(self).credits(),
            final(self).config() == old(self).config(),
    {
        self.ownership.credit(owner, token, amount);
    }

    /// Withdraw or burn: decrease `owner`'s balance for `token`, failing
    /// with `InsufficientBalance` (and changing nothing) exactly when the
    /// balance is smaller than `amount`.
    pub fn debit(&mut self, owner: &String, token: &String, amount: u128) -> (r: Result<
        (),
        TokenError,
    >)
        requires
            old(self).wf(),
        ensures
            final(self).wf(),
            r is Ok <==> old(self).bal(owner@, token@) >= amount,
            r is Err ==> r == Result::<(), TokenError>::Err(TokenError::InsufficientBalance)
                && final(self).holdings() == old(self).holdings(),
            r is Ok ==> forall|o2: Seq<char>, t2: Seq<char>|
                #[trigger] final(self).bal(o2, t2) + if o2 == owner@ && t2 == token@ {
                    amount as nat
                } else {
                    0
                } == old(self).bal(o2, t2),
            r is Ok ==> forall|t2: Seq<char>|
                #[trigger] final(self).supply(t2) + if t2 == token@ {
                    amount as nat
                } else {
                    0
                } == old(self).supply(t2),
            final(self).grants() == old(self).grants(),
            final(self).credits() == old(self).credits(),
            final(self).config() == old(self).config(),
    {
        self.ownership.debit(owner, token, amount)
    }

    /// The balance of `owner` for `token`; zero when no holding exists.
    pub fn balance_of(&self, owner: &String, token: &String) -> (r: u128)
        requires
            self.wf(),
        ensures
            r == self.bal(owner@, token@),
    {
        self.ownership.balance_of(owner, token)
    }

    /// The balances of `owner` for each queried token id, in order.
    pub fn balance_of_batch(&self, owner: &String, tokens: &Vec<String>) -> (r: Vec<u128>)
        requires
            self.wf(),
        ensures
            r@.len() == tokens@.len(),
            forall|i: int|
                0 <= i < tokens@.len() ==> #[trigger] r@[i] == self.bal(
                    owner@,
                    strs_view(tokens@)[i],
                ),
    {
        let mut r: Vec<u128> = Vec::new();
        let n = tokens.len();
        let mut i: usize = 0;
        while i < n
            invariant
                self.wf(),
                n == tokens@.len(),
                i <= n,
                r@.len() == i,
                forall|j: int|
                    0 <= j < i ==> #[trigger] r@[j] == self.bal(owner@, strs_view(tokens@)[j]),
            decreases n - i,
        {
            let b = self.balance_of(owner, &tokens[i]);
            r.push(b);
            proof {
                assert(strs_view(tokens@)[i as int] == tokens@[i as int]@);
            }
            i = i + 1;
        }
        r
    }

    /// The id the next approve on (token, owner) will hand out.
    pub fn current_next_approval_id(&self, token: &String, owner: &String) -> (r: u64)
        requires
            self.wf(),
        ensures
            r == self.next_approval_id(token@, owner@),
    {
        self.approvals.current_next_id(token, owner)
    }

    /// Grant `delegate` the right to move up to `amount` of `token` owned
    /// by `owner`; returns the fresh approval id, voiding any prior grant
    /// for that delegate.
    pub fn approve(&mut self, owner: &String, token: &String, delegate: &String, amount: u128) -> (r:
        u64)
        requires
            old(self).wf(),
            old(self).next_approval_id(token@, owner@) < u64::MAX,
        ensures
            final(self).wf(),
            r == old(self).next_approval_id(token@, owner@),
            forall|t2: Seq<char>, o2: Seq<char>|
                #[trigger] final(self).next_approval_id(t2, o2) == if t2 == token@ && o2
                    == owner@ {
                    (old(self).next_approval_id(t2, o2) + 1) as u64
                } else {
                    old(self).next_approval_id(t2, o2)
                },
            forall|t2: Seq<char>, o2: Seq<char>, d2: Seq<char>|
                #[trigger] final(self).grant(t2, o2, d2) == if t2 == token@ && o2 == owner@ && d2
                    == delegate@ {
                    Option::Some((r, amount))
                } else {
                    old(self).grant(t2, o2, d2)
                },
            final(self).holdings() == old(self).holdings(),
            final(self).credits() == old(self).credits(),
            final(self).config() == old(self).config(),
    {
        self.approvals.approve(owner, token, delegate, amount)
    }

    /// Remove `delegate`'s grant on (token, owner) entirely.
    pub fn revoke(&mut self, owner: &String, token: &String, delegate: &String)
        requires
            old(self).wf(),
        ensures
            final(self).wf(),
            forall|t2: Seq<char>, o2: Seq<char>|
                #[trigger] final(self).next_approval_id(t2, o2) == old(self).next_approval_id(
                    t2,
                    o2,
                ),
            forall|t2: Seq<char>, o2: Seq<char>, d2: Seq<char>|
                #[trigger] final(self).grant(t2, o2, d2) == if t2 == token@ && o2 == owner@ && d2
                    == delegate@ {
                    Option::<(u64, u128)>::None
                } else {
                    old(self).grant(t2, o2, d2)
                },
            final(self).holdings() == old(self).holdings(),
            final(self).credits() == old(self).credits(),
            final(self).config() == old(self).config(),
    {
        self.approvals.revoke(owner, token, delegate)
    }
}

/// What one transfer decides on the given ledger state, checked in order:
/// self-transfer or zero amount, then (for a delegate) the approval, then
/// the owner's balance.
pub open spec fn one_outcome(
    h: Seq<HoldingView>,
    g: Seq<RecordView>,
    caller: Seq<char>,
    owner: Seq<char>,
    receiver: Seq<char>,
    token: Seq<char>,
    amount: u128,
    approval_id: Option<u64>,
) -> Result<(), TokenError> {
    if receiver == owner || amount == 0 {
        Result::Err(TokenError::InvalidTransfer)
    } else if caller != owner {
        match approval_id {
            Option::None => Result::Err(TokenError::ApprovalNotFound),
            Option::Some(id) => match consume_outcome(g, token, owner, caller, id, amount) {
                Result::Err(e) => Result::Err(e),
                Result::Ok(()) => if amount_for(h, owner, token) < amount {
                    Result::Err(TokenError::InsufficientBalance)
                } else {
                    Result::Ok(())
                },
            },
        }
    } else if amount_for(h, owner, token) < amount {
        Result::Err(TokenError::InsufficientBalance)
    } else {
        Result::Ok(())
    }
}

impl MultiToken {
    /// Transfer `amount` of `token` from `owner` to `receiver`, on behalf
    /// of `caller`. A caller other than the owner must quote a valid
    /// approval id, which is consumed. Errors change nothing: the ledger
    /// state after a failed transfer equals the state before it, balances
    /// and approvals alike. A self-transfer (receiver == owner) always
    /// fails with `InvalidTransfer`.
    pub fn transfer_one(
        &mut self,
        caller: &String,
        owner: &String,
        receiver: &String,
        token: &String,
        amount: u128,
        approval_id: Option<u64>,
    ) -> (r: Result<(), TokenError>)
        requires
            old(self).wf(),
        ensures
            final(self).wf(),
            r == one_outcome(
                old(self).holdings(),
                old(self).grants(),
                caller@,
                owner@,
                receiver@,
                token@,
                amount,
                approval_id,
            ),
            receiver@ == owner@ ==> r == Result::<(), TokenError>::Err(TokenError::InvalidTransfer),
            r is Err ==> final(self).holdings() == old(self).holdings() && final(self).grants()
                == old(self).grants(),
            r is Ok ==> forall|o2: Seq<char>, t2: Seq<char>|
                #[trigger] final(self).bal(o2, t2) + if o2 == owner@ && t2 == token@ {
                    amount as nat
                } else {
                    0
                } == old(self).bal(o2, t2) + if o2 == receiver@ && t2 == token@ {
                    amount as nat
                } else {
                    0
                },
            r is Ok ==> forall|t2: Seq<char>| #[trigger] final(self).supply(t2) == old(self).supply(
                t2,
            ),
            forall|t2: Seq<char>, o2: Seq<char>|
                #[trigger] final(self).next_approval_id(t2, o2) == old(self).next_approval_id(
                    t2,
                    o2,
                ),
            r is Ok && caller@ == owner@ ==> final(self).grants() == old(self).grants(),
            r is Ok && caller@ != owner@ ==> forall|t2: Seq<char>, o2: Seq<char>, d2: Seq<char>|
                #[trigger] final(self).grant(t2, o2, d2) == if t2 == token@ && o2 == owner@ && d2
                    == caller@ {
                    Option::Some(
                        (
                            approval_id->Some_0,
                            (old(self).grant(t2, o2, d2)->Some_0.1 - amount) as u128,
                        ),
                    )
                } else {
                    old(self).grant(t2, o2, d2)
                },
            final(self).credits() == old(self).credits(),
            final(self).config() == old(self).config(),
    {
        if amount == 0 || *receiver == *owner {
            return Result::Err(TokenError::InvalidTransfer);
        }
        if *caller != *owner {
            match approval_id {
                Option::None => {
                    return Result::Err(TokenError::ApprovalNotFound);
                },
                Option::Some(id) => {
                    match self.approvals.can_consume(owner, token, caller, id, amount) {
                        Result::Err(e) => {
                            return Result::Err(e);
                        },
                        Result::Ok(()) => {},
                    }
                },
            }
        }
        let have = self.ownership.balance_of(owner, token);
        if have < amount {
            return Result::Err(TokenError::InsufficientBalance);
        }
        if *caller != *owner {
            let id = match approval_id {
                Option::Some(id) => id,
                Option::None => {
                    proof {
                        assert(false);
                    }
                    0
                },
            };
            match self.approvals.check_and_consume(owner, token, caller, id, amount) {
                Result::Ok(()) => {},
                Result::Err(e) => {
                    proof {
                        assert(false);
                    }
                    return Result::Err(e);
                },
            }
        }
        match self.ownership.debit(owner, token, amount) {
            Result::Ok(()) => {},
            Result::Err(e) => {
                proof {
                    assert(false);
                }
                return Result::Err(e);
            },
        }
        self.ownership.credit(receiver, token, amount);
        Result::Ok(())
    }
}

/// The total amount moved for token id `t` by the first `n` pairs of the
/// batch.
pub open spec fn moved_before(tv: Seq<Seq<char>>, av: Seq<u128>, n: int, t: Seq<char>) -> nat
    decreases n,
{
    if n <= 0 {
        0
    } else {
        moved_before(tv, av, n - 1, t) + if tv[n - 1] == t {
            av[n - 1] as nat
        } else {
            0
        }
    }
}

/// A grant with `d` consumed from its amount; absence stays absence.
pub open spec fn shrink_grant(g: Option<(u64, u128)>, d: nat) -> Option<(u64, u128)> {
    match g {
        Option::None => Option::None,
        Option::Some((i, a)) => Option::Some((i, (a - d) as u128)),
    }
}

/// What pair `k` of a batch decides, judged against the initial state:
/// the cumulative amounts of the first k+1 pairs must be covered by the
/// initial balance and (for a delegate) the initial grant.
pub open spec fn pair_outcome(
    h: Seq<HoldingView>,
    g: Seq<RecordView>,
    caller: Seq<char>,
    owner: Seq<char>,
    tv: Seq<Seq<char>>,
    av: Seq<u128>,
    approval_id: Option<u64>,
    k: int,
) -> Result<(), TokenError> {
    let t = tv[k];
    let a = av[k];
    if a == 0 {
        Result::Err(TokenError::InvalidTransfer)
    } else if caller != owner {
        match approval_id {
            Option::None => Result::Err(TokenError::ApprovalNotFound),
            Option::Some(id) => match grant_of(g, t, owner, caller) {
                Option::None => Result::Err(TokenError::ApprovalNotFound),
                Option::Some((gid, gamt)) => if gid != id {
                    Result::Err(TokenError::ApprovalIdMismatch)
                } else if (gamt as nat) < moved_before(tv, av, k + 1, t) {
                    Result::Err(TokenError::InsufficientApproval)
                } else if amount_for(h, owner, t) < moved_before(tv, av, k + 1, t) {
                    Result::Err(TokenError::InsufficientBalance)
                } else {
                    Result::Ok(())
                },
            },
        }
    } else if amount_for(h, owner, t) < moved_before(tv, av, k + 1, t) {
        Result::Err(TokenError::InsufficientBalance)
    } else {
        Result::Ok(())
    }
}

/// The outcome of the batch from pair `k` on: the first failing pair's
/// error, or success.
pub open spec fn batch_outcome_from(
    h: Seq<HoldingView>,
    g: Seq<RecordView>,
    caller: Seq<char>,
    owner: Seq<char>,
    tv: Seq<Seq<char>>,
    av: Seq<u128>,
    approval_id: Option<u64>,
    k: int,
) -> Result<(), TokenError>
    decreases tv.len() - k,
{
    if k < 0 || k >= tv.len() {
        Result::Ok(())
    } else {
        match pair_outcome(h, g, caller, owner, tv, av, approval_id, k) {
            Result::Err(e) => Result::Err(e),
            Result::Ok(()) => batch_outcome_from(h, g, caller, owner, tv, av, approval_id, k + 1),
        }
    }
}

/// What a batch transfer decides: a malformed batch, a self-transfer, or
/// the first failing pair's error; success otherwise.
pub open spec fn many_outcome(
    h: Seq<HoldingView>,
    g: Seq<RecordView>,
    caller: Seq<char>,
    owner: Seq<char>,
    receiver: Seq<char>,
    tv: Seq<Seq<char>>,
    av: Seq<u128>,
    approval_id: Option<u64>,
) -> Result<(), TokenError> {
    if tv.len() != av.len() || tv.len() == 0 {
        Result::Err(TokenError::MalformedBatch)
    } else if receiver == owner {
        Result::Err(TokenError::InvalidTransfer)
    } else {
        batch_outcome_from(h, g, caller, owner, tv, av, approval_id, 0)
    }
}

/// Balances in `h1` differ from `h0` exactly by the first `n` pairs moved
/// from `owner` to `receiver`.
pub open spec fn balances_shifted(
    h0: Seq<HoldingView>,
    h1: Seq<HoldingView>,
    owner: Seq<char>,
    receiver: Seq<char>,
    tv: Seq<Seq<char>>,
    av: Seq<u128>,
    n: int,
) -> bool {
    forall|o2: Seq<char>, t2: Seq<char>|
        #[trigger] amount_for(h1, o2, t2) + (if o2 == owner {
            moved_before(tv, av, n, t2)
        } else {
            0
        }) == amount_for(h0, o2, t2) + (if o2 == receiver {
            moved_before(tv, av, n, t2)
        } else {
            0
        })
}

/// Every token id's supply is the same in both states.
pub open spec fn supplies_equal(h0: Seq<HoldingView>, h1: Seq<HoldingView>) -> bool {
    forall|t: Seq<char>| #[trigger] supply_of(h1, t) == supply_of(h0, t)
}

/// Grants in `g1` differ from `g0` exactly by the first `n` pairs consumed
/// from `delegate`'s grants on `owner`'s tokens.
pub open spec fn grants_consumed(
    g0: Seq<RecordView>,
    g1: Seq<RecordView>,
    owner: Seq<char>,
    delegate: Seq<char>,
    tv: Seq<Seq<char>>,
    av: Seq<u128>,
    n: int,
) -> bool {
    forall|t2: Seq<char>, o2: Seq<char>, d2: Seq<char>|
        #[trigger] grant_of(g1, t2, o2, d2) == if o2 == owner && d2 == delegate {
            shrink_grant(grant_of(g0, t2, o2, d2), moved_before(tv, av, n, t2))
        } else {
            grant_of(g0, t2, o2, d2)
        }
}

/// Every approval-id counter is the same in both states.
pub open spec fn ids_equal(g0: Seq<RecordView>, g1: Seq<RecordView>) -> bool {
    forall|t2: Seq<char>, o2: Seq<char>| #[trigger] next_id_of(g1, t2, o2) == next_id_of(
        g0,
        t2,
        o2,
    )
}

/// Replay protection at the transfer level: while the delegate's grant
/// stores id `n`, a transfer it authorizes with any earlier id fails with
/// `ApprovalIdMismatch`, whatever amounts are involved; by
/// `transfer_one`'s contract such a failed transfer changes nothing. The
/// nonzero-amount and distinct-receiver premises reflect the validation
/// order: a self-transfer or zero amount is rejected as `InvalidTransfer`
/// before the approval is even consulted.
pub proof fn lemma_transfer_replay_rejected(
    h: Seq<HoldingView>,
    g: Seq<RecordView>,
    caller: Seq<char>,
    owner: Seq<char>,
    receiver: Seq<char>,
    token: Seq<char>,
    amount: u128,
    n: u64,
    gamt: u128,
    stale: u64,
)
    requires
        grant_of(g, token, owner, caller) == Option::Some((n, gamt)),
        stale < n,
        caller != owner,
        receiver != owner,
        amount != 0,
    ensures
        one_outcome(h, g, caller, owner, receiver, token, amount, Option::Some(stale))
            == Result::<(), TokenError>::Err(TokenError::ApprovalIdMismatch),
{
}

/// Conservation composes: two steps that each preserve every token id's
/// supply preserve it jointly, so any sequence of successful transfers --
/// single, batch, or transfer-and-call resolution -- leaves the sum of
/// balances across all owners invariant for every token id.
pub proof fn lemma_supplies_equal_trans(
    h0: Seq<HoldingView>,
    h1: Seq<HoldingView>,
    h2: Seq<HoldingView>,
)
    requires
        supplies_equal(h0, h1),
        supplies_equal(h1, h2),
    ensures
        supplies_equal(h0, h2),
{
}

/// While every pair before `k` succeeds, the initial balance and (for a
/// delegate) the initial grant cover everything the first `k` pairs move.
proof fn lemma_batch_prefix_bounds(
    h: Seq<HoldingView>,
    g: Seq<RecordView>,
    caller: Seq<char>,
    owner: Seq<char>,
    tv: Seq<Seq<char>>,
    av: Seq<u128>,
    approval_id: Option<u64>,
    k: int,
    t: Seq<char>,
)
    requires
        tv.len() == av.len(),
        0 <= k <= tv.len(),
        forall|j: int|
            0 <= j < k ==> #[trigger] pair_outcome(h, g, caller, owner, tv, av, approval_id, j)
                == Result::<(), TokenError>::Ok(()),
    ensures
        amount_for(h, owner, t) >= moved_before(tv, av, k, t),
        caller != owner && moved_before(tv, av, k, t) > 0 ==> approval_id is Some && (grant_of(
            g,
            t,
            owner,
            caller,
        ) matches Option::Some((gid, gamt)) && gid == approval_id->Some_0 && gamt >= moved_before(
            tv,
            av,
            k,
            t,
        )),
    decreases k,
{
    if k > 0 {
        lemma_batch_prefix_bounds(h, g, caller, owner, tv, av, approval_id, k - 1, t);
        assert(pair_outcome(h, g, caller, owner, tv, av, approval_id, k - 1)
            == Result::<(), TokenError>::Ok(()));
        if tv[k - 1] == t {
        } else {
            assert(moved_before(tv, av, k, t) == moved_before(tv, av, k - 1, t));
        }
    }
}

/// The amount moved for `t` by the first `n` pairs depends only on those
/// pairs.
pub proof fn lemma_moved_prefix_eq(
    tv: Seq<Seq<char>>,
    av1: Seq<u128>,
    av2: Seq<u128>,
    n: int,
    t: Seq<char>,
)
    requires
        forall|j: int| 0 <= j < n ==> av1[j] == av2[j],
    ensures
        moved_before(tv, av1, n, t) == moved_before(tv, av2, n, t),
    decreases n,
{
    if n > 0 {
        lemma_moved_prefix_eq(tv, av1, av2, n - 1, t);
    }
}

/// While every pair before `k` succeeds, the batch outcome from pair 0
/// equals the batch outcome from pair `k`.
proof fn lemma_batch_skip(
    h: Seq<HoldingView>,
    g: Seq<RecordView>,
    caller: Seq<char>,
    owner: Seq<char>,
    tv: Seq<Seq<char>>,
    av: Seq<u128>,
    approval_id: Option<u64>,
    k: int,
)
    requires
        0 <= k <= tv.len(),
        forall|j: int|
            0 <= j < k ==> #[trigger] pair_outcome(h, g, caller, owner, tv, av, approval_id, j)
                == Result::<(), TokenError>::Ok(()),
    ensures
        batch_outcome_from(h, g, caller, owner, tv, av, approval_id, 0) == batch_outcome_from(
            h,
            g,
            caller,
            owner,
            tv,
            av,
            approval_id,
            k,
        ),
    decreases k,
{
    if k > 0 {
        lemma_batch_skip(h, g, caller, owner, tv, av, approval_id, k - 1);
        assert(pair_outcome(h, g, caller, owner, tv, av, approval_id, k - 1)
            == Result::<(), TokenError>::Ok(()));
        assert(batch_outcome_from(h, g, caller, owner, tv, av, approval_id, k - 1)
            == batch_outcome_from(h, g, caller, owner, tv, av, approval_id, k));
    }
}

impl MultiToken {
    /// Batch transfer: apply each (token, amount) pair in order from
    /// `owner` to `receiver`, all-or-nothing. When a pair fails, every
    /// previously applied pair is reversed in reverse order -- balances
    /// and consumed approvals alike -- before the first failing pair's
    /// error is returned, so balances and grants after a failed call
    /// equal those before it exactly.
    pub fn transfer_many(
        &mut self,
        caller: &String,
        owner: &String,
        receiver: &String,
        tokens: &Vec<String>,
        amounts: &Vec<u128>,
        approval_id: Option<u64>,
    ) -> (r: Result<(), TokenError>)
        requires
            old(self).wf(),
        ensures
            final(self).wf(),
            r == many_outcome(
                old(self).holdings(),
                old(self).grants(),
                caller@,
                owner@,
                receiver@,
                strs_view(tokens@),
                amounts@,
                approval_id,
            ),
            r is Err ==> forall|o2: Seq<char>, t2: Seq<char>| #[trigger] final(self).bal(o2, t2)
                == old(self).bal(o2, t2),
            r is Err ==> forall|t2: Seq<char>, o2: Seq<char>, d2: Seq<char>| #[trigger] final(self).grant(t2, o2, d2) == old(self).grant(t2, o2, d2),
            r is Ok ==> balances_shifted(
                old(self).holdings(),
                final(self).holdings(),
                owner@,
                receiver@,
                strs_view(tokens@),
                amounts@,
                tokens@.len() as int,
            ),
            r is Ok && caller@ == owner@ ==> final(self).grants() == old(self).grants(),
            r is Ok && caller@ != owner@ ==> grants_consumed(
                old(self).grants(),
                final(self).grants(),
                owner@,
                caller@,
                strs_view(tokens@),
                amounts@,
                tokens@.len() as int,
            ),
            supplies_equal(old(self).holdings(), final(self).holdings()),
            ids_equal(old(self).grants(), final(self).grants()),
            final(self).credits() == old(self).credits(),
            final(self).config() == old(self).config(),
    {
        let ghost h0 = self.holdings();
        let ghost g0 = self.grants();
        let ghost tv = strs_view(tokens@);
        let ghost av = amounts@;
        let ghost cl = caller@;
        let ghost ow = owner@;
        let ghost rc = receiver@;
        if tokens.len() != amounts.len() || tokens.len() == 0 {
            return Result::Err(TokenError::MalformedBatch);
        }
        if *receiver == *owner {
            return Result::Err(TokenError::InvalidTransfer);
        }
        let n = tokens.len();
        let mut k: usize = 0;
        while k < n
            invariant
                self.wf(),
                n == tv.len() && n == av.len() && n == tokens@.len() && n == amounts@.len(),
                n > 0,
                k <= n,
                tv == strs_view(tokens@) && av == amounts@,
                cl == caller@ && ow == owner@ && rc == receiver@,
                rc != ow,
                wf_holdings(h0),
                wf_registry(g0),
                forall|j: int|
                    0 <= j < k ==> #[trigger] pair_outcome(h0, g0, cl, ow, tv, av, approval_id, j)
                        == Result::<(), TokenError>::Ok(()),
                balances_shifted(h0, self.holdings(), ow, rc, tv, av, k as int),
                supplies_equal(h0, self.holdings()),
                cl != ow ==> grants_consumed(g0, self.grants(), ow, cl, tv, av, k as int),
                cl == ow ==> self.grants() == g0,
                ids_equal(g0, self.grants()),
                self.credits() == old(self).credits(),
                self.config() == old(self).config(),
                h0 == old(self).holdings() && g0 == old(self).grants(),
            decreases n - k,
        {
            let ghost hc = self.holdings();
            let ghost gc = self.grants();
            proof {
                assert(tv[k as int] == tokens@[k as int]@);
                assert(moved_before(tv, av, k + 1, tv[k as int]) == moved_before(
                    tv,
                    av,
                    k as int,
                    tv[k as int],
                ) + av[k as int]);
                lemma_batch_prefix_bounds(
                    h0,
                    g0,
                    cl,
                    ow,
                    tv,
                    av,
                    approval_id,
                    k as int,
                    tv[k as int],
                );
            }
            let r = self.transfer_one(
                caller,
                owner,
                receiver,
                &tokens[k],
                amounts[k],
                approval_id,
            );
            proof {
                assert(r == one_outcome(hc, gc, cl, ow, rc, tv[k as int], av[k as int], approval_id));
                assert(r == pair_outcome(h0, g0, cl, ow, tv, av, approval_id, k as int));
            }
            match r {
                Result::Ok(()) => {
                    proof {
                        assert forall|o2: Seq<char>, t2: Seq<char>|
                            #[trigger] amount_for(self.holdings(), o2, t2) + (if o2 == ow {
                                moved_before(tv, av, k + 1, t2)
                            } else {
                                0
                            }) == amount_for(h0, o2, t2) + (if o2 == rc {
                                moved_before(tv, av, k + 1, t2)
                            } else {
                                0
                            }) by {
                            assert(moved_before(tv, av, k + 1, t2) == moved_before(
                                tv,
                                av,
                                k as int,
                                t2,
                            ) + if tv[k as int] == t2 {
                                av[k as int] as nat
                            } else {
                                0
                            });
                            assert(tv[k as int] == tokens@[k as int]@);
                            assert(self.bal(o2, t2) + (if o2 == ow && t2 == tv[k as int] {
                                av[k as int] as nat
                            } else {
                                0
                            }) == amount_for(hc, o2, t2) + (if o2 == rc && t2 == tv[k as int] {
                                av[k as int] as nat
                            } else {
                                0
                            }));
                            assert(amount_for(hc, o2, t2) + (if o2 == ow {
                                moved_before(tv, av, k as int, t2)
                            } else {
                                0
                            }) == amount_for(h0, o2, t2) + (if o2 == rc {
                                moved_before(tv, av, k as int, t2)
                            } else {
                                0
                            }));
                        }
                        assert forall|t2: Seq<char>| #[trigger] supply_of(self.holdings(), t2)
                            == supply_of(h0, t2) by {
                            assert(self.supply(t2) == supply_of(hc, t2));
                            assert(supply_of(hc, t2) == supply_of(h0, t2));
                        }
                        assert forall|t2: Seq<char>, o2: Seq<char>| #[trigger] next_id_of(
                            self.grants(),
                            t2,
                            o2,
                        ) == next_id_of(g0, t2, o2) by {
                            assert(self.next_approval_id(t2, o2) == next_id_of(gc, t2, o2));
                            assert(next_id_of(gc, t2, o2) == next_id_of(g0, t2, o2));
                        }
                        if cl != ow {
                            assert forall|t2: Seq<char>, o2: Seq<char>, d2: Seq<char>|
                                #[trigger] grant_of(self.grants(), t2, o2, d2) == if o2 == ow && d2
                                    == cl {
                                    shrink_grant(
                                        grant_of(g0, t2, o2, d2),
                                        moved_before(tv, av, k + 1, t2),
                                    )
                                } else {
                                    grant_of(g0, t2, o2, d2)
                                } by {
                                assert(moved_before(tv, av, k + 1, t2) == moved_before(
                                    tv,
                                    av,
                                    k as int,
                                    t2,
                                ) + if tv[k as int] == t2 {
                                    av[k as int] as nat
                                } else {
                                    0
                                });
                                assert(tv[k as int] == tokens@[k as int]@);
                                assert(self.grant(t2, o2, d2) == if t2 == tv[k as int] && o2 == ow
                                    && d2 == cl {
                                    Option::Some(
                                        (
                                            approval_id->Some_0,
                                            (grant_of(gc, t2, o2, d2)->Some_0.1
                                                - av[k as int]) as u128,
                                        ),
                                    )
                                } else {
                                    grant_of(gc, t2, o2, d2)
                                });
                                assert(grant_of(gc, t2, o2, d2) == if o2 == ow && d2 == cl {
                                    shrink_grant(
                                        grant_of(g0, t2, o2, d2),
                                        moved_before(tv, av, k as int, t2),
                                    )
                                } else {
                                    grant_of(g0, t2, o2, d2)
                                });
                                lemma_batch_prefix_bounds(
                                    h0,
                                    g0,
                                    cl,
                                    ow,
                                    tv,
                                    av,
                                    approval_id,
                                    k as int,
                                    t2,
                                );
                                lemma_batch_prefix_bounds(
                                    h0,
                                    g0,
                                    cl,
                                    ow,
                                    tv,
                                    av,
                                    approval_id,
                                    k as int,
                                    tv[k as int],
                                );
                            }
                        }
                    }
                    k = k + 1;
                },
                Result::Err(e) => {
                    proof {
                        lemma_batch_skip(h0, g0, cl, ow, tv, av, approval_id, k as int);
                    }
                    let mut j: usize = k;
                    while j > 0
                        invariant
                            self.wf(),
                            n == tv.len() && n == av.len() && n == tokens@.len() && n
                                == amounts@.len(),
                            j <= k <= n,
                            tv == strs_view(tokens@) && av == amounts@,
                            cl == caller@ && ow == owner@ && rc == receiver@,
                            rc != ow,
                            wf_holdings(h0),
                            wf_registry(g0),
                            forall|j2: int|
                                0 <= j2 < k ==> #[trigger] pair_outcome(
                                    h0,
                                    g0,
                                    cl,
                                    ow,
                                    tv,
                                    av,
                                    approval_id,
                                    j2,
                                ) == Result::<(), TokenError>::Ok(()),
                            balances_shifted(h0, self.holdings(), ow, rc, tv, av, j as int),
                            supplies_equal(h0, self.holdings()),
                            cl != ow ==> grants_consumed(g0, self.grants(), ow, cl, tv, av, j as int),
                            cl == ow ==> self.grants() == g0,
                            ids_equal(g0, self.grants()),
                            self.credits() == old(self).credits(),
                            self.config() == old(self).config(),
                            h0 == old(self).holdings() && g0 == old(self).grants(),
                        decreases j,
                    {
                        j = j - 1;
                        let ghost hj = self.holdings();
                        let ghost gj = self.grants();
                        proof {
                            assert(tv[j as int] == tokens@[j as int]@);
                            assert(pair_outcome(h0, g0, cl, ow, tv, av, approval_id, j as int)
                                == Result::<(), TokenError>::Ok(()));
                            assert(moved_before(tv, av, j + 1, tv[j as int]) == moved_before(
                                tv,
                                av,
                                j as int,
                                tv[j as int],
                            ) + av[j as int]);
                        }
                        proof {
                            assert(amount_for(hj, rc, tv[j as int]) + 0 == amount_for(
                                h0,
                                rc,
                                tv[j as int],
                            ) + moved_before(tv, av, j + 1, tv[j as int]));
                        }
                        match self.ownership.debit(receiver, &tokens[j], amounts[j]) {
                            Result::Ok(()) => {},
                            Result::Err(_) => {
                                proof {
                                    assert(false);
                                }
                                return Result::Err(e);
                            },
                        }
                        let ghost hd = self.holdings();
                        self.ownership.credit(owner, &tokens[j], amounts[j]);
                        if *caller != *owner {
                            proof {
                                lemma_batch_prefix_bounds(
                                    h0,
                                    g0,
                                    cl,
                                    ow,
                                    tv,
                                    av,
                                    approval_id,
                                    j + 1,
                                    tv[j as int],
                                );
                            }
                            self.approvals.restore(owner, &tokens[j], caller, amounts[j]);
                            proof {
                                assert forall|t2: Seq<char>, o2: Seq<char>, d2: Seq<char>|
                                    #[trigger] grant_of(self.grants(), t2, o2, d2) == if o2 == ow
                                        && d2 == cl {
                                        shrink_grant(
                                            grant_of(g0, t2, o2, d2),
                                            moved_before(tv, av, j as int, t2),
                                        )
                                    } else {
                                        grant_of(g0, t2, o2, d2)
                                    } by {
                                    assert(moved_before(tv, av, j + 1, t2) == moved_before(
                                        tv,
                                        av,
                                        j as int,
                                        t2,
                                    ) + if tv[j as int] == t2 {
                                        av[j as int] as nat
                                    } else {
                                        0
                                    });
                                    assert(grant_of(gj, t2, o2, d2) == if o2 == ow && d2 == cl {
                                        shrink_grant(
                                            grant_of(g0, t2, o2, d2),
                                            moved_before(tv, av, j + 1, t2),
                                        )
                                    } else {
                                        grant_of(g0, t2, o2, d2)
                                    });
                                    lemma_batch_prefix_bounds(
                                        h0,
                                        g0,
                                        cl,
                                        ow,
                                        tv,
                                        av,
                                        approval_id,
                                        j + 1,
                                        t2,
                                    );
                                    lemma_batch_prefix_bounds(
                                        h0,
                                        g0,
                                        cl,
                                        ow,
                                        tv,
                                        av,
                                        approval_id,
                                        j + 1,
                                        tv[j as int],
                                    );
                                }
                            }
                        }
                        proof {
                            assert forall|o2: Seq<char>, t2: Seq<char>|
                                #[trigger] amount_for(self.holdings(), o2, t2) + (if o2 == ow {
                                    moved_before(tv, av, j as int, t2)
                                } else {
                                    0
                                }) == amount_for(h0, o2, t2) + (if o2 == rc {
                                    moved_before(tv, av, j as int, t2)
                                } else {
                                    0
                                }) by {
                                assert(moved_before(tv, av, j + 1, t2) == moved_before(
                                    tv,
                                    av,
                                    j as int,
                                    t2,
                                ) + if tv[j as int] == t2 {
                                    av[j as int] as nat
                                } else {
                                    0
                                });
                                assert(amount_for(hd, o2, t2) + (if o2 == rc && t2
                                    == tv[j as int] {
                                    av[j as int] as nat
                                } else {
                                    0
                                }) == amount_for(hj, o2, t2));
                                assert(amount_for(self.holdings(), o2, t2) == amount_for(
                                    hd,
                                    o2,
                                    t2,
                                ) + (if o2 == ow && t2 == tv[j as int] {
                                    av[j as int] as nat
                                } else {
                                    0
                                }));
                                assert(amount_for(hj, o2, t2) + (if o2 == ow {
                                    moved_before(tv, av, j + 1, t2)
                                } else {
                                    0
                                }) == amount_for(h0, o2, t2) + (if o2 == rc {
                                    moved_before(tv, av, j + 1, t2)
                                } else {
                                    0
                                }));
                            }
                            assert forall|t2: Seq<char>| #[trigger] supply_of(self.holdings(), t2)
                                == supply_of(h0, t2) by {
                                assert(supply_of(hd, t2) + (if t2 == tv[j as int] {
                                    av[j as int] as nat
                                } else {
                                    0
                                }) == supply_of(hj, t2));
                                assert(supply_of(self.holdings(), t2) == supply_of(hd, t2) + (if t2
                                    == tv[j as int] {
                                    av[j as int] as nat
                                } else {
                                    0
                                }));
                                assert(supply_of(hj, t2) == supply_of(h0, t2));
                            }
                        }
                    }
                    return Result::Err(e);
                },
            }
        }
        proof {
            lemma_batch_skip(h0, g0, cl, ow, tv, av, approval_id, n as int);
        }
        Result::Ok(())
    }
}

} // verus!
