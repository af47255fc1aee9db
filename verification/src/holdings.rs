//! The ownership store: per (owner, token id) balances.
//!
//! The store is an association list keyed by the pair (owner, token id).
//! Its invariant keeps keys unique, every stored amount positive (a zero
//! balance is the same as absence), and the circulating supply of every
//! token id within `u128`. All contracts are stated over two sums: the
//! balance of one owner for a token id, and the supply of a token id
//! across all owners, so that conservation is a first-class statement.

use vstd::prelude::*;

use crate::errors::TokenError;

verus! {

/// The mathematical image of one stored holding.
pub struct HoldingView {
    pub owner: Seq<char>,
    pub token: Seq<char>,
    pub amount: u128,
}

/// One stored holding: `owner` holds `amount` of `token`.
pub struct TokenHolding {
    pub owner: String,
    pub token: String,
    pub amount: u128,
}

impl View for TokenHolding {
    type V = HoldingView;

    open spec fn view(&self) -> HoldingView {
        HoldingView { owner: self.owner@, token: self.token@, amount: self.amount }
    }
}

/// Does the holding fall under the filter: an optional owner (`None` means
/// every owner) and a token id?
pub open spec fn hold_matches(h: HoldingView, o: Option<Seq<char>>, t: Seq<char>) -> bool {
    match o {
        Option::None => h.token == t,
        Option::Some(ow) => h.owner == ow && h.token == t,
    }
}

/// The sum of the amounts of all holdings that fall under the filter.
pub open spec fn sum_match(s: Seq<HoldingView>, o: Option<Seq<char>>, t: Seq<char>) -> nat
    decreases s.len(),
{
    if s.len() == 0 {
        0
    } else {
        sum_match(s.drop_last(), o, t) + if hold_matches(s.last(), o, t) {
            s.last().amount as nat
        } else {
            0
        }
    }
}

/// The balance of `o` for token id `t`.
pub open spec fn amount_for(s: Seq<HoldingView>, o: Seq<char>, t: Seq<char>) -> nat {
    sum_match(s, Option::Some(o), t)
}

/// The circulating supply of token id `t`: the sum over all owners.
pub open spec fn supply_of(s: Seq<HoldingView>, t: Seq<char>) -> nat {
    sum_match(s, Option::None, t)
}

/// No two holdings share an (owner, token) key.
pub open spec fn keys_unique(s: Seq<HoldingView>) -> bool {
    forall|i: int, j: int|
        #![trigger s[i], s[j]]
        0 <= i < s.len() && 0 <= j < s.len() && i != j ==> !(s[i].owner == s[j].owner
            && s[i].token == s[j].token)
}

/// The store invariant: unique keys, positive amounts, bounded supplies.
pub open spec fn wf_holdings(s: Seq<HoldingView>) -> bool {
    &&& keys_unique(s)
    &&& forall|i: int| 0 <= i < s.len() ==> #[trigger] s[i].amount > 0
    &&& forall|t: Seq<char>| #[trigger] supply_of(s, t) <= u128::MAX
}

pub proof fn lemma_sum_push(s: Seq<HoldingView>, o: Option<Seq<char>>, t: Seq<char>, h: HoldingView)
    ensures
        sum_match(s.push(h), o, t) == sum_match(s, o, t) + if hold_matches(h, o, t) {
            h.amount as nat
        } else {
            0
        },
{
    assert(s.push(h).drop_last() =~= s);
    assert(s.push(h).last() == h);
}

pub proof fn lemma_sum_update(
    s: Seq<HoldingView>,
    i: int,
    h2: HoldingView,
    o: Option<Seq<char>>,
    t: Seq<char>,
)
    requires
        0 <= i < s.len(),
    ensures
        sum_match(s.update(i, h2), o, t) + if hold_matches(s[i], o, t) {
            s[i].amount as nat
        } else {
            0
        } == sum_match(s, o, t) + if hold_matches(h2, o, t) {
            h2.amount as nat
        } else {
            0
        },
    decreases s.len(),
{
    let s2 = s.update(i, h2);
    if i == s.len() - 1 {
        assert(s2.drop_last() =~= s.drop_last());
        assert(s2.last() == h2);
    } else {
        assert(s2.drop_last() =~= s.drop_last().update(i, h2));
        assert(s2.last() == s.last());
        lemma_sum_update(s.drop_last(), i, h2, o, t);
    }
}

pub proof fn lemma_sum_remove(s: Seq<HoldingView>, i: int, o: Option<Seq<char>>, t: Seq<char>)
    requires
        0 <= i < s.len(),
    ensures
        sum_match(s.remove(i), o, t) + if hold_matches(s[i], o, t) {
            s[i].amount as nat
        } else {
            0
        } == sum_match(s, o, t),
    decreases s.len(),
{
    let s2 = s.remove(i);
    if i == s.len() - 1 {
        assert(s2 =~= s.drop_last());
    } else {
        assert(s2.drop_last() =~= s.drop_last().remove(i));
        assert(s2.last() == s.last());
        lemma_sum_remove(s.drop_last(), i, o, t);
    }
}

pub proof fn lemma_sum_none(s: Seq<HoldingView>, o: Option<Seq<char>>, t: Seq<char>)
    requires
        forall|j: int| 0 <= j < s.len() ==> !hold_matches(#[trigger] s[j], o, t),
    ensures
        sum_match(s, o, t) == 0,
    decreases s.len(),
{
    if s.len() > 0 {
        assert(s.last() == s[s.len() - 1]);
        assert(forall|j: int|
            0 <= j < s.drop_last().len() ==> #[trigger] s.drop_last()[j] == s[j]);
        lemma_sum_none(s.drop_last(), o, t);
    }
}

pub proof fn lemma_sum_unique(s: Seq<HoldingView>, i: int, o: Option<Seq<char>>, t: Seq<char>)
    requires
        0 <= i < s.len(),
        hold_matches(s[i], o, t),
        forall|j: int| 0 <= j < s.len() && j != i ==> !hold_matches(#[trigger] s[j], o, t),
    ensures
        sum_match(s, o, t) == s[i].amount,
    decreases s.len(),
{
    if i == s.len() - 1 {
        assert(s.last() == s[i]);
        assert(forall|j: int|
            0 <= j < s.drop_last().len() ==> #[trigger] s.drop_last()[j] == s[j]);
        lemma_sum_none(s.drop_last(), o, t);
    } else {
        assert(s.last() == s[s.len() - 1]);
        assert(forall|j: int|
            0 <= j < s.drop_last().len() ==> #[trigger] s.drop_last()[j] == s[j]);
        lemma_sum_unique(s.drop_last(), i, o, t);
    }
}

/// One owner's balance never exceeds the token's supply.
pub proof fn lemma_amount_le_supply(s: Seq<HoldingView>, o: Seq<char>, t: Seq<char>)
    ensures
        amount_for(s, o, t) <= supply_of(s, t),
    decreases s.len(),
{
    if s.len() > 0 {
        lemma_amount_le_supply(s.drop_last(), o, t);
    }
}

/// The ownership store.
pub struct OwnershipStore {
    holdings: Vec<TokenHolding>,
}

impl View for OwnershipStore {
    type V = Seq<HoldingView>;

    closed spec fn view(&self) -> Seq<HoldingView> {
        self.holdings@.map_values(|h: TokenHolding| h@)
    }
}

impl OwnershipStore {
    /// An empty store: nobody holds anything.
    pub fn new() -> (r: OwnershipStore)
        ensures
            r@ =~= Seq::<HoldingView>::empty(),
            wf_holdings(r@),
    {
        let r = OwnershipStore { holdings: Vec::new() };
        proof {
            assert(r@ =~= Seq::<HoldingView>::empty());
            assert forall|t: Seq<char>| #[trigger] supply_of(r@, t) <= u128::MAX by {
                lemma_sum_none(r@, Option::None, t);
            }
        }
        r
    }

    /// How many holdings the store currently keeps.
    pub fn holding_count(&self) -> (r: usize)
        ensures
            r == self@.len(),
    {
        self.holdings.len()
    }

    /// Whether holding `i` belongs to `owner`.
    pub fn holding_owner_is(&self, i: usize, owner: &String) -> (r: bool)
        requires
            i < self@.len(),
        ensures
            r == (self@[i as int].owner == owner@),
    {
        self.holdings[i].owner == *owner
    }

    /// The index of the holding for (owner, token), if one exists.
    fn find_index(&self, owner: &String, token: &String) -> (r: Option<usize>)
        ensures
            match r {
                Option::Some(i) => i < self@.len() && self@[i as int].owner == owner@
                    && self@[i as int].token == token@,
                Option::None => forall|j: int|
                    0 <= j < self@.len() ==> !(#[trigger] self@[j].owner == owner@
                        && self@[j].token == token@),
            },
    {
        let n = self.holdings.len();
        let mut i: usize = 0;
        while i < n
            invariant
                n == self.holdings.len(),
                i <= n,
                forall|j: int|
                    0 <= j < i ==> !(#[trigger] self@[j].owner == owner@ && self@[j].token
                        == token@),
            decreases n - i,
        {
            let h = &self.holdings[i];
            if h.owner == *owner && h.token == *token {
                return Option::Some(i);
            }
            i = i + 1;
        }
        Option::None
    }

    /// The balance of `owner` for `token`; zero when no holding exists.
    pub fn balance_of(&self, owner: &String, token: &String) -> (r: u128)
        requires
            wf_holdings(self@),
        ensures
            r == amount_for(self@, owner@, token@),
    {
        match self.find_index(owner, token) {
            Option::Some(i) => {
                proof {
                    lemma_sum_unique(self@, i as int, Option::Some(owner@), token@);
                }
                self.holdings[i].amount
            },
            Option::None => {
                proof {
                    lemma_sum_none(self@, Option::Some(owner@), token@);
                }
                0
            },
        }
    }

    /// Increase `owner`'s balance for `token` by `amount`, creating the
    /// holding when absent. The caller validates that the amount is nonzero
    /// and that the token's supply stays within `u128`.
    pub fn credit(&mut self, owner: &String, token: &String, amount: u128)
        requires
            wf_holdings(old(self)@),
            amount > 0,
            supply_of(old(self)@, token@) + amount <= u128::MAX,
        ensures
            wf_holdings(final(self)@),
            forall|o2: Seq<char>, t2: Seq<char>|
                #[trigger] amount_for(final(self)@, o2, t2) == amount_for(old(self)@, o2, t2)
                    + if o2 == owner@ && t2 == token@ {
                    amount as nat
                } else {
                    0
                },
            forall|t2: Seq<char>|
                #[trigger] supply_of(final(self)@, t2) == supply_of(old(self)@, t2) + if t2
                    == token@ {
                    amount as nat
                } else {
                    0
                },
    {
        let ghost s0 = self@;
        match self.find_index(owner, token) {
            Option::Some(i) => {
                proof {
                    lemma_sum_unique(s0, i as int, Option::Some(owner@), token@);
                    lemma_amount_le_supply(s0, owner@, token@);
                }
                let mut h = self.holdings.remove(i);
                h.amount = h.amount + amount;
                self.holdings.insert(i, h);
                proof {
                    let h2 = HoldingView {
                        owner: owner@,
                        token: token@,
                        amount: (s0[i as int].amount + amount) as u128,
                    };
                    assert(self@ =~= s0.update(i as int, h2));
                    assert forall|o2: Seq<char>, t2: Seq<char>|
                        #[trigger] amount_for(self@, o2, t2) == amount_for(s0, o2, t2) + if o2
                            == owner@ && t2 == token@ {
                            amount as nat
                        } else {
                            0
                        } by {
                        lemma_sum_update(s0, i as int, h2, Option::Some(o2), t2);
                    }
                    assert forall|t2: Seq<char>|
                        #[trigger] supply_of(self@, t2) == supply_of(s0, t2) + if t2 == token@ {
                            amount as nat
                        } else {
                            0
                        } by {
                        lemma_sum_update(s0, i as int, h2, Option::None, t2);
                    }
                    assert forall|i2: int, j2: int|
                        #![trigger self@[i2], self@[j2]]
                        0 <= i2 < self@.len() && 0 <= j2 < self@.len() && i2 != j2 implies !(
                    self@[i2].owner == self@[j2].owner && self@[i2].token
                        == self@[j2].token) by {
                        assert(s0[i2].owner == self@[i2].owner && s0[i2].token
                            == self@[i2].token);
                        assert(s0[j2].owner == self@[j2].owner && s0[j2].token
                            == self@[j2].token);
                    }
                    assert forall|k: int| 0 <= k < self@.len() implies #[trigger] self@[k].amount
                        > 0 by {
                        if k != i as int {
                            assert(self@[k] == s0[k]);
                        }
                    }
                }
            },
            Option::None => {
                proof {
                    lemma_sum_none(s0, Option::Some(owner@), token@);
                }
                self.holdings.push(
                    TokenHolding { owner: owner.clone(), token: token.clone(), amount },
                );
                proof {
                    let h2 = HoldingView { owner: owner@, token: token@, amount };
                    assert(self@ =~= s0.push(h2));
                    assert forall|o2: Seq<char>, t2: Seq<char>|
                        #[trigger] amount_for(self@, o2, t2) == amount_for(s0, o2, t2) + if o2
                            == owner@ && t2 == token@ {
                            amount as nat
                        } else {
                            0
                        } by {
                        lemma_sum_push(s0, Option::Some(o2), t2, h2);
                    }
                    assert forall|t2: Seq<char>|
                        #[trigger] supply_of(self@, t2) == supply_of(s0, t2) + if t2 == token@ {
                            amount as nat
                        } else {
                            0
                        } by {
                        lemma_sum_push(s0, Option::None, t2, h2);
                    }
                    assert forall|i2: int, j2: int|
                        #![trigger self@[i2], self@[j2]]
                        0 <= i2 < self@.len() && 0 <= j2 < self@.len() && i2 != j2 implies !(
                    self@[i2].owner == self@[j2].owner && self@[i2].token
                        == self@[j2].token) by {
                        if i2 < s0.len() && j2 < s0.len() {
                            assert(self@[i2] == s0[i2]);
                            assert(self@[j2] == s0[j2]);
                        } else if i2 < s0.len() {
                            assert(self@[i2] == s0[i2] && self@[j2] == h2);
                        } else {
                            assert(self@[i2] == h2 && self@[j2] == s0[j2]);
                        }
                    }
                    assert forall|k: int| 0 <= k < self@.len() implies #[trigger] self@[k].amount
                        > 0 by {
                        if k < s0.len() {
                            assert(self@[k] == s0[k]);
                        } else {
                            assert(self@[k] == h2);
                        }
                    }
                }
            },
        }
    }

    /// Decrease `owner`'s balance for `token` by `amount`, removing the
    /// holding when it reaches zero. Fails with `InsufficientBalance`, and
    /// changes nothing, exactly when the balance is smaller than `amount`.
    pub fn debit(&mut self, owner: &String, token: &String, amount: u128) -> (r: Result<
        (),
        TokenError,
    >)
        requires
            wf_holdings(old(self)@),
        ensures
            wf_holdings(final(self)@),
            r is Ok <==> amount_for(old(self)@, owner@, token@) >= amount,
            r is Err ==> r == Result::<(), TokenError>::Err(TokenError::InsufficientBalance)
                && final(self)@ == old(self)@,
            r is Ok ==> forall|o2: Seq<char>, t2: Seq<char>|
                #[trigger] amount_for(final(self)@, o2, t2) + if o2 == owner@ && t2 == token@ {
                    amount as nat
                } else {
                    0
                } == amount_for(old(self)@, o2, t2),
            r is Ok ==> forall|t2: Seq<char>|
                #[trigger] supply_of(final(self)@, t2) + if t2 == token@ {
                    amount as nat
                } else {
                    0
                } == supply_of(old(self)@, t2),
    {
        let ghost s0 = self@;
        match self.find_index(owner, token) {
            Option::Some(i) => {
                proof {
                    lemma_sum_unique(s0, i as int, Option::Some(owner@), token@);
                }
                let have = self.holdings[i].amount;
                if have < amount {
                    return Result::Err(TokenError::InsufficientBalance);
                }
                if have == amount {
                    self.holdings.remove(i);
                    proof {
                        assert(self@ =~= s0.remove(i as int));
                        assert forall|o2: Seq<char>, t2: Seq<char>|
                            #[trigger] amount_for(self@, o2, t2) + if o2 == owner@ && t2
                                == token@ {
                                amount as nat
                            } else {
                                0
                            } == amount_for(s0, o2, t2) by {
                            lemma_sum_remove(s0, i as int, Option::Some(o2), t2);
                        }
                        assert forall|t2: Seq<char>|
                            #[trigger] supply_of(self@, t2) + if t2 == token@ {
                                amount as nat
                            } else {
                                0
                            } == supply_of(s0, t2) by {
                            lemma_sum_remove(s0, i as int, Option::None, t2);
                        }
                        assert forall|i2: int, j2: int|
                            #![trigger self@[i2], self@[j2]]
                            0 <= i2 < self@.len() && 0 <= j2 < self@.len() && i2 != j2 implies !(
                        self@[i2].owner == self@[j2].owner && self@[i2].token
                            == self@[j2].token) by {
                            let oi = if i2 < i as int { i2 } else { i2 + 1 };
                            let oj = if j2 < i as int { j2 } else { j2 + 1 };
                            assert(self@[i2] == s0[oi]);
                            assert(self@[j2] == s0[oj]);
                        }
                        assert forall|k: int| 0 <= k < self@.len() implies #[trigger] self@[k].amount
                            > 0 by {
                            let ok = if k < i as int { k } else { k + 1 };
                            assert(self@[k] == s0[ok]);
                        }
                        assert forall|t2: Seq<char>| #[trigger] supply_of(self@, t2)
                            <= u128::MAX by {
                            assert(supply_of(s0, t2) <= u128::MAX);
                        }
                    }
                } else {
                    let mut h = self.holdings.remove(i);
                    h.amount = h.amount - amount;
                    self.holdings.insert(i, h);
                    proof {
                        let h2 = HoldingView {
                            owner: s0[i as int].owner,
                            token: s0[i as int].token,
                            amount: (s0[i as int].amount - amount) as u128,
                        };
                        assert(self@ =~= s0.update(i as int, h2));
                        assert forall|o2: Seq<char>, t2: Seq<char>|
                            #[trigger] amount_for(self@, o2, t2) + if o2 == owner@ && t2
                                == token@ {
                                amount as nat
                            } else {
                                0
                            } == amount_for(s0, o2, t2) by {
                            lemma_sum_update(s0, i as int, h2, Option::Some(o2), t2);
                        }
                        assert forall|t2: Seq<char>|
                            #[trigger] supply_of(self@, t2) + if t2 == token@ {
                                amount as nat
                            } else {
                                0
                            } == supply_of(s0, t2) by {
                            lemma_sum_update(s0, i as int, h2, Option::None, t2);
                        }
                        assert forall|i2: int, j2: int|
                            #![trigger self@[i2], self@[j2]]
                            0 <= i2 < self@.len() && 0 <= j2 < self@.len() && i2 != j2 implies !(
                        self@[i2].owner == self@[j2].owner && self@[i2].token
                            == self@[j2].token) by {
                            assert(s0[i2].owner == self@[i2].owner && s0[i2].token
                                == self@[i2].token);
                            assert(s0[j2].owner == self@[j2].owner && s0[j2].token
                                == self@[j2].token);
                        }
                        assert forall|k: int| 0 <= k < self@.len() implies #[trigger] self@[k].amount
                            > 0 by {
                            if k != i as int {
                                assert(self@[k] == s0[k]);
                            }
                        }
                        assert forall|t2: Seq<char>| #[trigger] supply_of(self@, t2)
                            <= u128::MAX by {
                            assert(supply_of(s0, t2) <= u128::MAX);
                        }
                    }
                }
                Result::Ok(())
            },
            Option::None => {
                proof {
                    lemma_sum_none(s0, Option::Some(owner@), token@);
                }
                if amount == 0 {
                    Result::Ok(())
                } else {
                    Result::Err(TokenError::InsufficientBalance)
                }
            },
        }
    }
}

} // verus!
