//! The transfer-and-call protocol: optimistic transfer, external verdict,
//! compensating refund.
//!
//! Phase one applies a batch transfer and captures the pending state
//! (sender, receiver, per-token amounts) in a `PendingCall`. The external
//! receiver hook runs outside this crate; its verdict comes back as a
//! `ReceiverResponse`. Phase three consumes the `PendingCall` -- by-value,
//! so one invocation resolves exactly once -- validates the verdict
//! (anything malformed counts as keeping nothing), and refunds what the
//! receiver did not keep, re-checking the receiver's balance defensively:
//! whatever cannot be refunded any more stays with the receiver and is
//! reported as a shortfall instead of being hidden.

use vstd::prelude::*;

use crate::errors::TokenError;
use crate::holdings::HoldingView;
use crate::holdings::amount_for;
use crate::token::MultiToken;
use crate::token::balances_shifted;
use crate::token::grants_consumed;
use crate::token::ids_equal;
use crate::token::many_outcome;
use crate::token::moved_before;
use crate::token::lemma_moved_prefix_eq;
use crate::token::strs_view;
use crate::token::supplies_equal;

verus! {

/// The persisted intermediate state of one transfer-and-call invocation,
/// between the optimistic transfer and its resolution. Resolution takes
/// it by value: a given invocation resolves exactly once.
pub struct PendingCall {
    pub sender: String,
    pub receiver: String,
    pub tokens: Vec<String>,
    pub amounts: Vec<u128>,
}

impl PendingCall {
    /// Equal-length, non-empty pair lists between two distinct accounts.
    pub open spec fn wf(&self) -> bool {
        &&& self.tokens@.len() == self.amounts@.len()
        &&& self.tokens@.len() > 0
        &&& self.sender@ != self.receiver@
    }
}

/// The receiver hook's verdict, as the unverified boundary reports it:
/// a list of kept amounts, a response that did not parse, or an outright
/// failed call.
pub enum ReceiverResponse {
    WellFormed(Vec<u128>),
    Malformed,
    CallFailed,
}

/// A list of `n` zero amounts.
pub open spec fn zero_amounts(n: nat) -> Seq<u128> {
    Seq::new(n, |i: int| 0u128)
}

/// The kept amounts the protocol trusts: the reported list only when it
/// is well formed, has one entry per token, and keeps no more than was
/// transferred; otherwise zero everywhere (full refund).
pub open spec fn kept_of(resp: ReceiverResponse, amounts: Seq<u128>) -> Seq<u128> {
    match resp {
        ReceiverResponse::WellFormed(v) => if v@.len() == amounts.len() && (forall|i: int|
            0 <= i < amounts.len() ==> #[trigger] v@[i] <= amounts[i]) {
            v@
        } else {
            zero_amounts(amounts.len())
        },
        ReceiverResponse::Malformed => zero_amounts(amounts.len()),
        ReceiverResponse::CallFailed => zero_amounts(amounts.len()),
    }
}

/// The refund pair `i` owes: the transferred amount minus the validated
/// kept amount.
pub open spec fn owed_refund(av: Seq<u128>, kv: Seq<u128>, i: int) -> nat {
    if kv[i] <= av[i] {
        (av[i] - kv[i]) as nat
    } else {
        0
    }
}

/// How much the receiver has refunded for token id `t` over the first
/// `n` pairs of a resolution that started from holdings `h0`.
pub open spec fn refunded_before(
    h0: Seq<HoldingView>,
    rc: Seq<char>,
    tv: Seq<Seq<char>>,
    av: Seq<u128>,
    kv: Seq<u128>,
    n: int,
    t: Seq<char>,
) -> nat
    decreases n, 0int,
{
    if n <= 0 {
        0
    } else {
        refunded_before(h0, rc, tv, av, kv, n - 1, t) + if tv[n - 1] == t && retained_at(
            h0,
            rc,
            tv,
            av,
            kv,
            n - 1,
        ) <= av[n - 1] {
            (av[n - 1] - retained_at(h0, rc, tv, av, kv, n - 1)) as nat
        } else {
            0
        }
    }
}

/// The amount the receiver finally retains for pair `i`: the validated
/// kept amount, or more when the balance left to it after the earlier
/// pairs' refunds cannot cover the owed refund (the shortfall case).
pub open spec fn retained_at(
    h0: Seq<HoldingView>,
    rc: Seq<char>,
    tv: Seq<Seq<char>>,
    av: Seq<u128>,
    kv: Seq<u128>,
    i: int,
) -> u128
    decreases i, 1int,
{
    let need = owed_refund(av, kv, i);
    let already = refunded_before(h0, rc, tv, av, kv, i, tv[i]);
    let avail = if already <= amount_for(h0, rc, tv[i]) {
        (amount_for(h0, rc, tv[i]) - already) as nat
    } else {
        0
    };
    if avail >= need {
        kv[i]
    } else {
        (av[i] - avail) as u128
    }
}

/// Validate the receiver's verdict into per-token kept amounts.
fn kept_amounts(resp: &ReceiverResponse, amounts: &Vec<u128>) -> (r: Vec<u128>)
    ensures
        r@ == kept_of(*resp, amounts@),
        r@.len() == amounts@.len(),
        forall|i: int| 0 <= i < r@.len() ==> #[trigger] r@[i] <= amounts@[i],
{
    let n = amounts.len();
    match resp {
        ReceiverResponse::WellFormed(v) => {
            let len_ok = v.len() == n;
            let mut in_range = len_ok;
            if len_ok {
                let mut i: usize = 0;
                while i < n
                    invariant
                        n == amounts@.len(),
                        v@.len() == n,
                        i <= n,
                        in_range <==> (forall|j: int| 0 <= j < i ==> #[trigger] v@[j]
                            <= amounts@[j]),
                    decreases n - i,
                {
                    if v[i] > amounts[i] {
                        in_range = false;
                    }
                    i = i + 1;
                }
            }
            if in_range {
                let mut r: Vec<u128> = Vec::new();
                let mut i: usize = 0;
                while i < n
                    invariant
                        n == amounts@.len(),
                        v@.len() == n,
                        i <= n,
                        r@.len() == i,
                        forall|j: int| 0 <= j < i ==> #[trigger] r@[j] == v@[j],
                    decreases n - i,
                {
                    r.push(v[i]);
                    i = i + 1;
                }
                proof {
                    assert(r@ =~= v@);
                }
                r
            } else {
                zeros_vec(n)
            }
        },
        ReceiverResponse::Malformed => zeros_vec(n),
        ReceiverResponse::CallFailed => zeros_vec(n),
    }
}

/// `n` zeros.
fn zeros_vec(n: usize) -> (r: Vec<u128>)
    ensures
        r@ =~= zero_amounts(n as nat),
{
    let mut r: Vec<u128> = Vec::new();
    let mut i: usize = 0;
    while i < n
        invariant
            i <= n,
            r@.len() == i,
            forall|j: int| 0 <= j < i ==> #[trigger] r@[j] == 0u128,
        decreases n - i,
    {
        r.push(0);
        i = i + 1;
    }
    proof {
        assert(r@ =~= zero_amounts(n as nat));
    }
    r
}

fn copy_strings(v: &Vec<String>) -> (r: Vec<String>)
    ensures
        r@ =~= v@,
{
    let mut r: Vec<String> = Vec::new();
    let n = v.len();
    let mut i: usize = 0;
    while i < n
        invariant
            n == v@.len(),
            i <= n,
            r@.len() == i,
            forall|j: int| 0 <= j < i ==> #[trigger] r@[j] == v@[j],
        decreases n - i,
    {
        r.push(v[i].clone());
        i = i + 1;
    }
    proof {
        assert(r@ =~= v@);
    }
    r
}

fn copy_amounts(v: &Vec<u128>) -> (r: Vec<u128>)
    ensures
        r@ =~= v@,
{
    let mut r: Vec<u128> = Vec::new();
    let n = v.len();
    let mut i: usize = 0;
    while i < n
        invariant
            n == v@.len(),
            i <= n,
            r@.len() == i,
            forall|j: int| 0 <= j < i ==> #[trigger] r@[j] == v@[j],
        decreases n - i,
    {
        r.push(v[i]);
        i = i + 1;
    }
    proof {
        assert(r@ =~= v@);
    }
    r
}

/// The resolved outcome of a transfer-and-call: the per-token amounts the
/// receiver finally retains, with or without a reconciliation shortfall.
/// A shortfall means some refund could not be completed because the
/// receiver had already spent the tokens; the receiver then retains the
/// unreturnable part, and the caller sees exactly how much.
#[derive(Debug, Clone, PartialEq, Eq)]
pub enum Resolution {
    Reconciled(Vec<u128>),
    ReconciledWithShortfall(Vec<u128>),
}

impl Resolution {
    /// The per-token amounts the receiver finally retains.
    pub open spec fn kept_view(&self) -> Seq<u128> {
        match self {
            Resolution::Reconciled(v) => v@,
            Resolution::ReconciledWithShortfall(v) => v@,
        }
    }

    pub open spec fn is_shortfall(&self) -> bool {
        self is ReconciledWithShortfall
    }

    /// The per-token amounts the receiver finally retains.
    pub fn kept(&self) -> (r: &Vec<u128>)
        ensures
            r@ == self.kept_view(),
    {
        match self {
            Resolution::Reconciled(v) => v,
            Resolution::ReconciledWithShortfall(v) => v,
        }
    }

    /// Whether some refund could not be completed.
    pub fn shortfall(&self) -> (r: bool)
        ensures
            r == self.is_shortfall(),
    {
        match self {
            Resolution::Reconciled(_) => false,
            Resolution::ReconciledWithShortfall(_) => true,
        }
    }
}

impl MultiToken {
    /// Phase one of transfer-and-call: apply the batch transfer exactly as
    /// `transfer_many` does and, on success, hand back the pending state
    /// that phase three will resolve. On failure nothing changes and no
    /// external call is to be made.
    pub fn transfer_call_begin(
        &mut self,
        caller: &String,
        owner: &String,
        receiver: &String,
        tokens: &Vec<String>,
        amounts: &Vec<u128>,
        approval_id: Option<u64>,
    ) -> (r: Result<PendingCall, TokenError>)
        requires
            old(self).wf(),
        ensures
            final(self).wf(),
            r matches Result::Err(e) ==> Result::<(), TokenError>::Err(e) == many_outcome(
                old(self).holdings(),
                old(self).grants(),
                caller@,
                owner@,
                receiver@,
                strs_view(tokens@),
                amounts@,
                approval_id,
            ),
            r is Ok <==> many_outcome(
                old(self).holdings(),
                old(self).grants(),
                caller@,
                owner@,
                receiver@,
                strs_view(tokens@),
                amounts@,
                approval_id,
            ) is Ok,
            r is Err ==> forall|o2: Seq<char>, t2: Seq<char>| #[trigger] final(self).bal(o2, t2)
                == old(self).bal(o2, t2),
            r is Err ==> forall|t2: Seq<char>, o2: Seq<char>, d2: Seq<char>| #[trigger] final(self).grant(t2, o2, d2) == old(self).grant(t2, o2, d2),
            r matches Result::Ok(pc) ==> pc.wf() && pc.sender@ == owner@ && pc.receiver@
                == receiver@ && pc.tokens@ == tokens@ && pc.amounts@ == amounts@,
            r is Ok ==> balances_shifted(
                old(self).holdings(),
                final(self).holdings(),
                owner@,
                receiver@,
                strs_view(tokens@),
                amounts@,
                tokens@.len() as int,
            ),
            r is Ok && caller@ == owner@ ==> final(self).grants() == old(self).grants(),
            r is Ok && caller@ != owner@ ==> grants_consumed(
                old(self).grants(),
                final(self).grants(),
                owner@,
                caller@,
                strs_view(tokens@),
                amounts@,
                tokens@.len() as int,
            ),
            supplies_equal(old(self).holdings(), final(self).holdings()),
            ids_equal(old(self).grants(), final(self).grants()),
            final(self).credits() == old(self).credits(),
            final(self).config() == old(self).config(),
    {
        let ghost h0 = self.holdings();
        let ghost g0 = self.grants();
        let rm = self.transfer_many(caller, owner, receiver, tokens, amounts, approval_id);
        proof {
            assert(rm == many_outcome(
                h0,
                g0,
                caller@,
                owner@,
                receiver@,
                strs_view(tokens@),
                amounts@,
                approval_id,
            ));
        }
        match rm {
            Result::Err(e) => Result::Err(e),
            Result::Ok(()) => Result::Ok(
                PendingCall {
                    sender: owner.clone(),
                    receiver: receiver.clone(),
                    tokens: copy_strings(tokens),
                    amounts: copy_amounts(amounts),
                },
            ),
        }
    }

    /// Phase three of transfer-and-call: validate the receiver's verdict
    /// and refund what was not kept. A malformed verdict or a failed call
    /// keeps nothing: full refund. Each refund re-checks the receiver's
    /// balance: when the receiver has already spent part of the tokens,
    /// the unreturnable part stays with it and the outcome says so.
    #[verifier::rlimit(100)]
    pub fn transfer_call_resolve(&mut self, call: PendingCall, response: &ReceiverResponse) -> (r:
        Resolution)
        requires
            old(self).wf(),
            call.wf(),
        ensures
            final(self).wf(),
            r.kept_view().len() == call.amounts@.len(),
            forall|i: int|
                0 <= i < call.amounts@.len() ==> kept_of(*response, call.amounts@)[i]
                    <= #[trigger] r.kept_view()[i] <= call.amounts@[i],
            r.is_shortfall() <==> exists|i: int|
                0 <= i < call.amounts@.len() && #[trigger] r.kept_view()[i] > kept_of(
                    *response,
                    call.amounts@,
                )[i],
            forall|o2: Seq<char>, t2: Seq<char>|
                #[trigger] final(self).bal(o2, t2) + (if o2 == call.receiver@ {
                    moved_before(
                        strs_view(call.tokens@),
                        call.amounts@,
                        call.amounts@.len() as int,
                        t2,
                    )
                } else {
                    0
                }) + (if o2 == call.sender@ {
                    moved_before(
                        strs_view(call.tokens@),
                        r.kept_view(),
                        call.amounts@.len() as int,
                        t2,
                    )
                } else {
                    0
                }) == old(self).bal(o2, t2) + (if o2 == call.receiver@ {
                    moved_before(
                        strs_view(call.tokens@),
                        r.kept_view(),
                        call.amounts@.len() as int,
                        t2,
                    )
                } else {
                    0
                }) + (if o2 == call.sender@ {
                    moved_before(
                        strs_view(call.tokens@),
                        call.amounts@,
                        call.amounts@.len() as int,
                        t2,
                    )
                } else {
                    0
                }),
            supplies_equal(old(self).holdings(), final(self).holdings()),
            final(self).grants() == old(self).grants(),
            final(self).credits() == old(self).credits(),
            final(self).config() == old(self).config(),
            forall|i: int|
                0 <= i < call.amounts@.len() ==> #[trigger] r.kept_view()[i] == retained_at(
                    old(self).holdings(),
                    call.receiver@,
                    strs_view(call.tokens@),
                    call.amounts@,
                    kept_of(*response, call.amounts@),
                    i,
                ),
    {
        let ghost h0 = self.holdings();
        let ghost g0 = self.grants();
        let ghost tv = strs_view(call.tokens@);
        let ghost av = call.amounts@;
        let ghost sd = call.sender@;
        let ghost rc = call.receiver@;
        let ks = kept_amounts(response, &call.amounts);
        let ghost kv = kept_of(*response, av);
        let n = call.tokens.len();
        let mut retained: Vec<u128> = Vec::new();
        let mut shortfall = false;
        let mut i: usize = 0;
        while i < n
            invariant
                self.wf(),
                n == tv.len() && n == av.len() && n == call.tokens@.len() && n
                    == call.amounts@.len(),
                tv == strs_view(call.tokens@) && av == call.amounts@,
                sd == call.sender@ && rc == call.receiver@,
                sd != rc,
                kv == kept_of(*response, av),
                ks@ == kv,
                kv.len() == n,
                forall|j: int| 0 <= j < n ==> #[trigger] kv[j] <= av[j],
                i <= n,
                retained@.len() == i,
                forall|j: int| 0 <= j < i ==> kv[j] <= #[trigger] retained@[j] <= av[j],
                shortfall <==> exists|j: int| 0 <= j < i && #[trigger] retained@[j] > kv[j],
                forall|o2: Seq<char>, t2: Seq<char>|
                    #[trigger] amount_for(self.holdings(), o2, t2) + (if o2 == rc {
                        moved_before(tv, av, i as int, t2)
                    } else {
                        0
                    }) + (if o2 == sd {
                        moved_before(tv, retained@, i as int, t2)
                    } else {
                        0
                    }) == amount_for(h0, o2, t2) + (if o2 == rc {
                        moved_before(tv, retained@, i as int, t2)
                    } else {
                        0
                    }) + (if o2 == sd {
                        moved_before(tv, av, i as int, t2)
                    } else {
                        0
                    }),
                supplies_equal(h0, self.holdings()),
                self.grants() == g0,
                self.credits() == old(self).credits(),
                self.config() == old(self).config(),
                h0 == old(self).holdings() && g0 == old(self).grants(),
                forall|j: int|
                    0 <= j < i ==> #[trigger] retained@[j] == retained_at(h0, rc, tv, av, kv, j),
                forall|t2: Seq<char>|
                    #[trigger] refunded_before(h0, rc, tv, av, kv, i as int, t2) + moved_before(
                        tv,
                        retained@,
                        i as int,
                        t2,
                    ) == moved_before(tv, av, i as int, t2),
            decreases n - i,
        {
            let ghost hj = self.holdings();
            let ghost ret0 = retained@;
            let a = call.amounts[i];
            let k_i = ks[i];
            proof {
                assert(tv[i as int] == call.tokens@[i as int]@);
                assert(kv[i as int] <= av[i as int]);
            }
            let need = a - k_i;
            let avail = self.ownership.balance_of(&call.receiver, &call.tokens[i]);
            let refund: u128;
            if avail < need {
                shortfall = true;
                refund = avail;
            } else {
                refund = need;
            }
            if refund > 0 {
                match self.ownership.debit(&call.receiver, &call.tokens[i], refund) {
                    Result::Ok(()) => {},
                    Result::Err(_) => {
                        proof {
                            assert(false);
                        }
                        return Resolution::Reconciled(retained);
                    },
                }
                let ghost hd = self.holdings();
                self.ownership.credit(&call.sender, &call.tokens[i], refund);
                proof {
                    assert(amount_for(hd, rc, tv[i as int]) + refund == amount_for(
                        hj,
                        rc,
                        tv[i as int],
                    ));
                }
            }
            retained.push(a - refund);
            proof {
                let ri = (a - refund) as u128;
                assert(retained@ =~= ret0.push(ri));
                assert(retained@.len() == i + 1);
                if avail < need {
                    assert(retained@[i as int] > kv[i as int]);
                } else {
                    assert(retained@[i as int] == kv[i as int]);
                }
                if shortfall {
                    if avail < need {
                        assert(0 <= i < i + 1 && retained@[i as int] > kv[i as int]);
                    } else {
                        let j = choose|j: int| 0 <= j < i && ret0[j] > kv[j];
                        assert(retained@[j] == ret0[j]);
                        assert(0 <= j < i + 1 && retained@[j] > kv[j]);
                    }
                } else {
                    assert forall|j: int| 0 <= j < i + 1 implies !(#[trigger] retained@[j]
                        > kv[j]) by {
                        if j < i {
                            assert(retained@[j] == ret0[j]);
                        }
                    }
                }
                assert forall|o2: Seq<char>, t2: Seq<char>|
                    #[trigger] amount_for(self.holdings(), o2, t2) + (if o2 == rc {
                        moved_before(tv, av, i + 1, t2)
                    } else {
                        0
                    }) + (if o2 == sd {
                        moved_before(tv, retained@, i + 1, t2)
                    } else {
                        0
                    }) == amount_for(h0, o2, t2) + (if o2 == rc {
                        moved_before(tv, retained@, i + 1, t2)
                    } else {
                        0
                    }) + (if o2 == sd {
                        moved_before(tv, av, i + 1, t2)
                    } else {
                        0
                    }) by {
                    lemma_moved_prefix_eq(tv, retained@, ret0, i as int, t2);
                    assert(moved_before(tv, av, i + 1, t2) == moved_before(tv, av, i as int, t2)
                        + if tv[i as int] == t2 {
                        av[i as int] as nat
                    } else {
                        0
                    });
                    assert(moved_before(tv, retained@, i + 1, t2) == moved_before(
                        tv,
                        retained@,
                        i as int,
                        t2,
                    ) + if tv[i as int] == t2 {
                        retained@[i as int] as nat
                    } else {
                        0
                    });
                    assert(amount_for(hj, o2, t2) + (if o2 == rc {
                        moved_before(tv, av, i as int, t2)
                    } else {
                        0
                    }) + (if o2 == sd {
                        moved_before(tv, ret0, i as int, t2)
                    } else {
                        0
                    }) == amount_for(h0, o2, t2) + (if o2 == rc {
                        moved_before(tv, ret0, i as int, t2)
                    } else {
                        0
                    }) + (if o2 == sd {
                        moved_before(tv, av, i as int, t2)
                    } else {
                        0
                    }));
                }
                assert(refunded_before(h0, rc, tv, av, kv, i as int, tv[i as int])
                    + moved_before(tv, ret0, i as int, tv[i as int]) == moved_before(
                    tv,
                    av,
                    i as int,
                    tv[i as int],
                ));
                assert(amount_for(hj, rc, tv[i as int]) + moved_before(
                    tv,
                    av,
                    i as int,
                    tv[i as int],
                ) == amount_for(h0, rc, tv[i as int]) + moved_before(
                    tv,
                    ret0,
                    i as int,
                    tv[i as int],
                ));
                assert(retained@[i as int] == retained_at(h0, rc, tv, av, kv, i as int));
                assert forall|j: int| 0 <= j < i + 1 implies #[trigger] retained@[j] == retained_at(
                    h0,
                    rc,
                    tv,
                    av,
                    kv,
                    j,
                ) by {
                    if j < i {
                        assert(retained@[j] == ret0[j]);
                    }
                }
                assert forall|t2: Seq<char>|
                    #[trigger] refunded_before(h0, rc, tv, av, kv, i + 1, t2) + moved_before(
                        tv,
                        retained@,
                        i + 1,
                        t2,
                    ) == moved_before(tv, av, i + 1, t2) by {
                    lemma_moved_prefix_eq(tv, retained@, ret0, i as int, t2);
                    assert(moved_before(tv, av, i + 1, t2) == moved_before(tv, av, i as int, t2)
                        + if tv[i as int] == t2 {
                        av[i as int] as nat
                    } else {
                        0
                    });
                    assert(moved_before(tv, retained@, i + 1, t2) == moved_before(
                        tv,
                        retained@,
                        i as int,
                        t2,
                    ) + if tv[i as int] == t2 {
                        retained@[i as int] as nat
                    } else {
                        0
                    });
                    assert(refunded_before(h0, rc, tv, av, kv, i + 1, t2) == refunded_before(
                        h0,
                        rc,
                        tv,
                        av,
                        kv,
                        i as int,
                        t2,
                    ) + if tv[i as int] == t2 && retained_at(h0, rc, tv, av, kv, i as int) <= av[
                        i as int
                    ] {
                        (av[i as int] - retained_at(h0, rc, tv, av, kv, i as int)) as nat
                    } else {
                        0
                    });
                }
            }
            i = i + 1;
        }
        proof {
            assert forall|o2: Seq<char>, t2: Seq<char>|
                #[trigger] amount_for(self.holdings(), o2, t2) + (if o2 == rc {
                    moved_before(tv, av, n as int, t2)
                } else {
                    0
                }) + (if o2 == sd {
                    moved_before(tv, retained@, n as int, t2)
                } else {
                    0
                }) == amount_for(h0, o2, t2) + (if o2 == rc {
                    moved_before(tv, retained@, n as int, t2)
                } else {
                    0
                }) + (if o2 == sd {
                    moved_before(tv, av, n as int, t2)
                } else {
                    0
                }) by {}
        }
        let ghost retv = retained@;
        let r = if shortfall {
            Resolution::ReconciledWithShortfall(retained)
        } else {
            Resolution::Reconciled(retained)
        };
        proof {
            assert(r.kept_view() == retv);
            if shortfall {
                let j = choose|j: int| 0 <= j < n && retv[j] > kv[j];
                assert(0 <= j < call.amounts@.len() && r.kept_view()[j] > kept_of(
                    *response,
                    call.amounts@,
                )[j]);
            } else {
                assert forall|j: int|
                    0 <= j < call.amounts@.len() implies !(#[trigger] r.kept_view()[j] > kept_of(
                    *response,
                    call.amounts@,
                )[j]) by {
                    assert(!(retv[j] > kv[j]));
                }
            }
        }
        r
    }
}

} // verus!
