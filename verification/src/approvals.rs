//! The approval registry: delegated spending rights with replay protection.
//!
//! Per (token id, owner) the registry keeps a monotonically increasing
//! `next_id` counter and, per delegate, the currently valid approval id and
//! the remaining approved amount. Re-granting bumps the counter, so any
//! authorization quoting an older id is void; consuming keeps the entry
//! (even at amount zero) so a stale id is still detected as a mismatch
//! rather than as absence.

use vstd::prelude::*;

use crate::errors::TokenError;

verus! {

/// The mathematical image of one delegate's grant.
pub struct GrantView {
    pub delegate: Seq<char>,
    pub id: u64,
    pub amount: u128,
}

/// The mathematical image of one (token, owner) record.
pub struct RecordView {
    pub token: Seq<char>,
    pub owner: Seq<char>,
    pub next_id: u64,
    pub grants: Seq<GrantView>,
}

/// One delegate's grant: approval id and remaining amount.
pub struct DelegateGrant {
    pub delegate: String,
    pub id: u64,
    pub amount: u128,
}

impl View for DelegateGrant {
    type V = GrantView;

    open spec fn view(&self) -> GrantView {
        GrantView { delegate: self.delegate@, id: self.id, amount: self.amount }
    }
}

pub open spec fn grants_view(gs: Seq<DelegateGrant>) -> Seq<GrantView> {
    gs.map_values(|g: DelegateGrant| g@)
}

/// The approvals of one owner for one token id.
pub struct ApprovalRecord {
    pub token: String,
    pub owner: String,
    pub next_id: u64,
    pub grants: Vec<DelegateGrant>,
}

impl View for ApprovalRecord {
    type V = RecordView;

    open spec fn view(&self) -> RecordView {
        RecordView {
            token: self.token@,
            owner: self.owner@,
            next_id: self.next_id,
            grants: grants_view(self.grants@),
        }
    }
}

/// The grant stored for `d`, scanning from the end.
pub open spec fn grant_at(gs: Seq<GrantView>, d: Seq<char>) -> Option<GrantView>
    decreases gs.len(),
{
    if gs.len() == 0 {
        Option::None
    } else if gs.last().delegate == d {
        Option::Some(gs.last())
    } else {
        grant_at(gs.drop_last(), d)
    }
}

/// The record stored for (t, o), scanning from the end.
pub open spec fn rec_at(s: Seq<RecordView>, t: Seq<char>, o: Seq<char>) -> Option<RecordView>
    decreases s.len(),
{
    if s.len() == 0 {
        Option::None
    } else if s.last().token == t && s.last().owner == o {
        Option::Some(s.last())
    } else {
        rec_at(s.drop_last(), t, o)
    }
}

/// The approval-id counter for (t, o); zero before any grant.
pub open spec fn next_id_of(s: Seq<RecordView>, t: Seq<char>, o: Seq<char>) -> u64 {
    match rec_at(s, t, o) {
        Option::None => 0,
        Option::Some(r) => r.next_id,
    }
}

/// The (approval id, remaining amount) stored for delegate `d` on (t, o).
pub open spec fn grant_of(s: Seq<RecordView>, t: Seq<char>, o: Seq<char>, d: Seq<char>) -> Option<
    (u64, u128),
> {
    match rec_at(s, t, o) {
        Option::None => Option::None,
        Option::Some(r) => match grant_at(r.grants, d) {
            Option::None => Option::None,
            Option::Some(g) => Option::Some((g.id, g.amount)),
        },
    }
}

/// What a check-and-consume of (id, amount) decides on the current state:
/// absence, a stale id, a short grant, or success, checked in that order.
pub open spec fn consume_outcome(
    s: Seq<RecordView>,
    t: Seq<char>,
    o: Seq<char>,
    d: Seq<char>,
    id: u64,
    amount: u128,
) -> Result<(), TokenError> {
    match grant_of(s, t, o, d) {
        Option::None => Result::Err(TokenError::ApprovalNotFound),
        Option::Some((gid, gamt)) => if gid != id {
            Result::Err(TokenError::ApprovalIdMismatch)
        } else if gamt < amount {
            Result::Err(TokenError::InsufficientApproval)
        } else {
            Result::Ok(())
        },
    }
}

/// The registry invariant: unique (token, owner) record keys, unique
/// delegates within a record, and every stored id strictly below the
/// record's counter.
pub open spec fn wf_registry(s: Seq<RecordView>) -> bool {
    &&& forall|i: int, j: int|
        #![trigger s[i], s[j]]
        0 <= i < s.len() && 0 <= j < s.len() && i != j ==> !(s[i].token == s[j].token && s[i].owner
            == s[j].owner)
    &&& forall|i: int, a: int, b: int|
        #![trigger s[i].grants[a], s[i].grants[b]]
        0 <= i < s.len() && 0 <= a < s[i].grants.len() && 0 <= b < s[i].grants.len() && a != b
            ==> s[i].grants[a].delegate != s[i].grants[b].delegate
    &&& forall|i: int, a: int|
        #![trigger s[i].grants[a]]
        0 <= i < s.len() && 0 <= a < s[i].grants.len() ==> s[i].grants[a].id < s[i].next_id
}

pub proof fn lemma_rec_at_none(s: Seq<RecordView>, t: Seq<char>, o: Seq<char>)
    requires
        forall|j: int| 0 <= j < s.len() ==> !(#[trigger] s[j].token == t && s[j].owner == o),
    ensures
        rec_at(s, t, o) is None,
    decreases s.len(),
{
    if s.len() > 0 {
        assert(s.last() == s[s.len() - 1]);
        assert(forall|j: int|
            0 <= j < s.drop_last().len() ==> #[trigger] s.drop_last()[j] == s[j]);
        lemma_rec_at_none(s.drop_last(), t, o);
    }
}

pub proof fn lemma_rec_at_unique(s: Seq<RecordView>, i: int, t: Seq<char>, o: Seq<char>)
    requires
        0 <= i < s.len(),
        s[i].token == t && s[i].owner == o,
        forall|j: int| 0 <= j < s.len() && j != i ==> !(#[trigger] s[j].token == t && s[j].owner
            == o),
    ensures
        rec_at(s, t, o) == Option::Some(s[i]),
    decreases s.len(),
{
    assert(s.last() == s[s.len() - 1]);
    assert(forall|j: int|
        0 <= j < s.drop_last().len() ==> #[trigger] s.drop_last()[j] == s[j]);
    if i == s.len() - 1 {
    } else {
        lemma_rec_at_unique(s.drop_last(), i, t, o);
    }
}

pub proof fn lemma_grant_at_none(gs: Seq<GrantView>, d: Seq<char>)
    requires
        forall|j: int| 0 <= j < gs.len() ==> #[trigger] gs[j].delegate != d,
    ensures
        grant_at(gs, d) is None,
    decreases gs.len(),
{
    if gs.len() > 0 {
        assert(gs.last() == gs[gs.len() - 1]);
        assert(forall|j: int|
            0 <= j < gs.drop_last().len() ==> #[trigger] gs.drop_last()[j] == gs[j]);
        lemma_grant_at_none(gs.drop_last(), d);
    }
}

pub proof fn lemma_grant_at_unique(gs: Seq<GrantView>, a: int, d: Seq<char>)
    requires
        0 <= a < gs.len(),
        gs[a].delegate == d,
        forall|j: int| 0 <= j < gs.len() && j != a ==> #[trigger] gs[j].delegate != d,
    ensures
        grant_at(gs, d) == Option::Some(gs[a]),
    decreases gs.len(),
{
    assert(gs.last() == gs[gs.len() - 1]);
    assert(forall|j: int|
        0 <= j < gs.drop_last().len() ==> #[trigger] gs.drop_last()[j] == gs[j]);
    if a == gs.len() - 1 {
    } else {
        lemma_grant_at_unique(gs.drop_last(), a, d);
    }
}

/// Replay protection: while a grant with id `gid` is stored, a consume
/// quoting any other id -- in particular any older, smaller one -- fails
/// with `ApprovalIdMismatch`, whatever amount it asks for.
pub proof fn lemma_approval_replay_rejected(
    s: Seq<RecordView>,
    t: Seq<char>,
    o: Seq<char>,
    d: Seq<char>,
    gid: u64,
    gamt: u128,
    stale: u64,
    amount: u128,
)
    requires
        grant_of(s, t, o, d) == Option::Some((gid, gamt)),
        stale < gid,
    ensures
        consume_outcome(s, t, o, d, stale, amount) == Result::<(), TokenError>::Err(
            TokenError::ApprovalIdMismatch,
        ),
{
}

/// In a well-formed registry every stored grant id lies strictly below the
/// record's counter, so an id the counter has not yet reached can never be
/// stored.
pub proof fn lemma_grant_id_below_next(
    s: Seq<RecordView>,
    t: Seq<char>,
    o: Seq<char>,
    d: Seq<char>,
    gid: u64,
    gamt: u128,
)
    requires
        wf_registry(s),
        grant_of(s, t, o, d) == Option::Some((gid, gamt)),
    ensures
        gid < next_id_of(s, t, o),
{
    let r = rec_at(s, t, o)->Some_0;
    lemma_rec_at_mem(s, t, o);
    let i = choose|i: int| 0 <= i < s.len() && s[i] == r;
    let g = grant_at(r.grants, d)->Some_0;
    lemma_grant_at_mem(r.grants, d);
    let a = choose|a: int| 0 <= a < r.grants.len() && r.grants[a] == g;
    assert(s[i].grants[a].id < s[i].next_id);
}

proof fn lemma_rec_at_mem(s: Seq<RecordView>, t: Seq<char>, o: Seq<char>)
    requires
        rec_at(s, t, o) is Some,
    ensures
        exists|i: int| 0 <= i < s.len() && s[i] == rec_at(s, t, o)->Some_0,
    decreases s.len(),
{
    if s.len() > 0 {
        if s.last().token == t && s.last().owner == o {
            assert(s[s.len() - 1] == rec_at(s, t, o)->Some_0);
        } else {
            lemma_rec_at_mem(s.drop_last(), t, o);
            let i = choose|i: int|
                0 <= i < s.drop_last().len() && s.drop_last()[i] == rec_at(s.drop_last(), t, o)->Some_0;
            assert(s[i] == rec_at(s, t, o)->Some_0);
        }
    }
}

proof fn lemma_grant_at_mem(gs: Seq<GrantView>, d: Seq<char>)
    requires
        grant_at(gs, d) is Some,
    ensures
        exists|a: int| 0 <= a < gs.len() && gs[a] == grant_at(gs, d)->Some_0,
    decreases gs.len(),
{
    if gs.len() > 0 {
        if gs.last().delegate == d {
            assert(gs[gs.len() - 1] == grant_at(gs, d)->Some_0);
        } else {
            lemma_grant_at_mem(gs.drop_last(), d);
            let a = choose|a: int|
                0 <= a < gs.drop_last().len() && gs.drop_last()[a] == grant_at(gs.drop_last(), d)->Some_0;
            assert(gs[a] == grant_at(gs, d)->Some_0);
        }
    }
}

/// The record `r` with grant `a` replaced by `g2` (same delegate), the
/// counter bumped when `bump` holds.
pub open spec fn replace_grant_rec(r: RecordView, a: int, g2: GrantView, bump: bool) -> RecordView {
    RecordView {
        token: r.token,
        owner: r.owner,
        next_id: if bump {
            (r.next_id + 1) as u64
        } else {
            r.next_id
        },
        grants: r.grants.update(a, g2),
    }
}

/// The record `r` with a first grant for a new delegate appended and the
/// counter bumped.
pub open spec fn new_grant_rec(r: RecordView, g2: GrantView) -> RecordView {
    RecordView {
        token: r.token,
        owner: r.owner,
        next_id: (r.next_id + 1) as u64,
        grants: r.grants.push(g2),
    }
}

/// The record `r` with grant `a` removed.
pub open spec fn drop_grant_rec(r: RecordView, a: int) -> RecordView {
    RecordView { token: r.token, owner: r.owner, next_id: r.next_id, grants: r.grants.remove(a) }
}

/// A fresh record for (t, o) holding one grant.
pub open spec fn first_rec(t: Seq<char>, o: Seq<char>, g2: GrantView) -> RecordView {
    RecordView { token: t, owner: o, next_id: 1, grants: Seq::<GrantView>::empty().push(g2) }
}

proof fn lemma_rec_at_update(s: Seq<RecordView>, i: int, r2: RecordView, t2: Seq<char>, o2: Seq<char>)
    requires
        0 <= i < s.len(),
        r2.token == s[i].token && r2.owner == s[i].owner,
        forall|j: int| 0 <= j < s.len() && j != i ==> !(#[trigger] s[j].token == s[i].token
            && s[j].owner == s[i].owner),
    ensures
        rec_at(s.update(i, r2), t2, o2) == if s[i].token == t2 && s[i].owner == o2 {
            Option::Some(r2)
        } else {
            rec_at(s, t2, o2)
        },
    decreases s.len(),
{
    let s2 = s.update(i, r2);
    assert(s.last() == s[s.len() - 1]);
    assert(forall|j: int|
        0 <= j < s.drop_last().len() ==> #[trigger] s.drop_last()[j] == s[j]);
    if i == s.len() - 1 {
        assert(s2.drop_last() =~= s.drop_last());
        assert(s2.last() == r2);
    } else {
        assert(s2.drop_last() =~= s.drop_last().update(i, r2));
        assert(s2.last() == s.last());
        lemma_rec_at_update(s.drop_last(), i, r2, t2, o2);
    }
}

proof fn lemma_rec_at_push(s: Seq<RecordView>, r: RecordView, t2: Seq<char>, o2: Seq<char>)
    ensures
        rec_at(s.push(r), t2, o2) == if r.token == t2 && r.owner == o2 {
            Option::Some(r)
        } else {
            rec_at(s, t2, o2)
        },
{
    assert(s.push(r).drop_last() =~= s);
    assert(s.push(r).last() == r);
}

proof fn lemma_grant_at_update(gs: Seq<GrantView>, a: int, g2: GrantView, d2: Seq<char>)
    requires
        0 <= a < gs.len(),
        g2.delegate == gs[a].delegate,
        forall|j: int| 0 <= j < gs.len() && j != a ==> #[trigger] gs[j].delegate
            != gs[a].delegate,
    ensures
        grant_at(gs.update(a, g2), d2) == if gs[a].delegate == d2 {
            Option::Some(g2)
        } else {
            grant_at(gs, d2)
        },
    decreases gs.len(),
{
    let s2 = gs.update(a, g2);
    assert(gs.last() == gs[gs.len() - 1]);
    assert(forall|j: int|
        0 <= j < gs.drop_last().len() ==> #[trigger] gs.drop_last()[j] == gs[j]);
    if a == gs.len() - 1 {
        assert(s2.drop_last() =~= gs.drop_last());
        assert(s2.last() == g2);
    } else {
        assert(s2.drop_last() =~= gs.drop_last().update(a, g2));
        assert(s2.last() == gs.last());
        lemma_grant_at_update(gs.drop_last(), a, g2, d2);
    }
}

proof fn lemma_grant_at_push(gs: Seq<GrantView>, g: GrantView, d2: Seq<char>)
    ensures
        grant_at(gs.push(g), d2) == if g.delegate == d2 {
            Option::Some(g)
        } else {
            grant_at(gs, d2)
        },
{
    assert(gs.push(g).drop_last() =~= gs);
    assert(gs.push(g).last() == g);
}

proof fn lemma_grant_at_remove(gs: Seq<GrantView>, a: int, d2: Seq<char>)
    requires
        0 <= a < gs.len(),
        forall|j: int| 0 <= j < gs.len() && j != a ==> #[trigger] gs[j].delegate
            != gs[a].delegate,
    ensures
        grant_at(gs.remove(a), d2) == if gs[a].delegate == d2 {
            Option::None
        } else {
            grant_at(gs, d2)
        },
    decreases gs.len(),
{
    let s2 = gs.remove(a);
    assert(gs.last() == gs[gs.len() - 1]);
    assert(forall|j: int|
        0 <= j < gs.drop_last().len() ==> #[trigger] gs.drop_last()[j] == gs[j]);
    if a == gs.len() - 1 {
        assert(s2 =~= gs.drop_last());
        if gs[a].delegate == d2 {
            lemma_grant_at_none(gs.drop_last(), d2);
        }
    } else {
        assert(s2.drop_last() =~= gs.drop_last().remove(a));
        assert(s2.last() == gs.last());
        lemma_grant_at_remove(gs.drop_last(), a, d2);
    }
}

/// After replacing grant `a` of record `i` by `g2` for the same delegate
/// (and possibly bumping the counter by one), the registry is still well
/// formed, counters move only at that record, and only that delegate's
/// grant changes.
proof fn lemma_record_updated(s0: Seq<RecordView>, i: int, a: int, g2: GrantView, bump: bool)
    requires
        wf_registry(s0),
        0 <= i < s0.len(),
        0 <= a < s0[i].grants.len(),
        g2.delegate == s0[i].grants[a].delegate,
        bump ==> g2.id == s0[i].next_id && s0[i].next_id < u64::MAX,
        !bump ==> g2.id == s0[i].grants[a].id,
    ensures
        wf_registry(s0.update(i, replace_grant_rec(s0[i], a, g2, bump))),
        forall|t2: Seq<char>, o2: Seq<char>|
            #[trigger] next_id_of(s0.update(i, replace_grant_rec(s0[i], a, g2, bump)), t2, o2)
                == if s0[i].token == t2 && s0[i].owner == o2 && bump {
                (next_id_of(s0, t2, o2) + 1) as u64
            } else {
                next_id_of(s0, t2, o2)
            },
        forall|t2: Seq<char>, o2: Seq<char>, d2: Seq<char>|
            #[trigger] grant_of(s0.update(i, replace_grant_rec(s0[i], a, g2, bump)), t2, o2, d2)
                == if s0[i].token == t2 && s0[i].owner == o2 && s0[i].grants[a].delegate == d2 {
                Option::Some((g2.id, g2.amount))
            } else {
                grant_of(s0, t2, o2, d2)
            },
{
    let rv2 = replace_grant_rec(s0[i], a, g2, bump);
    let s2 = s0.update(i, rv2);
    assert forall|j: int| 0 <= j < s0.len() && j != i implies !(#[trigger] s0[j].token
        == s0[i].token && s0[j].owner == s0[i].owner) by {}
    assert forall|j: int| 0 <= j < s0[i].grants.len() && j != a implies #[trigger] s0[i].grants[j].delegate != s0[i].grants[a].delegate by {}
    assert forall|t2: Seq<char>, o2: Seq<char>| #[trigger] next_id_of(s2, t2, o2) == if s0[i].token == t2 && s0[i].owner == o2 && bump {
        (next_id_of(s0, t2, o2) + 1) as u64
    } else {
        next_id_of(s0, t2, o2)
    } by {
        lemma_rec_at_update(s0, i, rv2, t2, o2);
        if s0[i].token == t2 && s0[i].owner == o2 {
            lemma_rec_at_unique(s0, i, t2, o2);
        }
    }
    assert forall|t2: Seq<char>, o2: Seq<char>, d2: Seq<char>| #[trigger] grant_of(
        s2,
        t2,
        o2,
        d2,
    ) == if s0[i].token == t2 && s0[i].owner == o2 && s0[i].grants[a].delegate == d2 {
        Option::Some((g2.id, g2.amount))
    } else {
        grant_of(s0, t2, o2, d2)
    } by {
        lemma_rec_at_update(s0, i, rv2, t2, o2);
        if s0[i].token == t2 && s0[i].owner == o2 {
            lemma_rec_at_unique(s0, i, t2, o2);
            lemma_grant_at_update(s0[i].grants, a, g2, d2);
        }
    }
    assert forall|i2: int, j2: int|
        #![trigger s2[i2], s2[j2]]
        0 <= i2 < s2.len() && 0 <= j2 < s2.len() && i2 != j2 implies !(s2[i2].token == s2[j2].token
        && s2[i2].owner == s2[j2].owner) by {
        assert(s2[i2].token == s0[i2].token && s2[i2].owner == s0[i2].owner);
        assert(s2[j2].token == s0[j2].token && s2[j2].owner == s0[j2].owner);
    }
    assert forall|i2: int, a2: int, b2: int|
        #![trigger s2[i2].grants[a2], s2[i2].grants[b2]]
        0 <= i2 < s2.len() && 0 <= a2 < s2[i2].grants.len() && 0 <= b2 < s2[i2].grants.len() && a2
        != b2 implies s2[i2].grants[a2].delegate != s2[i2].grants[b2].delegate by {
        if i2 == i {
            assert(s2[i2].grants[a2].delegate == s0[i].grants[a2].delegate);
            assert(s2[i2].grants[b2].delegate == s0[i].grants[b2].delegate);
        } else {
            assert(s2[i2] == s0[i2]);
        }
    }
    assert forall|i2: int, a2: int|
        #![trigger s2[i2].grants[a2]]
        0 <= i2 < s2.len() && 0 <= a2 < s2[i2].grants.len() implies s2[i2].grants[a2].id
        < s2[i2].next_id by {
        if i2 == i {
            if a2 != a {
                assert(s2[i2].grants[a2] == s0[i].grants[a2]);
            }
        } else {
            assert(s2[i2] == s0[i2]);
        }
    }
}

/// After appending a grant for a delegate the record did not know, with the
/// counter bumped, the registry is still well formed and only that
/// delegate's grant appears.
proof fn lemma_record_grant_added(s0: Seq<RecordView>, i: int, g2: GrantView)
    requires
        wf_registry(s0),
        0 <= i < s0.len(),
        g2.id == s0[i].next_id,
        s0[i].next_id < u64::MAX,
        forall|j: int| 0 <= j < s0[i].grants.len() ==> #[trigger] s0[i].grants[j].delegate
            != g2.delegate,
    ensures
        wf_registry(s0.update(i, new_grant_rec(s0[i], g2))),
        forall|t2: Seq<char>, o2: Seq<char>|
            #[trigger] next_id_of(s0.update(i, new_grant_rec(s0[i], g2)), t2, o2) == if s0[i].token == t2 && s0[i].owner == o2 {
                (next_id_of(s0, t2, o2) + 1) as u64
            } else {
                next_id_of(s0, t2, o2)
            },
        forall|t2: Seq<char>, o2: Seq<char>, d2: Seq<char>|
            #[trigger] grant_of(s0.update(i, new_grant_rec(s0[i], g2)), t2, o2, d2) == if s0[i].token == t2 && s0[i].owner == o2 && g2.delegate == d2 {
                Option::Some((g2.id, g2.amount))
            } else {
                grant_of(s0, t2, o2, d2)
            },
{
    let rv2 = new_grant_rec(s0[i], g2);
    let s2 = s0.update(i, rv2);
    assert forall|j: int| 0 <= j < s0.len() && j != i implies !(#[trigger] s0[j].token
        == s0[i].token && s0[j].owner == s0[i].owner) by {}
    assert forall|t2: Seq<char>, o2: Seq<char>| #[trigger] next_id_of(s2, t2, o2) == if s0[i].token == t2 && s0[i].owner == o2 {
        (next_id_of(s0, t2, o2) + 1) as u64
    } else {
        next_id_of(s0, t2, o2)
    } by {
        lemma_rec_at_update(s0, i, rv2, t2, o2);
        if s0[i].token == t2 && s0[i].owner == o2 {
            lemma_rec_at_unique(s0, i, t2, o2);
        }
    }
    assert forall|t2: Seq<char>, o2: Seq<char>, d2: Seq<char>| #[trigger] grant_of(
        s2,
        t2,
        o2,
        d2,
    ) == if s0[i].token == t2 && s0[i].owner == o2 && g2.delegate == d2 {
        Option::Some((g2.id, g2.amount))
    } else {
        grant_of(s0, t2, o2, d2)
    } by {
        lemma_rec_at_update(s0, i, rv2, t2, o2);
        if s0[i].token == t2 && s0[i].owner == o2 {
            lemma_rec_at_unique(s0, i, t2, o2);
            lemma_grant_at_push(s0[i].grants, g2, d2);
        }
    }
    assert forall|i2: int, j2: int|
        #![trigger s2[i2], s2[j2]]
        0 <= i2 < s2.len() && 0 <= j2 < s2.len() && i2 != j2 implies !(s2[i2].token == s2[j2].token
        && s2[i2].owner == s2[j2].owner) by {
        assert(s2[i2].token == s0[i2].token && s2[i2].owner == s0[i2].owner);
        assert(s2[j2].token == s0[j2].token && s2[j2].owner == s0[j2].owner);
    }
    assert forall|i2: int, a2: int, b2: int|
        #![trigger s2[i2].grants[a2], s2[i2].grants[b2]]
        0 <= i2 < s2.len() && 0 <= a2 < s2[i2].grants.len() && 0 <= b2 < s2[i2].grants.len() && a2
        != b2 implies s2[i2].grants[a2].delegate != s2[i2].grants[b2].delegate by {
        if i2 == i {
            if a2 < s0[i].grants.len() && b2 < s0[i].grants.len() {
                assert(s2[i2].grants[a2] == s0[i].grants[a2]);
                assert(s2[i2].grants[b2] == s0[i].grants[b2]);
            } else if a2 < s0[i].grants.len() {
                assert(s2[i2].grants[a2] == s0[i].grants[a2] && s2[i2].grants[b2] == g2);
            } else {
                assert(s2[i2].grants[a2] == g2 && s2[i2].grants[b2] == s0[i].grants[b2]);
            }
        } else {
            assert(s2[i2] == s0[i2]);
        }
    }
    assert forall|i2: int, a2: int|
        #![trigger s2[i2].grants[a2]]
        0 <= i2 < s2.len() && 0 <= a2 < s2[i2].grants.len() implies s2[i2].grants[a2].id
        < s2[i2].next_id by {
        if i2 == i {
            if a2 < s0[i].grants.len() {
                assert(s2[i2].grants[a2] == s0[i].grants[a2]);
            } else {
                assert(s2[i2].grants[a2] == g2);
            }
        } else {
            assert(s2[i2] == s0[i2]);
        }
    }
}

/// After pushing a record for a key the registry did not know, holding one
/// grant with id zero and counter one, the registry is still well formed.
proof fn lemma_record_pushed(s0: Seq<RecordView>, t: Seq<char>, o: Seq<char>, g2: GrantView)
    requires
        wf_registry(s0),
        g2.id == 0,
        forall|j: int| 0 <= j < s0.len() ==> !(#[trigger] s0[j].token == t && s0[j].owner == o),
    ensures
        wf_registry(s0.push(first_rec(t, o, g2))),
        forall|t2: Seq<char>, o2: Seq<char>|
            #[trigger] next_id_of(s0.push(first_rec(t, o, g2)), t2, o2) == if t == t2 && o == o2 {
                1u64
            } else {
                next_id_of(s0, t2, o2)
            },
        forall|t2: Seq<char>, o2: Seq<char>, d2: Seq<char>|
            #[trigger] grant_of(s0.push(first_rec(t, o, g2)), t2, o2, d2) == if t == t2 && o == o2
                && g2.delegate == d2 {
                Option::Some((g2.id, g2.amount))
            } else if t == t2 && o == o2 {
                Option::None
            } else {
                grant_of(s0, t2, o2, d2)
            },
{
    let rv2 = first_rec(t, o, g2);
    let s2 = s0.push(rv2);
    assert forall|t2: Seq<char>, o2: Seq<char>| #[trigger] next_id_of(s2, t2, o2) == if t == t2
        && o == o2 {
        1u64
    } else {
        next_id_of(s0, t2, o2)
    } by {
        lemma_rec_at_push(s0, rv2, t2, o2);
        if t == t2 && o == o2 {
            lemma_rec_at_none(s0, t2, o2);
        }
    }
    assert forall|t2: Seq<char>, o2: Seq<char>, d2: Seq<char>| #[trigger] grant_of(
        s2,
        t2,
        o2,
        d2,
    ) == if t == t2 && o == o2 && g2.delegate == d2 {
        Option::Some((g2.id, g2.amount))
    } else if t == t2 && o == o2 {
        Option::None
    } else {
        grant_of(s0, t2, o2, d2)
    } by {
        lemma_rec_at_push(s0, rv2, t2, o2);
        if t == t2 && o == o2 {
            lemma_rec_at_none(s0, t2, o2);
            lemma_grant_at_push(Seq::<GrantView>::empty(), g2, d2);
        }
    }
    assert forall|i2: int, j2: int|
        #![trigger s2[i2], s2[j2]]
        0 <= i2 < s2.len() && 0 <= j2 < s2.len() && i2 != j2 implies !(s2[i2].token == s2[j2].token
        && s2[i2].owner == s2[j2].owner) by {
        if i2 < s0.len() && j2 < s0.len() {
            assert(s2[i2] == s0[i2]);
            assert(s2[j2] == s0[j2]);
        } else if i2 < s0.len() {
            assert(s2[i2] == s0[i2] && s2[j2] == rv2);
        } else {
            assert(s2[i2] == rv2 && s2[j2] == s0[j2]);
        }
    }
    assert forall|i2: int, a2: int, b2: int|
        #![trigger s2[i2].grants[a2], s2[i2].grants[b2]]
        0 <= i2 < s2.len() && 0 <= a2 < s2[i2].grants.len() && 0 <= b2 < s2[i2].grants.len() && a2
        != b2 implies s2[i2].grants[a2].delegate != s2[i2].grants[b2].delegate by {
        if i2 < s0.len() {
            assert(s2[i2] == s0[i2]);
        } else {
            assert(s2[i2].grants.len() == 1);
        }
    }
    assert forall|i2: int, a2: int|
        #![trigger s2[i2].grants[a2]]
        0 <= i2 < s2.len() && 0 <= a2 < s2[i2].grants.len() implies s2[i2].grants[a2].id
        < s2[i2].next_id by {
        if i2 < s0.len() {
            assert(s2[i2] == s0[i2]);
        } else {
            assert(s2[i2].grants[a2] == g2);
        }
    }
}

/// After removing grant `a` of record `i`, the registry is still well
/// formed, counters are untouched, and only that delegate's grant is gone.
proof fn lemma_record_grant_removed(s0: Seq<RecordView>, i: int, a: int)
    requires
        wf_registry(s0),
        0 <= i < s0.len(),
        0 <= a < s0[i].grants.len(),
    ensures
        wf_registry(s0.update(i, drop_grant_rec(s0[i], a))),
        forall|t2: Seq<char>, o2: Seq<char>|
            #[trigger] next_id_of(s0.update(i, drop_grant_rec(s0[i], a)), t2, o2) == next_id_of(
                s0,
                t2,
                o2,
            ),
        forall|t2: Seq<char>, o2: Seq<char>, d2: Seq<char>|
            #[trigger] grant_of(s0.update(i, drop_grant_rec(s0[i], a)), t2, o2, d2) == if s0[i].token == t2 && s0[i].owner == o2 && s0[i].grants[a].delegate == d2 {
                Option::None
            } else {
                grant_of(s0, t2, o2, d2)
            },
{
    let rv2 = drop_grant_rec(s0[i], a);
    let s2 = s0.update(i, rv2);
    assert forall|j: int| 0 <= j < s0.len() && j != i implies !(#[trigger] s0[j].token
        == s0[i].token && s0[j].owner == s0[i].owner) by {}
    assert forall|j: int| 0 <= j < s0[i].grants.len() && j != a implies #[trigger] s0[i].grants[j].delegate != s0[i].grants[a].delegate by {}
    assert forall|t2: Seq<char>, o2: Seq<char>| #[trigger] next_id_of(s2, t2, o2) == next_id_of(
        s0,
        t2,
        o2,
    ) by {
        lemma_rec_at_update(s0, i, rv2, t2, o2);
        if s0[i].token == t2 && s0[i].owner == o2 {
            lemma_rec_at_unique(s0, i, t2, o2);
        }
    }
    assert forall|t2: Seq<char>, o2: Seq<char>, d2: Seq<char>| #[trigger] grant_of(
        s2,
        t2,
        o2,
        d2,
    ) == if s0[i].token == t2 && s0[i].owner == o2 && s0[i].grants[a].delegate == d2 {
        Option::None
    } else {
        grant_of(s0, t2, o2, d2)
    } by {
        lemma_rec_at_update(s0, i, rv2, t2, o2);
        if s0[i].token == t2 && s0[i].owner == o2 {
            lemma_rec_at_unique(s0, i, t2, o2);
            lemma_grant_at_remove(s0[i].grants, a, d2);
        }
    }
    assert forall|i2: int, j2: int|
        #![trigger s2[i2], s2[j2]]
        0 <= i2 < s2.len() && 0 <= j2 < s2.len() && i2 != j2 implies !(s2[i2].token == s2[j2].token
        && s2[i2].owner == s2[j2].owner) by {
        assert(s2[i2].token == s0[i2].token && s2[i2].owner == s0[i2].owner);
        assert(s2[j2].token == s0[j2].token && s2[j2].owner == s0[j2].owner);
    }
    assert forall|i2: int, a2: int, b2: int|
        #![trigger s2[i2].grants[a2], s2[i2].grants[b2]]
        0 <= i2 < s2.len() && 0 <= a2 < s2[i2].grants.len() && 0 <= b2 < s2[i2].grants.len() && a2
        != b2 implies s2[i2].grants[a2].delegate != s2[i2].grants[b2].delegate by {
        if i2 == i {
            let oa = if a2 < a { a2 } else { a2 + 1 };
            let ob = if b2 < a { b2 } else { b2 + 1 };
            assert(s2[i2].grants[a2] == s0[i].grants[oa]);
            assert(s2[i2].grants[b2] == s0[i].grants[ob]);
        } else {
            assert(s2[i2] == s0[i2]);
        }
    }
    assert forall|i2: int, a2: int|
        #![trigger s2[i2].grants[a2]]
        0 <= i2 < s2.len() && 0 <= a2 < s2[i2].grants.len() implies s2[i2].grants[a2].id
        < s2[i2].next_id by {
        if i2 == i {
            let oa = if a2 < a { a2 } else { a2 + 1 };
            assert(s2[i2].grants[a2] == s0[i].grants[oa]);
        } else {
            assert(s2[i2] == s0[i2]);
        }
    }
}

/// Find the index of the grant for `delegate`, if any.
fn find_grant(gs: &Vec<DelegateGrant>, delegate: &String) -> (r: Option<usize>)
    ensures
        match r {
            Option::Some(a) => a < gs@.len() && grants_view(gs@)[a as int].delegate == delegate@,
            Option::None => forall|j: int|
                0 <= j < gs@.len() ==> #[trigger] grants_view(gs@)[j].delegate != delegate@,
        },
{
    let n = gs.len();
    let mut a: usize = 0;
    while a < n
        invariant
            n == gs@.len(),
            a <= n,
            forall|j: int| 0 <= j < a ==> #[trigger] grants_view(gs@)[j].delegate != delegate@,
        decreases n - a,
    {
        if gs[a].delegate == *delegate {
            return Option::Some(a);
        }
        a = a + 1;
    }
    Option::None
}

/// The approval registry.
pub struct ApprovalRegistry {
    records: Vec<ApprovalRecord>,
}

impl View for ApprovalRegistry {
    type V = Seq<RecordView>;

    closed spec fn view(&self) -> Seq<RecordView> {
        self.records@.map_values(|r: ApprovalRecord| r@)
    }
}

impl ApprovalRegistry {
    /// An empty registry: no approvals, every counter at zero.
    pub fn new() -> (r: ApprovalRegistry)
        ensures
            r@ =~= Seq::<RecordView>::empty(),
            wf_registry(r@),
    {
        let r = ApprovalRegistry { records: Vec::new() };
        proof {
            assert(r@ =~= Seq::<RecordView>::empty());
        }
        r
    }

    /// Find the index of the record for (token, owner), if any.
    fn find_record(&self, token: &String, owner: &String) -> (r: Option<usize>)
        ensures
            match r {
                Option::Some(i) => i < self@.len() && self@[i as int].token == token@
                    && self@[i as int].owner == owner@,
                Option::None => forall|j: int|
                    0 <= j < self@.len() ==> !(#[trigger] self@[j].token == token@ && self@[j].owner
                        == owner@),
            },
    {
        let n = self.records.len();
        let mut i: usize = 0;
        while i < n
            invariant
                n == self@.len(),
                i <= n,
                forall|j: int|
                    0 <= j < i ==> !(#[trigger] self@[j].token == token@ && self@[j].owner
                        == owner@),
            decreases n - i,
        {
            let rec = &self.records[i];
            if rec.token == *token && rec.owner == *owner {
                return Option::Some(i);
            }
            i = i + 1;
        }
        Option::None
    }

    /// The current approval-id counter of (token, owner): the id the next
    /// approve will hand out.
    pub fn current_next_id(&self, token: &String, owner: &String) -> (r: u64)
        requires
            wf_registry(self@),
        ensures
            r == next_id_of(self@, token@, owner@),
    {
        match self.find_record(token, owner) {
            Option::None => {
                proof {
                    lemma_rec_at_none(self@, token@, owner@);
                }
                0
            },
            Option::Some(i) => {
                proof {
                    lemma_rec_at_unique(self@, i as int, token@, owner@);
                }
                self.records[i].next_id
            },
        }
    }

    /// What check-and-consume would decide, without consuming anything.
    pub fn can_consume(
        &self,
        owner: &String,
        token: &String,
        delegate: &String,
        approval_id: u64,
        amount: u128,
    ) -> (r: Result<(), TokenError>)
        requires
            wf_registry(self@),
        ensures
            r == consume_outcome(self@, token@, owner@, delegate@, approval_id, amount),
    {
        match self.find_record(token, owner) {
            Option::None => {
                proof {
                    lemma_rec_at_none(self@, token@, owner@);
                }
                Result::Err(TokenError::ApprovalNotFound)
            },
            Option::Some(i) => {
                proof {
                    lemma_rec_at_unique(self@, i as int, token@, owner@);
                }
                match find_grant(&self.records[i].grants, delegate) {
                    Option::None => {
                        proof {
                            lemma_grant_at_none(self@[i as int].grants, delegate@);
                        }
                        Result::Err(TokenError::ApprovalNotFound)
                    },
                    Option::Some(a) => {
                        proof {
                            lemma_grant_at_unique(self@[i as int].grants, a as int, delegate@);
                        }
                        let g = &self.records[i].grants[a];
                        if g.id != approval_id {
                            Result::Err(TokenError::ApprovalIdMismatch)
                        } else if g.amount < amount {
                            Result::Err(TokenError::InsufficientApproval)
                        } else {
                            Result::Ok(())
                        }
                    },
                }
            },
        }
    }

    /// Grant `delegate` the right to move up to `amount`: bump the
    /// (token, owner) counter, store the fresh id against the delegate
    /// (voiding any prior grant for it), and return the fresh id.
    pub fn approve(&mut self, owner: &String, token: &String, delegate: &String, amount: u128) -> (r:
        u64)
        requires
            wf_registry(old(self)@),
            next_id_of(old(self)@, token@, owner@) < u64::MAX,
        ensures
            wf_registry(final(self)@),
            r == next_id_of(old(self)@, token@, owner@),
            forall|t2: Seq<char>, o2: Seq<char>|
                #[trigger] next_id_of(final(self)@, t2, o2) == if t2 == token@ && o2 == owner@ {
                    (next_id_of(old(self)@, t2, o2) + 1) as u64
                } else {
                    next_id_of(old(self)@, t2, o2)
                },
            forall|t2: Seq<char>, o2: Seq<char>, d2: Seq<char>|
                #[trigger] grant_of(final(self)@, t2, o2, d2) == if t2 == token@ && o2 == owner@
                    && d2 == delegate@ {
                    Option::Some((r, amount))
                } else {
                    grant_of(old(self)@, t2, o2, d2)
                },
    {
        let ghost s0 = self@;
        match self.find_record(token, owner) {
            Option::Some(i) => {
                proof {
                    lemma_rec_at_unique(s0, i as int, token@, owner@);
                }
                let mut rec = self.records.remove(i);
                let new_id = rec.next_id;
                rec.next_id = new_id + 1;
                let ghost gs0 = s0[i as int].grants;
                match find_grant(&rec.grants, delegate) {
                    Option::Some(a) => {
                        let mut g = rec.grants.remove(a);
                        g.id = new_id;
                        g.amount = amount;
                        rec.grants.insert(a, g);
                        proof {
                            let g2 = GrantView { delegate: delegate@, id: new_id, amount };
                            assert(grants_view(rec.grants@) =~= gs0.update(a as int, g2));
                            assert(rec@ == replace_grant_rec(s0[i as int], a as int, g2, true));
                        }
                        self.records.insert(i, rec);
                        proof {
                            let g2 = GrantView { delegate: delegate@, id: new_id, amount };
                            assert(self@ =~= s0.update(
                                i as int,
                                replace_grant_rec(s0[i as int], a as int, g2, true),
                            ));
                            lemma_record_updated(s0, i as int, a as int, g2, true);
                        }
                        new_id
                    },
                    Option::None => {
                        proof {
                            assert(grants_view(rec.grants@) =~= gs0);
                        }
                        rec.grants.push(
                            DelegateGrant { delegate: delegate.clone(), id: new_id, amount },
                        );
                        proof {
                            let g2 = GrantView { delegate: delegate@, id: new_id, amount };
                            assert(grants_view(rec.grants@) =~= gs0.push(g2));
                            assert(rec@ == new_grant_rec(s0[i as int], g2));
                        }
                        self.records.insert(i, rec);
                        proof {
                            let g2 = GrantView { delegate: delegate@, id: new_id, amount };
                            assert(self@ =~= s0.update(i as int, new_grant_rec(s0[i as int], g2)));
                            lemma_record_grant_added(s0, i as int, g2);
                        }
                        new_id
                    },
                }
            },
            Option::None => {
                proof {
                    lemma_rec_at_none(s0, token@, owner@);
                }
                let mut gvec: Vec<DelegateGrant> = Vec::new();
                gvec.push(DelegateGrant { delegate: delegate.clone(), id: 0, amount });
                proof {
                    assert(grants_view(gvec@) =~= Seq::<GrantView>::empty().push(
                        GrantView { delegate: delegate@, id: 0, amount },
                    ));
                }
                self.records.push(
                    ApprovalRecord {
                        token: token.clone(),
                        owner: owner.clone(),
                        next_id: 1,
                        grants: gvec,
                    },
                );
                proof {
                    let g2 = GrantView { delegate: delegate@, id: 0, amount };
                    assert(self@ =~= s0.push(first_rec(token@, owner@, g2)));
                    lemma_record_pushed(s0, token@, owner@, g2);
                }
                0
            },
        }
    }

    /// Atomically check an authorization and consume `amount` from it.
    /// The entry is kept even when it reaches zero, so the id keeps
    /// protecting against replays. On any failure nothing changes.
    pub fn check_and_consume(
        &mut self,
        owner: &String,
        token: &String,
        delegate: &String,
        approval_id: u64,
        amount: u128,
    ) -> (r: Result<(), TokenError>)
        requires
            wf_registry(old(self)@),
        ensures
            wf_registry(final(self)@),
            r == consume_outcome(old(self)@, token@, owner@, delegate@, approval_id, amount),
            r is Err ==> final(self)@ == old(self)@,
            r is Ok ==> forall|t2: Seq<char>, o2: Seq<char>|
                #[trigger] next_id_of(final(self)@, t2, o2) == next_id_of(old(self)@, t2, o2),
            r is Ok ==> forall|t2: Seq<char>, o2: Seq<char>, d2: Seq<char>|
                #[trigger] grant_of(final(self)@, t2, o2, d2) == if t2 == token@ && o2 == owner@
                    && d2 == delegate@ {
                    Option::Some(
                        (
                            approval_id,
                            (grant_of(old(self)@, t2, o2, d2)->Some_0.1 - amount) as u128,
                        ),
                    )
                } else {
                    grant_of(old(self)@, t2, o2, d2)
                },
    {
        let ghost s0 = self@;
        match self.find_record(token, owner) {
            Option::None => {
                proof {
                    lemma_rec_at_none(s0, token@, owner@);
                }
                Result::Err(TokenError::ApprovalNotFound)
            },
            Option::Some(i) => {
                proof {
                    lemma_rec_at_unique(s0, i as int, token@, owner@);
                }
                match find_grant(&self.records[i].grants, delegate) {
                    Option::None => {
                        proof {
                            lemma_grant_at_none(s0[i as int].grants, delegate@);
                        }
                        Result::Err(TokenError::ApprovalNotFound)
                    },
                    Option::Some(a) => {
                        proof {
                            lemma_grant_at_unique(s0[i as int].grants, a as int, delegate@);
                        }
                        let gid = self.records[i].grants[a].id;
                        let gamt = self.records[i].grants[a].amount;
                        if gid != approval_id {
                            return Result::Err(TokenError::ApprovalIdMismatch);
                        }
                        if gamt < amount {
                            return Result::Err(TokenError::InsufficientApproval);
                        }
                        let mut rec = self.records.remove(i);
                        let mut g = rec.grants.remove(a);
                        g.amount = g.amount - amount;
                        rec.grants.insert(a, g);
                        proof {
                            let ghost gs0 = s0[i as int].grants;
                            let g2 = GrantView {
                                delegate: delegate@,
                                id: gid,
                                amount: (gamt - amount) as u128,
                            };
                            assert(grants_view(rec.grants@) =~= gs0.update(a as int, g2));
                            assert(rec@ == replace_grant_rec(s0[i as int], a as int, g2, false));
                        }
                        self.records.insert(i, rec);
                        proof {
                            let g2 = GrantView {
                                delegate: delegate@,
                                id: gid,
                                amount: (gamt - amount) as u128,
                            };
                            assert(self@ =~= s0.update(
                                i as int,
                                replace_grant_rec(s0[i as int], a as int, g2, false),
                            ));
                            lemma_record_updated(s0, i as int, a as int, g2, false);
                        }
                        Result::Ok(())
                    },
                }
            },
        }
    }

    /// Give `amount` back to an existing grant, undoing a consume of the
    /// same amount: the id is untouched.
    pub(crate) fn restore(&mut self, owner: &String, token: &String, delegate: &String, amount: u128)
        requires
            wf_registry(old(self)@),
            grant_of(old(self)@, token@, owner@, delegate@) is Some,
            grant_of(old(self)@, token@, owner@, delegate@)->Some_0.1 + amount <= u128::MAX,
        ensures
            wf_registry(final(self)@),
            forall|t2: Seq<char>, o2: Seq<char>|
                #[trigger] next_id_of(final(self)@, t2, o2) == next_id_of(old(self)@, t2, o2),
            forall|t2: Seq<char>, o2: Seq<char>, d2: Seq<char>|
                #[trigger] grant_of(final(self)@, t2, o2, d2) == if t2 == token@ && o2 == owner@
                    && d2 == delegate@ {
                    Option::Some(
                        (
                            grant_of(old(self)@, t2, o2, d2)->Some_0.0,
                            (grant_of(old(self)@, t2, o2, d2)->Some_0.1 + amount) as u128,
                        ),
                    )
                } else {
                    grant_of(old(self)@, t2, o2, d2)
                },
    {
        let ghost s0 = self@;
        match self.find_record(token, owner) {
            Option::None => {
                proof {
                    lemma_rec_at_none(s0, token@, owner@);
                    assert(false);
                }
            },
            Option::Some(i) => {
                proof {
                    lemma_rec_at_unique(s0, i as int, token@, owner@);
                }
                match find_grant(&self.records[i].grants, delegate) {
                    Option::None => {
                        proof {
                            lemma_grant_at_none(s0[i as int].grants, delegate@);
                            assert(false);
                        }
                    },
                    Option::Some(a) => {
                        proof {
                            lemma_grant_at_unique(s0[i as int].grants, a as int, delegate@);
                        }
                        let gid = self.records[i].grants[a].id;
                        let gamt = self.records[i].grants[a].amount;
                        let mut rec = self.records.remove(i);
                        let mut g = rec.grants.remove(a);
                        g.amount = g.amount + amount;
                        rec.grants.insert(a, g);
                        proof {
                            let ghost gs0 = s0[i as int].grants;
                            let g2 = GrantView {
                                delegate: delegate@,
                                id: gid,
                                amount: (gamt + amount) as u128,
                            };
                            assert(grants_view(rec.grants@) =~= gs0.update(a as int, g2));
                            assert(rec@ == replace_grant_rec(s0[i as int], a as int, g2, false));
                        }
                        self.records.insert(i, rec);
                        proof {
                            let g2 = GrantView {
                                delegate: delegate@,
                                id: gid,
                                amount: (gamt + amount) as u128,
                            };
                            assert(self@ =~= s0.update(
                                i as int,
                                replace_grant_rec(s0[i as int], a as int, g2, false),
                            ));
                            lemma_record_updated(s0, i as int, a as int, g2, false);
                        }
                    },
                }
            },
        }
    }

    /// Remove the delegate's entry entirely: any later consume for it
    /// fails with `ApprovalNotFound`. The counter survives, so a fresh
    /// grant still gets a fresh id.
    pub fn revoke(&mut self, owner: &String, token: &String, delegate: &String)
        requires
            wf_registry(old(self)@),
        ensures
            wf_registry(final(self)@),
            forall|t2: Seq<char>, o2: Seq<char>|
                #[trigger] next_id_of(final(self)@, t2, o2) == next_id_of(old(self)@, t2, o2),
            forall|t2: Seq<char>, o2: Seq<char>, d2: Seq<char>|
                #[trigger] grant_of(final(self)@, t2, o2, d2) == if t2 == token@ && o2 == owner@
                    && d2 == delegate@ {
                    Option::<(u64, u128)>::None
                } else {
                    grant_of(old(self)@, t2, o2, d2)
                },
    {
        let ghost s0 = self@;
        match self.find_record(token, owner) {
            Option::None => {
                proof {
                    lemma_rec_at_none(s0, token@, owner@);
                }
            },
            Option::Some(i) => {
                proof {
                    lemma_rec_at_unique(s0, i as int, token@, owner@);
                }
                match find_grant(&self.records[i].grants, delegate) {
                    Option::None => {
                        proof {
                            lemma_grant_at_none(s0[i as int].grants, delegate@);
                        }
                    },
                    Option::Some(a) => {
                        let mut rec = self.records.remove(i);
                        rec.grants.remove(a);
                        proof {
                            let ghost gs0 = s0[i as int].grants;
                            assert(grants_view(rec.grants@) =~= gs0.remove(a as int));
                            assert(rec@ == drop_grant_rec(s0[i as int], a as int));
                        }
                        self.records.insert(i, rec);
                        proof {
                            assert(self@ =~= s0.update(
                                i as int,
                                drop_grant_rec(s0[i as int], a as int),
                            ));
                            lemma_record_grant_removed(s0, i as int, a as int);
                        }
                    },
                }
            },
        }
    }
}

} // verus!
