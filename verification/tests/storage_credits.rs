use multi_token::errors::TokenError;
use multi_token::token::MultiToken;

fn s(x: &str) -> String {
    String::from(x)
}

// Base charge 100, 10 per token id, one credit unit per byte: the
// registration minimum is (100 + 10) * 1 = 110.
fn fresh() -> MultiToken {
    MultiToken::new(100, 10, 1)
}

#[test]
fn bounds_have_min_and_no_max() {
    let m = fresh();
    let b = m.storage_balance_bounds();
    assert_eq!(b.min, 110);
    assert_eq!(b.max, None);
}

#[test]
fn deposit_registers_account() {
    let mut m = fresh();
    let r = m.storage_deposit(&s("alice"), 200, None).unwrap();
    assert_eq!(r.0.total, 110);
    assert_eq!(r.0.available, 0);
    assert_eq!(r.1, 0);
    let b = m.storage_balance_of(&s("alice")).unwrap();
    assert_eq!(b.total, 200);
    // No tokens held: the footprint is priced at the minimum, 110.
    assert_eq!(b.available, 90);
}

#[test]
fn deposit_below_minimum_rejected() {
    let mut m = fresh();
    let r = m.storage_deposit(&s("alice"), 109, None);
    assert_eq!(r, Err(TokenError::InsufficientStorageBalance));
    assert_eq!(m.storage_balance_of(&s("alice")), None);
}

#[test]
fn deposit_registration_only_refunds_when_registered() {
    let mut m = fresh();
    m.storage_deposit(&s("alice"), 200, None).unwrap();
    let r = m.storage_deposit(&s("alice"), 150, Some(true)).unwrap();
    // The whole attached deposit comes back; the credit is untouched.
    assert_eq!(r.1, 150);
    assert_eq!(m.storage_balance_of(&s("alice")).unwrap().total, 200);
}

#[test]
fn deposit_tops_up_existing_credit() {
    let mut m = fresh();
    m.storage_deposit(&s("alice"), 200, None).unwrap();
    let r = m.storage_deposit(&s("alice"), 300, None).unwrap();
    assert_eq!(r.1, 0);
    assert_eq!(m.storage_balance_of(&s("alice")).unwrap().total, 500);
}

#[test]
fn withdraw_of_unregistered_rejected() {
    let m = fresh();
    assert_eq!(m.storage_withdraw(&s("alice"), None), Err(TokenError::NotRegistered));
}

#[test]
fn withdraw_positive_amount_rejected() {
    let mut m = fresh();
    m.storage_deposit(&s("alice"), 200, None).unwrap();
    let r = m.storage_withdraw(&s("alice"), Some(5));
    assert_eq!(r, Err(TokenError::InsufficientStorageBalance));
    let b = m.storage_withdraw(&s("alice"), Some(0)).unwrap();
    assert_eq!(b.total, 110);
    assert_eq!(b.available, 0);
    let b = m.storage_withdraw(&s("alice"), None).unwrap();
    assert_eq!(b.total, 110);
}

#[test]
fn token_count_follows_holdings() {
    let mut m = fresh();
    assert_eq!(m.get_tokens_amount(&s("alice")), 0);
    m.credit(&s("alice"), &s("t1"), 5);
    m.credit(&s("alice"), &s("t2"), 5);
    m.credit(&s("alice"), &s("t1"), 5);
    assert_eq!(m.get_tokens_amount(&s("alice")), 2);
    m.debit(&s("alice"), &s("t1"), 10).unwrap();
    assert_eq!(m.get_tokens_amount(&s("alice")), 1);
}

#[test]
fn storage_usage_check() {
    let mut m = fresh();
    assert_eq!(m.assert_storage_usage(&s("alice")), Err(TokenError::NotRegistered));
    m.storage_deposit(&s("alice"), 110, None).unwrap();
    assert_eq!(m.assert_storage_usage(&s("alice")), Ok(()));
    // One token id costs (1 * 10 + 100) * 1 = 110: still covered.
    m.credit(&s("alice"), &s("t1"), 5);
    assert_eq!(m.assert_storage_usage(&s("alice")), Ok(()));
    // Five token ids cost (5 * 10 + 100) * 1 = 150 > 110.
    m.credit(&s("alice"), &s("t2"), 5);
    m.credit(&s("alice"), &s("t3"), 5);
    m.credit(&s("alice"), &s("t4"), 5);
    m.credit(&s("alice"), &s("t5"), 5);
    assert_eq!(m.assert_storage_usage(&s("alice")), Err(TokenError::InsufficientStorageBalance));
}

#[test]
fn unregister_returns_credit() {
    let mut m = fresh();
    assert_eq!(m.internal_storage_unregister(&s("alice")), None);
    assert!(!m.storage_unregister(&s("alice"), None));
    m.storage_deposit(&s("alice"), 200, None).unwrap();
    assert_eq!(m.internal_storage_unregister(&s("alice")), Some(200));
    assert_eq!(m.storage_balance_of(&s("alice")), None);
}

#[test]
fn unregister_reports_removal() {
    let mut m = fresh();
    m.storage_deposit(&s("alice"), 200, None).unwrap();
    assert!(m.storage_unregister(&s("alice"), Some(false)));
    assert!(!m.storage_unregister(&s("alice"), Some(false)));
}

#[test]
fn internal_balance_is_registration_grained() {
    let mut m = fresh();
    assert_eq!(m.internal_storage_balance_of(&s("alice")), None);
    m.storage_deposit(&s("alice"), 500, None).unwrap();
    let b = m.internal_storage_balance_of(&s("alice")).unwrap();
    assert_eq!(b.total, 110);
    assert_eq!(b.available, 0);
}
