use multi_token::errors::TokenError;
use multi_token::token::MultiToken;

fn s(x: &str) -> String {
    String::from(x)
}

fn fresh() -> MultiToken {
    MultiToken::new(100, 10, 1)
}

#[test]
fn mint_and_balance() {
    let mut m = fresh();
    m.credit(&s("alice"), &s("t1"), 1000);
    assert_eq!(m.balance_of(&s("alice"), &s("t1")), 1000);
    assert_eq!(m.balance_of(&s("alice"), &s("t2")), 0);
    assert_eq!(m.balance_of(&s("bob"), &s("t1")), 0);
    m.credit(&s("alice"), &s("t1"), 7);
    assert_eq!(m.balance_of(&s("alice"), &s("t1")), 1007);
}

#[test]
fn debit_insufficient_balance() {
    let mut m = fresh();
    m.credit(&s("alice"), &s("t1"), 50);
    assert_eq!(m.debit(&s("alice"), &s("t1"), 51), Err(TokenError::InsufficientBalance));
    assert_eq!(m.balance_of(&s("alice"), &s("t1")), 50);
    assert_eq!(m.debit(&s("bob"), &s("t1"), 1), Err(TokenError::InsufficientBalance));
}

#[test]
fn debit_to_zero_removes_entry() {
    let mut m = fresh();
    m.credit(&s("alice"), &s("t1"), 50);
    assert_eq!(m.debit(&s("alice"), &s("t1"), 50), Ok(()));
    assert_eq!(m.balance_of(&s("alice"), &s("t1")), 0);
    assert_eq!(m.debit(&s("alice"), &s("t1"), 1), Err(TokenError::InsufficientBalance));
}

#[test]
fn self_transfer_rejected() {
    let mut m = fresh();
    m.credit(&s("alice"), &s("t1"), 1000);
    let r = m.transfer_one(&s("alice"), &s("alice"), &s("alice"), &s("t1"), 100, None);
    assert_eq!(r, Err(TokenError::InvalidTransfer));
    // A delegate moving tokens back onto the owner is a self-transfer too.
    let r = m.transfer_one(&s("carol"), &s("alice"), &s("alice"), &s("t1"), 100, Some(0));
    assert_eq!(r, Err(TokenError::InvalidTransfer));
    assert_eq!(m.balance_of(&s("alice"), &s("t1")), 1000);
}

#[test]
fn zero_amount_transfer_rejected() {
    let mut m = fresh();
    m.credit(&s("alice"), &s("t1"), 1000);
    let r = m.transfer_one(&s("alice"), &s("alice"), &s("bob"), &s("t1"), 0, None);
    assert_eq!(r, Err(TokenError::InvalidTransfer));
}

#[test]
fn transfer_moves_funds_and_conserves_supply() {
    let mut m = fresh();
    m.credit(&s("alice"), &s("t1"), 1000);
    let r = m.transfer_one(&s("alice"), &s("alice"), &s("bob"), &s("t1"), 100, None);
    assert_eq!(r, Ok(()));
    assert_eq!(m.balance_of(&s("alice"), &s("t1")), 900);
    assert_eq!(m.balance_of(&s("bob"), &s("t1")), 100);
    let total = m.balance_of(&s("alice"), &s("t1")) + m.balance_of(&s("bob"), &s("t1"));
    assert_eq!(total, 1000);
}

#[test]
fn transfer_without_funds_rejected() {
    let mut m = fresh();
    let r = m.transfer_one(&s("alice"), &s("alice"), &s("bob"), &s("t1"), 1, None);
    assert_eq!(r, Err(TokenError::InsufficientBalance));
}

#[test]
fn delegate_transfer_consumes_approval() {
    let mut m = fresh();
    m.credit(&s("alice"), &s("t1"), 1000);
    let id = m.approve(&s("alice"), &s("t1"), &s("carol"), 500);
    assert_eq!(id, 0);
    let r = m.transfer_one(&s("carol"), &s("alice"), &s("bob"), &s("t1"), 200, Some(id));
    assert_eq!(r, Ok(()));
    assert_eq!(m.balance_of(&s("alice"), &s("t1")), 800);
    assert_eq!(m.balance_of(&s("bob"), &s("t1")), 200);
    // 300 is left on the grant: 350 is too much, 300 passes.
    let r = m.transfer_one(&s("carol"), &s("alice"), &s("bob"), &s("t1"), 350, Some(id));
    assert_eq!(r, Err(TokenError::InsufficientApproval));
    let r = m.transfer_one(&s("carol"), &s("alice"), &s("bob"), &s("t1"), 300, Some(id));
    assert_eq!(r, Ok(()));
}

#[test]
fn delegate_without_approval_rejected() {
    let mut m = fresh();
    m.credit(&s("alice"), &s("t1"), 1000);
    let r = m.transfer_one(&s("carol"), &s("alice"), &s("bob"), &s("t1"), 100, Some(0));
    assert_eq!(r, Err(TokenError::ApprovalNotFound));
    let r = m.transfer_one(&s("carol"), &s("alice"), &s("bob"), &s("t1"), 100, None);
    assert_eq!(r, Err(TokenError::ApprovalNotFound));
}

#[test]
fn approval_replay_rejected() {
    let mut m = fresh();
    m.credit(&s("alice"), &s("t1"), 1000);
    let first = m.approve(&s("alice"), &s("t1"), &s("carol"), 500);
    let second = m.approve(&s("alice"), &s("t1"), &s("carol"), 500);
    assert_eq!(first, 0);
    assert_eq!(second, 1);
    // Quoting the superseded id fails with a mismatch, consuming nothing.
    let r = m.transfer_one(&s("carol"), &s("alice"), &s("bob"), &s("t1"), 100, Some(first));
    assert_eq!(r, Err(TokenError::ApprovalIdMismatch));
    assert_eq!(m.balance_of(&s("alice"), &s("t1")), 1000);
    // The current id still works.
    let r = m.transfer_one(&s("carol"), &s("alice"), &s("bob"), &s("t1"), 100, Some(second));
    assert_eq!(r, Ok(()));
}

#[test]
fn revoked_approval_not_found() {
    let mut m = fresh();
    m.credit(&s("alice"), &s("t1"), 1000);
    let id = m.approve(&s("alice"), &s("t1"), &s("carol"), 500);
    m.revoke(&s("alice"), &s("t1"), &s("carol"));
    let r = m.transfer_one(&s("carol"), &s("alice"), &s("bob"), &s("t1"), 100, Some(id));
    assert_eq!(r, Err(TokenError::ApprovalNotFound));
    // Re-granting after a revoke hands out a fresh id, not a reused one.
    let id2 = m.approve(&s("alice"), &s("t1"), &s("carol"), 500);
    assert_eq!(id2, 1);
}

#[test]
fn fully_consumed_approval_is_kept_as_mismatch_guard() {
    let mut m = fresh();
    m.credit(&s("alice"), &s("t1"), 1000);
    let id = m.approve(&s("alice"), &s("t1"), &s("carol"), 100);
    let r = m.transfer_one(&s("carol"), &s("alice"), &s("bob"), &s("t1"), 100, Some(id));
    assert_eq!(r, Ok(()));
    // The grant is consumed to zero but kept: the same amount again fails
    // on the amount, not on absence.
    let r = m.transfer_one(&s("carol"), &s("alice"), &s("bob"), &s("t1"), 100, Some(id));
    assert_eq!(r, Err(TokenError::InsufficientApproval));
}

#[test]
fn batch_transfer_applies_all_pairs() {
    let mut m = fresh();
    m.credit(&s("alice"), &s("t1"), 100);
    m.credit(&s("alice"), &s("t2"), 50);
    let tokens = vec![s("t1"), s("t2")];
    let amounts = vec![10u128, 20u128];
    let r = m.transfer_many(&s("alice"), &s("alice"), &s("bob"), &tokens, &amounts, None);
    assert_eq!(r, Ok(()));
    assert_eq!(m.balance_of(&s("alice"), &s("t1")), 90);
    assert_eq!(m.balance_of(&s("alice"), &s("t2")), 30);
    assert_eq!(m.balance_of(&s("bob"), &s("t1")), 10);
    assert_eq!(m.balance_of(&s("bob"), &s("t2")), 20);
}

#[test]
fn batch_transfer_atomic_on_failure() {
    let mut m = fresh();
    m.credit(&s("alice"), &s("t1"), 100);
    m.credit(&s("alice"), &s("t2"), 5);
    let tokens = vec![s("t1"), s("t2")];
    let amounts = vec![50u128, 10u128];
    let r = m.transfer_many(&s("alice"), &s("alice"), &s("bob"), &tokens, &amounts, None);
    assert_eq!(r, Err(TokenError::InsufficientBalance));
    // The first pair was applied and must have been reversed.
    assert_eq!(m.balance_of(&s("alice"), &s("t1")), 100);
    assert_eq!(m.balance_of(&s("alice"), &s("t2")), 5);
    assert_eq!(m.balance_of(&s("bob"), &s("t1")), 0);
    assert_eq!(m.balance_of(&s("bob"), &s("t2")), 0);
}

#[test]
fn batch_rollback_restores_consumed_approvals() {
    let mut m = fresh();
    m.credit(&s("alice"), &s("t1"), 100);
    let id = m.approve(&s("alice"), &s("t1"), &s("carol"), 120);
    // Pair one consumes 60 of the grant; pair two fails on balance
    // (100 - 60 = 40 < 60) and everything is reversed.
    let tokens = vec![s("t1"), s("t1")];
    let amounts = vec![60u128, 60u128];
    let r = m.transfer_many(&s("carol"), &s("alice"), &s("bob"), &tokens, &amounts, Some(id));
    assert_eq!(r, Err(TokenError::InsufficientBalance));
    assert_eq!(m.balance_of(&s("alice"), &s("t1")), 100);
    assert_eq!(m.balance_of(&s("bob"), &s("t1")), 0);
    // The whole 120 must be back on the grant: a 100 transfer still fits.
    let r = m.transfer_one(&s("carol"), &s("alice"), &s("bob"), &s("t1"), 100, Some(id));
    assert_eq!(r, Ok(()));
}

#[test]
fn batch_malformed_rejected() {
    let mut m = fresh();
    m.credit(&s("alice"), &s("t1"), 100);
    let r = m.transfer_many(
        &s("alice"),
        &s("alice"),
        &s("bob"),
        &vec![s("t1"), s("t2")],
        &vec![10u128],
        None,
    );
    assert_eq!(r, Err(TokenError::MalformedBatch));
    let r = m.transfer_many(&s("alice"), &s("alice"), &s("bob"), &vec![], &vec![], None);
    assert_eq!(r, Err(TokenError::MalformedBatch));
    let r = m.transfer_many(
        &s("alice"),
        &s("alice"),
        &s("alice"),
        &vec![s("t1")],
        &vec![10u128],
        None,
    );
    assert_eq!(r, Err(TokenError::InvalidTransfer));
}

#[test]
fn batch_zero_amount_pair_rejected() {
    let mut m = fresh();
    m.credit(&s("alice"), &s("t1"), 100);
    m.credit(&s("alice"), &s("t2"), 100);
    let r = m.transfer_many(
        &s("alice"),
        &s("alice"),
        &s("bob"),
        &vec![s("t1"), s("t2")],
        &vec![10u128, 0u128],
        None,
    );
    assert_eq!(r, Err(TokenError::InvalidTransfer));
    assert_eq!(m.balance_of(&s("alice"), &s("t1")), 100);
    assert_eq!(m.balance_of(&s("bob"), &s("t1")), 0);
}

#[test]
fn balance_of_batch_reads_in_order() {
    let mut m = fresh();
    m.credit(&s("alice"), &s("t1"), 3);
    m.credit(&s("alice"), &s("t3"), 9);
    let r = m.balance_of_batch(&s("alice"), &vec![s("t1"), s("t2"), s("t3")]);
    assert_eq!(r, vec![3, 0, 9]);
}

#[test]
fn supply_conserved_across_a_sequence_of_transfers() {
    let mut m = fresh();
    m.credit(&s("alice"), &s("t1"), 1000);
    let id = m.approve(&s("alice"), &s("t1"), &s("carol"), 400);
    assert_eq!(m.transfer_one(&s("alice"), &s("alice"), &s("bob"), &s("t1"), 250, None), Ok(()));
    assert_eq!(
        m.transfer_one(&s("carol"), &s("alice"), &s("dave"), &s("t1"), 300, Some(id)),
        Ok(())
    );
    assert_eq!(m.transfer_one(&s("bob"), &s("bob"), &s("dave"), &s("t1"), 100, None), Ok(()));
    let total: u128 = m.balance_of(&s("alice"), &s("t1")) + m.balance_of(&s("bob"), &s("t1"))
        + m.balance_of(&s("carol"), &s("t1")) + m.balance_of(&s("dave"), &s("t1"));
    assert_eq!(total, 1000);
}

#[test]
fn approval_ids_count_up_per_token_and_owner() {
    let mut m = fresh();
    assert_eq!(m.current_next_approval_id(&s("t1"), &s("alice")), 0);
    assert_eq!(m.approve(&s("alice"), &s("t1"), &s("carol"), 10), 0);
    assert_eq!(m.approve(&s("alice"), &s("t1"), &s("dave"), 10), 1);
    assert_eq!(m.current_next_approval_id(&s("t1"), &s("alice")), 2);
    // Another token id or owner counts on its own.
    assert_eq!(m.current_next_approval_id(&s("t2"), &s("alice")), 0);
    assert_eq!(m.approve(&s("bob"), &s("t1"), &s("carol"), 10), 0);
}
