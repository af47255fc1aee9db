use multi_token::errors::TokenError;
use multi_token::token::MultiToken;
use multi_token::transfer_call::ReceiverResponse;
use multi_token::transfer_call::Resolution;

fn s(x: &str) -> String {
    String::from(x)
}

fn fresh() -> MultiToken {
    MultiToken::new(100, 10, 1)
}

/// A stand-in for the receiver contract's hook: the message names how much
/// of each transferred amount to send back; a message that does not parse
/// makes the whole call fail.
fn receiver_hook(amounts: &[u128], message: &str) -> ReceiverResponse {
    match message.parse::<u128>() {
        Ok(refund) => ReceiverResponse::WellFormed(
            amounts.iter().map(|a| a.saturating_sub(refund)).collect(),
        ),
        Err(_) => ReceiverResponse::CallFailed,
    }
}

#[test]
fn transfer_call_full_refund() {
    let mut m = fresh();
    m.credit(&s("alice"), &s("t"), 1000);
    let pc = m
        .transfer_call_begin(&s("alice"), &s("alice"), &s("r"), &vec![s("t")], &vec![100u128], None)
        .unwrap();
    // Phase one applied optimistically.
    assert_eq!(m.balance_of(&s("alice"), &s("t")), 900);
    assert_eq!(m.balance_of(&s("r"), &s("t")), 100);
    let res = m.transfer_call_resolve(pc, &ReceiverResponse::WellFormed(vec![0]));
    assert_eq!(res, Resolution::Reconciled(vec![0]));
    assert_eq!(m.balance_of(&s("alice"), &s("t")), 1000);
    assert_eq!(m.balance_of(&s("r"), &s("t")), 0);
}

#[test]
fn transfer_call_failed_call_refunds_everything() {
    let mut m = fresh();
    m.credit(&s("alice"), &s("t"), 1000);
    let pc = m
        .transfer_call_begin(&s("alice"), &s("alice"), &s("r"), &vec![s("t")], &vec![100u128], None)
        .unwrap();
    let res = m.transfer_call_resolve(pc, &ReceiverResponse::CallFailed);
    assert_eq!(res, Resolution::Reconciled(vec![0]));
    assert_eq!(m.balance_of(&s("alice"), &s("t")), 1000);
    assert_eq!(m.balance_of(&s("r"), &s("t")), 0);
}

#[test]
fn transfer_call_malformed_response_refunds_everything() {
    let mut m = fresh();
    m.credit(&s("alice"), &s("t"), 1000);
    let pc = m
        .transfer_call_begin(&s("alice"), &s("alice"), &s("r"), &vec![s("t")], &vec![100u128], None)
        .unwrap();
    let res = m.transfer_call_resolve(pc, &ReceiverResponse::Malformed);
    assert_eq!(res, Resolution::Reconciled(vec![0]));
    assert_eq!(m.balance_of(&s("alice"), &s("t")), 1000);
    assert_eq!(m.balance_of(&s("r"), &s("t")), 0);
}

#[test]
fn transfer_call_partial_keep() {
    let mut m = fresh();
    m.credit(&s("alice"), &s("t"), 1000);
    let pc = m
        .transfer_call_begin(&s("alice"), &s("alice"), &s("r"), &vec![s("t")], &vec![100u128], None)
        .unwrap();
    let res = m.transfer_call_resolve(pc, &ReceiverResponse::WellFormed(vec![70]));
    assert_eq!(res, Resolution::Reconciled(vec![70]));
    assert_eq!(m.balance_of(&s("alice"), &s("t")), 930);
    assert_eq!(m.balance_of(&s("r"), &s("t")), 70);
}

#[test]
fn transfer_call_out_of_range_keep_is_distrusted() {
    let mut m = fresh();
    m.credit(&s("alice"), &s("t"), 1000);
    let pc = m
        .transfer_call_begin(&s("alice"), &s("alice"), &s("r"), &vec![s("t")], &vec![100u128], None)
        .unwrap();
    // Claiming to keep more than was transferred counts as keeping nothing.
    let res = m.transfer_call_resolve(pc, &ReceiverResponse::WellFormed(vec![150]));
    assert_eq!(res, Resolution::Reconciled(vec![0]));
    assert_eq!(m.balance_of(&s("alice"), &s("t")), 1000);
    assert_eq!(m.balance_of(&s("r"), &s("t")), 0);
}

#[test]
fn transfer_call_wrong_length_response_is_distrusted() {
    let mut m = fresh();
    m.credit(&s("alice"), &s("t"), 1000);
    let pc = m
        .transfer_call_begin(&s("alice"), &s("alice"), &s("r"), &vec![s("t")], &vec![100u128], None)
        .unwrap();
    let res = m.transfer_call_resolve(pc, &ReceiverResponse::WellFormed(vec![70, 0]));
    assert_eq!(res, Resolution::Reconciled(vec![0]));
    assert_eq!(m.balance_of(&s("alice"), &s("t")), 1000);
}

#[test]
fn transfer_call_begin_failure_changes_nothing() {
    let mut m = fresh();
    m.credit(&s("alice"), &s("t"), 50);
    let r = m.transfer_call_begin(
        &s("alice"),
        &s("alice"),
        &s("r"),
        &vec![s("t")],
        &vec![100u128],
        None,
    );
    assert_eq!(r.err(), Some(TokenError::InsufficientBalance));
    assert_eq!(m.balance_of(&s("alice"), &s("t")), 50);
    assert_eq!(m.balance_of(&s("r"), &s("t")), 0);
}

#[test]
fn transfer_call_shortfall_is_reported_not_hidden() {
    let mut m = fresh();
    m.credit(&s("alice"), &s("t"), 1000);
    let pc = m
        .transfer_call_begin(&s("alice"), &s("alice"), &s("r"), &vec![s("t")], &vec![100u128], None)
        .unwrap();
    // Between the phases another call lets the receiver spend most of it.
    let r = m.transfer_one(&s("r"), &s("r"), &s("third"), &s("t"), 80, None);
    assert_eq!(r, Ok(()));
    // Full refund is owed, but only 20 are left: the receiver retains the
    // 80 it could not return and the caller sees the shortfall.
    let res = m.transfer_call_resolve(pc, &ReceiverResponse::WellFormed(vec![0]));
    assert_eq!(res, Resolution::ReconciledWithShortfall(vec![80]));
    assert_eq!(m.balance_of(&s("alice"), &s("t")), 920);
    assert_eq!(m.balance_of(&s("r"), &s("t")), 0);
    assert_eq!(m.balance_of(&s("third"), &s("t")), 80);
}

#[test]
fn transfer_call_batch_keeps_per_token() {
    let mut m = fresh();
    m.credit(&s("alice"), &s("t1"), 100);
    m.credit(&s("alice"), &s("t2"), 100);
    let pc = m
        .transfer_call_begin(
            &s("alice"),
            &s("alice"),
            &s("r"),
            &vec![s("t1"), s("t2")],
            &vec![40u128, 60u128],
            None,
        )
        .unwrap();
    let res = m.transfer_call_resolve(pc, &ReceiverResponse::WellFormed(vec![10, 60]));
    assert_eq!(res, Resolution::Reconciled(vec![10, 60]));
    assert_eq!(m.balance_of(&s("alice"), &s("t1")), 90);
    assert_eq!(m.balance_of(&s("alice"), &s("t2")), 40);
    assert_eq!(m.balance_of(&s("r"), &s("t1")), 10);
    assert_eq!(m.balance_of(&s("r"), &s("t2")), 60);
}

#[test]
fn end_to_end_scenario() {
    let mut m = fresh();
    // Mint 1000 of token T1 to Alice.
    m.credit(&s("alice"), &s("T1"), 1000);
    // Alice sends 100 of T1 to the DeFi receiver, asking it (via the
    // message) to send 30 back: the receiver keeps 70.
    let tokens = vec![s("T1")];
    let amounts = vec![100u128];
    let pc = m
        .transfer_call_begin(&s("alice"), &s("alice"), &s("defi"), &tokens, &amounts, None)
        .unwrap();
    let response = receiver_hook(&amounts, "30");
    let res = m.transfer_call_resolve(pc, &response);
    assert_eq!(res, Resolution::Reconciled(vec![70]));
    assert_eq!(m.balance_of(&s("alice"), &s("T1")), 930);
    assert_eq!(m.balance_of(&s("defi"), &s("T1")), 70);
    // A second transfer-and-call whose message the receiver cannot parse
    // fails the external call entirely and must roll back in full.
    let pc = m
        .transfer_call_begin(&s("alice"), &s("alice"), &s("defi"), &tokens, &amounts, None)
        .unwrap();
    let response = receiver_hook(&amounts, "not-a-parsable-number");
    let res = m.transfer_call_resolve(pc, &response);
    assert_eq!(res, Resolution::Reconciled(vec![0]));
    assert_eq!(m.balance_of(&s("alice"), &s("T1")), 930);
    assert_eq!(m.balance_of(&s("defi"), &s("T1")), 70);
}

#[test]
fn transfer_call_duplicate_token_resolution() {
    let mut m = fresh();
    m.credit(&s("alice"), &s("t"), 200);
    let pc = m
        .transfer_call_begin(
            &s("alice"),
            &s("alice"),
            &s("r"),
            &vec![s("t"), s("t")],
            &vec![40u128, 60u128],
            None,
        )
        .unwrap();
    assert_eq!(m.balance_of(&s("r"), &s("t")), 100);
    let res = m.transfer_call_resolve(pc, &ReceiverResponse::WellFormed(vec![10, 20]));
    assert_eq!(res, Resolution::Reconciled(vec![10, 20]));
    assert_eq!(m.balance_of(&s("alice"), &s("t")), 170);
    assert_eq!(m.balance_of(&s("r"), &s("t")), 30);
}

#[test]
fn transfer_call_duplicate_token_shortfall_is_sequential() {
    let mut m = fresh();
    m.credit(&s("alice"), &s("t"), 200);
    let pc = m
        .transfer_call_begin(
            &s("alice"),
            &s("alice"),
            &s("r"),
            &vec![s("t"), s("t")],
            &vec![40u128, 60u128],
            None,
        )
        .unwrap();
    // The receiver spends 90 of the 100 before resolution.
    assert_eq!(m.transfer_one(&s("r"), &s("r"), &s("third"), &s("t"), 90, None), Ok(()));
    // Pair one refunds the 10 that are left; pair two can refund nothing.
    let res = m.transfer_call_resolve(pc, &ReceiverResponse::WellFormed(vec![0, 0]));
    assert_eq!(res, Resolution::ReconciledWithShortfall(vec![30, 60]));
    assert_eq!(m.balance_of(&s("alice"), &s("t")), 110);
    assert_eq!(m.balance_of(&s("r"), &s("t")), 0);
    assert_eq!(m.balance_of(&s("third"), &s("t")), 90);
}
