use alloy_consensus::{SignableTransaction, TxEip1559};
use alloy_eips::Encodable2718;
use alloy_primitives::TxKind;
use alloy_signer::SignerSync;
use alloy_signer_local::PrivateKeySigner;
use ethera::ethera::execution::ExecutableXtInstance;
use ethera::ethera::gate::ExecutedXtGateGuard;
use ethera::ethera::index::{rebuild_sender, SenderNonceReservation, SenderReservations};
use ethera::ethera::nonces::NonceTable;
use ethera::ethera::pool::XtPool;
use ethera::ethera::reservation::{
    build_reservations, same_reservations, signed_tx, unique_senders, SignedTx, XtPoolError,
};
use ethera::ethera::model::{XtEntryStatus, XtReservationPhase};
use ethera::ethera::types::{ReleaseXtRequest, SubmitXtRequest, XtExecutionError, XtOrderKey};
use ethera::outside::TxFields;
use ethera::primitives::{Address, B256, U256};
use op_alloy_consensus::OpTxEnvelope;
use std::collections::BTreeMap;

const TEST_CHAIN_ID: u64 = 77777;

fn address(signer: &PrivateKeySigner) -> Address {
    Address::new(signer.address().into_array())
}

fn raw_tx(signer: &PrivateKeySigner, nonce: u64, to: u8) -> Vec<u8> {
    let tx = TxEip1559 {
        chain_id: TEST_CHAIN_ID,
        nonce,
        gas_limit: 21_000,
        max_fee_per_gas: 20_000_000_000,
        max_priority_fee_per_gas: 1_000_000_000,
        to: TxKind::Call(alloy_primitives::Address::repeat_byte(to)),
        ..Default::default()
    };
    let signature = signer.sign_hash_sync(&tx.signature_hash()).unwrap();
    OpTxEnvelope::from(tx.into_signed(signature)).encoded_2718()
}

fn order(period_id: u64, sequence_number: u64) -> XtOrderKey {
    XtOrderKey { period_id, sequence_number }
}

fn submit(id: &str, order: XtOrderKey, transactions: Vec<Vec<u8>>) -> SubmitXtRequest {
    SubmitXtRequest { instance_id: id.to_string(), order, transactions }
}

fn release(id: &str, transactions: Vec<Vec<u8>>) -> ReleaseXtRequest {
    ReleaseXtRequest { instance_id: id.to_string(), transactions }
}

fn nonces(known: &[(Address, u64)]) -> NonceTable {
    let mut table = NonceTable::new();
    for (address, nonce) in known {
        table.insert(*address, *nonce);
    }
    table
}

/// An address of twenty equal bytes.
fn who(byte: u8) -> Address {
    Address::new([byte; 20])
}

/// A signed transaction that is told apart by its sender and nonce.
fn plain_tx(sender: u8, nonce: u64) -> SignedTx {
    tagged_tx(sender, nonce, 0)
}

fn tagged_tx(sender: u8, nonce: u64, tag: u8) -> SignedTx {
    let mut hash = [tag; 32];
    hash[0] = sender;
    hash[1] = nonce as u8;
    SignedTx {
        raw: vec![sender, nonce as u8, tag],
        sender: who(sender),
        nonce,
        tx_hash: B256::new(hash),
    }
}

fn ids(list: &[&str]) -> Vec<String> {
    list.iter().map(|id| id.to_string()).collect()
}

fn executable_ids(list: &[ExecutableXtInstance]) -> Vec<&str> {
    list.iter().map(|x| x.instance_id.as_str()).collect()
}

#[test]
fn release_executes_put_inbox_before_xt_transactions() {
    let mut pool = XtPool::default();
    let user = PrivateKeySigner::random();
    let coordinator = PrivateKeySigner::random();
    let xt_tx = raw_tx(&user, 0, 0x11);
    let put_inbox_tx = raw_tx(&coordinator, 5, 0x22);

    pool.submit_locked(submit("xt-1", order(1, 1), vec![xt_tx.clone()])).unwrap();
    pool.release(release("xt-1", vec![put_inbox_tx.clone()])).unwrap();

    let executable = pool
        .collect_executable_instances(&nonces(&[(address(&coordinator), 5), (address(&user), 0)]));
    assert_eq!(executable.len(), 1);
    assert_eq!(executable[0].transactions, vec![put_inbox_tx, xt_tx]);
}

#[test]
fn release_is_idempotent_for_same_put_inbox_transactions() {
    let mut pool = XtPool::default();
    let user = PrivateKeySigner::random();
    let coordinator = PrivateKeySigner::random();
    let xt_tx = raw_tx(&user, 0, 0x33);
    let put_inbox_tx = raw_tx(&coordinator, 7, 0x44);

    pool.submit_locked(submit("xt-2", order(1, 2), vec![xt_tx.clone()])).unwrap();

    let request = release("xt-2", vec![put_inbox_tx.clone()]);
    pool.release(request.clone()).unwrap();
    pool.release(request).unwrap();

    let executable = pool
        .collect_executable_instances(&nonces(&[(address(&coordinator), 7), (address(&user), 0)]));
    assert_eq!(executable.len(), 1);
    assert_eq!(executable[0].transactions, vec![put_inbox_tx, xt_tx]);
}

#[test]
fn included_nonce_stays_reserved_but_stops_blocking_pool_execution() {
    let mut pool = XtPool::default();
    let user = PrivateKeySigner::random();
    let xt_tx = raw_tx(&user, 0, 0x55);

    pool.submit_locked(submit("xt-3", order(1, 3), vec![xt_tx])).unwrap();
    pool.release(release("xt-3", Vec::new())).unwrap();
    pool.mark_included(&ids(&["xt-3"]));

    assert!(pool.has_reserved_nonce(address(&user), 0));
    assert!(!pool.has_blocking_nonce(address(&user), 0));
}

#[test]
fn locked_instance_blocks_later_released_instance_with_same_sender() {
    let mut pool = XtPool::default();
    let user = PrivateKeySigner::random();
    let xt1 = raw_tx(&user, 0, 0x66);
    let xt2 = raw_tx(&user, 1, 0x77);

    pool.submit_locked(submit("xt-4", order(1, 4), vec![xt1])).unwrap();
    pool.submit_locked(submit("xt-5", order(1, 5), vec![xt2])).unwrap();
    pool.release(release("xt-5", Vec::new())).unwrap();

    let executable = pool.collect_executable_instances(&nonces(&[(address(&user), 0)]));
    assert!(executable.is_empty());
}

#[test]
fn pool_gate_closes_on_submit_and_lifts_on_note_executed() {
    let mut pool = XtPool::default();
    let user = PrivateKeySigner::random();
    let xt_tx = raw_tx(&user, 0, 0x88);

    assert!(!pool.pool_gate_closed());

    pool.submit_locked(submit("gate-1", order(1, 1), vec![xt_tx])).unwrap();
    assert!(pool.pool_gate_closed(), "submit_locked must close the pool gate");

    // Release flips the status from locked to released but the pool gate stays
    // closed because the executor has not yet run the XT.
    pool.release(release("gate-1", Vec::new())).unwrap();
    assert!(
        pool.pool_gate_closed(),
        "release alone must not lift the pool gate; only execution does"
    );

    pool.note_executed("gate-1");
    assert!(
        !pool.pool_gate_closed(),
        "note_executed lifts the pool gate after physical execution"
    );
}

#[test]
fn pool_gate_lifts_on_abort_even_before_submit() {
    let mut pool = XtPool::default();
    let user = PrivateKeySigner::random();
    let xt_tx = raw_tx(&user, 0, 0x99);

    // Abort racing ahead of submit must not strand the pool gate closed.
    pool.abort("phantom");
    assert!(!pool.pool_gate_closed());

    pool.submit_locked(submit("gate-2", order(1, 2), vec![xt_tx])).unwrap();
    assert!(pool.pool_gate_closed());

    pool.abort("gate-2");
    assert!(!pool.pool_gate_closed(), "abort must lift the pool gate");
}

#[test]
fn pool_gate_stays_closed_until_every_in_flight_instance_clears() {
    let mut pool = XtPool::default();
    let user_a = PrivateKeySigner::random();
    let user_b = PrivateKeySigner::random();
    let tx_a = raw_tx(&user_a, 0, 0xaa);
    let tx_b = raw_tx(&user_b, 0, 0xbb);

    pool.submit_locked(submit("gate-3a", order(1, 3), vec![tx_a])).unwrap();
    pool.submit_locked(submit("gate-3b", order(1, 4), vec![tx_b])).unwrap();
    assert!(pool.pool_gate_closed());

    pool.note_executed("gate-3a");
    assert!(
        pool.pool_gate_closed(),
        "pool gate must remain closed while any in-flight instance is unexecuted"
    );

    pool.note_executed("gate-3b");
    assert!(
        !pool.pool_gate_closed(),
        "pool gate must lift only after the last in-flight instance executes"
    );
}

#[test]
fn duplicate_submit_does_not_reclose_gate_after_execution() {
    let mut pool = XtPool::default();
    let user = PrivateKeySigner::random();
    let xt_tx = raw_tx(&user, 0, 0xcc);

    let request = submit("gate-4", order(1, 5), vec![xt_tx]);

    pool.submit_locked(request.clone()).unwrap();
    pool.note_executed("gate-4");
    assert!(!pool.pool_gate_closed());

    // An idempotent retry of the same submit (e.g. publisher resend) must not
    // close the pool gate again: the simulation invariant is bound to the
    // original submit-to-execute window, not to retries.
    pool.submit_locked(request).unwrap();
    assert!(!pool.pool_gate_closed());
}

#[test]
fn restore_gate_recloses_only_live_instances() {
    let mut pool = XtPool::default();
    let user = PrivateKeySigner::random();
    let xt_tx = raw_tx(&user, 0, 0xdd);

    pool.submit_locked(submit("gate-5", order(1, 6), vec![xt_tx])).unwrap();
    pool.note_executed("gate-5");
    assert!(!pool.pool_gate_closed());

    pool.restore_gate(&ids(&["missing"]));
    assert!(
        !pool.pool_gate_closed(),
        "abandoned candidates must not resurrect unknown instances"
    );

    pool.restore_gate(&ids(&["gate-5"]));
    assert!(
        pool.pool_gate_closed(),
        "abandoned candidates re-close the pool gate for live XT reservations"
    );

    pool.abort("gate-5");
    pool.restore_gate(&ids(&["gate-5"]));
    assert!(
        !pool.pool_gate_closed(),
        "aborted instances must not be restored into the pool gate"
    );
}

#[test]
fn decoded_transactions_reserve_the_nonce_of_their_signer() {
    let mut pool = XtPool::default();
    let user = PrivateKeySigner::random();
    let stranger = PrivateKeySigner::random();
    pool.submit_locked(submit("a", order(1, 1), vec![raw_tx(&user, 3, 1)])).unwrap();
    assert!(pool.has_reserved_nonce(address(&user), 3));
    assert!(pool.has_blocking_nonce(address(&user), 3));
    assert!(!pool.has_reserved_nonce(address(&user), 2));
    assert!(!pool.has_reserved_nonce(address(&stranger), 3));
    assert_eq!(pool.active_senders(), vec![address(&user)]);
}

#[test]
fn undecodable_transaction_is_refused() {
    let mut pool = XtPool::default();
    let user = PrivateKeySigner::random();
    let error = pool
        .submit_locked(submit("a", order(1, 1), vec![raw_tx(&user, 0, 1), vec![0xff, 0x00]]))
        .unwrap_err();
    assert!(matches!(error, XtPoolError::InvalidTransaction(_)));
    assert!(error.message().starts_with("invalid XT transaction: "));
    assert!(!pool.pool_gate_closed());
    assert!(!pool.has_reserved_nonce(address(&user), 0));
}

#[test]
fn unrecoverable_signature_is_refused() {
    let fields =
        TxFields { nonce: 1, tx_hash: B256::new([7; 32]), to: None, value: U256::from_u64(0) };
    let error = signed_tx(vec![1, 2], fields, None).unwrap_err();
    assert_eq!(error.message(), "invalid XT transaction: signature recovery failed");
    let tx = signed_tx(vec![1, 2], fields, Some(who(9))).unwrap();
    assert_eq!(tx.raw, vec![1, 2]);
    assert_eq!(tx.nonce, 1);
    assert!(tx.sender == who(9));
}

#[test]
fn release_of_unknown_instance_is_refused_before_decoding() {
    let mut pool = XtPool::default();
    let error = pool.release(release("ghost", vec![vec![0xff]])).unwrap_err();
    assert!(matches!(error, XtPoolError::UnknownInstance(_)));
    assert_eq!(error.message(), "unknown instance ghost");
}

#[test]
fn release_of_undecodable_transaction_is_refused() {
    let mut pool = XtPool::default();
    pool.submit_signed("a".to_string(), order(1, 1), vec![plain_tx(1, 0)]).unwrap();
    let error = pool.release(release("a", vec![vec![0xff]])).unwrap_err();
    assert!(matches!(error, XtPoolError::InvalidTransaction(_)));
    assert!(pool.collect_executable_instances(&nonces(&[(who(1), 0)])).is_empty());
}

#[test]
fn reserved_nonce_conflicts_with_other_instance() {
    let mut pool = XtPool::default();
    pool.submit_signed("a".to_string(), order(1, 1), vec![plain_tx(1, 4)]).unwrap();
    let error = pool
        .submit_signed("b".to_string(), order(1, 2), vec![plain_tx(2, 0), plain_tx(1, 4)])
        .unwrap_err();
    assert_eq!(
        error.message(),
        "instance b conflicts with reserved nonce 0x0101010101010101010101010101010101010101:4"
    );
    assert!(!pool.has_reserved_nonce(who(2), 0));
    pool.submit_signed("b".to_string(), order(1, 2), vec![plain_tx(2, 0), plain_tx(1, 5)]).unwrap();
    let error = pool.release_signed("b".to_string(), vec![tagged_tx(1, 4, 9)]).unwrap_err();
    assert!(matches!(error, XtPoolError::NonceConflict { nonce: 4, .. }));
}

#[test]
fn different_transactions_under_a_live_id_mismatch() {
    let mut pool = XtPool::default();
    pool.submit_signed("a".to_string(), order(1, 1), vec![plain_tx(1, 0)]).unwrap();
    let error =
        pool.submit_signed("a".to_string(), order(1, 1), vec![plain_tx(1, 1)]).unwrap_err();
    assert_eq!(error.message(), "instance a already exists with different transactions");
    let error =
        pool.submit_signed("a".to_string(), order(1, 2), vec![plain_tx(1, 0)]).unwrap_err();
    assert!(matches!(error, XtPoolError::InstanceMismatch(_)));

    pool.release_signed("a".to_string(), vec![plain_tx(2, 0)]).unwrap();
    let error = pool.release_signed("a".to_string(), vec![plain_tx(2, 1)]).unwrap_err();
    assert!(matches!(error, XtPoolError::InstanceMismatch(_)));
    let error = pool.release_signed("a".to_string(), Vec::new()).unwrap_err();
    assert!(matches!(error, XtPoolError::InstanceMismatch(_)));
}

#[test]
fn resubmission_is_recognised_after_release_and_inclusion() {
    let mut pool = XtPool::default();
    let txs = vec![plain_tx(1, 0), plain_tx(1, 1)];
    pool.submit_signed("a".to_string(), order(1, 1), txs.clone()).unwrap();
    pool.release_signed("a".to_string(), vec![plain_tx(2, 0)]).unwrap();
    pool.submit_signed("a".to_string(), order(1, 1), txs.clone()).unwrap();
    pool.note_executed("a");
    pool.mark_included(&ids(&["a"]));
    pool.submit_signed("a".to_string(), order(1, 1), txs).unwrap();
    assert!(!pool.pool_gate_closed());
    assert!(!pool.has_blocking_nonce(who(1), 0));
}

#[test]
fn abort_undoes_submit() {
    let mut pool = XtPool::default();
    pool.submit_signed("keep".to_string(), order(2, 0), vec![plain_tx(1, 0)]).unwrap();
    pool.submit_signed("drop".to_string(), order(1, 0), vec![plain_tx(1, 1), plain_tx(3, 0)])
        .unwrap();
    assert_eq!(pool.active_senders(), vec![who(1), who(3)]);
    pool.abort("drop");
    assert_eq!(pool.active_senders(), vec![who(1)]);
    assert!(pool.has_reserved_nonce(who(1), 0));
    assert!(!pool.has_reserved_nonce(who(1), 1));
    assert!(!pool.has_reserved_nonce(who(3), 0));
    assert!(pool.pool_gate_closed());
    pool.submit_signed("again".to_string(), order(1, 0), vec![plain_tx(3, 0)]).unwrap();
}

#[test]
fn instances_execute_by_period_sequence_and_id() {
    let mut pool = XtPool::default();
    let entries = [("b", 1, 2, 4u8), ("a", 1, 2, 3u8), ("z", 1, 1, 2u8), ("c", 0, 9, 1u8)];
    for (id, period, sequence, sender) in entries {
        pool.submit_signed(id.to_string(), order(period, sequence), vec![plain_tx(sender, 0)])
            .unwrap();
        pool.release_signed(id.to_string(), Vec::new()).unwrap();
    }
    let known = nonces(&[(who(1), 0), (who(2), 0), (who(3), 0), (who(4), 0)]);
    let executable = pool.collect_executable_instances(&known);
    assert_eq!(executable_ids(&executable), vec!["c", "z", "a", "b"]);
    assert_eq!(executable[0].senders, vec![who(1)]);
    assert!(pool.first_blocked_instance_reason(&known).is_none());
}

#[test]
fn earlier_instance_advances_nonces_for_later_one() {
    let mut pool = XtPool::default();
    for (id, sequence, nonce) in [("one", 1, 0), ("two", 2, 1), ("four", 4, 3)] {
        pool.submit_signed(id.to_string(), order(1, sequence), vec![plain_tx(1, nonce)]).unwrap();
        pool.release_signed(id.to_string(), Vec::new()).unwrap();
    }
    let known = nonces(&[(who(1), 0)]);
    let executable = pool.collect_executable_instances(&known);
    assert_eq!(executable_ids(&executable), vec!["one", "two"]);
    let reason = pool.first_blocked_instance_reason(&known).unwrap();
    assert_eq!(reason.instance_id, "four");
    assert_eq!(reason.reason, "nonce does not match current execution cursor");
    assert_eq!(reason.entry_nonce, 3);
    assert_eq!(reason.current_nonce, Some(2));
    assert_eq!(reason.phase, "xt");
    assert_eq!(reason.status, "released");
}

#[test]
fn stale_transactions_are_passed_over() {
    let mut pool = XtPool::default();
    pool.submit_signed("a".to_string(), order(1, 1), vec![plain_tx(1, 0), plain_tx(1, 1)]).unwrap();
    pool.release_signed("a".to_string(), vec![plain_tx(2, 0)]).unwrap();
    let executable = pool.collect_executable_instances(&nonces(&[(who(1), 1), (who(2), 1)]));
    assert_eq!(executable.len(), 1);
    assert_eq!(executable[0].transactions, vec![vec![1, 1, 0]]);
    assert_eq!(executable[0].senders, vec![who(2), who(1)]);
    let done = pool.collect_executable_instances(&nonces(&[(who(1), 2), (who(2), 1)]));
    assert!(done.is_empty());
}

#[test]
fn blocked_reason_names_unknown_sender_and_unreleased_status() {
    let mut pool = XtPool::default();
    pool.submit_signed("a".to_string(), order(1, 1), vec![plain_tx(1, 0)]).unwrap();
    let reason = pool.first_blocked_instance_reason(&nonces(&[])).unwrap();
    assert_eq!(reason.reason, "sender nonce unavailable in current state");
    assert_eq!(reason.current_nonce, None);
    let reason = pool.first_blocked_instance_reason(&nonces(&[(who(1), 0)])).unwrap();
    assert_eq!(reason.reason, "reservation is not released");
    assert_eq!(reason.status, "locked");
    assert_eq!(reason.tx_index, 0);
    assert!(reason.tx_hash == plain_tx(1, 0).tx_hash);
    pool.release_signed("a".to_string(), vec![plain_tx(2, 5)]).unwrap();
    pool.mark_included(&ids(&["a"]));
    let reason = pool.first_blocked_instance_reason(&nonces(&[(who(1), 0), (who(2), 5)])).unwrap();
    assert_eq!(reason.phase, "put_inbox");
    assert_eq!(reason.status, "included");
}

#[test]
fn projected_nonce_skips_reserved_nonces() {
    let mut pool = XtPool::default();
    assert_eq!(pool.projected_next_nonce(who(1), 7), 7);
    pool.submit_signed(
        "a".to_string(),
        order(1, 1),
        vec![plain_tx(1, 2), plain_tx(1, 3), plain_tx(1, 5)],
    )
    .unwrap();
    assert_eq!(pool.projected_next_nonce(who(1), 0), 0);
    assert_eq!(pool.projected_next_nonce(who(1), 2), 4);
    assert_eq!(pool.projected_next_nonce(who(1), 3), 4);
    assert_eq!(pool.projected_next_nonce(who(1), 5), 6);
    pool.submit_signed("b".to_string(), order(1, 2), vec![plain_tx(2, u64::MAX)]).unwrap();
    assert_eq!(pool.projected_next_nonce(who(2), u64::MAX), u64::MAX);
}

#[test]
fn largest_nonce_saturates_in_execution() {
    let mut pool = XtPool::default();
    pool.submit_signed("a".to_string(), order(1, 1), vec![plain_tx(1, u64::MAX)]).unwrap();
    pool.release_signed("a".to_string(), Vec::new()).unwrap();
    let executable = pool.collect_executable_instances(&nonces(&[(who(1), u64::MAX)]));
    assert_eq!(executable_ids(&executable), vec!["a"]);
}

#[test]
fn unrelated_senders_are_held_while_pool_gate_is_closed() {
    let mut pool = XtPool::default();
    assert!(!pool.should_hold_pool_tx(who(9)));
    pool.submit_signed("a".to_string(), order(1, 1), vec![plain_tx(1, 0)]).unwrap();
    assert!(pool.should_hold_pool_tx(who(9)));
    assert!(!pool.should_hold_pool_tx(who(1)));
    assert!(pool.is_active_sender(who(1)));
    assert!(!pool.is_active_sender(who(9)));
    pool.release_signed("a".to_string(), Vec::new()).unwrap();
    pool.mark_included(&ids(&["a", "missing"]));
    assert!(!pool.is_active_sender(who(1)));
    assert!(pool.should_hold_pool_tx(who(1)));
    pool.note_executed("a");
    assert!(!pool.should_hold_pool_tx(who(9)));
}

#[test]
fn active_senders_are_sorted() {
    let mut pool = XtPool::default();
    let txs = vec![plain_tx(9, 0), plain_tx(1, 0), plain_tx(5, 0), plain_tx(1, 1)];
    pool.submit_signed("a".to_string(), order(1, 1), txs).unwrap();
    assert_eq!(pool.active_senders(), vec![who(1), who(5), who(9)]);
}

#[test]
fn locked_transactions_are_not_included() {
    let mut pool = XtPool::default();
    pool.submit_signed("a".to_string(), order(1, 1), vec![plain_tx(1, 0)]).unwrap();
    pool.mark_included(&ids(&["a"]));
    assert!(pool.has_blocking_nonce(who(1), 0));
}

#[test]
fn last_entry_of_a_nonce_counts() {
    let mut pool = XtPool::default();
    // A `putInbox` transaction may repeat a transaction of its own instance.
    pool.submit_signed("a".to_string(), order(1, 1), vec![plain_tx(1, 0)]).unwrap();
    pool.release_signed("a".to_string(), vec![plain_tx(1, 0)]).unwrap();
    pool.mark_included(&ids(&["a"]));
    assert!(pool.has_reserved_nonce(who(1), 0));
    assert!(!pool.has_blocking_nonce(who(1), 0));
    pool.abort("a");
    assert!(!pool.has_reserved_nonce(who(1), 0));
}

#[test]
fn guard_restores_pool_gate_of_abandoned_candidate() {
    let mut pool = XtPool::default();
    pool.submit_signed("a".to_string(), order(1, 1), vec![plain_tx(1, 0)]).unwrap();
    pool.submit_signed("b".to_string(), order(1, 2), vec![plain_tx(2, 0)]).unwrap();
    let mut guard = ExecutedXtGateGuard::new();
    guard.note_executed(&mut pool, "a".to_string());
    guard.note_executed(&mut pool, "b".to_string());
    assert!(!pool.pool_gate_closed());
    pool.abort("b");
    guard.restore(&mut pool);
    assert!(pool.pool_gate_closed());
    pool.note_executed("a");
    assert!(!pool.pool_gate_closed());
}

#[test]
fn disarmed_guard_leaves_pool_gate_open() {
    let mut pool = XtPool::default();
    pool.submit_signed("a".to_string(), order(1, 1), vec![plain_tx(1, 0)]).unwrap();
    let mut guard = ExecutedXtGateGuard::new();
    guard.note_executed(&mut pool, "a".to_string());
    assert_eq!(guard.disarm(), ids(&["a"]));
    guard.restore(&mut pool);
    assert!(!pool.pool_gate_closed());
    assert!(guard.disarm().is_empty());
}

#[test]
fn reservations_are_numbered_and_compared_without_status() {
    let id = "a".to_string();
    let txs = vec![plain_tx(1, 0), plain_tx(2, 0), plain_tx(1, 1)];
    let locked = build_reservations(
        &id,
        order(1, 1),
        txs.clone(),
        XtReservationPhase::Xt,
        XtEntryStatus::Locked,
    );
    let released = build_reservations(
        &id,
        order(1, 1),
        txs,
        XtReservationPhase::Xt,
        XtEntryStatus::Released,
    );
    assert_eq!(locked.iter().map(|r| r.tx_index).collect::<Vec<_>>(), vec![0, 1, 2]);
    assert!(same_reservations(&locked, &released));
    assert_eq!(unique_senders(&locked), vec![who(1), who(2)]);
}

#[test]
fn nonce_table_keeps_the_last_value() {
    let mut table = NonceTable::new();
    assert_eq!(table.get(who(1)), None);
    table.insert(who(1), 3);
    table.insert(who(2), 4);
    table.insert(who(1), 5);
    assert_eq!(table.get(who(1)), Some(5));
    assert_eq!(table.get(who(2)), Some(4));
    let copy = table.copy();
    table.insert(who(1), 6);
    assert_eq!(copy.get(who(1)), Some(5));
}

#[test]
fn execution_errors_have_messages() {
    assert_eq!(
        XtExecutionError::Decode("short".to_string()).message(),
        "failed to decode XT transaction: short"
    );
    assert_eq!(
        XtExecutionError::SignatureRecovery.message(),
        "XT transaction signature recovery failed"
    );
    assert_eq!(
        XtExecutionError::InvalidTransactionType.message(),
        "XT transaction type is not supported"
    );
    assert_eq!(
        XtExecutionError::LimitsExceeded("gas".to_string()).message(),
        "XT transaction exceeds block limits: gas"
    );
    assert_eq!(
        XtExecutionError::ExecutionFailed("revert".to_string()).message(),
        "XT transaction execution failed: revert"
    );
}

#[test]
fn released_transactions_are_counted() {
    let mut pool = XtPool::default();
    assert!(pool.released_counts("a").is_none());
    pool.submit_signed("a".to_string(), order(1, 1), vec![plain_tx(1, 0), plain_tx(1, 1)]).unwrap();
    let counts = pool.released_counts("a").unwrap();
    assert_eq!((counts.senders, counts.xt, counts.put_inbox), (1, 0, 0));
    pool.release_signed("a".to_string(), vec![plain_tx(2, 0)]).unwrap();
    let counts = pool.released_counts("a").unwrap();
    assert_eq!((counts.senders, counts.xt, counts.put_inbox), (2, 2, 1));
    pool.mark_included(&ids(&["a"]));
    let counts = pool.released_counts("a").unwrap();
    assert_eq!((counts.senders, counts.xt, counts.put_inbox), (2, 0, 0));
}

#[test]
fn rebuilding_a_sender_leaves_the_others_alone() {
    let entry = |sender: u8, nonce: u64| SenderReservations {
        sender: who(sender),
        by_nonce: BTreeMap::from([(
            nonce,
            SenderNonceReservation {
                instance_id: "gone".to_string(),
                tx_hash: B256::new([sender; 32]),
                status: XtEntryStatus::Locked,
            },
        )]),
        blocking_count: 1,
    };
    let mut by_sender = vec![entry(1, 4), entry(2, 5), entry(3, 6)];
    rebuild_sender(&Vec::new(), &mut by_sender, who(2));
    assert_eq!(by_sender.len(), 2);
    assert!(by_sender[0].sender == who(1));
    assert_eq!(by_sender[0].by_nonce[&4].instance_id, "gone");
    assert_eq!(by_sender[0].blocking_count, 1);
    assert!(by_sender[1].sender == who(3));
    assert_eq!(by_sender[1].by_nonce[&6].instance_id, "gone");
}
