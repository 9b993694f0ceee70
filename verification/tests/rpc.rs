use alloy_consensus::{SignableTransaction, TxEip1559};
use alloy_eips::Encodable2718;
use alloy_primitives::TxKind;
use alloy_signer::SignerSync;
use alloy_signer_local::PrivateKeySigner;
use ethera::ethera::pool::XtPool;
use ethera::ethera::reservation::SignedTx;
use ethera::ethera::rpc::{
    abort_xt, advance_pending_nonce, check_permission, check_send, decode_incoming, read_incoming,
    release_xt, step_pending_nonce, submit_xt, IncomingTx, PendingNonceError, PendingStep,
};
use ethera::ethera::types::{AbortXtRequest, ReleaseXtRequest, SubmitXtRequest, XtOrderKey};
use ethera::outside::TxFields;
use ethera::primitives::{Address, B256, U256};
use ethera::sidecar::types::{CheckTxResponse, SidecarError};
use op_alloy_consensus::OpTxEnvelope;

fn raw_tx(signer: &PrivateKeySigner, nonce: u64, to: TxKind, value: u64) -> Vec<u8> {
    let tx = TxEip1559 {
        chain_id: 77777,
        nonce,
        gas_limit: 21_000,
        max_fee_per_gas: 20_000_000_000,
        max_priority_fee_per_gas: 1_000_000_000,
        to,
        value: alloy_primitives::U256::from(value),
        ..Default::default()
    };
    let signature = signer.sign_hash_sync(&tx.signature_hash()).unwrap();
    OpTxEnvelope::from(tx.into_signed(signature)).encoded_2718()
}

fn who(byte: u8) -> Address {
    Address::new([byte; 20])
}

fn reserve(pool: &mut XtPool, id: &str, sender: u8, nonces: &[u64]) {
    let txs = nonces
        .iter()
        .map(|nonce| SignedTx {
            raw: vec![sender, *nonce as u8],
            sender: who(sender),
            nonce: *nonce,
            tx_hash: B256::new([sender; 32]),
        })
        .collect();
    let order = XtOrderKey { period_id: 1, sequence_number: 1 };
    pool.submit_signed(id.to_string(), order, txs).unwrap();
}

fn answer(allowed: bool, reason: Option<&str>) -> Result<CheckTxResponse, SidecarError> {
    Ok(CheckTxResponse { allowed, reason: reason.map(|r| r.to_string()), config_version: None })
}

/// Asks a mempool that holds `mempool` until the pending nonce is settled.
fn pending(pool: &XtPool, sender: u8, on_chain: u64, mempool: &[u64]) -> u64 {
    let mut nonce = on_chain;
    loop {
        let mut highest = None;
        let mut n = nonce;
        while mempool.contains(&n) {
            highest = Some(n);
            n += 1;
        }
        match step_pending_nonce(pool, who(sender), nonce, highest).unwrap() {
            PendingStep::Ask(next) => nonce = next,
            PendingStep::Settled(settled) => return settled,
        }
    }
}

#[test]
fn incoming_transaction_is_classified() {
    let signer = PrivateKeySigner::random();
    let call = TxKind::Call(alloy_primitives::Address::repeat_byte(1));
    let tx = decode_incoming(&raw_tx(&signer, 9, call, 0)).unwrap();
    assert!(tx.sender == Address::new(signer.address().into_array()));
    assert_eq!(tx.nonce, 9);
    assert!(!tx.is_create);
    assert!(!tx.has_value);
    let tx = decode_incoming(&raw_tx(&signer, 10, TxKind::Create, 3)).unwrap();
    assert!(tx.is_create);
    assert!(tx.has_value);
}

#[test]
fn incoming_transaction_that_does_not_decode_is_refused() {
    let text = decode_incoming(&vec![0xff]).unwrap_err();
    assert!(!text.is_empty());
    let fields =
        TxFields { nonce: 1, tx_hash: B256::new([7; 32]), to: None, value: U256::from_u64(0) };
    assert_eq!(read_incoming(fields, None).unwrap_err(), "signature recovery failed");
}

#[test]
fn value_in_a_high_limb_counts() {
    let value = U256 { l0: 0, l1: 0, l2: 0, l3: 1 };
    let fields = TxFields { nonce: 1, tx_hash: B256::new([7; 32]), to: Some(who(1)), value };
    let tx = read_incoming(fields, Some(who(2))).unwrap();
    assert!(tx.has_value);
    assert!(!tx.is_create);
}

#[test]
fn pending_nonce_alternates_between_mempool_and_reservations() {
    let mut pool = XtPool::default();
    reserve(&mut pool, "a", 1, &[2, 3]);
    assert_eq!(pending(&pool, 1, 0, &[0, 1, 4]), 5);
    assert_eq!(pending(&pool, 1, 0, &[]), 0);
    assert_eq!(pending(&pool, 1, 2, &[]), 4);
    assert_eq!(pending(&pool, 2, 7, &[7]), 8);
}

#[test]
fn pending_nonce_fails_on_the_largest_mempool_nonce() {
    let pool = XtPool::default();
    let error = advance_pending_nonce(&pool, who(1), 0, Some(u64::MAX)).unwrap_err();
    assert_eq!(error, PendingNonceError::NonceMaxValue);
    assert_eq!(error.message(), "nonce has max value");
    assert_eq!(advance_pending_nonce(&pool, who(1), 9, Some(3)), Ok(9));
}

#[test]
fn reserved_nonce_is_not_passed_on() {
    let mut pool = XtPool::default();
    reserve(&mut pool, "a", 1, &[2]);
    let tx = |nonce: u64| IncomingTx {
        sender: who(1),
        nonce,
        is_create: false,
        has_value: false,
    };
    assert_eq!(
        check_send(&pool, &tx(2), None).unwrap_err(),
        "nonce reserved by Ethera XT transaction"
    );
    assert_eq!(check_send(&pool, &tx(3), None), Ok(()));
    assert_eq!(check_send(&pool, &tx(3), Some(answer(true, None))), Ok(()));
    assert_eq!(
        check_send(&pool, &tx(2), Some(answer(false, Some("blocked")))).unwrap_err(),
        "permission denied: blocked"
    );
}

#[test]
fn permission_check_fails_closed() {
    assert_eq!(check_permission(answer(true, Some("ignored"))), Ok(()));
    assert_eq!(check_permission(answer(false, None)).unwrap_err(), "permission denied: rejected");
    assert_eq!(
        check_permission(Err(SidecarError::Http("timeout".to_string()))).unwrap_err(),
        "permission check unavailable: HTTP request failed: timeout"
    );
}

#[test]
fn control_methods_answer_with_messages() {
    let mut pool = XtPool::default();
    let signer = PrivateKeySigner::random();
    let call = TxKind::Call(alloy_primitives::Address::repeat_byte(1));
    let request = SubmitXtRequest {
        instance_id: "xt-1".to_string(),
        order: XtOrderKey { period_id: 1, sequence_number: 1 },
        transactions: vec![raw_tx(&signer, 0, call, 1)],
    };
    assert_eq!(submit_xt(&mut pool, request.clone()), Ok(()));
    let other = SubmitXtRequest { transactions: Vec::new(), ..request };
    assert_eq!(
        submit_xt(&mut pool, other).unwrap_err(),
        "instance xt-1 already exists with different transactions"
    );
    let release = |id: &str| ReleaseXtRequest {
        instance_id: id.to_string(),
        transactions: Vec::new(),
    };
    assert_eq!(release_xt(&mut pool, release("xt-1")), Ok(()));
    assert_eq!(release_xt(&mut pool, release("xt-2")).unwrap_err(), "unknown instance xt-2");
    abort_xt(&mut pool, AbortXtRequest { instance_id: "xt-1".to_string() });
    assert!(!pool.pool_gate_closed());
    assert_eq!(release_xt(&mut pool, release("xt-1")).unwrap_err(), "unknown instance xt-1");
}

#[test]
fn reservation_shows_in_the_pending_nonce() {
    let mut pool = XtPool::default();
    reserve(&mut pool, "xt-1", 1, &[0]);
    assert_eq!(pending(&pool, 1, 0, &[]), 1);
    assert_eq!(pending(&pool, 1, 0, &[1]), 2);
    pool.release_signed("xt-1".to_string(), Vec::new()).unwrap();
    pool.mark_included(&["xt-1".to_string()]);
    assert_eq!(pending(&pool, 1, 0, &[1]), 2);
    pool.abort("xt-1");
    assert_eq!(pending(&pool, 1, 0, &[1]), 0);
}

#[test]
fn pending_nonce_turn_says_whether_another_is_needed() {
    let mut pool = XtPool::default();
    reserve(&mut pool, "a", 1, &[2, u64::MAX]);
    let step = |nonce: u64, highest: Option<u64>| step_pending_nonce(&pool, who(1), nonce, highest);
    assert_eq!(step(0, None), Ok(PendingStep::Settled(0)));
    assert_eq!(step(0, Some(1)), Ok(PendingStep::Ask(3)));
    assert_eq!(step(2, None), Ok(PendingStep::Ask(3)));
    assert_eq!(step(3, None), Ok(PendingStep::Settled(3)));
    assert_eq!(step(u64::MAX, None), Ok(PendingStep::Settled(u64::MAX)));
    assert_eq!(step(0, Some(u64::MAX)), Err(PendingNonceError::NonceMaxValue));
}
