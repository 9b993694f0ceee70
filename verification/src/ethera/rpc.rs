//! What the RPC methods decide.

use vstd::prelude::*;
use vstd::string::*;

use super::model::{aborted, projected, slot, PoolView};
use super::pool::{release_outcome, submit_outcome, XtPool};
use super::reservation::error_text;
use super::types::{AbortXtRequest, ReleaseXtRequest, SubmitXtRequest};
use crate::outside::{decode_2718, decoded_2718, recover_signer, recovered_signer, TxFields};
use crate::primitives::Address;
use crate::sidecar::types::{CheckTxResponse, SidecarError};

verus! {

/// Answers `ethera_submitXt`: the error is the message of invalid parameters.
pub fn submit_xt(xt_pool: &mut XtPool, request: SubmitXtRequest) -> (res: Result<(), String>)
    requires
        old(xt_pool).wf(),
    ensures
        final(xt_pool).wf(),
        match submit_outcome(old(xt_pool)@, request) {
            Ok(pool) => res is Ok && final(xt_pool)@ == pool,
            Err(error) => (res matches Err(text) && text@ == error_text(error)) && final(xt_pool)@
                == old(xt_pool)@,
        },
{
    match xt_pool.submit_locked(request) {
        Ok(()) => Ok(()),
        Err(error) => Err(error.message()),
    }
}

/// Answers `ethera_releaseXt`: the error is the message of invalid parameters.
pub fn release_xt(xt_pool: &mut XtPool, request: ReleaseXtRequest) -> (res: Result<(), String>)
    requires
        old(xt_pool).wf(),
    ensures
        final(xt_pool).wf(),
        match release_outcome(old(xt_pool)@, request) {
            Ok(pool) => res is Ok && final(xt_pool)@ == pool,
            Err(error) => (res matches Err(text) && text@ == error_text(error)) && final(xt_pool)@
                == old(xt_pool)@,
        },
{
    match xt_pool.release(request) {
        Ok(()) => Ok(()),
        Err(error) => Err(error.message()),
    }
}

/// Answers `ethera_abortXt`.
pub fn abort_xt(xt_pool: &mut XtPool, request: AbortXtRequest)
    requires
        old(xt_pool).wf(),
    ensures
        final(xt_pool).wf(),
        final(xt_pool)@ == aborted(old(xt_pool)@, request.instance_id@),
{
    xt_pool.abort(request.instance_id.as_str());
}

/// Why no pending nonce can be given.
#[derive(Debug, Clone, Copy, PartialEq, Eq, Structural)]
pub enum PendingNonceError {
    /// The mempool holds a transaction with the largest nonce.
    NonceMaxValue,
}

impl PendingNonceError {
    /// The error as a message.
    pub fn message(self) -> (res: String)
        ensures
            res@ == "nonce has max value"@,
    {
        match self {
            PendingNonceError::NonceMaxValue => "nonce has max value".to_owned(),
        }
    }
}

/// The nonce after the mempool transactions that follow `next_nonce`, of which
/// `highest` is the last.
pub open spec fn after_mempool(next_nonce: u64, highest: Option<u64>) -> Result<
    u64,
    PendingNonceError,
> {
    match highest {
        Some(n) => if n == u64::MAX {
            Err(PendingNonceError::NonceMaxValue)
        } else if n + 1 > next_nonce {
            Ok((n + 1) as u64)
        } else {
            Ok(next_nonce)
        },
        None => Ok(next_nonce),
    }
}

/// Moves the pending nonce of `sender` from `next_nonce` past the mempool
/// transactions that follow it, of which `highest_pool_nonce` is the last, and
/// then past the nonces that XT instances have reserved. The pending nonce is
/// found when this no longer moves it: mempool transactions and reservations
/// may alternate.
pub fn advance_pending_nonce(
    xt_pool: &XtPool,
    sender: Address,
    next_nonce: u64,
    highest_pool_nonce: Option<u64>,
) -> (res: Result<u64, PendingNonceError>)
    requires
        xt_pool.wf(),
    ensures
        res == (match after_mempool(next_nonce, highest_pool_nonce) {
            Ok(n) => Ok(projected(xt_pool@.instances, sender@, n)),
            Err(error) => Err(error),
        }),
{
    let mut nonce: u64 = next_nonce;
    if let Some(highest) = highest_pool_nonce {
        match highest.checked_add(1) {
            Some(candidate) => {
                if candidate > nonce {
                    nonce = candidate;
                }
            },
            None => {
                return Err(PendingNonceError::NonceMaxValue);
            },
        }
    }
    Ok(xt_pool.projected_next_nonce(sender, nonce))
}

/// What to do about a pending nonce.
#[derive(Debug, Clone, Copy, PartialEq, Eq, Structural)]
pub enum PendingStep {
    /// Ask the mempool for its transactions from this nonce on.
    Ask(u64),
    /// This is the pending nonce.
    Settled(u64),
}

/// Takes one turn towards the pending nonce of `sender`, as
/// `advance_pending_nonce` does, and decides whether another one is needed.
pub fn step_pending_nonce(
    xt_pool: &XtPool,
    sender: Address,
    next_nonce: u64,
    highest_pool_nonce: Option<u64>,
) -> (res: Result<PendingStep, PendingNonceError>)
    requires
        xt_pool.wf(),
    ensures
        match after_mempool(next_nonce, highest_pool_nonce) {
            Ok(n) => ({
                let m = projected(xt_pool@.instances, sender@, n);
                res == Ok::<PendingStep, PendingNonceError>(
                    if m == next_nonce {
                        PendingStep::Settled(m)
                    } else {
                        PendingStep::Ask(m)
                    },
                )
            }),
            Err(e) => res == Err::<PendingStep, PendingNonceError>(e),
        },
{
    match advance_pending_nonce(xt_pool, sender, next_nonce, highest_pool_nonce) {
        Ok(moved) => if moved == next_nonce {
            Ok(PendingStep::Settled(moved))
        } else {
            Ok(PendingStep::Ask(moved))
        },
        Err(error) => Err(error),
    }
}

/// What is read of a transaction that a user sends.
#[derive(Debug, Clone, Copy)]
pub struct IncomingTx {
    pub sender: Address,
    pub nonce: u64,
    pub is_create: bool,
    pub has_value: bool,
}

/// What is read of a transaction that a user sends.
pub struct IncomingView {
    pub sender: Seq<u8>,
    pub nonce: u64,
    pub is_create: bool,
    pub has_value: bool,
}

impl View for IncomingTx {
    type V = IncomingView;

    open spec fn view(&self) -> IncomingView {
        IncomingView {
            sender: self.sender@,
            nonce: self.nonce,
            is_create: self.is_create,
            has_value: self.has_value,
        }
    }
}

/// What is read of the transaction `fields` of `signer`, or why it is refused.
pub open spec fn incoming(fields: TxFields, signer: Option<Seq<u8>>) -> Result<
    IncomingView,
    Seq<char>,
> {
    match signer {
        Some(sender) => Ok(
            IncomingView {
                sender,
                nonce: fields.nonce,
                is_create: fields.to is None,
                has_value: fields.value.value() != 0,
            },
        ),
        None => Err("signature recovery failed"@),
    }
}

/// Reads what a transaction decodes to and who signed it.
pub fn read_incoming(fields: TxFields, signer: Option<Address>) -> (res: Result<
    IncomingTx,
    String,
>)
    ensures
        match signer {
            Some(sender) => res matches Ok(tx) && incoming(fields, Some(sender@)) == Ok::<
                IncomingView,
                Seq<char>,
            >(tx@),
            None => res matches Err(text) && incoming(fields, None) == Err::<
                IncomingView,
                Seq<char>,
            >(text@),
        },
        match signer {
            Some(sender) => res matches Ok(tx) && tx.sender@ == sender@ && tx.nonce == fields.nonce
                && tx.is_create == (fields.to is None) && tx.has_value == (fields.value.value()
                != 0),
            None => res matches Err(text) && text@ == "signature recovery failed"@,
        },
{
    match signer {
        Some(sender) => Ok(
            IncomingTx {
                sender,
                nonce: fields.nonce,
                is_create: fields.to.is_none(),
                has_value: !fields.value.is_zero(),
            },
        ),
        None => Err("signature recovery failed".to_owned()),
    }
}

/// Decodes a transaction that a user sends. The error is the message of
/// invalid parameters.
pub fn decode_incoming(raw: &Vec<u8>) -> (res: Result<IncomingTx, String>)
    ensures
        match decoded_2718(raw@) {
            Ok(fields) => match incoming(fields, recovered_signer(raw@)) {
                Ok(tx) => res matches Ok(t) && t@ == tx,
                Err(text) => res matches Err(e) && e@ == text,
            },
            Err(text) => res matches Err(e) && e@ == text,
        },
        match (decoded_2718(raw@), recovered_signer(raw@)) {
            (Ok(fields), Some(sender)) => res matches Ok(tx) && tx.sender@ == sender && tx.nonce
                == fields.nonce && tx.is_create == (fields.to is None) && tx.has_value == (
            fields.value.value() != 0),
            (Ok(fields), None) => res matches Err(e) && e@ == "signature recovery failed"@,
            (Err(text), _) => res matches Err(e) && e@ == text,
        },
{
    match decode_2718(raw) {
        Ok(fields) => read_incoming(fields, recover_signer(raw)),
        Err(text) => Err(text),
    }
}

/// Why the sidecar's answer refuses a transaction, if it does.
pub open spec fn permission_refusal(answer: Result<CheckTxResponse, SidecarError>) -> Option<
    Seq<char>,
> {
    match answer {
        Ok(response) => if response.allowed {
            None
        } else {
            Some(
                "permission denied: "@ + match response.reason {
                    Some(reason) => reason@,
                    None => "rejected"@,
                },
            )
        },
        Err(error) => Some("permission check unavailable: "@ + error.text()),
    }
}

/// Why a transaction is not passed on to the mempool, if it is not: the
/// sidecar, where it was asked, refused it or could not be asked; or the nonce
/// is reserved.
pub open spec fn send_refusal(
    pool: PoolView,
    tx: IncomingView,
    answer: Option<Result<CheckTxResponse, SidecarError>>,
) -> Option<Seq<char>> {
    if answer matches Some(a) && permission_refusal(a) is Some {
        permission_refusal(answer->0)
    } else if slot(pool.instances, tx.sender, tx.nonce) is Some {
        Some("nonce reserved by Ethera XT transaction"@)
    } else {
        None
    }
}

/// The transaction passes exactly if its nonce is not reserved.
pub open spec fn passes_on_nonce(
    pool: PoolView,
    tx: IncomingView,
    res: Result<(), String>,
) -> bool {
    if slot(pool.instances, tx.sender, tx.nonce) is Some {
        res matches Err(e) && e@ == "nonce reserved by Ethera XT transaction"@
    } else {
        res is Ok
    }
}

/// Whether the sidecar's answer lets a transaction pass. The error is the
/// message of invalid parameters.
pub fn check_permission(answer: Result<CheckTxResponse, SidecarError>) -> (res: Result<(), String>)
    ensures
        match permission_refusal(answer) {
            Some(text) => res matches Err(e) && e@ == text,
            None => res is Ok,
        },
        match answer {
            Ok(response) => if response.allowed {
                res is Ok
            } else {
                res matches Err(e) && e@ == "permission denied: "@ + match response.reason {
                    Some(reason) => reason@,
                    None => "rejected"@,
                }
            },
            Err(error) => match error {
                SidecarError::Http(detail) => res matches Err(e) && e@
                    == "permission check unavailable: "@ + ("HTTP request failed: "@ + detail@),
            },
        },
{
    match answer {
        Ok(response) => {
            if response.allowed {
                Ok(())
            } else {
                let reason = match response.reason {
                    Some(reason) => reason,
                    None => "rejected".to_owned(),
                };
                Err("permission denied: ".to_owned().concat(reason.as_str()))
            }
        },
        Err(error) => Err(
            "permission check unavailable: ".to_owned().concat(error.message().as_str()),
        ),
    }
}

/// Whether a transaction is passed on to the mempool, given the sidecar's
/// answer where it was asked. The error is the message of invalid parameters.
pub fn check_send(
    xt_pool: &XtPool,
    tx: &IncomingTx,
    answer: Option<Result<CheckTxResponse, SidecarError>>,
) -> (res: Result<(), String>)
    requires
        xt_pool.wf(),
    ensures
        match send_refusal(xt_pool@, tx@, answer) {
            Some(text) => res matches Err(e) && e@ == text,
            None => res is Ok,
        },
        match answer {
            Some(Err(SidecarError::Http(detail))) => res matches Err(e) && e@
                == "permission check unavailable: "@ + ("HTTP request failed: "@ + detail@),
            Some(Ok(response)) => if response.allowed {
                passes_on_nonce(xt_pool@, tx@, res)
            } else {
                res matches Err(e) && e@ == "permission denied: "@ + match response.reason {
                    Some(reason) => reason@,
                    None => "rejected"@,
                }
            },
            None => passes_on_nonce(xt_pool@, tx@, res),
        },
{
    if let Some(answer) = answer {
        match check_permission(answer) {
            Ok(()) => {},
            Err(text) => {
                return Err(text);
            },
        }
    }
    if xt_pool.has_reserved_nonce(tx.sender, tx.nonce) {
        return Err("nonce reserved by Ethera XT transaction".to_owned());
    }
    Ok(())
}

} // verus!
