//! What a reserved nonce means, and what ends a reservation.

use vstd::prelude::*;

use super::index::{blocking_nonces, SenderNonceReservation};
use super::laws::{
    law_abort_frees_nonces, law_included_nonce_stays_reserved, law_release_unlocks_nonces,
    law_submit_reserves_nonces,
};
use super::lemmas::{lemma_last_entry, lemma_senders_in, lemma_slot, lemma_slot_of_instance};
use super::model::{
    aborted, active, executed, executes_before, gate_restored, included, last_entry, live,
    release_result, reserves, senders_in, slot, slot_of, submit_result, wf_instance, wf_pool,
    InstanceView, PoolView, ReservationView, SlotView, TxView, XtEntryStatus, XtReservationPhase,
};
use super::types::XtOrderKey;
use crate::primitives::text_lt;

verus! {

/// A mempool transaction with a nonce in this status has to wait: it is locked
/// or released, but not included.
pub open spec fn holds_back(status: XtEntryStatus) -> bool {
    match status {
        XtEntryStatus::Locked => true,
        XtEntryStatus::Released => true,
        XtEntryStatus::Included => false,
    }
}

/// The entry at `j` of the instance at `i` is the last of that instance that
/// uses `nonce` of `sender`.
pub open spec fn last_user(
    instances: Seq<InstanceView>,
    i: int,
    j: int,
    sender: Seq<u8>,
    nonce: u64,
) -> bool {
    &&& 0 <= i < instances.len()
    &&& 0 <= j < instances[i].entries.len()
    &&& instances[i].entries[j].sender == sender
    &&& instances[i].entries[j].nonce == nonce
    &&& forall|k: int|
        j < k < instances[i].entries.len() ==> (#[trigger] instances[i].entries[k]).sender != sender
            || instances[i].entries[k].nonce != nonce
}

/// A nonce is reserved exactly if an entry of an instance uses it. The
/// reservation shows the instance, the hash and the status of the last such
/// entry.
pub proof fn law_slot_shows_the_entry(pool: PoolView, sender: Seq<u8>, nonce: u64)
    requires
        wf_pool(pool),
    ensures
        slot(pool.instances, sender, nonce) is Some <==> exists|i: int, j: int| #[trigger]
            last_user(pool.instances, i, j, sender, nonce),
        slot(pool.instances, sender, nonce) is None <==> forall|i: int, j: int|
            0 <= i < pool.instances.len() && 0 <= j < pool.instances[i].entries.len()
                ==> (#[trigger] pool.instances[i].entries[j]).sender != sender
                || pool.instances[i].entries[j].nonce != nonce,
        forall|i: int, j: int| #[trigger]
            last_user(pool.instances, i, j, sender, nonce) ==> slot(pool.instances, sender, nonce)
                == Some(
                SlotView {
                    instance_id: pool.instances[i].id,
                    tx_hash: pool.instances[i].entries[j].tx_hash,
                    status: pool.instances[i].entries[j].status,
                },
            ),
{
    let all = pool.instances;
    lemma_slot(all, sender, nonce);
    assert forall|i: int, j: int| #[trigger] last_user(all, i, j, sender, nonce) implies slot(
        all,
        sender,
        nonce,
    ) == Some(
        SlotView {
            instance_id: all[i].id,
            tx_hash: all[i].entries[j].tx_hash,
            status: all[i].entries[j].status,
        },
    ) by {
        lemma_last_entry(all[i].entries, sender, nonce);
        assert(reserves(all[i].entries[j], sender, nonce));
        let e = last_entry(all[i].entries, sender, nonce)->0;
        let k = choose|k: int|
            0 <= k < all[i].entries.len() && #[trigger] all[i].entries[k] == e && reserves(
                e,
                sender,
                nonce,
            ) && forall|m: int|
                k < m < all[i].entries.len() ==> !reserves(
                    #[trigger] all[i].entries[m],
                    sender,
                    nonce,
                );
        assert(k == j);
        lemma_slot_of_instance(all, i, sender, nonce);
        assert(wf_instance(all[i]));
    }
    if slot(all, sender, nonce) is Some {
        let i = choose|i: int|
            0 <= i < all.len() && (last_entry(
                (#[trigger] all[i]).entries,
                sender,
                nonce,
            ) matches Some(e) && slot(all, sender, nonce)->0 == slot_of(e));
        lemma_last_entry(all[i].entries, sender, nonce);
        let e = last_entry(all[i].entries, sender, nonce)->0;
        let k = choose|k: int|
            0 <= k < all[i].entries.len() && #[trigger] all[i].entries[k] == e && reserves(
                e,
                sender,
                nonce,
            ) && forall|m: int|
                k < m < all[i].entries.len() ==> !reserves(
                    #[trigger] all[i].entries[m],
                    sender,
                    nonce,
                );
        assert forall|m: int| k < m < all[i].entries.len() implies (
        #[trigger] all[i].entries[m]).sender != sender || all[i].entries[m].nonce != nonce by {
            assert(!reserves(all[i].entries[m], sender, nonce));
        }
        assert(last_user(all, i, k, sender, nonce));
        assert(all[i].entries[k].sender == sender && all[i].entries[k].nonce == nonce);
    } else {
        assert forall|i: int, j: int|
            0 <= i < all.len() && 0 <= j < all[i].entries.len() implies (
        #[trigger] all[i].entries[j]).sender != sender || all[i].entries[j].nonce != nonce by {
            lemma_last_entry(all[i].entries, sender, nonce);
            assert(!reserves(all[i].entries[j], sender, nonce));
        }
    }
}

/// A sender is active exactly while one of its nonces is reserved for a
/// transaction that is locked or released.
pub proof fn law_active_sender_has_a_blocking_nonce(
    instances: Seq<InstanceView>,
    sender: Seq<u8>,
)
    ensures
        active(instances, sender) <==> exists|nonce: u64|
            (#[trigger] slot(instances, sender, nonce)) matches Some(s) && holds_back(s.status),
{
    if active(instances, sender) {
        let n = choose|n: u64|
            (#[trigger] slot(instances, sender, n)) matches Some(s) && s.status.blocks();
        assert(holds_back(slot(instances, sender, n)->0.status));
    }
    if exists|nonce: u64|
        (#[trigger] slot(instances, sender, nonce)) matches Some(s) && holds_back(s.status) {
        let n = choose|nonce: u64|
            (#[trigger] slot(instances, sender, nonce)) matches Some(s) && holds_back(s.status);
        assert(slot(instances, sender, n)->0.status.blocks());
    }
}

/// The nonce is reserved for a transaction that is locked or released.
pub open spec fn blocked_nonce(instances: Seq<InstanceView>, sender: Seq<u8>, nonce: u64) -> bool {
    slot(instances, sender, nonce) matches Some(s) && holds_back(s.status)
}

/// A nonce that blocks goes on blocking, for the same transaction, through
/// every submission, release, execution and restore, and through the inclusion
/// or abort of other instances.
pub proof fn law_blocking_nonce_goes_on_blocking(
    pool: PoolView,
    id: Seq<char>,
    order: XtOrderKey,
    txs: Seq<TxView>,
    ids: Seq<Seq<char>>,
    sender: Seq<u8>,
    nonce: u64,
)
    requires
        wf_pool(pool),
        blocked_nonce(pool.instances, sender, nonce),
    ensures
        ({
            let s = slot(pool.instances, sender, nonce)->0;
            &&& submit_result(pool, id, order, txs) matches Ok(p) ==> slot(
                p.instances,
                sender,
                nonce,
            ) == Some(s)
            &&& release_result(pool, id, txs) matches Ok(p) ==> blocked_nonce(
                p.instances,
                sender,
                nonce,
            ) && slot(p.instances, sender, nonce)->0.instance_id == s.instance_id && slot(
                p.instances,
                sender,
                nonce,
            )->0.tx_hash == s.tx_hash
            &&& slot(executed(pool, id).instances, sender, nonce) == Some(s)
            &&& slot(gate_restored(pool, ids).instances, sender, nonce) == Some(s)
            &&& !ids.contains(s.instance_id) ==> slot(included(pool, ids).instances, sender, nonce)
                == Some(s)
            &&& id != s.instance_id ==> slot(aborted(pool, id).instances, sender, nonce) == Some(s)
        }),
{
    if !live(pool.instances, id) {
        law_submit_reserves_nonces(pool, id, order, txs, sender, nonce);
        if exists|i: int|
            0 <= i < txs.len() && (#[trigger] txs[i]).sender == sender && txs[i].nonce == nonce {
            let i = choose|i: int|
                0 <= i < txs.len() && (#[trigger] txs[i]).sender == sender && txs[i].nonce == nonce;
            super::laws::law_reserved_nonce_is_refused(pool, id, order, txs, i);
        }
    }
    law_release_unlocks_nonces(pool, id, txs, sender, nonce);
    law_included_nonce_stays_reserved(pool, ids, sender, nonce);
    law_abort_frees_nonces(pool, id, sender, nonce);
}

/// Blocking ends when the instance is included, where the transaction was
/// released, and when the instance is aborted. A locked transaction goes on
/// blocking through inclusion. An included nonce stays reserved.
pub proof fn law_inclusion_and_abort_end_blocking(
    pool: PoolView,
    ids: Seq<Seq<char>>,
    sender: Seq<u8>,
    nonce: u64,
)
    requires
        wf_pool(pool),
        slot(pool.instances, sender, nonce) is Some,
    ensures
        ({
            let s = slot(pool.instances, sender, nonce)->0;
            let after = slot(included(pool, ids).instances, sender, nonce);
            &&& after matches Some(t) && t.instance_id == s.instance_id && t.tx_hash == s.tx_hash
            &&& ids.contains(s.instance_id) ==> (holds_back(after->0.status) <==> s.status
                == XtEntryStatus::Locked)
            &&& slot(aborted(pool, s.instance_id).instances, sender, nonce) is None
        }),
{
    let s = slot(pool.instances, sender, nonce)->0;
    law_included_nonce_stays_reserved(pool, ids, sender, nonce);
    law_abort_frees_nonces(pool, s.instance_id, sender, nonce);
}

/// The nonces of a submitted instance block from the start; so do those of its
/// `putInbox` transactions from the release on, where they were not reserved
/// before. Its senders are active.
pub proof fn law_requested_nonces_block(
    pool: PoolView,
    id: Seq<char>,
    order: XtOrderKey,
    txs: Seq<TxView>,
    i: int,
)
    requires
        wf_pool(pool),
        0 <= i < txs.len(),
    ensures
        !live(pool.instances, id) ==> (submit_result(pool, id, order, txs) matches Ok(p)
            ==> blocked_nonce(p.instances, txs[i].sender, txs[i].nonce) && active(
            p.instances,
            txs[i].sender,
        )),
        slot(pool.instances, txs[i].sender, txs[i].nonce) is None ==> (release_result(
            pool,
            id,
            txs,
        ) matches Ok(p) ==> blocked_nonce(p.instances, txs[i].sender, txs[i].nonce) && active(
            p.instances,
            txs[i].sender,
        )),
{
    if !live(pool.instances, id) {
        law_submit_reserves_nonces(pool, id, order, txs, txs[i].sender, txs[i].nonce);
    }
    law_release_unlocks_nonces(pool, id, txs, txs[i].sender, txs[i].nonce);
    if release_result(pool, id, txs) is Ok {
        let p = release_result(pool, id, txs)->Ok_0;
        if slot(pool.instances, txs[i].sender, txs[i].nonce) is None {
            assert(blocked_nonce(p.instances, txs[i].sender, txs[i].nonce));
            law_active_sender_has_a_blocking_nonce(p.instances, txs[i].sender);
        }
    }
}

/// An active sender stays active through a release.
pub proof fn law_release_keeps_senders_active(
    pool: PoolView,
    id: Seq<char>,
    txs: Seq<TxView>,
    sender: Seq<u8>,
)
    requires
        wf_pool(pool),
        active(pool.instances, sender),
    ensures
        release_result(pool, id, txs) matches Ok(p) ==> active(p.instances, sender),
{
    law_active_sender_has_a_blocking_nonce(pool.instances, sender);
    let n = choose|n: u64|
        (#[trigger] slot(pool.instances, sender, n)) matches Some(s) && holds_back(s.status);
    if release_result(pool, id, txs) is Ok {
        let p = release_result(pool, id, txs)->Ok_0;
        law_release_unlocks_nonces(pool, id, txs, sender, n);
        law_active_sender_has_a_blocking_nonce(p.instances, sender);
        assert(holds_back(slot(p.instances, sender, n)->0.status));
    }
}

/// What holds of every pool, spelled out. Instances stand by period, then by
/// sequence number, then by the text of their IDs, and each ID occurs once. No
/// two instances use the same nonce of a sender. The entries belong to their
/// instance, `putInbox` transactions before XT transactions, each kind numbered
/// from zero. An instance with a locked entry is locked as a whole and has no
/// `putInbox` transactions yet. Only live instances hold the pool gate.
pub proof fn law_pool_invariant(pool: PoolView, i: int, j: int, a: int, b: int, g: Seq<char>)
    requires
        wf_pool(pool),
        0 <= i < pool.instances.len(),
        0 <= j < pool.instances.len(),
        0 <= a < pool.instances[i].entries.len(),
        0 <= b < pool.instances[j].entries.len(),
    ensures
        ({
            let x = pool.instances[i];
            let y = pool.instances[j];
            let e = x.entries[a];
            let f = y.entries[b];
            &&& i < j ==> {
                ||| x.order.period_id < y.order.period_id
                ||| x.order.period_id == y.order.period_id && x.order.sequence_number
                    < y.order.sequence_number
                ||| x.order.period_id == y.order.period_id && x.order.sequence_number
                    == y.order.sequence_number && text_lt(x.id, y.id)
            }
            &&& i != j ==> x.id != y.id && (e.sender != f.sender || e.nonce != f.nonce)
            &&& e.instance_id == x.id && e.order == x.order
            &&& i == j && a < b && e.phase == XtReservationPhase::Xt ==> f.phase
                == XtReservationPhase::Xt
            &&& i == j && b == a + 1 && e.phase == f.phase ==> f.tx_index == e.tx_index + 1
            &&& a == 0 ==> e.tx_index == 0
            &&& i == j && b == a + 1 && e.phase != f.phase ==> f.tx_index == 0
            &&& i == j && e.status == XtEntryStatus::Locked ==> f.status == XtEntryStatus::Locked
                && f.phase == XtReservationPhase::Xt
            &&& pool.gate.contains(g) ==> live(pool.instances, g)
        }),
{
    let x = pool.instances[i];
    let y = pool.instances[j];
    if i < j {
        assert(executes_before(x, y));
    }
    assert(wf_instance(x));
    assert(wf_instance(y));
    if i != j {
        assert(super::model::disjoint(x, y));
    }
}

/// The senders of an instance are those of its entries, each once, in the order
/// in which they first appear.
pub proof fn law_senders_in_order_of_appearance(
    entries: Seq<ReservationView>,
    e: ReservationView,
)
    ensures
        senders_in(Seq::empty()) == Seq::<Seq<u8>>::empty(),
        senders_in(entries.push(e)) == (if exists|j: int|
            0 <= j < entries.len() && (#[trigger] entries[j]).sender == e.sender {
            senders_in(entries)
        } else {
            senders_in(entries).push(e.sender)
        }),
{
    assert(entries.push(e).drop_last() =~= entries);
    lemma_senders_in(entries, e.sender);
}

/// The nonces that block are those reserved for a transaction that is locked or
/// released.
pub proof fn law_blocking_nonces_by_status(
    by_nonce: Map<u64, SenderNonceReservation>,
    nonce: u64,
)
    ensures
        blocking_nonces(by_nonce).contains(nonce) <==> by_nonce.contains_key(nonce) && (
        by_nonce[nonce].status == XtEntryStatus::Locked || by_nonce[nonce].status
            == XtEntryStatus::Released),
{
}

} // verus!
