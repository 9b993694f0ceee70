//! What holds of the XT pool as a whole.

use vstd::prelude::*;

use super::lemmas::{
    lemma_aborted_wf, lemma_first_conflict, lemma_included_wf, lemma_last_entry, lemma_position,
    lemma_position_is, lemma_rank, lemma_released_wf, lemma_slot, lemma_slot_is_live,
    lemma_slot_of_instance, lemma_submitted_wf,
};
use super::model::{
    aborted, active, conflicts, disjoint, executed, gate_restored, included, included_entry,
    included_instance, instance, is_at, laid_out, last_entry, live, of_phase, position, projected,
    rank, release_result, released_entry, released_instance, reservations, reserves, same_list,
    same_reservation, slot, slot_of, submit_result, wf_instance, wf_pool, InstanceView,
    PoolErrorView, PoolView, ReservationView, SlotView, TxView, XtEntryStatus, XtReservationPhase,
};
use super::rpc::{after_mempool, incoming, send_refusal, IncomingView, PendingNonceError};
use super::types::XtOrderKey;
use crate::outside::TxFields;
use crate::primitives::{Address, U256};
use crate::sidecar::types::{CheckTxResponse, SidecarError};

verus! {

/// The `putInbox` transactions of an instance are those in front, and the XT
/// transactions are the others.
pub proof fn lemma_of_phase(entries: Seq<ReservationView>, puts: int)
    requires
        0 <= puts <= entries.len(),
        forall|j: int|
            0 <= j < entries.len() ==> (#[trigger] entries[j]).phase == (if j < puts {
                XtReservationPhase::PutInbox
            } else {
                XtReservationPhase::Xt
            }),
    ensures
        of_phase(entries, XtReservationPhase::PutInbox) == entries.take(puts),
        of_phase(entries, XtReservationPhase::Xt) == entries.skip(puts),
    decreases entries.len(),
{
    reveal(Seq::filter);
    let front = of_phase(entries, XtReservationPhase::PutInbox);
    let back = of_phase(entries, XtReservationPhase::Xt);
    if entries.len() == 0 {
        assert(front =~= entries.take(puts));
        assert(back =~= entries.skip(puts));
    } else {
        let n = entries.len() - 1;
        let before = entries.drop_last();
        let k = if puts <= n { puts } else { n };
        assert(entries[n].phase == entries.last().phase);
        assert forall|j: int| 0 <= j < before.len() implies (#[trigger] before[j]).phase == (if j
            < k {
            XtReservationPhase::PutInbox
        } else {
            XtReservationPhase::Xt
        }) by {
            assert(before[j] == entries[j]);
        }
        lemma_of_phase(before, k);
        if puts <= n {
            assert(front =~= entries.take(puts));
            assert(back =~= entries.skip(puts));
        } else {
            assert(front =~= entries.take(puts));
            assert(back =~= entries.skip(puts));
        }
    }
}

/// Every operation keeps the pool well formed: instances stay in the order of
/// execution with one ID each, no nonce of a sender is reserved by two of them,
/// and only live instances hold the pool gate closed.
pub proof fn law_operations_keep_pool_well_formed(
    pool: PoolView,
    id: Seq<char>,
    order: XtOrderKey,
    txs: Seq<TxView>,
    ids: Seq<Seq<char>>,
)
    requires
        wf_pool(pool),
    ensures
        submit_result(pool, id, order, txs) matches Ok(p) ==> wf_pool(p),
        release_result(pool, id, txs) matches Ok(p) ==> wf_pool(p),
        wf_pool(aborted(pool, id)),
        wf_pool(executed(pool, id)),
        wf_pool(gate_restored(pool, ids)),
        wf_pool(included(pool, ids)),
{
    lemma_submitted_wf(pool, id, order, txs);
    if live(pool.instances, id) {
        lemma_released_wf(pool, id, txs);
    }
    lemma_aborted_wf(pool, id);
    lemma_included_wf(pool, ids);
}

/// What a new instance looks like once it is submitted.
pub proof fn lemma_submitted_new(pool: PoolView, id: Seq<char>, order: XtOrderKey, txs: Seq<TxView>)
    requires
        wf_pool(pool),
        !live(pool.instances, id),
        submit_result(pool, id, order, txs) is Ok,
    ensures
        ({
            let rs = reservations(id, order, XtReservationPhase::Xt, XtEntryStatus::Locked, txs);
            let x = InstanceView { id, order, entries: rs };
            let q = submit_result(pool, id, order, txs)->Ok_0;
            let at = rank(pool.instances, x) as int;
            &&& wf_pool(q)
            &&& q.instances == pool.instances.insert(at, x)
            &&& q.gate == pool.gate.insert(id)
            &&& 0 <= at <= pool.instances.len()
            &&& live(q.instances, id)
            &&& position(q.instances, id) == at
            &&& instance(q.instances, id) == x
        }),
{
    let rs = reservations(id, order, XtReservationPhase::Xt, XtEntryStatus::Locked, txs);
    let x = InstanceView { id, order, entries: rs };
    let q = submit_result(pool, id, order, txs)->Ok_0;
    let at = rank(pool.instances, x) as int;
    lemma_rank(pool.instances, x);
    lemma_submitted_wf(pool, id, order, txs);
    assert(q.instances[at] == x);
    assert(is_at(q.instances, id, at));
    lemma_position_is(q.instances, id, at);
}

/// Submitting again what was submitted changes nothing.
pub proof fn law_submit_is_idempotent(
    pool: PoolView,
    id: Seq<char>,
    order: XtOrderKey,
    txs: Seq<TxView>,
)
    requires
        wf_pool(pool),
    ensures
        submit_result(pool, id, order, txs) matches Ok(p) ==> submit_result(p, id, order, txs)
            == Ok::<PoolView, PoolErrorView>(p),
{
    if submit_result(pool, id, order, txs) is Ok && !live(pool.instances, id) {
        lemma_submitted_new(pool, id, order, txs);
        let rs = reservations(id, order, XtReservationPhase::Xt, XtEntryStatus::Locked, txs);
        lemma_of_phase(rs, 0);
        assert(rs.skip(0) =~= rs);
    }
}

/// Two lists of XT transactions that agree but for the status.
spec fn agree(a: Seq<ReservationView>, b: Seq<ReservationView>) -> bool {
    same_list(
        of_phase(a, XtReservationPhase::Xt),
        of_phase(b, XtReservationPhase::Xt),
    )
}

/// A repeated submission is still recognised where the XT transactions of the
/// instance are the same.
proof fn lemma_still_submitted(
    p: PoolView,
    q: PoolView,
    id: Seq<char>,
    order: XtOrderKey,
    txs: Seq<TxView>,
)
    requires
        live(p.instances, id),
        live(q.instances, id),
        submit_result(p, id, order, txs) is Ok,
        agree(instance(q.instances, id).entries, instance(p.instances, id).entries),
    ensures
        submit_result(q, id, order, txs) == Ok::<PoolView, PoolErrorView>(q),
{
    let rs = reservations(id, order, XtReservationPhase::Xt, XtEntryStatus::Locked, txs);
    let a = of_phase(instance(q.instances, id).entries, XtReservationPhase::Xt);
    let b = of_phase(instance(p.instances, id).entries, XtReservationPhase::Xt);
    assert(same_list(b, rs));
    assert forall|i: int| 0 <= i < a.len() implies same_reservation(
        #[trigger] a[i],
        rs[i],
    ) by {
        assert(same_reservation(a[i], b[i]));
        assert(same_reservation(b[i], rs[i]));
    }
}

/// Entries that differ in status only agree.
proof fn lemma_agree_pointwise(x: InstanceView, y: InstanceView, puts: int, added: int)
    requires
        laid_out(x, puts),
        laid_out(y, added + puts),
        0 <= added,
        y.entries.len() == added + x.entries.len(),
        x.order == y.order,
        forall|j: int|
            puts <= j < x.entries.len() ==> {
                let e = #[trigger] x.entries[j];
                let f = y.entries[added + j];
                e.tx_hash == f.tx_hash && e.sender == f.sender && e.nonce == f.nonce
            },
    ensures
        agree(y.entries, x.entries),
{
    lemma_of_phase(x.entries, puts);
    lemma_of_phase(y.entries, added + puts);
    let a = y.entries.skip(added + puts);
    let b = x.entries.skip(puts);
    assert forall|i: int| 0 <= i < a.len() implies same_reservation(
        #[trigger] a[i],
        b[i],
    ) by {
        assert(b[i] == x.entries[puts + i]);
        assert(a[i] == y.entries[added + (puts + i)]);
    }
}

/// A repeated submission is still recognised, and changes nothing, after the
/// instance was executed, released or included: in particular it does not
/// close the pool gate again.
pub proof fn law_resubmission_changes_nothing(
    pool: PoolView,
    id: Seq<char>,
    order: XtOrderKey,
    txs: Seq<TxView>,
    other: Seq<char>,
    put_inbox: Seq<TxView>,
    ids: Seq<Seq<char>>,
)
    requires
        wf_pool(pool),
        live(pool.instances, id),
        submit_result(pool, id, order, txs) is Ok,
    ensures
        submit_result(executed(pool, other), id, order, txs) == Ok::<PoolView, PoolErrorView>(
            executed(pool, other),
        ),
        submit_result(gate_restored(pool, ids), id, order, txs) == Ok::<PoolView, PoolErrorView>(
            gate_restored(pool, ids),
        ),
        submit_result(included(pool, ids), id, order, txs) == Ok::<PoolView, PoolErrorView>(
            included(pool, ids),
        ),
        release_result(pool, other, put_inbox) matches Ok(p) ==> submit_result(p, id, order, txs)
            == Ok::<PoolView, PoolErrorView>(p),
{
    let old = pool.instances;
    let at = position(old, id);
    lemma_position(old, id);
    let x = old[at];
    assert(wf_instance(x));
    let puts = choose|puts: int| laid_out(x, puts);
    // Included.
    lemma_included_wf(pool, ids);
    let q = included(pool, ids);
    assert(is_at(q.instances, id, at));
    lemma_position_is(q.instances, id, at);
    let y = q.instances[at];
    assert(laid_out(y, puts));
    lemma_agree_pointwise(x, y, puts, 0);
    lemma_still_submitted(pool, q, id, order, txs);
    // Released.
    if release_result(pool, other, put_inbox) is Ok {
        lemma_released_wf(pool, other, put_inbox);
        let p = release_result(pool, other, put_inbox)->Ok_0;
        let rs = reservations(
            other,
            instance(old, other).order,
            XtReservationPhase::PutInbox,
            XtEntryStatus::Released,
            put_inbox,
        );
        lemma_position(old, other);
        assert(is_at(p.instances, id, at));
        lemma_position_is(p.instances, id, at);
        if other == id {
            let z = released_instance(x, rs);
            assert(p.instances[at] == z);
            let added: int = if of_phase(x.entries, XtReservationPhase::PutInbox).len() == 0 {
                rs.len() as int
            } else {
                0
            };
            lemma_released_layout(x, rs, puts);
            lemma_agree_pointwise(x, z, puts, added);
        } else {
            assert(p.instances[at] == x);
            lemma_agree_pointwise(x, x, puts, 0);
        }
        lemma_still_submitted(pool, p, id, order, txs);
    }
}

/// The layout of a released instance.
pub proof fn lemma_released_layout(x: InstanceView, put_inbox: Seq<ReservationView>, puts: int)
    requires
        laid_out(x, puts),
        forall|j: int|
            0 <= j < put_inbox.len() ==> {
                let e = #[trigger] put_inbox[j];
                e.instance_id == x.id && e.order == x.order && e.phase
                    == XtReservationPhase::PutInbox && e.tx_index == j
            },
    ensures
        ({
            let y = released_instance(x, put_inbox);
            let added: int = if of_phase(x.entries, XtReservationPhase::PutInbox).len() == 0 {
                put_inbox.len() as int
            } else {
                0
            };
            &&& laid_out(y, added + puts)
            &&& y.entries.len() == added + x.entries.len()
            &&& forall|j: int|
                0 <= j < x.entries.len() ==> y.entries[added + j] == released_entry(
                    #[trigger] x.entries[j],
                )
            &&& forall|j: int|
                0 <= j < added ==> y.entries[j] == released_entry(#[trigger] put_inbox[j])
            &&& of_phase(x.entries, XtReservationPhase::PutInbox) == x.entries.take(puts)
            &&& of_phase(y.entries, XtReservationPhase::PutInbox) == y.entries.take(added + puts)
        }),
{
    lemma_of_phase(x.entries, puts);
    let y = released_instance(x, put_inbox);
    let fresh = of_phase(x.entries, XtReservationPhase::PutInbox).len() == 0;
    let added: int = if fresh { put_inbox.len() as int } else { 0 };
    let listed = if fresh { put_inbox + x.entries } else { x.entries };
    assert(y.entries == listed.map_values(|e: ReservationView| released_entry(e)));
    assert forall|j: int| 0 <= j < x.entries.len() implies y.entries[added + j] == released_entry(
        #[trigger] x.entries[j],
    ) by {
        assert(listed[added + j] == x.entries[j]);
    }
    assert forall|j: int| 0 <= j < added implies y.entries[j] == released_entry(
        #[trigger] put_inbox[j],
    ) by {
        assert(listed[j] == put_inbox[j]);
    }
    assert forall|j: int| 0 <= j < y.entries.len() implies {
        let e = #[trigger] y.entries[j];
        &&& e.instance_id == y.id
        &&& e.order == y.order
        &&& j < added + puts ==> e.phase == XtReservationPhase::PutInbox && e.tx_index == j
        &&& j >= added + puts ==> e.phase == XtReservationPhase::Xt && e.tx_index == j - (added
            + puts)
    } by {
        if j < added {
            assert(y.entries[j] == released_entry(put_inbox[j]));
        } else {
            assert(y.entries[added + (j - added)] == released_entry(x.entries[j - added]));
        }
    }
    lemma_of_phase(y.entries, added + puts);
}

/// Releasing again with the same `putInbox` transactions changes nothing.
pub proof fn law_release_is_idempotent(pool: PoolView, id: Seq<char>, txs: Seq<TxView>)
    requires
        wf_pool(pool),
    ensures
        release_result(pool, id, txs) matches Ok(p) ==> release_result(p, id, txs) == Ok::<
            PoolView,
            PoolErrorView,
        >(p),
{
    if release_result(pool, id, txs) is Ok {
        let p = release_result(pool, id, txs)->Ok_0;
        let old = pool.instances;
        let at = position(old, id);
        lemma_position(old, id);
        lemma_released_wf(pool, id, txs);
        let x = old[at];
        assert(wf_instance(x));
        let puts = choose|puts: int| laid_out(x, puts);
        let rs = reservations(
            id,
            x.order,
            XtReservationPhase::PutInbox,
            XtEntryStatus::Released,
            txs,
        );
        let y = released_instance(x, rs);
        lemma_released_layout(x, rs, puts);
        assert(p.instances[at] == y);
        assert(is_at(p.instances, id, at));
        lemma_position_is(p.instances, id, at);
        let had = of_phase(x.entries, XtReservationPhase::PutInbox);
        let has = of_phase(y.entries, XtReservationPhase::PutInbox);
        let added: int = if had.len() == 0 { rs.len() as int } else { 0 };
        if has.len() > 0 {
            assert forall|i: int| 0 <= i < has.len() implies same_reservation(
                #[trigger] has[i],
                rs[i],
            ) by {
                if had.len() == 0 {
                    assert(y.entries[i] == released_entry(rs[i]));
                } else {
                    assert(had[i] == x.entries[i]);
                    assert(y.entries[0 + i] == released_entry(x.entries[i]));
                    assert(same_reservation(had[i], rs[i]));
                }
            }
            assert(has.len() == rs.len());
            assert(same_list(has, rs));
        } else {
            assert(rs.len() == 0);
            lemma_first_conflict(p.instances, id, rs);
        }
        let z = released_instance(y, rs);
        lemma_released_layout(y, rs, added + puts);
        assert(z.entries =~= y.entries) by {
            assert forall|j: int| 0 <= j < y.entries.len() implies z.entries[j] == #[trigger] y.entries[j] by {
                assert(z.entries[0 + j] == released_entry(y.entries[j]));
                if j < added {
                    assert(y.entries[j] == released_entry(rs[j]));
                } else {
                    assert(y.entries[added + (j - added)] == released_entry(x.entries[j - added]));
                }
            }
        }
        assert(z == y);
        assert(p.instances.update(at, z) =~= p.instances);
    }
}

/// Aborting what was just submitted gives back the pool as it was.
pub proof fn law_abort_undoes_submit(
    pool: PoolView,
    id: Seq<char>,
    order: XtOrderKey,
    txs: Seq<TxView>,
)
    requires
        wf_pool(pool),
        !live(pool.instances, id),
    ensures
        submit_result(pool, id, order, txs) matches Ok(p) ==> aborted(p, id) == pool,
{
    if submit_result(pool, id, order, txs) is Ok {
        lemma_submitted_new(pool, id, order, txs);
        let p = submit_result(pool, id, order, txs)->Ok_0;
        let at = position(p.instances, id);
        assert(p.instances.remove(at) =~= pool.instances);
        assert(!pool.gate.contains(id));
        assert(pool.gate.insert(id).remove(id) =~= pool.gate);
        assert(aborted(p, id) =~= pool);
    }
}

/// Lifting the hold of each of `ids` on the pool gate, in order.
pub open spec fn all_executed(pool: PoolView, ids: Seq<Seq<char>>) -> PoolView
    decreases ids.len(),
{
    if ids.len() == 0 {
        pool
    } else {
        executed(all_executed(pool, ids.drop_last()), ids.last())
    }
}

/// The pool gate stays closed until every instance that holds it is executed:
/// what executing `ids` leaves of the holds are those of the others.
pub proof fn law_gate_opens_when_all_are_executed(pool: PoolView, ids: Seq<Seq<char>>)
    ensures
        all_executed(pool, ids).instances == pool.instances,
        forall|id: Seq<char>| #[trigger]
            all_executed(pool, ids).gate.contains(id) <==> pool.gate.contains(id) && !ids.contains(
                id,
            ),
    decreases ids.len(),
{
    if ids.len() > 0 {
        let before = ids.drop_last();
        law_gate_opens_when_all_are_executed(pool, before);
        assert forall|id: Seq<char>| #[trigger]
            all_executed(pool, ids).gate.contains(id) <==> pool.gate.contains(id) && !ids.contains(
                id,
            ) by {
            assert(ids.contains(id) <==> before.contains(id) || ids.last() == id) by {
                if ids.contains(id) && ids.last() != id {
                    let k = choose|k: int| 0 <= k < ids.len() && ids[k] == id;
                    assert(before[k] == id);
                }
                if before.contains(id) {
                    let k = choose|k: int| 0 <= k < before.len() && before[k] == id;
                    assert(ids[k] == id);
                }
                assert(ids[ids.len() - 1] == ids.last());
            }
            assert(all_executed(pool, before).gate.contains(id) <==> pool.gate.contains(id)
                && !before.contains(id));
        }
    }
}

/// Abandoning a candidate block restores the pool gate: executing instances
/// that hold it and restoring them gives back the pool.
pub proof fn law_abandoned_candidate_restores_gate(pool: PoolView, ids: Seq<Seq<char>>)
    requires
        wf_pool(pool),
        forall|i: int| 0 <= i < ids.len() ==> pool.gate.contains(#[trigger] ids[i]),
    ensures
        gate_restored(all_executed(pool, ids), ids) == pool,
{
    law_gate_opens_when_all_are_executed(pool, ids);
    let q = gate_restored(all_executed(pool, ids), ids);
    assert forall|id: Seq<char>| #[trigger] q.gate.contains(id) <==> pool.gate.contains(id) by {
        if ids.contains(id) {
            let k = choose|k: int| 0 <= k < ids.len() && ids[k] == id;
            assert(pool.gate.contains(ids[k]));
        }
        assert(all_executed(pool, ids).gate.contains(id) <==> pool.gate.contains(id)
            && !ids.contains(id));
    }
    assert(q =~= pool);
}

/// A new instance closes the pool gate; releasing or including instances does
/// not open it; executing or aborting one lifts its hold and no other.
pub proof fn law_gate_follows_the_instance(
    pool: PoolView,
    id: Seq<char>,
    order: XtOrderKey,
    txs: Seq<TxView>,
    ids: Seq<Seq<char>>,
)
    requires
        wf_pool(pool),
    ensures
        submit_result(pool, id, order, txs) matches Ok(p) ==> p.gate == (if live(
            pool.instances,
            id,
        ) {
            pool.gate
        } else {
            pool.gate.insert(id)
        }),
        release_result(pool, id, txs) matches Ok(p) ==> p.gate == pool.gate,
        included(pool, ids).gate == pool.gate,
        executed(pool, id).gate == pool.gate.remove(id),
        aborted(pool, id).gate == pool.gate.remove(id),
{
}

/// An aborted instance cannot close the pool gate again.
pub proof fn law_aborted_instance_is_not_restored(
    pool: PoolView,
    id: Seq<char>,
    ids: Seq<Seq<char>>,
)
    requires
        wf_pool(pool),
    ensures
        !live(aborted(pool, id).instances, id),
        !gate_restored(aborted(pool, id), ids).gate.contains(id),
{
    let q = aborted(pool, id);
    if live(pool.instances, id) {
        lemma_position(pool.instances, id);
        let at = position(pool.instances, id);
        if live(q.instances, id) {
            let k = position(q.instances, id);
            lemma_position(q.instances, id);
            let m = if k < at { k } else { k + 1 };
            assert(q.instances[k] == pool.instances[m]);
            assert(pool.instances[m].id != pool.instances[at].id);
        }
    }
}

/// The nonces of a submitted instance are reserved for it, and locked. All
/// other nonces stay as they were.
pub proof fn law_submit_reserves_nonces(
    pool: PoolView,
    id: Seq<char>,
    order: XtOrderKey,
    txs: Seq<TxView>,
    sender: Seq<u8>,
    nonce: u64,
)
    requires
        wf_pool(pool),
        !live(pool.instances, id),
    ensures
        submit_result(pool, id, order, txs) matches Ok(p) ==> if exists|i: int|
            0 <= i < txs.len() && (#[trigger] txs[i]).sender == sender && txs[i].nonce == nonce {
            slot(p.instances, sender, nonce) matches Some(s) && s.instance_id == id && s.status
                == XtEntryStatus::Locked && active(p.instances, sender)
        } else {
            slot(p.instances, sender, nonce) == slot(pool.instances, sender, nonce)
        },
{
    if submit_result(pool, id, order, txs) is Ok {
        lemma_submitted_new(pool, id, order, txs);
        let p = submit_result(pool, id, order, txs)->Ok_0;
        let at = position(p.instances, id);
        let x = p.instances[at];
        lemma_last_entry(x.entries, sender, nonce);
        if exists|i: int|
            0 <= i < txs.len() && (#[trigger] txs[i]).sender == sender && txs[i].nonce == nonce {
            let i = choose|i: int|
                0 <= i < txs.len() && (#[trigger] txs[i]).sender == sender && txs[i].nonce == nonce;
            assert(reserves(x.entries[i], sender, nonce));
            lemma_slot_of_instance(p.instances, at, sender, nonce);
        } else {
            assert(last_entry(x.entries, sender, nonce) is None) by {
                if last_entry(x.entries, sender, nonce) is Some {
                    let j = choose|j: int|
                        0 <= j < x.entries.len() && reserves(#[trigger] x.entries[j], sender, nonce);
                    assert(txs[j].sender == sender);
                }
            }
            lemma_slot_without(p.instances, at, sender, nonce);
            assert(p.instances.remove(at) =~= pool.instances);
        }
    }
}

/// An instance without the nonce does not matter for its slot.
proof fn lemma_slot_without(instances: Seq<InstanceView>, at: int, sender: Seq<u8>, nonce: u64)
    requires
        0 <= at < instances.len(),
        last_entry(instances[at].entries, sender, nonce) is None,
    ensures
        slot(instances, sender, nonce) == slot(instances.remove(at), sender, nonce),
    decreases instances.len(),
{
    let n = instances.len() - 1;
    if at == n {
        assert(instances.remove(at) =~= instances.drop_last());
    } else {
        let rest = instances.remove(at);
        assert(rest.last() == instances.last());
        assert(rest.drop_last() =~= instances.drop_last().remove(at));
        lemma_slot_without(instances.drop_last(), at, sender, nonce);
    }
}

/// Aborting an instance frees the nonces that it reserved. All other nonces
/// stay as they were.
pub proof fn law_abort_frees_nonces(pool: PoolView, id: Seq<char>, sender: Seq<u8>, nonce: u64)
    requires
        wf_pool(pool),
    ensures
        slot(aborted(pool, id).instances, sender, nonce) == (match slot(
            pool.instances,
            sender,
            nonce,
        ) {
            Some(s) => if s.instance_id == id {
                None
            } else {
                Some(s)
            },
            None => None,
        }),
{
    let old = pool.instances;
    let new = aborted(pool, id).instances;
    lemma_aborted_wf(pool, id);
    lemma_slot(old, sender, nonce);
    lemma_slot(new, sender, nonce);
    if slot(old, sender, nonce) is Some {
        lemma_slot_is_live(old, sender, nonce);
    }
    if live(old, id) {
        let at = position(old, id);
        lemma_position(old, id);
        lemma_last_entry(old[at].entries, sender, nonce);
        assert(wf_instance(old[at]));
        if last_entry(old[at].entries, sender, nonce) is None {
            lemma_slot_without(old, at, sender, nonce);
            if slot(old, sender, nonce) is Some {
                let s = slot(old, sender, nonce)->0;
                let i = choose|i: int|
                    0 <= i < old.len() && (last_entry(
                        (#[trigger] old[i]).entries,
                        sender,
                        nonce,
                    ) matches Some(e) && s == slot_of(e));
                lemma_last_entry(old[i].entries, sender, nonce);
                assert(wf_instance(old[i]));
                assert(old[i].id != id);
            }
        } else {
            lemma_slot_of_instance(old, at, sender, nonce);
            if slot(new, sender, nonce) is Some {
                let s = slot(new, sender, nonce)->0;
                let k = choose|k: int|
                    0 <= k < new.len() && (last_entry(
                        (#[trigger] new[k]).entries,
                        sender,
                        nonce,
                    ) matches Some(e) && s == slot_of(e));
                let m = if k < at { k } else { k + 1 };
                assert(new[k] == old[m]);
                lemma_last_entry(old[m].entries, sender, nonce);
                assert(disjoint(old[at], old[m]));
                assert(false);
            }
        }
    }
}

/// The last entry that reserves a nonce in two lists, one after the other.
proof fn lemma_last_entry_of_sum(
    a: Seq<ReservationView>,
    b: Seq<ReservationView>,
    sender: Seq<u8>,
    nonce: u64,
)
    ensures
        last_entry(a + b, sender, nonce) == (match last_entry(b, sender, nonce) {
            Some(e) => Some(e),
            None => last_entry(a, sender, nonce),
        }),
    decreases b.len(),
{
    if b.len() == 0 {
        assert(a + b =~= a);
    } else {
        assert((a + b).drop_last() =~= a + b.drop_last());
        assert((a + b).last() == b.last());
        lemma_last_entry_of_sum(a, b.drop_last(), sender, nonce);
    }
}

proof fn lemma_released_last_entry(entries: Seq<ReservationView>, sender: Seq<u8>, nonce: u64)
    ensures
        last_entry(
            entries.map_values(|e: ReservationView| released_entry(e)),
            sender,
            nonce,
        ) == (match last_entry(entries, sender, nonce) {
            Some(e) => Some(released_entry(e)),
            None => None,
        }),
    decreases entries.len(),
{
    if entries.len() > 0 {
        let f = |e: ReservationView| released_entry(e);
        let mapped = entries.map_values(f);
        assert(mapped.drop_last() =~= entries.drop_last().map_values(f));
        lemma_released_last_entry(entries.drop_last(), sender, nonce);
    }
}

/// A release unlocks the nonces of the instance, which stay reserved, and
/// reserves those of its `putInbox` transactions. All other nonces stay as they
/// were.
pub proof fn law_release_unlocks_nonces(
    pool: PoolView,
    id: Seq<char>,
    txs: Seq<TxView>,
    sender: Seq<u8>,
    nonce: u64,
)
    requires
        wf_pool(pool),
    ensures
        release_result(pool, id, txs) matches Ok(p) ==> match slot(
            pool.instances,
            sender,
            nonce,
        ) {
            Some(s) => slot(p.instances, sender, nonce) == Some(
                if s.instance_id == id && s.status == XtEntryStatus::Locked {
                    SlotView { status: XtEntryStatus::Released, ..s }
                } else {
                    s
                },
            ),
            None => if exists|i: int|
                0 <= i < txs.len() && (#[trigger] txs[i]).sender == sender && txs[i].nonce
                    == nonce {
                slot(p.instances, sender, nonce) matches Some(s) && s.instance_id == id && s.status
                    == XtEntryStatus::Released
            } else {
                slot(p.instances, sender, nonce) is None
            },
        },
{
    if release_result(pool, id, txs) is Ok {
        let p = release_result(pool, id, txs)->Ok_0;
        let old = pool.instances;
        let new = p.instances;
        let at = position(old, id);
        lemma_position(old, id);
        lemma_released_wf(pool, id, txs);
        let x = old[at];
        assert(wf_instance(x));
        let puts = choose|puts: int| laid_out(x, puts);
        let rs = reservations(
            id,
            x.order,
            XtReservationPhase::PutInbox,
            XtEntryStatus::Released,
            txs,
        );
        let y = released_instance(x, rs);
        assert(new[at] == y);
        lemma_released_layout(x, rs, puts);
        let had = of_phase(x.entries, XtReservationPhase::PutInbox);
        let front = if had.len() == 0 { rs } else { Seq::<ReservationView>::empty() };
        let listed = front + x.entries;
        assert(had.len() > 0 ==> listed =~= x.entries);
        assert(y.entries == listed.map_values(|e: ReservationView| released_entry(e)));
        lemma_last_entry_of_sum(front, x.entries, sender, nonce);
        lemma_released_last_entry(listed, sender, nonce);
        lemma_last_entry(x.entries, sender, nonce);
        lemma_last_entry(front, sender, nonce);
        lemma_slot(old, sender, nonce);
        assert(new.remove(at) =~= old.remove(at));
        if last_entry(x.entries, sender, nonce) is Some {
            lemma_slot_of_instance(old, at, sender, nonce);
            lemma_slot_of_instance(new, at, sender, nonce);
            let e = last_entry(x.entries, sender, nonce)->0;
            let j = choose|j: int| 0 <= j < x.entries.len() && #[trigger] x.entries[j] == e;
            assert(e.instance_id == id);
            assert(e.status == XtEntryStatus::Locked ==> e.phase == XtReservationPhase::Xt);
        } else if last_entry(front, sender, nonce) is Some {
            lemma_slot_of_instance(new, at, sender, nonce);
            let e = last_entry(front, sender, nonce)->0;
            let j = choose|j: int|
                0 <= j < front.len() && #[trigger] front[j] == e && reserves(e, sender, nonce);
            assert(txs[j].sender == sender && txs[j].nonce == nonce);
            lemma_first_conflict(old, id, rs);
            assert(!conflicts(old, id, rs[j]));
            if slot(old, sender, nonce) is Some {
                let i = choose|i: int|
                    0 <= i < old.len() && (last_entry(
                        (#[trigger] old[i]).entries,
                        sender,
                        nonce,
                    ) matches Some(f) && slot(old, sender, nonce)->0 == slot_of(f));
                lemma_last_entry(old[i].entries, sender, nonce);
                assert(wf_instance(old[i]));
                assert(i == at);
            }
        } else {
            lemma_slot_without(old, at, sender, nonce);
            lemma_slot_without(new, at, sender, nonce);
            if slot(old, sender, nonce) is Some {
                let i = choose|i: int|
                    0 <= i < old.len() && (last_entry(
                        (#[trigger] old[i]).entries,
                        sender,
                        nonce,
                    ) matches Some(f) && slot(old, sender, nonce)->0 == slot_of(f));
                lemma_last_entry(old[i].entries, sender, nonce);
                assert(wf_instance(old[i]));
                assert(old[i].id != id);
            } else if exists|i: int|
                0 <= i < txs.len() && (#[trigger] txs[i]).sender == sender && txs[i].nonce
                    == nonce {
                let i = choose|i: int|
                    0 <= i < txs.len() && (#[trigger] txs[i]).sender == sender && txs[i].nonce
                        == nonce;
                if had.len() == 0 {
                    assert(reserves(front[i], sender, nonce));
                } else {
                    assert(same_reservation(had[i], rs[i]));
                    assert(had[i] == x.entries[i]);
                    assert(reserves(x.entries[i], sender, nonce));
                }
                assert(false);
            }
        }
    }
}

/// Once its transaction is included, a nonce stays reserved for the same
/// transaction, but no longer blocks.
pub proof fn law_included_nonce_stays_reserved(
    pool: PoolView,
    ids: Seq<Seq<char>>,
    sender: Seq<u8>,
    nonce: u64,
)
    requires
        wf_pool(pool),
    ensures
        slot(included(pool, ids).instances, sender, nonce) == (match slot(
            pool.instances,
            sender,
            nonce,
        ) {
            Some(s) => if ids.contains(s.instance_id) && s.status == XtEntryStatus::Released {
                Some(SlotView { status: XtEntryStatus::Included, ..s })
            } else {
                Some(s)
            },
            None => None,
        }),
{
    let old = pool.instances;
    let new = included(pool, ids).instances;
    lemma_included_slots(old, new, ids, sender, nonce);
}

proof fn lemma_included_slots(
    old: Seq<InstanceView>,
    new: Seq<InstanceView>,
    ids: Seq<Seq<char>>,
    sender: Seq<u8>,
    nonce: u64,
)
    requires
        old.len() == new.len(),
        forall|i: int| 0 <= i < old.len() ==> wf_instance(#[trigger] old[i]),
        forall|i: int|
            0 <= i < old.len() ==> #[trigger] new[i] == (if ids.contains(old[i].id) {
                included_instance(old[i])
            } else {
                old[i]
            }),
    ensures
        slot(new, sender, nonce) == (match slot(old, sender, nonce) {
            Some(s) => if ids.contains(s.instance_id) && s.status == XtEntryStatus::Released {
                Some(SlotView { status: XtEntryStatus::Included, ..s })
            } else {
                Some(s)
            },
            None => None,
        }),
    decreases old.len(),
{
    if old.len() > 0 {
        let n = old.len() - 1;
        assert(new[n] == new.last());
        let x = old[n];
        assert(wf_instance(x));
        lemma_last_entry(x.entries, sender, nonce);
        lemma_included_last_entry(x.entries, sender, nonce);
        assert forall|i: int| 0 <= i < n implies #[trigger] new.drop_last()[i] == (if ids.contains(
            old.drop_last()[i].id,
        ) {
            included_instance(old.drop_last()[i])
        } else {
            old.drop_last()[i]
        }) by {
            assert(new[i] == new.drop_last()[i]);
        }
        lemma_included_slots(old.drop_last(), new.drop_last(), ids, sender, nonce);
    }
}

proof fn lemma_included_last_entry(entries: Seq<ReservationView>, sender: Seq<u8>, nonce: u64)
    ensures
        last_entry(
            entries.map_values(|e: ReservationView| included_entry(e)),
            sender,
            nonce,
        ) == (match last_entry(entries, sender, nonce) {
            Some(e) => Some(included_entry(e)),
            None => None,
        }),
    decreases entries.len(),
{
    if entries.len() > 0 {
        let f = |e: ReservationView| included_entry(e);
        let mapped = entries.map_values(f);
        assert(mapped.drop_last() =~= entries.drop_last().map_values(f));
        lemma_included_last_entry(entries.drop_last(), sender, nonce);
    }
}

/// A new instance that needs a reserved nonce is refused.
pub proof fn law_reserved_nonce_is_refused(
    pool: PoolView,
    id: Seq<char>,
    order: XtOrderKey,
    txs: Seq<TxView>,
    i: int,
)
    requires
        wf_pool(pool),
        !live(pool.instances, id),
        0 <= i < txs.len(),
        slot(pool.instances, txs[i].sender, txs[i].nonce) is Some,
    ensures
        submit_result(pool, id, order, txs) matches Err(PoolErrorView::NonceConflict {
            instance_id,
            ..
        }) && instance_id == id,
{
    let rs = reservations(id, order, XtReservationPhase::Xt, XtEntryStatus::Locked, txs);
    lemma_first_conflict(pool.instances, id, rs);
    lemma_slot_is_live(pool.instances, txs[i].sender, txs[i].nonce);
    assert(conflicts(pool.instances, id, rs[i]));
}

/// The projected nonce is the first one from `start` on that is not reserved,
/// or the largest.
pub proof fn law_projected_nonce_is_free(
    instances: Seq<InstanceView>,
    sender: Seq<u8>,
    start: u64,
)
    ensures
        start <= projected(instances, sender, start),
        forall|n: u64|
            start <= n < projected(instances, sender, start) ==> #[trigger] slot(
                instances,
                sender,
                n,
            ) is Some,
        projected(instances, sender, start) == u64::MAX || slot(
            instances,
            sender,
            projected(instances, sender, start),
        ) is None,
    decreases u64::MAX - start,
{
    if slot(instances, sender, start) is Some && start < u64::MAX {
        law_projected_nonce_is_free(instances, sender, (start + 1) as u64);
    }
}

/// The pending nonce never moves back, and passes only nonces that the mempool's
/// transactions use or that are reserved. Where it stays, it is not reserved (or
/// is the largest), and the mempool has no transaction that follows it.
pub proof fn law_pending_nonce_settles(
    instances: Seq<InstanceView>,
    sender: Seq<u8>,
    next_nonce: u64,
    highest: Option<u64>,
)
    ensures
        after_mempool(next_nonce, highest) matches Ok(n) ==> {
            let moved = projected(instances, sender, n);
            &&& next_nonce <= moved
            &&& forall|n: u64|
                next_nonce <= n < moved ==> (highest matches Some(h) && n <= h) || #[trigger] slot(
                    instances,
                    sender,
                    n,
                ) is Some
            &&& moved == next_nonce ==> (next_nonce == u64::MAX || slot(
                instances,
                sender,
                next_nonce,
            ) is None) && (highest matches Some(h) ==> h < next_nonce)
        },
        after_mempool(next_nonce, highest) is Err <==> highest == Some(u64::MAX),
{
    if after_mempool(next_nonce, highest) is Ok {
        law_projected_nonce_is_free(instances, sender, after_mempool(next_nonce, highest)->Ok_0);
    }
}

/// The last of the mempool's nonces that follow each other from `from` on.
pub open spec fn highest_consecutive(mempool: Set<u64>, from: u64) -> Option<u64>
    decreases u64::MAX - from,
{
    if !mempool.contains(from) {
        None
    } else if from == u64::MAX {
        Some(from)
    } else {
        match highest_consecutive(mempool, (from + 1) as u64) {
            Some(h) => Some(h),
            None => Some(from),
        }
    }
}

/// The mempool uses every nonce up to its highest consecutive one, and not the
/// next.
proof fn lemma_highest_consecutive(mempool: Set<u64>, from: u64)
    ensures
        match highest_consecutive(mempool, from) {
            Some(h) => from <= h && (h < u64::MAX ==> !mempool.contains((h + 1) as u64)) && forall|
                n: u64,
            |
                from <= n <= h ==> #[trigger] mempool.contains(n),
            None => !mempool.contains(from),
        },
    decreases u64::MAX - from,
{
    if mempool.contains(from) && from < u64::MAX {
        lemma_highest_consecutive(mempool, (from + 1) as u64);
    }
}

/// A mempool transaction of the sender uses the nonce, or it is reserved.
pub open spec fn used(
    instances: Seq<InstanceView>,
    sender: Seq<u8>,
    mempool: Set<u64>,
    nonce: u64,
) -> bool {
    mempool.contains(nonce) || slot(instances, sender, nonce) is Some
}

/// Every nonce from `count` to the one before `cursor` is used.
pub open spec fn used_up_to(
    instances: Seq<InstanceView>,
    sender: Seq<u8>,
    mempool: Set<u64>,
    count: u64,
    cursor: u64,
) -> bool {
    &&& count <= cursor
    &&& forall|n: u64| count <= n < cursor ==> #[trigger] used(instances, sender, mempool, n)
}

/// Where every nonce from the on-chain count to the cursor is used, and the
/// mempool answers with its highest consecutive nonce, a turn keeps that. Where
/// it settles, the pending nonce is the least one at or above the count that is
/// neither in the mempool nor reserved; only the largest nonce may be reserved.
/// A turn fails only if every nonce from the count on is used.
pub proof fn law_pending_nonce_turn(
    instances: Seq<InstanceView>,
    sender: Seq<u8>,
    mempool: Set<u64>,
    count: u64,
    cursor: u64,
)
    requires
        used_up_to(instances, sender, mempool, count, cursor),
    ensures
        match after_mempool(cursor, highest_consecutive(mempool, cursor)) {
            Ok(n) => {
                let moved = projected(instances, sender, n);
                &&& cursor <= moved
                &&& used_up_to(instances, sender, mempool, count, moved)
                &&& moved == cursor ==> !mempool.contains(cursor) && (cursor == u64::MAX || !used(
                    instances,
                    sender,
                    mempool,
                    cursor,
                ))
            },
            Err(_) => used_up_to(instances, sender, mempool, count, u64::MAX) && mempool.contains(
                u64::MAX,
            ),
        },
{
    lemma_highest_consecutive(mempool, cursor);
    let highest = highest_consecutive(mempool, cursor);
    law_pending_nonce_settles(instances, sender, cursor, highest);
    match after_mempool(cursor, highest) {
        Ok(n) => {
            let moved = projected(instances, sender, n);
            assert forall|k: u64| count <= k < moved implies #[trigger] used(
                instances,
                sender,
                mempool,
                k,
            ) by {
                if k >= cursor && slot(instances, sender, k) is None {
                    assert(mempool.contains(k));
                }
            }
        },
        Err(_) => {
            assert forall|k: u64| count <= k < u64::MAX implies #[trigger] used(
                instances,
                sender,
                mempool,
                k,
            ) by {
                if k >= cursor {
                    assert(mempool.contains(k));
                }
            }
        },
    }
}

/// The pending nonce that turns starting at `cursor` settle on, where the
/// mempool answers each with its highest consecutive nonce.
pub open spec fn settled(
    instances: Seq<InstanceView>,
    sender: Seq<u8>,
    mempool: Set<u64>,
    cursor: u64,
) -> Result<u64, PendingNonceError>
    decreases u64::MAX - cursor,
{
    match after_mempool(cursor, highest_consecutive(mempool, cursor)) {
        Ok(n) => {
            let moved = projected(instances, sender, n);
            if moved > cursor {
                settled(instances, sender, mempool, moved)
            } else {
                Ok(moved)
            }
        },
        Err(error) => Err(error),
    }
}

/// Turns that start at the on-chain count settle on the least nonce at or above
/// it that is neither in the mempool nor reserved, or on the largest nonce if
/// the mempool does not hold that. They fail if and only if every nonce from
/// the count on is used, the largest one by the mempool.
pub proof fn law_settled_nonce_is_the_least_unused(
    instances: Seq<InstanceView>,
    sender: Seq<u8>,
    mempool: Set<u64>,
    count: u64,
)
    ensures
        match settled(instances, sender, mempool, count) {
            Ok(nonce) => used_up_to(instances, sender, mempool, count, nonce)
                && !mempool.contains(nonce) && (nonce == u64::MAX || !used(
                instances,
                sender,
                mempool,
                nonce,
            )),
            Err(_) => used_up_to(instances, sender, mempool, count, u64::MAX) && mempool.contains(
                u64::MAX,
            ),
        },
{
    lemma_settled(instances, sender, mempool, count, count);
}

proof fn lemma_settled(
    instances: Seq<InstanceView>,
    sender: Seq<u8>,
    mempool: Set<u64>,
    count: u64,
    cursor: u64,
)
    requires
        used_up_to(instances, sender, mempool, count, cursor),
    ensures
        match settled(instances, sender, mempool, cursor) {
            Ok(nonce) => used_up_to(instances, sender, mempool, count, nonce)
                && !mempool.contains(nonce) && (nonce == u64::MAX || !used(
                instances,
                sender,
                mempool,
                nonce,
            )),
            Err(_) => used_up_to(instances, sender, mempool, count, u64::MAX) && mempool.contains(
                u64::MAX,
            ),
        },
    decreases u64::MAX - cursor,
{
    law_pending_nonce_turn(instances, sender, mempool, count, cursor);
    match after_mempool(cursor, highest_consecutive(mempool, cursor)) {
        Ok(n) => {
            let moved = projected(instances, sender, n);
            if moved > cursor {
                lemma_settled(instances, sender, mempool, count, moved);
            }
        },
        Err(_) => {},
    }
}

/// What is read of a sent transaction: it carries value exactly if its value is
/// not zero, whether or not it creates a contract; it creates one exactly if it
/// has no callee, whatever its value; sender and nonce are its signer and nonce.
/// Without a signer it is refused.
pub proof fn law_sent_transaction_is_classified(fields: TxFields, signer: Option<Seq<u8>>)
    ensures
        match signer {
            Some(sender) => incoming(fields, signer) matches Ok(tx) && tx.sender == sender
                && tx.nonce == fields.nonce && (tx.has_value <==> fields.value.value() > 0) && (
            tx.is_create <==> fields.to is None),
            None => incoming(fields, signer) == Err::<IncomingView, Seq<char>>(
                "signature recovery failed"@,
            ),
        },
{
}

/// Two sent transactions that differ in their callee only are classified alike
/// but for `is_create`; two that differ in their value only, alike but for
/// `has_value`.
pub proof fn law_callee_and_value_are_told_apart(
    fields: TxFields,
    to: Option<Address>,
    value: U256,
    sender: Seq<u8>,
)
    ensures
        incoming(fields, Some(sender)) matches Ok(a) && incoming(
            TxFields { to, ..fields },
            Some(sender),
        ) matches Ok(b) && incoming(TxFields { value, ..fields }, Some(sender)) matches Ok(c) && {
            &&& a.has_value == b.has_value && a.nonce == b.nonce && a.sender == b.sender
            &&& a.is_create == c.is_create && a.nonce == c.nonce && a.sender == c.sender
            &&& b.is_create <==> to is None
            &&& c.has_value <==> value.value() > 0
        },
{
}

/// A transaction is refused whenever its nonce is reserved, and whenever the
/// sidecar was asked and did not allow it, also because it could not be reached.
/// Otherwise it passes.
pub proof fn law_refusals(
    pool: PoolView,
    tx: IncomingView,
    answer: Option<Result<CheckTxResponse, SidecarError>>,
)
    ensures
        send_refusal(pool, tx, answer) is None <==> slot(pool.instances, tx.sender, tx.nonce)
            is None && match answer {
            Some(Ok(response)) => response.allowed,
            Some(Err(error)) => false,
            None => true,
        },
{
}

} // verus!
