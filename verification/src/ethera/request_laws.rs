//! What requests and events do to the instances of the pool, entry by entry.

use vstd::prelude::*;

use super::execution::{run, run_all, ExecutableView};
use super::execution_laws::{
    consecutive, count_of, law_collected_list_is_complete, law_released_instance_executes,
    law_unrelated_instances_leave_a_nonce,
};
use super::laws::{lemma_of_phase, lemma_released_layout, lemma_submitted_new};
use super::lemmas::{
    lemma_first_conflict, lemma_included_wf, lemma_position, lemma_position_is, lemma_released_wf,
    lemma_slot_is_live, lemma_submitted_wf,
};
use super::model::{
    aborted, conflicts, executed, first_conflict, gate_restored, included, instance, is_at,
    laid_out, live, of_phase, position, release_result, released_count, released_instance,
    reservations, same_list, same_reservation, slot, submit_result, wf_instance, wf_pool,
    PoolErrorView, PoolView, ReservationView, TxView, XtEntryStatus, XtReservationPhase,
};
use super::pool::{release_outcome, submit_outcome};
use super::reservation::{decoded_txs, raw_views};
use super::types::{ReleaseXtRequest, SubmitXtRequest, XtOrderKey};
use crate::outside::{decoded_2718, recovered_signer};

verus! {

/// The entry holds the transaction `tx` of instance `id`.
pub open spec fn holds_tx(e: ReservationView, tx: TxView, id: Seq<char>) -> bool {
    &&& e.raw == tx.raw
    &&& e.sender == tx.sender
    &&& e.nonce == tx.nonce
    &&& e.tx_hash == tx.tx_hash
    &&& e.instance_id == id
}

/// The two entries differ in status at most.
pub open spec fn same_but_status(a: ReservationView, b: ReservationView) -> bool {
    &&& a.instance_id == b.instance_id
    &&& a.order == b.order
    &&& a.phase == b.phase
    &&& a.tx_index == b.tx_index
    &&& a.sender == b.sender
    &&& a.nonce == b.nonce
    &&& a.tx_hash == b.tx_hash
    &&& a.raw == b.raw
}

/// The pools hold the same instances, but for `id`.
pub open spec fn same_instances_but(a: PoolView, b: PoolView, id: Seq<char>) -> bool {
    forall|other: Seq<char>|
        other != id ==> (#[trigger] live(a.instances, other) <==> live(b.instances, other)) && (
        live(a.instances, other) ==> instance(a.instances, other) == instance(b.instances, other))
}

/// A pool knows an instance exactly if one of its instances has the ID, and
/// that one is found under it.
pub proof fn law_instances_are_found_by_id(pool: PoolView, id: Seq<char>)
    requires
        wf_pool(pool),
    ensures
        live(pool.instances, id) <==> exists|i: int|
            0 <= i < pool.instances.len() && (#[trigger] pool.instances[i]).id == id,
        forall|i: int|
            0 <= i < pool.instances.len() && (#[trigger] pool.instances[i]).id == id ==> instance(
                pool.instances,
                id,
            ) == pool.instances[i],
{
    if live(pool.instances, id) {
        lemma_position(pool.instances, id);
        let k = position(pool.instances, id);
        assert(pool.instances[k].id == id);
    }
    assert forall|i: int|
        0 <= i < pool.instances.len() && (#[trigger] pool.instances[i]).id == id implies instance(
        pool.instances,
        id,
    ) == pool.instances[i] && live(pool.instances, id) by {
        assert(is_at(pool.instances, id, i));
        lemma_position_is(pool.instances, id, i);
    }
}

/// The instance that a new submission makes: the transactions of the request,
/// in its order, all of them locked. The other instances stay as they were, and
/// the new one holds the pool gate closed beside those that did.
pub proof fn law_submit_keeps_the_request(
    pool: PoolView,
    id: Seq<char>,
    order: XtOrderKey,
    txs: Seq<TxView>,
)
    requires
        wf_pool(pool),
        !live(pool.instances, id),
    ensures
        submit_result(pool, id, order, txs) matches Ok(p) ==> {
            let x = instance(p.instances, id);
            &&& live(p.instances, id)
            &&& x.id == id
            &&& x.order == order
            &&& x.entries.len() == txs.len()
            &&& forall|i: int|
                0 <= i < txs.len() ==> holds_tx(#[trigger] x.entries[i], txs[i], id)
                    && x.entries[i].tx_index == i && x.entries[i].order == order
                    && x.entries[i].phase == XtReservationPhase::Xt && x.entries[i].status
                    == XtEntryStatus::Locked
            &&& same_instances_but(p, pool, id)
            &&& p.instances.len() == pool.instances.len() + 1
            &&& forall|g: Seq<char>| #[trigger]
                p.gate.contains(g) <==> g == id || pool.gate.contains(g)
        },
{
    if submit_result(pool, id, order, txs) is Ok {
        lemma_submitted_new(pool, id, order, txs);
        let p = submit_result(pool, id, order, txs)->Ok_0;
        let old = pool.instances;
        let new = p.instances;
        let at = position(new, id);
        assert forall|other: Seq<char>| other != id implies (#[trigger] live(new, other) <==> live(
            old,
            other,
        )) && (live(new, other) ==> instance(new, other) == instance(old, other)) by {
            if live(old, other) {
                lemma_position(old, other);
                let k = position(old, other);
                let m = if k < at { k } else { k + 1 };
                assert(new[m] == old[k]);
                assert(is_at(new, other, m));
                lemma_position_is(new, other, m);
            }
            if live(new, other) {
                lemma_position(new, other);
                let m = position(new, other);
                assert(m != at);
                let k = if m < at { m } else { m - 1 };
                assert(new[m] == old[k]);
                assert(is_at(old, other, k));
                lemma_position_is(old, other, k);
            }
        }
    }
}

/// A new instance is accepted exactly if none of its nonces is reserved.
/// Otherwise the first of its transactions with a reserved nonce is named.
pub proof fn law_submit_succeeds_on_free_nonces(
    pool: PoolView,
    id: Seq<char>,
    order: XtOrderKey,
    txs: Seq<TxView>,
)
    requires
        wf_pool(pool),
        !live(pool.instances, id),
    ensures
        submit_result(pool, id, order, txs) is Ok <==> forall|i: int|
            0 <= i < txs.len() ==> slot(
                pool.instances,
                (#[trigger] txs[i]).sender,
                txs[i].nonce,
            ) is None,
        submit_result(pool, id, order, txs) matches Err(e) ==> exists|i: int|
            0 <= i < txs.len() && slot(pool.instances, (#[trigger] txs[i]).sender, txs[i].nonce)
                is Some && e == (PoolErrorView::NonceConflict {
                instance_id: id,
                sender: txs[i].sender,
                nonce: txs[i].nonce,
            }) && forall|j: int|
                0 <= j < i ==> slot(pool.instances, (#[trigger] txs[j]).sender, txs[j].nonce)
                    is None,
{
    let rs = reservations(id, order, XtReservationPhase::Xt, XtEntryStatus::Locked, txs);
    lemma_first_conflict(pool.instances, id, rs);
    assert forall|i: int| 0 <= i < txs.len() implies (conflicts(pool.instances, id, rs[i]) <==> slot(
        pool.instances,
        (#[trigger] txs[i]).sender,
        txs[i].nonce,
    ) is Some) by {
        if slot(pool.instances, txs[i].sender, txs[i].nonce) is Some {
            lemma_slot_is_live(pool.instances, txs[i].sender, txs[i].nonce);
        }
    }
    match first_conflict(pool.instances, id, rs) {
        Some(r) => {
            let i = choose|i: int|
                0 <= i < rs.len() && #[trigger] rs[i] == r && conflicts(pool.instances, id, r)
                    && forall|j: int|
                    0 <= j < i ==> !conflicts(pool.instances, id, #[trigger] rs[j]);
            assert(slot(pool.instances, txs[i].sender, txs[i].nonce) is Some);
            assert forall|j: int| 0 <= j < i implies slot(
                pool.instances,
                (#[trigger] txs[j]).sender,
                txs[j].nonce,
            ) is None by {
                assert(!conflicts(pool.instances, id, rs[j]));
            }
        },
        None => {
            assert forall|i: int| 0 <= i < txs.len() implies slot(
                pool.instances,
                (#[trigger] txs[i]).sender,
                txs[i].nonce,
            ) is None by {
                assert(!conflicts(pool.instances, id, rs[i]));
            }
        },
    }
}

/// The transactions, in order, are those of the entries from `from` on.
pub open spec fn lists(
    entries: Seq<ReservationView>,
    from: int,
    to: int,
    txs: Seq<TxView>,
) -> bool {
    &&& to - from == txs.len()
    &&& forall|i: int|
        0 <= i < txs.len() ==> entries[from + i].tx_hash == (#[trigger] txs[i]).tx_hash
            && entries[from + i].sender == txs[i].sender && entries[from + i].nonce == txs[i].nonce
}

/// A submission under a live ID is accepted exactly if the order key and the XT
/// transactions, one by one, are those of the instance, and then changes
/// nothing. Otherwise the instance is said to differ.
pub proof fn law_live_id_accepts_only_its_own_transactions(
    pool: PoolView,
    id: Seq<char>,
    order: XtOrderKey,
    txs: Seq<TxView>,
    puts: int,
)
    requires
        wf_pool(pool),
        live(pool.instances, id),
        laid_out(instance(pool.instances, id), puts),
    ensures
        ({
            let x = instance(pool.instances, id);
            let same = lists(x.entries, puts, x.entries.len() as int, txs) && (txs.len() > 0
                ==> x.order == order);
            submit_result(pool, id, order, txs) == (if same {
                Ok::<PoolView, PoolErrorView>(pool)
            } else {
                Err(PoolErrorView::InstanceMismatch(id))
            })
        }),
{
    let x = instance(pool.instances, id);
    lemma_of_phase(x.entries, puts);
    let a = x.entries.skip(puts);
    let rs = reservations(id, order, XtReservationPhase::Xt, XtEntryStatus::Locked, txs);
    let same = lists(x.entries, puts, x.entries.len() as int, txs) && (txs.len() > 0 ==> x.order
        == order);
    if same {
        assert forall|i: int| 0 <= i < a.len() implies same_reservation(#[trigger] a[i], rs[i]) by {
            assert(a[i] == x.entries[puts + i]);
            assert(txs[i].tx_hash == rs[i].tx_hash);
        }
        assert(same_list(a, rs));
    } else if same_list(a, rs) {
        assert forall|i: int| 0 <= i < txs.len() implies x.entries[puts + i].tx_hash == (
        #[trigger] txs[i]).tx_hash && x.entries[puts + i].sender == txs[i].sender
            && x.entries[puts + i].nonce == txs[i].nonce by {
            assert(same_reservation(a[i], rs[i]));
        }
        if txs.len() > 0 {
            assert(same_reservation(a[0], rs[0]));
            assert(a[0] == x.entries[puts + 0]);
        }
        assert(false);
    }
}

/// The entry after a release: a locked one is released, any other stays.
pub open spec fn unlocked(before: ReservationView, after: ReservationView) -> bool {
    &&& same_but_status(before, after)
    &&& after.status == (if before.status == XtEntryStatus::Locked {
        XtEntryStatus::Released
    } else {
        before.status
    })
}

/// What a release does. The pool refuses an instance that it does not know. On
/// the first release with `putInbox` transactions, these come in front in their
/// order, and their nonces must not be reserved for other transactions. Later
/// ones must repeat them. All locked entries become released, and nothing else
/// changes.
pub proof fn law_release_effect(pool: PoolView, id: Seq<char>, txs: Seq<TxView>, puts: int)
    requires
        wf_pool(pool),
        live(pool.instances, id) ==> laid_out(instance(pool.instances, id), puts),
    ensures
        !live(pool.instances, id) ==> release_result(pool, id, txs) == Err::<
            PoolView,
            PoolErrorView,
        >(PoolErrorView::UnknownInstance(id)),
        live(pool.instances, id) && puts > 0 ==> (release_result(pool, id, txs) is Ok <==> lists(
            instance(pool.instances, id).entries,
            0,
            puts,
            txs,
        )) && (release_result(pool, id, txs) matches Err(e) ==> e
            == PoolErrorView::InstanceMismatch(id)),
        live(pool.instances, id) && puts == 0 ==> (release_result(pool, id, txs) is Ok <==> forall|
            i: int,
        |
            0 <= i < txs.len() ==> !taken_from(pool, id, #[trigger] txs[i])) && (release_result(
            pool,
            id,
            txs,
        ) matches Err(e) ==> exists|i: int|
            0 <= i < txs.len() && taken_from(pool, id, #[trigger] txs[i]) && e == (
            PoolErrorView::NonceConflict {
                instance_id: id,
                sender: txs[i].sender,
                nonce: txs[i].nonce,
            }) && forall|j: int| 0 <= j < i ==> !taken_from(pool, id, #[trigger] txs[j])),
        release_result(pool, id, txs) matches Ok(p) ==> {
            let x = instance(pool.instances, id);
            let y = instance(p.instances, id);
            let added = y.entries.len() - x.entries.len();
            &&& live(p.instances, id)
            &&& y.id == id
            &&& y.order == x.order
            &&& added == (if puts == 0 {
                txs.len() as int
            } else {
                0
            })
            &&& forall|i: int|
                0 <= i < added ==> holds_tx(#[trigger] y.entries[i], txs[i], id)
                    && y.entries[i].tx_index == i && y.entries[i].order == x.order
                    && y.entries[i].phase == XtReservationPhase::PutInbox && y.entries[i].status
                    == XtEntryStatus::Released
            &&& forall|i: int|
                0 <= i < x.entries.len() ==> unlocked(#[trigger] x.entries[i], y.entries[added + i])
            &&& same_instances_but(p, pool, id)
            &&& p.instances.len() == pool.instances.len()
            &&& p.gate == pool.gate
        },
{
    if live(pool.instances, id) {
        let old = pool.instances;
        let at = position(old, id);
        lemma_position(old, id);
        let x = old[at];
        assert(wf_instance(x));
        let rs = reservations(
            id,
            x.order,
            XtReservationPhase::PutInbox,
            XtEntryStatus::Released,
            txs,
        );
        lemma_of_phase(x.entries, puts);
        let had = of_phase(x.entries, XtReservationPhase::PutInbox);
        assert(had.len() == puts);
        lemma_first_conflict(old, id, rs);
        assert forall|i: int| 0 <= i < txs.len() implies conflicts(old, id, rs[i]) == taken_from(
            pool,
            id,
            #[trigger] txs[i],
        ) by {}
        if puts == 0 {
            match first_conflict(old, id, rs) {
                Some(r) => {
                    let i = choose|i: int|
                        0 <= i < rs.len() && #[trigger] rs[i] == r && conflicts(old, id, r)
                            && forall|j: int|
                            0 <= j < i ==> !conflicts(old, id, #[trigger] rs[j]);
                    assert(taken_from(pool, id, txs[i]));
                    assert forall|j: int| 0 <= j < i implies !taken_from(
                        pool,
                        id,
                        #[trigger] txs[j],
                    ) by {
                        assert(!conflicts(old, id, rs[j]));
                    }
                },
                None => {
                    assert forall|i: int| 0 <= i < txs.len() implies !taken_from(
                        pool,
                        id,
                        #[trigger] txs[i],
                    ) by {
                        assert(!conflicts(old, id, rs[i]));
                    }
                },
            }
        } else {
            if same_list(had, rs) {
                assert forall|i: int| 0 <= i < txs.len() implies x.entries[0 + i].tx_hash == (
                #[trigger] txs[i]).tx_hash && x.entries[0 + i].sender == txs[i].sender
                    && x.entries[0 + i].nonce == txs[i].nonce by {
                    assert(same_reservation(had[i], rs[i]));
                }
            }
            if lists(x.entries, 0, puts, txs) {
                assert forall|i: int| 0 <= i < had.len() implies same_reservation(
                    #[trigger] had[i],
                    rs[i],
                ) by {
                    assert(had[i] == x.entries[0 + i]);
                    assert(txs[i].tx_hash == rs[i].tx_hash);
                }
            }
        }
        if release_result(pool, id, txs) is Ok {
            let p = release_result(pool, id, txs)->Ok_0;
            lemma_released_wf(pool, id, txs);
            let new = p.instances;
            let y = released_instance(x, rs);
            assert(new[at] == y);
            assert(is_at(new, id, at));
            lemma_position_is(new, id, at);
            lemma_released_layout(x, rs, puts);
            let added: int = if puts == 0 { txs.len() as int } else { 0 };
            assert forall|i: int| 0 <= i < added implies holds_tx(
                #[trigger] y.entries[i],
                txs[i],
                id,
            ) && y.entries[i].tx_index == i && y.entries[i].order == x.order && y.entries[i].phase
                == XtReservationPhase::PutInbox && y.entries[i].status
                == XtEntryStatus::Released by {
                let r = rs[i];
            }
            assert forall|i: int| 0 <= i < x.entries.len() implies unlocked(
                #[trigger] x.entries[i],
                y.entries[added + i],
            ) by {
                let e = x.entries[i];
                if e.status == XtEntryStatus::Locked {
                    assert(e.phase == XtReservationPhase::Xt);
                }
            }
            lemma_others_kept(pool, p, id, at);
        }
    }
}

/// The nonce of the transaction is reserved, and not for this transaction of
/// instance `id`.
pub open spec fn taken_from(pool: PoolView, id: Seq<char>, tx: TxView) -> bool {
    slot(pool.instances, tx.sender, tx.nonce) matches Some(s) && (s.instance_id != id || s.tx_hash
        != tx.tx_hash)
}

/// Replacing one instance leaves the others.
proof fn lemma_others_kept(a: PoolView, b: PoolView, id: Seq<char>, at: int)
    requires
        wf_pool(a),
        wf_pool(b),
        a.instances.len() == b.instances.len(),
        0 <= at < a.instances.len(),
        a.instances[at].id == id,
        b.instances[at].id == id,
        forall|i: int|
            0 <= i < a.instances.len() && i != at ==> #[trigger] b.instances[i] == a.instances[i],
    ensures
        same_instances_but(b, a, id),
{
    assert forall|other: Seq<char>| other != id implies (#[trigger] live(b.instances, other)
        <==> live(a.instances, other)) && (live(b.instances, other) ==> instance(
        b.instances,
        other,
    ) == instance(a.instances, other)) by {
        if live(a.instances, other) {
            lemma_position(a.instances, other);
            let k = position(a.instances, other);
            assert(b.instances[k] == a.instances[k]);
            assert(is_at(b.instances, other, k));
            lemma_position_is(b.instances, other, k);
        }
        if live(b.instances, other) {
            lemma_position(b.instances, other);
            let k = position(b.instances, other);
            assert(b.instances[k] == a.instances[k]);
            assert(is_at(a.instances, other, k));
            lemma_position_is(a.instances, other, k);
        }
    }
}

/// An abort takes out the instance and its hold on the pool gate, and nothing
/// else.
pub proof fn law_abort_effect(pool: PoolView, id: Seq<char>)
    requires
        wf_pool(pool),
    ensures
        !live(aborted(pool, id).instances, id),
        same_instances_but(aborted(pool, id), pool, id),
        forall|g: Seq<char>| #[trigger]
            aborted(pool, id).gate.contains(g) <==> g != id && pool.gate.contains(g),
{
    super::laws::law_aborted_instance_is_not_restored(pool, id, Seq::empty());
    super::lemmas::lemma_aborted_wf(pool, id);
    let p = aborted(pool, id);
    let old = pool.instances;
    let new = p.instances;
    if live(old, id) {
        let at = position(old, id);
        lemma_position(old, id);
        assert forall|other: Seq<char>| other != id implies (#[trigger] live(new, other) <==> live(
            old,
            other,
        )) && (live(new, other) ==> instance(new, other) == instance(old, other)) by {
            if live(old, other) {
                lemma_position(old, other);
                let k = position(old, other);
                assert(k != at);
                let m = if k < at { k } else { k - 1 };
                assert(new[m] == old[k]);
                assert(is_at(new, other, m));
                lemma_position_is(new, other, m);
            }
            if live(new, other) {
                lemma_position(new, other);
                let m = position(new, other);
                let k = if m < at { m } else { m + 1 };
                assert(new[m] == old[k]);
                assert(is_at(old, other, k));
                lemma_position_is(old, other, k);
            }
        }
    }
}

/// Executing lifts one hold on the pool gate; restoring closes it for those of
/// `ids` that are live. Neither touches the instances.
pub proof fn law_gate_effect(pool: PoolView, id: Seq<char>, ids: Seq<Seq<char>>)
    ensures
        executed(pool, id).instances == pool.instances,
        gate_restored(pool, ids).instances == pool.instances,
        forall|g: Seq<char>| #[trigger]
            executed(pool, id).gate.contains(g) <==> g != id && pool.gate.contains(g),
        forall|g: Seq<char>| #[trigger]
            gate_restored(pool, ids).gate.contains(g) <==> pool.gate.contains(g) || (exists|
                i: int,
            |
                0 <= i < ids.len() && #[trigger] ids[i] == g) && live(pool.instances, g),
{
    assert forall|g: Seq<char>| #[trigger]
        gate_restored(pool, ids).gate.contains(g) <==> pool.gate.contains(g) || (exists|i: int|
            0 <= i < ids.len() && #[trigger] ids[i] == g) && live(pool.instances, g) by {
        if ids.contains(g) {
            let i = choose|i: int| 0 <= i < ids.len() && ids[i] == g;
            assert(ids[i] == g);
        }
    }
}

/// The entry after its instance was included: a released one is included, any
/// other stays.
pub open spec fn settled_entry(before: ReservationView, after: ReservationView) -> bool {
    &&& same_but_status(before, after)
    &&& after.status == (if before.status == XtEntryStatus::Released {
        XtEntryStatus::Included
    } else {
        before.status
    })
}

/// Inclusion settles the entries of the instances that it names, and nothing
/// else.
pub proof fn law_inclusion_effect(pool: PoolView, ids: Seq<Seq<char>>, id: Seq<char>)
    requires
        wf_pool(pool),
    ensures
        ({
            let p = included(pool, ids);
            &&& p.gate == pool.gate
            &&& p.instances.len() == pool.instances.len()
            &&& live(p.instances, id) <==> live(pool.instances, id)
            &&& live(pool.instances, id) ==> {
                let x = instance(pool.instances, id);
                let y = instance(p.instances, id);
                &&& y.id == x.id
                &&& y.order == x.order
                &&& y.entries.len() == x.entries.len()
                &&& forall|i: int|
                    0 <= i < x.entries.len() ==> if exists|k: int|
                        0 <= k < ids.len() && #[trigger] ids[k] == id {
                        settled_entry(#[trigger] x.entries[i], y.entries[i])
                    } else {
                        y.entries[i] == x.entries[i]
                    }
            }
        }),
{
    lemma_included_wf(pool, ids);
    let p = included(pool, ids);
    if live(pool.instances, id) {
        lemma_position(pool.instances, id);
        let k = position(pool.instances, id);
        assert(is_at(p.instances, id, k));
        lemma_position_is(p.instances, id, k);
        if ids.contains(id) {
            let m = choose|m: int| 0 <= m < ids.len() && ids[m] == id;
            assert(ids[m] == id);
        }
    }
    if live(p.instances, id) {
        lemma_position(p.instances, id);
        let k = position(p.instances, id);
        assert(is_at(pool.instances, id, k));
    }
}

/// How many of the transactions are of `sender`.
pub open spec fn count_txs(txs: Seq<TxView>, sender: Seq<u8>) -> nat
    decreases txs.len(),
{
    if txs.len() == 0 {
        0
    } else {
        count_txs(txs.drop_last(), sender) + if txs.last().sender == sender {
            1nat
        } else {
            0nat
        }
    }
}

/// The transactions use the nonces of their senders one after the other.
pub open spec fn consecutive_txs(txs: Seq<TxView>, nonces: Map<Seq<u8>, u64>) -> bool {
    forall|j: int|
        0 <= j < txs.len() ==> nonces.contains_key((#[trigger] txs[j]).sender) && txs[j].nonce
            == nonces[txs[j].sender] + count_txs(txs.take(j), txs[j].sender)
}

proof fn lemma_counts_agree(txs: Seq<TxView>, entries: Seq<ReservationView>, sender: Seq<u8>)
    requires
        txs.len() == entries.len(),
        forall|i: int| 0 <= i < txs.len() ==> (#[trigger] entries[i]).sender == txs[i].sender,
    ensures
        count_txs(txs, sender) == count_of(entries, sender),
    decreases txs.len(),
{
    if txs.len() > 0 {
        let n = txs.len() - 1;
        assert(entries[n].sender == txs[n].sender);
        assert forall|i: int| 0 <= i < n implies (#[trigger] entries.drop_last()[i]).sender
            == txs.drop_last()[i].sender by {
            assert(entries[i].sender == txs[i].sender);
        }
        lemma_counts_agree(txs.drop_last(), entries.drop_last(), sender);
    }
}

/// From request to execution: an instance that is submitted and released
/// executes as exactly the raw `putInbox` transactions and then the raw XT
/// transactions of the two requests, in the order of the requests, where these
/// use the nonces of their senders one after the other.
pub proof fn law_submitted_and_released_executes_as_requested(
    pool: PoolView,
    id: Seq<char>,
    order: XtOrderKey,
    txs: Seq<TxView>,
    put_inbox: Seq<TxView>,
    nonces: Map<Seq<u8>, u64>,
)
    requires
        wf_pool(pool),
        !live(pool.instances, id),
        submit_result(pool, id, order, txs) is Ok,
        consecutive_txs(put_inbox + txs, nonces),
    ensures
        ({
            let p = submit_result(pool, id, order, txs)->Ok_0;
            &&& put_inbox.len() == 0 ==> release_result(p, id, put_inbox) is Ok
            &&& release_result(p, id, put_inbox) matches Ok(q) ==> {
                &&& live(q.instances, id)
                &&& run(instance(q.instances, id).entries, nonces) matches Some(r)
                    && r.transactions.len() == put_inbox.len() + txs.len() && forall|i: int|
                    0 <= i < r.transactions.len() ==> #[trigger] r.transactions[i] == (if i
                        < put_inbox.len() {
                        put_inbox[i].raw
                    } else {
                        txs[i - put_inbox.len()].raw
                    })
            }
        }),
{
    let p = submit_result(pool, id, order, txs)->Ok_0;
    law_submit_keeps_the_request(pool, id, order, txs);
    lemma_submitted_wf(pool, id, order, txs);
    let x = instance(p.instances, id);
    assert(laid_out(x, 0)) by {
        assert forall|j: int| 0 <= j < x.entries.len() implies {
            let e = #[trigger] x.entries[j];
            e.instance_id == x.id && e.order == x.order && e.phase == XtReservationPhase::Xt
                && e.tx_index == j
        } by {
            assert(holds_tx(x.entries[j], txs[j], id));
        }
    }
    law_release_effect(p, id, put_inbox, 0);
    if release_result(p, id, put_inbox) is Ok {
        let q = release_result(p, id, put_inbox)->Ok_0;
        let y = instance(q.instances, id);
        let all = put_inbox + txs;
        let added = put_inbox.len() as int;
        assert(y.entries.len() == all.len());
        assert forall|i: int| 0 <= i < all.len() implies holds_tx(
            #[trigger] y.entries[i],
            all[i],
            id,
        ) && y.entries[i].status == XtEntryStatus::Released by {
            if i >= added {
                assert(unlocked(x.entries[i - added], y.entries[added + (i - added)]));
                assert(holds_tx(x.entries[i - added], txs[i - added], id));
            }
        }
        assert forall|j: int| 0 <= j < y.entries.len() implies {
            let e = #[trigger] y.entries[j];
            &&& e.status == XtEntryStatus::Released
            &&& nonces.contains_key(e.sender)
            &&& e.nonce == nonces[e.sender] + count_of(y.entries.take(j), e.sender)
        } by {
            assert(holds_tx(y.entries[j], all[j], id));
            assert forall|i: int| 0 <= i < j implies (#[trigger] y.entries.take(j)[i]).sender
                == all.take(j)[i].sender by {
                assert(holds_tx(y.entries[i], all[i], id));
            }
            lemma_counts_agree(all.take(j), y.entries.take(j), y.entries[j].sender);
        }
        assert(consecutive(y.entries, nonces));
        law_released_instance_executes(y.entries, nonces);
        let r = run(y.entries, nonces)->0;
        assert forall|i: int| 0 <= i < r.transactions.len() implies #[trigger] r.transactions[i]
            == (if i < added { put_inbox[i].raw } else { txs[i - added].raw }) by {
            assert(holds_tx(y.entries[i], all[i], id));
        }
    }
}

/// From requests to the collected list: an instance that is submitted and
/// released is listed with exactly the raw transactions of the two requests, in
/// their order, where these use the nonces of their senders one after the other
/// and no other instance has a transaction of those senders. Whether the other
/// instances can execute makes no difference.
pub proof fn law_unrelated_request_is_collected(
    pool: PoolView,
    id: Seq<char>,
    order: XtOrderKey,
    txs: Seq<TxView>,
    put_inbox: Seq<TxView>,
    nonces: Map<Seq<u8>, u64>,
)
    requires
        wf_pool(pool),
        !live(pool.instances, id),
        submit_result(pool, id, order, txs) is Ok,
        txs.len() > 0,
        consecutive_txs(put_inbox + txs, nonces),
        forall|i: int, j: int, k: int|
            0 <= i < pool.instances.len() && 0 <= j < pool.instances[i].entries.len() && 0 <= k
                < (put_inbox + txs).len() ==> (#[trigger] pool.instances[i].entries[j]).sender != (
            #[trigger] (put_inbox + txs)[k]).sender,
    ensures
        ({
            let p = submit_result(pool, id, order, txs)->Ok_0;
            release_result(p, id, put_inbox) matches Ok(q) ==> exists|k: int| #[trigger]
                collected_as(run_all(q.instances, nonces).1, k, id, put_inbox + txs)
        }),
{
    let p = submit_result(pool, id, order, txs)->Ok_0;
    law_submitted_and_released_executes_as_requested(pool, id, order, txs, put_inbox, nonces);
    law_submit_keeps_the_request(pool, id, order, txs);
    lemma_submitted_wf(pool, id, order, txs);
    if release_result(p, id, put_inbox) is Ok {
        let q = release_result(p, id, put_inbox)->Ok_0;
        let x = instance(p.instances, id);
        assert(wf_instance(x)) by {
            lemma_position(p.instances, id);
        }
        assert(laid_out(x, 0)) by {
            let puts = choose|puts: int| laid_out(x, puts);
            assert(puts == 0) by {
                if puts > 0 {
                    assert(x.entries[0].phase == XtReservationPhase::Xt);
                }
            }
        }
        law_release_effect(p, id, put_inbox, 0);
        lemma_released_wf(p, id, put_inbox);
        lemma_position(q.instances, id);
        let at = position(q.instances, id);
        let before = q.instances.take(at);
        let start = run_all(before, nonces).0;
        let all = put_inbox + txs;
        assert forall|j: int| 0 <= j < all.len() implies start.contains_key(
            (#[trigger] all[j]).sender,
        ) && all[j].nonce == start[all[j].sender] + count_txs(all.take(j), all[j].sender) by {
            let sender = all[j].sender;
            assert forall|h: int, m: int|
                0 <= h < before.len() && 0 <= m < before[h].entries.len() implies (
            #[trigger] before[h].entries[m]).sender != sender by {
                let other = q.instances[h].id;
                assert(before[h] == q.instances[h]);
                assert(q.instances[h].id != q.instances[at].id);
                assert(is_at(q.instances, other, h));
                lemma_position_is(q.instances, other, h);
                assert(live(p.instances, other) && live(pool.instances, other));
                lemma_position(pool.instances, other);
                let i = position(pool.instances, other);
                assert(pool.instances[i] == before[h]);
                assert(pool.instances[i].entries[m].sender != all[j].sender);
            }
            law_unrelated_instances_leave_a_nonce(before, nonces, sender);
        }
        assert(consecutive_txs(all, start));
        law_submitted_and_released_executes_as_requested(pool, id, order, txs, put_inbox, start);
        law_collected_list_is_complete(q.instances, nonces, at);
        let list = run_all(q.instances, nonces).1;
        let r = run(q.instances[at].entries, start)->0;
        let k = choose|k: int|
            0 <= k < list.len() && (#[trigger] list[k]).instance_id == q.instances[at].id
                && list[k].transactions == r.transactions;
        assert(collected_as(list, k, id, all));
    }
}

/// The executable instance at `k` is `id` with the raw transactions `txs`.
pub open spec fn collected_as(
    list: Seq<ExecutableView>,
    k: int,
    id: Seq<char>,
    txs: Seq<TxView>,
) -> bool {
    &&& 0 <= k < list.len()
    &&& list[k].instance_id == id
    &&& list[k].transactions.len() == txs.len()
    &&& forall|i: int|
        0 <= i < txs.len() ==> #[trigger] list[k].transactions[i] == txs[i].raw
}

/// Raw transactions decode one by one, in order: to the bytes themselves, the
/// recovered signer, and the nonce and the hash that the bytes encode. The
/// first that does not decode, or has no valid signature, is the one reported.
pub proof fn law_transactions_decode_in_order(raws: Seq<Seq<u8>>)
    ensures
        match decoded_txs(raws) {
            Ok(txs) => txs.len() == raws.len() && forall|i: int|
                0 <= i < raws.len() ==> decodes_to(raws[i], #[trigger] txs[i]),
            Err(text) => exists|i: int| #[trigger]
                fails_first(raws, i) && text == (match decoded_2718(raws[i]) {
                    Ok(fields) => "signature recovery failed"@,
                    Err(detail) => detail,
                }),
        },
    decreases raws.len(),
{
    if raws.len() > 0 {
        let n = raws.len() - 1;
        let before = raws.drop_last();
        law_transactions_decode_in_order(before);
        assert(raws[n] == raws.last());
        match decoded_txs(before) {
            Ok(txs) => {
                assert forall|i: int| 0 <= i < n implies decodable(#[trigger] raws[i]) by {
                    assert(decodes_to(before[i], txs[i]));
                }
                match decoded_txs(raws) {
                    Ok(all) => {
                        assert forall|i: int| 0 <= i < raws.len() implies decodes_to(
                            raws[i],
                            #[trigger] all[i],
                        ) by {
                            if i < n {
                                assert(all[i] == txs[i]);
                                assert(decodes_to(before[i], txs[i]));
                            }
                        }
                    },
                    Err(text) => {
                        assert(fails_first(raws, n));
                    },
                }
            },
            Err(text) => {
                let i = choose|i: int| #[trigger]
                    fails_first(before, i) && text == (match decoded_2718(before[i]) {
                        Ok(fields) => "signature recovery failed"@,
                        Err(detail) => detail,
                    });
                assert forall|j: int| 0 <= j < i implies decodable(#[trigger] raws[j]) by {
                    assert(before[j] == raws[j]);
                }
                assert(before[i] == raws[i]);
                assert(fails_first(raws, i));
            },
        }
    }
}

/// The bytes decode, and their signer can be recovered.
pub open spec fn decodable(raw: Seq<u8>) -> bool {
    decoded_2718(raw) is Ok && recovered_signer(raw) is Some
}

/// The bytes decode to `tx`.
pub open spec fn decodes_to(raw: Seq<u8>, tx: TxView) -> bool {
    &&& tx.raw == raw
    &&& recovered_signer(raw) == Some(tx.sender)
    &&& decoded_2718(raw) matches Ok(fields) && fields.nonce == tx.nonce && fields.tx_hash@
        == tx.tx_hash
}

/// The transaction at `i` is the first that is not decodable.
pub open spec fn fails_first(raws: Seq<Seq<u8>>, i: int) -> bool {
    &&& 0 <= i < raws.len()
    &&& !decodable(raws[i])
    &&& forall|j: int| 0 <= j < i ==> decodable(#[trigger] raws[j])
}

/// A request to submit does what its decoded transactions do. One with a
/// transaction that does not decode is refused as invalid.
pub proof fn law_submit_request(pool: PoolView, request: SubmitXtRequest)
    ensures
        match decoded_txs(raw_views(request.transactions@)) {
            Ok(txs) => submit_outcome(pool, request) == submit_result(
                pool,
                request.instance_id@,
                request.order,
                txs,
            ),
            Err(text) => submit_outcome(pool, request) == Err::<PoolView, PoolErrorView>(
                PoolErrorView::InvalidTransaction(text),
            ),
        },
{
}

/// A request to release an unknown instance is refused as such, whatever its
/// transactions. For a known one, it does what its decoded transactions do, and
/// is refused as invalid if one does not decode.
pub proof fn law_release_request(pool: PoolView, request: ReleaseXtRequest)
    ensures
        !live(pool.instances, request.instance_id@) ==> release_outcome(pool, request) == Err::<
            PoolView,
            PoolErrorView,
        >(PoolErrorView::UnknownInstance(request.instance_id@)),
        live(pool.instances, request.instance_id@) ==> match decoded_txs(
            raw_views(request.transactions@),
        ) {
            Ok(txs) => release_outcome(pool, request) == release_result(
                pool,
                request.instance_id@,
                txs,
            ),
            Err(text) => release_outcome(pool, request) == Err::<PoolView, PoolErrorView>(
                PoolErrorView::InvalidTransaction(text),
            ),
        },
{
}

/// The released entries of a phase are counted one by one.
pub proof fn law_released_entries_are_counted(
    entries: Seq<ReservationView>,
    e: ReservationView,
    phase: XtReservationPhase,
)
    ensures
        released_count(Seq::empty(), phase) == 0,
        released_count(entries.push(e), phase) == released_count(entries, phase) + (if e.phase
            == phase && e.status == XtEntryStatus::Released {
            1int
        } else {
            0
        }),
{
    reveal(Seq::filter);
    assert(entries.push(e).drop_last() =~= entries);
}

} // verus!
