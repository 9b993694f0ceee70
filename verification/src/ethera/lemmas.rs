//! Facts about the model that the proofs of the operations rest on.

use vstd::prelude::*;

use super::model::{
    aborted, conflicts, disjoint, executes_before, first_conflict, included, included_instance,
    instance, is_at, laid_out, last_entry, live, of_phase, position, rank, released, released_entry,
    released_instance, reservations, reserves, senders_in, slot, slot_of, submitted,
    uniformly_locked, wf_instance, wf_instances, wf_pool, InstanceView, PoolView, ReservationView,
    TxView, XtEntryStatus, XtReservationPhase,
};
use super::types::XtOrderKey;
use crate::primitives::{lemma_bytes_lt_transitive, lemma_text_lt_total, text_lt};

verus! {

/// The last entry that reserves a nonce is one of the entries, and none is
/// missed.
pub proof fn lemma_last_entry(entries: Seq<ReservationView>, sender: Seq<u8>, nonce: u64)
    ensures
        match last_entry(entries, sender, nonce) {
            Some(e) => exists|j: int|
                0 <= j < entries.len() && #[trigger] entries[j] == e && reserves(e, sender, nonce)
                    && forall|k: int|
                    j < k < entries.len() ==> !reserves(#[trigger] entries[k], sender, nonce),
            None => forall|j: int|
                0 <= j < entries.len() ==> !reserves(#[trigger] entries[j], sender, nonce),
        },
    decreases entries.len(),
{
    if entries.len() > 0 {
        let n = entries.len() - 1;
        if reserves(entries.last(), sender, nonce) {
            assert(entries[n] == entries.last());
        } else {
            let before = entries.drop_last();
            lemma_last_entry(before, sender, nonce);
            match last_entry(before, sender, nonce) {
                Some(e) => {
                    let j = choose|j: int|
                        0 <= j < before.len() && #[trigger] before[j] == e && reserves(
                            e,
                            sender,
                            nonce,
                        ) && forall|k: int|
                            j < k < before.len() ==> !reserves(#[trigger] before[k], sender, nonce);
                    assert(entries[j] == e);
                    assert forall|k: int| j < k < entries.len() implies !reserves(
                        #[trigger] entries[k],
                        sender,
                        nonce,
                    ) by {
                        if k < n {
                            assert(entries[k] == before[k]);
                        }
                    }
                },
                None => {
                    assert forall|j: int| 0 <= j < entries.len() implies !reserves(
                        #[trigger] entries[j],
                        sender,
                        nonce,
                    ) by {
                        if j < n {
                            assert(entries[j] == before[j]);
                        }
                    }
                },
            }
        }
    }
}

/// No two of the instances reserve the same nonce.
pub open spec fn pairwise_disjoint(instances: Seq<InstanceView>) -> bool {
    forall|i: int, j: int|
        0 <= i < instances.len() && 0 <= j < instances.len() && i != j ==> disjoint(
            #[trigger] instances[i],
            #[trigger] instances[j],
        )
}

/// A slot comes from the last matching entry of one of the instances.
pub proof fn lemma_slot(instances: Seq<InstanceView>, sender: Seq<u8>, nonce: u64)
    ensures
        match slot(instances, sender, nonce) {
            Some(s) => exists|i: int|
                0 <= i < instances.len() && (last_entry(
                    (#[trigger] instances[i]).entries,
                    sender,
                    nonce,
                ) matches Some(e) && s == slot_of(e)),
            None => forall|i: int|
                0 <= i < instances.len() ==> last_entry(
                    (#[trigger] instances[i]).entries,
                    sender,
                    nonce,
                ) is None,
        },
    decreases instances.len(),
{
    if instances.len() > 0 {
        let n = instances.len() - 1;
        let before = instances.drop_last();
        assert(instances[n] == instances.last());
        if last_entry(instances.last().entries, sender, nonce) is None {
            lemma_slot(before, sender, nonce);
            match slot(before, sender, nonce) {
                Some(s) => {
                    let i = choose|i: int|
                        0 <= i < before.len() && (last_entry(
                            (#[trigger] before[i]).entries,
                            sender,
                            nonce,
                        ) matches Some(e) && s == slot_of(e));
                    assert(instances[i] == before[i]);
                },
                None => {
                    assert forall|i: int| 0 <= i < instances.len() implies last_entry(
                        (#[trigger] instances[i]).entries,
                        sender,
                        nonce,
                    ) is None by {
                        if i < n {
                            assert(instances[i] == before[i]);
                        }
                    }
                },
            }
        }
    }
}

/// Where instances are disjoint, the one that lists a nonce gives its slot.
pub proof fn lemma_slot_of_instance(
    instances: Seq<InstanceView>,
    i: int,
    sender: Seq<u8>,
    nonce: u64,
)
    requires
        pairwise_disjoint(instances),
        0 <= i < instances.len(),
        last_entry(instances[i].entries, sender, nonce) is Some,
    ensures
        slot(instances, sender, nonce) == Some(
            slot_of(last_entry(instances[i].entries, sender, nonce)->0),
        ),
{
    lemma_slot(instances, sender, nonce);
    lemma_last_entry(instances[i].entries, sender, nonce);
    match slot(instances, sender, nonce) {
        Some(s) => {
            let k = choose|k: int|
                0 <= k < instances.len() && (last_entry(
                    (#[trigger] instances[k]).entries,
                    sender,
                    nonce,
                ) matches Some(e) && s == slot_of(e));
            if k != i {
                lemma_last_entry(instances[k].entries, sender, nonce);
                assert(disjoint(instances[i], instances[k]));
                assert(false);
            }
        },
        None => {},
    }
}

/// An entry of an instance fills its slot.
pub proof fn lemma_entry_has_slot(instances: Seq<InstanceView>, i: int, j: int)
    requires
        0 <= i < instances.len(),
        0 <= j < instances[i].entries.len(),
    ensures
        slot(instances, instances[i].entries[j].sender, instances[i].entries[j].nonce) is Some,
{
    let e = instances[i].entries[j];
    lemma_slot(instances, e.sender, e.nonce);
    lemma_last_entry(instances[i].entries, e.sender, e.nonce);
    assert(reserves(e, e.sender, e.nonce));
}

/// Every slot of `sender` in `a` stands in `b`.
pub open spec fn slots_carried(
    a: Seq<InstanceView>,
    b: Seq<InstanceView>,
    sender: Seq<u8>,
    nonce: u64,
) -> bool {
    forall|i: int|
        0 <= i < a.len() && last_entry((#[trigger] a[i]).entries, sender, nonce) is Some
            ==> exists|k: int|
            0 <= k < b.len() && (last_entry((#[trigger] b[k]).entries, sender, nonce) matches Some(
                e,
            ) && slot_of(e) == slot_of(last_entry(a[i].entries, sender, nonce)->0))
}

/// Two pools that carry the same slots agree on a slot.
pub proof fn lemma_slot_same(
    a: Seq<InstanceView>,
    b: Seq<InstanceView>,
    sender: Seq<u8>,
    nonce: u64,
)
    requires
        pairwise_disjoint(a),
        pairwise_disjoint(b),
        slots_carried(a, b, sender, nonce),
        slots_carried(b, a, sender, nonce),
    ensures
        slot(a, sender, nonce) == slot(b, sender, nonce),
{
    lemma_slot(a, sender, nonce);
    lemma_slot(b, sender, nonce);
    if slot(a, sender, nonce) is Some {
        let i = choose|i: int|
            0 <= i < a.len() && (last_entry((#[trigger] a[i]).entries, sender, nonce) matches Some(
                e,
            ) && slot(a, sender, nonce)->0 == slot_of(e));
        let k = choose|k: int|
            0 <= k < b.len() && (last_entry((#[trigger] b[k]).entries, sender, nonce) matches Some(
                e,
            ) && slot_of(e) == slot_of(last_entry(a[i].entries, sender, nonce)->0));
        lemma_slot_of_instance(b, k, sender, nonce);
    } else if slot(b, sender, nonce) is Some {
        let i = choose|i: int|
            0 <= i < b.len() && (last_entry((#[trigger] b[i]).entries, sender, nonce) matches Some(
                e,
            ) && slot(b, sender, nonce)->0 == slot_of(e));
        let k = choose|k: int|
            0 <= k < a.len() && (last_entry((#[trigger] a[k]).entries, sender, nonce) matches Some(
                e,
            ) && slot_of(e) == slot_of(last_entry(b[i].entries, sender, nonce)->0));
        assert(false);
    }
}

/// A live instance is where its position says.
pub proof fn lemma_position(instances: Seq<InstanceView>, id: Seq<char>)
    requires
        live(instances, id),
    ensures
        is_at(instances, id, position(instances, id)),
{
}

/// An ID stands at one position only.
pub proof fn lemma_position_is(instances: Seq<InstanceView>, id: Seq<char>, i: int)
    requires
        wf_instances(instances),
        is_at(instances, id, i),
    ensures
        live(instances, id),
        position(instances, id) == i,
{
    lemma_position(instances, id);
}

/// The order of execution is strict, transitive and total.
pub proof fn lemma_executes_before_order(a: InstanceView, b: InstanceView, c: InstanceView)
    ensures
        !executes_before(a, a),
        !(executes_before(a, b) && executes_before(b, a)),
        executes_before(a, b) && executes_before(b, c) ==> executes_before(a, c),
        a.id == b.id && a.order == b.order || executes_before(a, b) || executes_before(b, a),
{
    lemma_text_lt_total(a.id, a.id);
    lemma_text_lt_total(a.id, b.id);
    if text_lt(a.id, b.id) && text_lt(b.id, c.id) {
        lemma_bytes_lt_transitive(
            vstd::utf8::encode_utf8(a.id),
            vstd::utf8::encode_utf8(b.id),
            vstd::utf8::encode_utf8(c.id),
        );
    }
}

/// In the order of execution, the instances before `x` are the first ones.
pub proof fn lemma_rank(instances: Seq<InstanceView>, x: InstanceView)
    requires
        forall|i: int, j: int|
            0 <= i < j < instances.len() ==> executes_before(
                #[trigger] instances[i],
                #[trigger] instances[j],
            ),
    ensures
        rank(instances, x) <= instances.len(),
        forall|i: int|
            0 <= i < instances.len() ==> (executes_before(#[trigger] instances[i], x) <==> i < rank(
                instances,
                x,
            )),
    decreases instances.len(),
{
    if instances.len() > 0 {
        let before = instances.drop_last();
        let n = instances.len() - 1;
        assert forall|i: int, j: int| 0 <= i < j < before.len() implies executes_before(
            #[trigger] before[i],
            #[trigger] before[j],
        ) by {
            assert(executes_before(instances[i], instances[j]));
        }
        lemma_rank(before, x);
        assert(instances[n] == instances.last());
        assert forall|i: int| 0 <= i < instances.len() implies (executes_before(
            #[trigger] instances[i],
            x,
        ) <==> i < rank(instances, x)) by {
            if i < n {
                assert(before[i] == instances[i]);
                assert(executes_before(instances[i], instances[n]));
                lemma_executes_before_order(instances[i], instances[n], x);
            }
            if executes_before(instances[n], x) {
                assert(rank(before, x) == n) by {
                    if rank(before, x) < n {
                        let k = rank(before, x) as int;
                        assert(before[k] == instances[k]);
                        assert(executes_before(instances[k], instances[n]));
                        lemma_executes_before_order(instances[k], instances[n], x);
                        assert(executes_before(before[k], x));
                        assert(false);
                    }
                }
            }
        }
    }
}

/// The first conflict is a conflict, and there is none before it.
pub proof fn lemma_first_conflict(
    instances: Seq<InstanceView>,
    id: Seq<char>,
    rs: Seq<ReservationView>,
)
    ensures
        match first_conflict(instances, id, rs) {
            Some(r) => exists|i: int|
                0 <= i < rs.len() && #[trigger] rs[i] == r && conflicts(instances, id, r) && forall|
                    j: int,
                |
                    0 <= j < i ==> !conflicts(instances, id, #[trigger] rs[j]),
            None => forall|i: int|
                0 <= i < rs.len() ==> !conflicts(instances, id, #[trigger] rs[i]),
        },
    decreases rs.len(),
{
    if rs.len() > 0 {
        let before = rs.drop_last();
        let n = rs.len() - 1;
        lemma_first_conflict(instances, id, before);
        match first_conflict(instances, id, before) {
            Some(r) => {
                let i = choose|i: int|
                    0 <= i < before.len() && #[trigger] before[i] == r && conflicts(
                        instances,
                        id,
                        r,
                    ) && forall|j: int|
                        0 <= j < i ==> !conflicts(instances, id, #[trigger] before[j]);
                assert(rs[i] == r);
                assert forall|j: int| 0 <= j < i implies !conflicts(
                    instances,
                    id,
                    #[trigger] rs[j],
                ) by {
                    assert(rs[j] == before[j]);
                }
            },
            None => {
                assert forall|j: int| 0 <= j < n implies !conflicts(
                    instances,
                    id,
                    #[trigger] rs[j],
                ) by {
                    assert(rs[j] == before[j]);
                }
                assert(rs[n] == rs.last());
            },
        }
    }
}

/// A slot names a live instance.
pub proof fn lemma_slot_is_live(instances: Seq<InstanceView>, sender: Seq<u8>, nonce: u64)
    requires
        wf_instances(instances),
        slot(instances, sender, nonce) is Some,
    ensures
        live(instances, slot(instances, sender, nonce)->0.instance_id),
{
    lemma_slot(instances, sender, nonce);
    let s = slot(instances, sender, nonce)->0;
    let i = choose|i: int|
        0 <= i < instances.len() && (last_entry(
            (#[trigger] instances[i]).entries,
            sender,
            nonce,
        ) matches Some(e) && s == slot_of(e));
    lemma_last_entry(instances[i].entries, sender, nonce);
    assert(wf_instance(instances[i]));
    assert(is_at(instances, s.instance_id, i));
}

/// A submission keeps the pool well formed.
pub proof fn lemma_submitted_wf(
    pool: PoolView,
    id: Seq<char>,
    order: XtOrderKey,
    txs: Seq<TxView>,
)
    requires
        wf_pool(pool),
    ensures
        submitted(
            pool,
            id,
            order,
            reservations(id, order, XtReservationPhase::Xt, XtEntryStatus::Locked, txs),
        ) matches Ok(p) ==> wf_pool(p),
{
    let rs = reservations(id, order, XtReservationPhase::Xt, XtEntryStatus::Locked, txs);
    let old = pool.instances;
    if !live(old, id) && first_conflict(old, id, rs) is None {
        let x = InstanceView { id, order, entries: rs };
        let at = rank(old, x) as int;
        lemma_rank(old, x);
        let new = old.insert(at, x);
        lemma_first_conflict(old, id, rs);
        assert(laid_out(x, 0));
        assert(wf_instance(x));
        assert forall|i: int| 0 <= i < old.len() implies disjoint(x, #[trigger] old[i]) && disjoint(
            old[i],
            x,
        ) && old[i].id != id by {
            assert(!is_at(old, id, i));
            assert forall|j: int, k: int|
                0 <= j < rs.len() && 0 <= k < old[i].entries.len() implies !((
            #[trigger] rs[j]).sender == (#[trigger] old[i].entries[k]).sender && rs[j].nonce
                == old[i].entries[k].nonce) by {
                if rs[j].sender == old[i].entries[k].sender && rs[j].nonce
                    == old[i].entries[k].nonce {
                    lemma_entry_has_slot(old, i, k);
                    lemma_slot_is_live(old, rs[j].sender, rs[j].nonce);
                    assert(!conflicts(old, id, rs[j]));
                }
            }
        }
        assert forall|i: int, j: int| 0 <= i < j < new.len() implies executes_before(
            #[trigger] new[i],
            #[trigger] new[j],
        ) by {
            let a = if i < at { i } else { i - 1 };
            let b = if j < at { j } else { j - 1 };
            if i != at && j != at {
                assert(new[i] == old[a] && new[j] == old[b]);
            } else if j == at {
                assert(new[i] == old[a]);
            } else {
                assert(new[j] == old[b]);
                lemma_executes_before_order(x, old[b], old[b]);
            }
        }
        assert forall|i: int, j: int|
            0 <= i < new.len() && 0 <= j < new.len() && i != j implies (#[trigger] new[i]).id != (
        #[trigger] new[j]).id && disjoint(new[i], new[j]) by {
            let a = if i < at { i } else { i - 1 };
            let b = if j < at { j } else { j - 1 };
            if i != at && j != at {
                assert(new[i] == old[a] && new[j] == old[b]);
            } else if j == at {
                assert(new[i] == old[a]);
            } else {
                assert(new[j] == old[b]);
            }
        }
        assert forall|i: int| 0 <= i < new.len() implies wf_instance(#[trigger] new[i]) by {
            let a = if i < at { i } else { i - 1 };
            if i != at {
                assert(new[i] == old[a]);
            }
        }
        assert forall|g: Seq<char>| #[trigger] pool.gate.insert(id).contains(g) implies live(
            new,
            g,
        ) by {
            if g == id {
                assert(is_at(new, g, at));
            } else {
                assert(live(old, g));
                let i = position(old, g);
                assert(is_at(old, g, i));
                assert(is_at(new, g, if i < at { i } else { i + 1 }));
            }
        }
    }
}

/// A release keeps the pool well formed.
pub proof fn lemma_released_wf(pool: PoolView, id: Seq<char>, txs: Seq<TxView>)
    requires
        wf_pool(pool),
        live(pool.instances, id),
    ensures
        released(
            pool,
            id,
            reservations(
                id,
                instance(pool.instances, id).order,
                XtReservationPhase::PutInbox,
                XtEntryStatus::Released,
                txs,
            ),
        ) matches Ok(p) ==> wf_pool(p),
{
    let old = pool.instances;
    let at = position(old, id);
    lemma_position(old, id);
    let x = old[at];
    let rs = reservations(
        id,
        x.order,
        XtReservationPhase::PutInbox,
        XtEntryStatus::Released,
        txs,
    );
    if released(pool, id, rs) is Ok {
        let y = released_instance(x, rs);
        let new = old.update(at, y);
        let added = of_phase(x.entries, XtReservationPhase::PutInbox).len() == 0;
        let n: int = if added { rs.len() as int } else { 0 };
        let listed = if added { rs + x.entries } else { x.entries };
        assert(listed.len() == n + x.entries.len());
        assert(y.entries == listed.map_values(|e: ReservationView| released_entry(e)));
        assert forall|j: int| 0 <= j < y.entries.len() implies #[trigger] y.entries[j] == (
            if j < n { rs[j] } else { released_entry(x.entries[j - n]) }) by {}
        assert(wf_instance(x));
        let puts = choose|puts: int| laid_out(x, puts);
        if added && puts > 0 {
            assert(x.entries[0].phase == XtReservationPhase::PutInbox);
            lemma_of_phase_has(x.entries, XtReservationPhase::PutInbox, 0);
            assert(false);
        }
        assert(laid_out(y, n + puts));
        assert(uniformly_locked(y));
        lemma_first_conflict(old, id, rs);
        assert forall|i: int| 0 <= i < old.len() && i != at implies disjoint(
            y,
            #[trigger] old[i],
        ) && disjoint(old[i], y) by {
            assert(disjoint(x, old[i]));
            assert forall|j: int, k: int|
                0 <= j < y.entries.len() && 0 <= k < old[i].entries.len() implies !((
            #[trigger] y.entries[j]).sender == (#[trigger] old[i].entries[k]).sender
                && y.entries[j].nonce == old[i].entries[k].nonce) by {
                if j < n {
                    if rs[j].sender == old[i].entries[k].sender && rs[j].nonce
                        == old[i].entries[k].nonce {
                        let e = old[i].entries[k];
                        lemma_entry_has_slot(old, i, k);
                        assert(!conflicts(old, id, rs[j]));
                        lemma_last_entry(old[i].entries, e.sender, e.nonce);
                        assert(reserves(e, e.sender, e.nonce));
                        lemma_slot_of_instance(old, i, e.sender, e.nonce);
                        assert(wf_instance(old[i]));
                        assert(false);
                    }
                } else {
                    assert(x.entries[j - n].sender == y.entries[j].sender);
                }
            }
        }
        assert forall|i: int| 0 <= i < new.len() implies (#[trigger] new[i]).id == old[i].id
            && new[i].order == old[i].order by {}
        assert forall|i: int, j: int| 0 <= i < j < new.len() implies executes_before(
            #[trigger] new[i],
            #[trigger] new[j],
        ) by {
            assert(executes_before(old[i], old[j]));
        }
        assert forall|i: int, j: int|
            0 <= i < new.len() && 0 <= j < new.len() && i != j implies disjoint(
            #[trigger] new[i],
            #[trigger] new[j],
        ) && new[i].id != new[j].id by {
            assert(old[i].id != old[j].id);
            assert(disjoint(old[i], old[j]));
        }
        assert forall|g: Seq<char>| #[trigger] pool.gate.contains(g) implies live(new, g) by {
            let i = position(old, g);
            lemma_position(old, g);
            assert(is_at(new, g, i));
        }
    }
}

/// An entry of a phase makes the list of that phase non-empty.
pub proof fn lemma_of_phase_has(
    entries: Seq<ReservationView>,
    phase: XtReservationPhase,
    j: int,
)
    requires
        0 <= j < entries.len(),
        entries[j].phase == phase,
    ensures
        of_phase(entries, phase).len() > 0,
    decreases entries.len(),
{
    reveal(Seq::filter);
    if j < entries.len() - 1 {
        assert(entries.drop_last()[j] == entries[j]);
        lemma_of_phase_has(entries.drop_last(), phase, j);
    }
}

/// An abort keeps the pool well formed.
pub proof fn lemma_aborted_wf(pool: PoolView, id: Seq<char>)
    requires
        wf_pool(pool),
    ensures
        wf_pool(aborted(pool, id)),
{
    let old = pool.instances;
    let new = aborted(pool, id).instances;
    if live(old, id) {
        let at = position(old, id);
        lemma_position(old, id);
        assert forall|i: int| 0 <= i < new.len() implies #[trigger] new[i] == old[if i < at {
            i
        } else {
            i + 1
        }] by {}
        assert forall|g: Seq<char>| #[trigger] pool.gate.remove(id).contains(g) implies live(
            new,
            g,
        ) by {
            assert(live(old, g));
            let i = position(old, g);
            lemma_position(old, g);
            assert(is_at(new, g, if i < at { i } else { i - 1 }));
        }
    }
}

/// Recording inclusion keeps the pool well formed.
pub proof fn lemma_included_wf(pool: PoolView, ids: Seq<Seq<char>>)
    requires
        wf_pool(pool),
    ensures
        wf_pool(included(pool, ids)),
{
    let old = pool.instances;
    let new = included(pool, ids).instances;
    assert(new.len() == old.len());
    assert forall|i: int| 0 <= i < new.len() implies #[trigger] new[i] == (if ids.contains(
        old[i].id,
    ) {
        included_instance(old[i])
    } else {
        old[i]
    }) by {}
    assert forall|i: int| 0 <= i < new.len() implies wf_instance(#[trigger] new[i]) by {
        assert(wf_instance(old[i]));
        let puts = choose|puts: int| laid_out(old[i], puts);
        assert(laid_out(new[i], puts));
    }
    assert forall|i: int, j: int| 0 <= i < j < new.len() implies executes_before(
        #[trigger] new[i],
        #[trigger] new[j],
    ) by {
        assert(executes_before(old[i], old[j]));
    }
    assert forall|i: int, j: int|
        0 <= i < new.len() && 0 <= j < new.len() && i != j implies disjoint(
        #[trigger] new[i],
        #[trigger] new[j],
    ) && new[i].id != new[j].id by {
        assert(old[i].id != old[j].id);
        assert(disjoint(old[i], old[j]));
        assert forall|a: int, b: int|
            0 <= a < new[i].entries.len() && 0 <= b < new[j].entries.len() implies !((
        #[trigger] new[i].entries[a]).sender == (#[trigger] new[j].entries[b]).sender
            && new[i].entries[a].nonce == new[j].entries[b].nonce) by {
            assert(new[i].entries[a].sender == old[i].entries[a].sender);
            assert(new[j].entries[b].sender == old[j].entries[b].sender);
        }
    }
    assert forall|g: Seq<char>| #[trigger] pool.gate.contains(g) implies live(new, g) by {
        let i = position(old, g);
        lemma_position(old, g);
        assert(is_at(new, g, i));
    }
}

/// The instance has a transaction of `sender`.
pub open spec fn mentions(x: InstanceView, sender: Seq<u8>) -> bool {
    exists|j: int| 0 <= j < x.entries.len() && (#[trigger] x.entries[j]).sender == sender
}

/// The senders of a list are those that its entries mention.
pub proof fn lemma_senders_in(entries: Seq<ReservationView>, sender: Seq<u8>)
    ensures
        senders_in(entries).contains(sender) <==> exists|j: int|
            0 <= j < entries.len() && (#[trigger] entries[j]).sender == sender,
        senders_in(entries).no_duplicates(),
    decreases entries.len(),
{
    if entries.len() > 0 {
        let before = entries.drop_last();
        let n = entries.len() - 1;
        lemma_senders_in(before, sender);
        lemma_senders_in(before, entries.last().sender);
        let had = senders_in(before);
        let has = senders_in(entries);
        assert(entries[n] == entries.last());
        if !had.contains(entries.last().sender) {
            assert(has == had.push(entries.last().sender));
            assert(has[had.len() as int] == entries.last().sender);
            if had.contains(sender) {
                let k = choose|k: int| 0 <= k < had.len() && had[k] == sender;
                assert(has[k] == sender);
            }
            if has.contains(sender) && sender != entries.last().sender {
                let k = choose|k: int| 0 <= k < has.len() && has[k] == sender;
                assert(had[k] == sender);
            }
        }
        if exists|j: int| 0 <= j < entries.len() && (#[trigger] entries[j]).sender == sender {
            let j = choose|j: int| 0 <= j < entries.len() && (#[trigger] entries[j]).sender == sender;
            if j < n {
                assert(before[j].sender == sender);
            }
        }
        if exists|j: int| 0 <= j < before.len() && (#[trigger] before[j]).sender == sender {
            let j = choose|j: int| 0 <= j < before.len() && (#[trigger] before[j]).sender == sender;
            assert(entries[j].sender == sender);
        }
    }
}

/// Every instance of `a` that mentions `sender` stands in `b`.
pub open spec fn mentions_carried(
    a: Seq<InstanceView>,
    b: Seq<InstanceView>,
    sender: Seq<u8>,
) -> bool {
    forall|i: int|
        0 <= i < a.len() && mentions(#[trigger] a[i], sender) ==> exists|k: int|
            0 <= k < b.len() && #[trigger] b[k] == a[i]
}

/// Where the instances that mention a sender stay, its slots stay.
pub proof fn lemma_slots_kept(a: Seq<InstanceView>, b: Seq<InstanceView>, sender: Seq<u8>)
    requires
        pairwise_disjoint(a),
        pairwise_disjoint(b),
        mentions_carried(a, b, sender),
        mentions_carried(b, a, sender),
    ensures
        forall|n: u64| #[trigger] slot(a, sender, n) == slot(b, sender, n),
{
    assert forall|n: u64| #[trigger] slot(a, sender, n) == slot(b, sender, n) by {
        lemma_slots_carried(a, b, sender, n);
        lemma_slots_carried(b, a, sender, n);
        lemma_slot_same(a, b, sender, n);
    }
}

proof fn lemma_slots_carried(
    a: Seq<InstanceView>,
    b: Seq<InstanceView>,
    sender: Seq<u8>,
    nonce: u64,
)
    requires
        mentions_carried(a, b, sender),
    ensures
        slots_carried(a, b, sender, nonce),
{
    assert forall|i: int|
        0 <= i < a.len() && last_entry((#[trigger] a[i]).entries, sender, nonce) is Some implies
        exists|k: int|
        0 <= k < b.len() && (last_entry((#[trigger] b[k]).entries, sender, nonce) matches Some(e)
            && slot_of(e) == slot_of(last_entry(a[i].entries, sender, nonce)->0)) by {
        lemma_last_entry(a[i].entries, sender, nonce);
        assert(mentions(a[i], sender));
        let k = choose|k: int| 0 <= k < b.len() && #[trigger] b[k] == a[i];
        assert(last_entry(b[k].entries, sender, nonce) is Some);
    }
}

} // verus!
