//! What holds of the instances that can execute.

use vstd::prelude::*;

use super::execution::{first_blocked, first_stop, run, run_all, ExecutableView, StopView};
use super::lemmas::{lemma_last_entry, lemma_slot};
use super::model::{
    disjoint, laid_out, last_entry, reserves, senders_in, slot, slot_of, wf_instance, wf_instances,
    InstanceView, ReservationView, XtEntryStatus, XtReservationPhase,
};

verus! {

/// Running a list runs each shorter list first.
proof fn lemma_run_prefix(entries: Seq<ReservationView>, nonces: Map<Seq<u8>, u64>, k: int)
    requires
        0 <= k <= entries.len(),
        run(entries, nonces) is Some,
    ensures
        run(entries.take(k), nonces) matches Some(r) && r.transactions.len() <= run(
            entries,
            nonces,
        )->0.transactions.len() && r.transactions == run(entries, nonces)->0.transactions.take(
            r.transactions.len() as int,
        ),
    decreases entries.len(),
{
    let whole = run(entries, nonces)->0.transactions;
    if k == entries.len() {
        assert(entries.take(k) =~= entries);
        assert(whole.take(whole.len() as int) =~= whole);
    } else {
        let before = entries.drop_last();
        lemma_run_prefix(before, nonces, k);
        assert(before.take(k) =~= entries.take(k));
        let r = run(entries.take(k), nonces)->0;
        let b = run(before, nonces)->0;
        assert(whole.take(r.transactions.len() as int) =~= b.transactions.take(
            r.transactions.len() as int,
        ));
    }
}

/// A transaction that a list executes is one of its released entries.
proof fn lemma_run_from(entries: Seq<ReservationView>, nonces: Map<Seq<u8>, u64>, k: int, t: int)
    requires
        0 <= k <= entries.len(),
        run(entries, nonces) is Some,
        run(entries.take(k), nonces) is Some,
        run(entries.take(k), nonces)->0.transactions.len() <= t < run(
            entries,
            nonces,
        )->0.transactions.len(),
    ensures
        exists|j: int|
            k <= j < entries.len() && (#[trigger] entries[j]).raw == run(
                entries,
                nonces,
            )->0.transactions[t] && entries[j].status == XtEntryStatus::Released,
    decreases entries.len(),
{
    if k == entries.len() {
        assert(entries.take(k) =~= entries);
    } else {
        let n = entries.len() - 1;
        let before = entries.drop_last();
        assert(before.take(k) =~= entries.take(k));
        let b = run(before, nonces)->0;
        assert(entries[n] == entries.last());
        if t < b.transactions.len() {
            lemma_run_from(before, nonces, k, t);
            let j = choose|j: int|
                k <= j < before.len() && (#[trigger] before[j]).raw == b.transactions[t]
                    && before[j].status == XtEntryStatus::Released;
            assert(entries[j] == before[j]);
        }
    }
}

/// An executable instance is one of the instances, tried on the nonces that
/// those before it leave.
proof fn lemma_run_all_member(instances: Seq<InstanceView>, nonces: Map<Seq<u8>, u64>, k: int)
    requires
        0 <= k < run_all(instances, nonces).1.len(),
    ensures
        exists|i: int| executes_at(instances, nonces, run_all(instances, nonces).1[k], i),
    decreases instances.len(),
{
    let n = instances.len() - 1;
    let before = instances.drop_last();
    let list = run_all(instances, nonces).1;
    let listed = run_all(before, nonces).1;
    if k < listed.len() {
        lemma_run_all_member(before, nonces, k);
        let i = choose|i: int| executes_at(before, nonces, listed[k], i);
        assert(before.take(i) =~= instances.take(i));
        assert(executes_at(instances, nonces, list[k], i));
    } else {
        assert(instances.take(n) =~= before);
        assert(executes_at(instances, nonces, list[k], n));
    }
}

/// The instance at `i` executes as `e`: all of its transactions that have not
/// run yet, at least one, on the nonces that the instances before it leave.
pub open spec fn executes_at(
    instances: Seq<InstanceView>,
    nonces: Map<Seq<u8>, u64>,
    e: ExecutableView,
    i: int,
) -> bool {
    &&& 0 <= i < instances.len()
    &&& e.instance_id == instances[i].id
    &&& e.senders == senders_in(instances[i].entries)
    &&& run(instances[i].entries, run_all(instances.take(i), nonces).0) matches Some(r)
        && r.transactions == e.transactions && r.transactions.len() > 0
}

/// Instances execute in the order of the pool.
pub proof fn law_instances_execute_in_order(
    instances: Seq<InstanceView>,
    nonces: Map<Seq<u8>, u64>,
    a: int,
    b: int,
)
    requires
        0 <= a < b < run_all(instances, nonces).1.len(),
    ensures
        exists|i: int, j: int|
            i < j && #[trigger] executes_at(instances, nonces, run_all(instances, nonces).1[a], i)
                && #[trigger] executes_at(instances, nonces, run_all(instances, nonces).1[b], j),
    decreases instances.len(),
{
    let n = instances.len() - 1;
    let before = instances.drop_last();
    let list = run_all(instances, nonces).1;
    let listed = run_all(before, nonces).1;
    if b < listed.len() {
        law_instances_execute_in_order(before, nonces, a, b);
        let (i, j) = choose|i: int, j: int|
            i < j && #[trigger] executes_at(before, nonces, listed[a], i) && #[trigger] executes_at(
                before,
                nonces,
                listed[b],
                j,
            );
        assert(before.take(i) =~= instances.take(i));
        assert(before.take(j) =~= instances.take(j));
        assert(executes_at(instances, nonces, list[a], i));
        assert(executes_at(instances, nonces, list[b], j));
    } else {
        lemma_run_all_member(before, nonces, a);
        let i = choose|i: int| executes_at(before, nonces, listed[a], i);
        assert(before.take(i) =~= instances.take(i));
        assert(instances.take(n) =~= before);
        assert(executes_at(instances, nonces, list[a], i));
        assert(executes_at(instances, nonces, list[b], n));
    }
}

/// The raw transaction stands among the entries, released, in the phase.
pub open spec fn released_in_phase(
    x: InstanceView,
    raw: Seq<u8>,
    phase: XtReservationPhase,
) -> bool {
    exists|j: int|
        0 <= j < x.entries.len() && (#[trigger] x.entries[j]).raw == raw && x.entries[j].phase
            == phase && x.entries[j].status == XtEntryStatus::Released
}

/// What executes of an instance are its released transactions, the `putInbox`
/// transactions before the XT transactions.
pub proof fn law_put_inbox_executes_first(x: InstanceView, nonces: Map<Seq<u8>, u64>)
    requires
        wf_instance(x),
    ensures
        run(x.entries, nonces) matches Some(r) ==> exists|k: int| #[trigger]
            splits_by_phase(x, r.transactions, k),
{
    if run(x.entries, nonces) is Some {
        let r = run(x.entries, nonces)->0;
        let puts = choose|puts: int| laid_out(x, puts);
        lemma_run_prefix(x.entries, nonces, puts);
        let front = run(x.entries.take(puts), nonces)->0;
        let k = front.transactions.len() as int;
        assert forall|t: int| 0 <= t < k implies released_in_phase(
            x,
            #[trigger] r.transactions[t],
            XtReservationPhase::PutInbox,
        ) by {
            assert(x.entries.take(puts).take(0) =~= Seq::<ReservationView>::empty());
            lemma_run_from(x.entries.take(puts), nonces, 0, t);
            let j = choose|j: int|
                0 <= j < puts && (#[trigger] x.entries.take(puts)[j]).raw == front.transactions[t]
                    && x.entries.take(puts)[j].status == XtEntryStatus::Released;
            assert(x.entries[j] == x.entries.take(puts)[j]);
        }
        assert forall|t: int| k <= t < r.transactions.len() implies released_in_phase(
            x,
            #[trigger] r.transactions[t],
            XtReservationPhase::Xt,
        ) by {
            lemma_run_from(x.entries, nonces, puts, t);
        }
        assert(splits_by_phase(x, r.transactions, k));
    }
}

/// The first `k` of the transactions are released `putInbox` transactions of
/// the instance, the others released XT transactions.
pub open spec fn splits_by_phase(x: InstanceView, transactions: Seq<Seq<u8>>, k: int) -> bool {
    &&& 0 <= k <= transactions.len()
    &&& forall|t: int|
        0 <= t < k ==> released_in_phase(
            x,
            #[trigger] transactions[t],
            XtReservationPhase::PutInbox,
        )
    &&& forall|t: int|
        k <= t < transactions.len() ==> released_in_phase(
            x,
            #[trigger] transactions[t],
            XtReservationPhase::Xt,
        )
}

/// An instance executes as a whole or not at all: a locked one never does.
pub proof fn law_locked_instance_never_executes(
    instances: Seq<InstanceView>,
    nonces: Map<Seq<u8>, u64>,
    i: int,
    j: int,
    k: int,
)
    requires
        wf_instances(instances),
        0 <= i < instances.len(),
        0 <= j < instances[i].entries.len(),
        instances[i].entries[j].status == XtEntryStatus::Locked,
        0 <= k < run_all(instances, nonces).1.len(),
    ensures
        run_all(instances, nonces).1[k].instance_id != instances[i].id,
{
    let e = run_all(instances, nonces).1[k];
    lemma_run_all_member(instances, nonces, k);
    let m = choose|m: int| executes_at(instances, nonces, e, m);
    if e.instance_id == instances[i].id {
        assert(m == i);
        let x = instances[i];
        assert(wf_instance(x));
        let start = run_all(instances.take(i), nonces).0;
        assert(x.entries.take(0) =~= Seq::<ReservationView>::empty());
        lemma_run_from(x.entries, start, 0, 0);
        let b = choose|b: int|
            0 <= b < x.entries.len() && (#[trigger] x.entries[b]).raw == e.transactions[0]
                && x.entries[b].status == XtEntryStatus::Released;
        assert(x.entries[b].status == XtEntryStatus::Locked);
    }
}

/// Entries that cannot run at `nonce` do not move the sender past it.
proof fn lemma_run_held(
    entries: Seq<ReservationView>,
    nonces: Map<Seq<u8>, u64>,
    sender: Seq<u8>,
    nonce: u64,
)
    requires
        nonces.contains_key(sender),
        nonces[sender] <= nonce,
        forall|j: int|
            0 <= j < entries.len() && reserves(#[trigger] entries[j], sender, nonce)
                ==> entries[j].status == XtEntryStatus::Locked,
    ensures
        run(entries, nonces) matches Some(r) ==> r.nonces.contains_key(sender) && r.nonces[sender]
            <= nonce && forall|j: int|
            0 <= j < entries.len() && (#[trigger] entries[j]).sender == sender ==> entries[j].nonce
                < nonce,
    decreases entries.len(),
{
    if entries.len() > 0 && run(entries, nonces) is Some {
        let n = entries.len() - 1;
        let before = entries.drop_last();
        assert forall|j: int|
            0 <= j < before.len() && reserves(#[trigger] before[j], sender, nonce) implies
            before[j].status == XtEntryStatus::Locked by {
            assert(before[j] == entries[j]);
        }
        lemma_run_held(before, nonces, sender, nonce);
        let e = entries.last();
        assert(entries[n] == e);
        assert(!reserves(e, sender, nonce) || e.status == XtEntryStatus::Locked);
        assert forall|j: int|
            0 <= j < entries.len() && (#[trigger] entries[j]).sender == sender implies
            entries[j].nonce < nonce by {
            if j < n {
                assert(before[j] == entries[j]);
            }
        }
    }
}

/// Instances that cannot run at `nonce` do not move the sender past it.
proof fn lemma_run_all_held(
    instances: Seq<InstanceView>,
    nonces: Map<Seq<u8>, u64>,
    sender: Seq<u8>,
    nonce: u64,
)
    requires
        nonces.contains_key(sender),
        nonces[sender] <= nonce,
        forall|i: int, j: int|
            0 <= i < instances.len() && 0 <= j < instances[i].entries.len() && reserves(
                #[trigger] instances[i].entries[j],
                sender,
                nonce,
            ) ==> instances[i].entries[j].status == XtEntryStatus::Locked,
    ensures
        run_all(instances, nonces).0.contains_key(sender),
        run_all(instances, nonces).0[sender] <= nonce,
    decreases instances.len(),
{
    if instances.len() > 0 {
        let n = instances.len() - 1;
        let before = instances.drop_last();
        assert forall|i: int, j: int|
            0 <= i < before.len() && 0 <= j < before[i].entries.len() && reserves(
                #[trigger] before[i].entries[j],
                sender,
                nonce,
            ) implies before[i].entries[j].status == XtEntryStatus::Locked by {
            assert(before[i].entries[j] == instances[i].entries[j]);
        }
        lemma_run_all_held(before, nonces, sender, nonce);
        assert(instances[n] == instances.last());
        assert forall|j: int|
            0 <= j < instances[n].entries.len() && reserves(
                #[trigger] instances[n].entries[j],
                sender,
                nonce,
            ) implies instances[n].entries[j].status == XtEntryStatus::Locked by {}
        lemma_run_held(instances[n].entries, run_all(before, nonces).0, sender, nonce);
    }
}

/// A locked nonce holds its sender back: no instance moves the sender past it,
/// and none that needs the nonce or a later one executes.
pub proof fn law_locked_nonce_holds_back_its_sender(
    instances: Seq<InstanceView>,
    nonces: Map<Seq<u8>, u64>,
    sender: Seq<u8>,
    nonce: u64,
)
    requires
        wf_instances(instances),
        nonces.contains_key(sender),
        nonces[sender] <= nonce,
        slot(instances, sender, nonce) matches Some(s) && s.status == XtEntryStatus::Locked,
    ensures
        run_all(instances, nonces).0.contains_key(sender),
        run_all(instances, nonces).0[sender] <= nonce,
        forall|k: int, i: int, j: int|
            0 <= k < run_all(instances, nonces).1.len() && 0 <= i < instances.len() && 0 <= j
                < instances[i].entries.len() && (#[trigger] instances[i].entries[j]).sender
                == sender && instances[i].entries[j].nonce >= nonce ==> (#[trigger] run_all(
                instances,
                nonces,
            ).1[k]).instance_id != instances[i].id,
{
    let s = slot(instances, sender, nonce)->0;
    lemma_slot(instances, sender, nonce);
    let at = choose|i: int|
        0 <= i < instances.len() && (last_entry(
            (#[trigger] instances[i]).entries,
            sender,
            nonce,
        ) matches Some(e) && s == slot_of(e));
    lemma_last_entry(instances[at].entries, sender, nonce);
    assert(wf_instance(instances[at]));
    assert forall|i: int, j: int|
        0 <= i < instances.len() && 0 <= j < instances[i].entries.len() && reserves(
            #[trigger] instances[i].entries[j],
            sender,
            nonce,
        ) implies instances[i].entries[j].status == XtEntryStatus::Locked by {
        if i != at {
            assert(disjoint(instances[i], instances[at]));
        }
    }
    lemma_run_all_held(instances, nonces, sender, nonce);
    assert forall|k: int, i: int, j: int|
        0 <= k < run_all(instances, nonces).1.len() && 0 <= i < instances.len() && 0 <= j
            < instances[i].entries.len() && (#[trigger] instances[i].entries[j]).sender == sender
            && instances[i].entries[j].nonce >= nonce implies (#[trigger] run_all(
        instances,
        nonces,
    ).1[k]).instance_id != instances[i].id by {
        let e = run_all(instances, nonces).1[k];
        lemma_run_all_member(instances, nonces, k);
        let m = choose|m: int| executes_at(instances, nonces, e, m);
        if e.instance_id == instances[i].id {
            assert(m == i);
            let before = instances.take(i);
            assert forall|a: int, b: int|
                0 <= a < before.len() && 0 <= b < before[a].entries.len() && reserves(
                    #[trigger] before[a].entries[b],
                    sender,
                    nonce,
                ) implies before[a].entries[b].status == XtEntryStatus::Locked by {
                assert(before[a].entries[b] == instances[a].entries[b]);
            }
            lemma_run_all_held(before, nonces, sender, nonce);
            assert forall|b: int|
                0 <= b < instances[i].entries.len() && reserves(
                    #[trigger] instances[i].entries[b],
                    sender,
                    nonce,
                ) implies instances[i].entries[b].status == XtEntryStatus::Locked by {}
            lemma_run_held(instances[i].entries, run_all(before, nonces).0, sender, nonce);
        }
    }
}

/// A list runs unless one of its entries is stopped.
proof fn lemma_first_stop(entries: Seq<ReservationView>, nonces: Map<Seq<u8>, u64>)
    ensures
        first_stop(entries, nonces) is None <==> run(entries, nonces) is Some,
    decreases entries.len(),
{
    if entries.len() > 0 {
        lemma_first_stop(entries.drop_last(), nonces);
    }
}

/// The instance at `i` is the first that cannot run, and `s` is what stops its
/// first transaction that is stopped.
pub open spec fn blocked_at(
    instances: Seq<InstanceView>,
    nonces: Map<Seq<u8>, u64>,
    i: int,
    s: StopView,
) -> bool {
    let start = run_all(instances.take(i), nonces).0;
    &&& 0 <= i < instances.len()
    &&& runs_up_to(instances, nonces, i)
    &&& run(instances[i].entries, start) is None
    &&& first_stop(instances[i].entries, start) == Some(s)
}

/// A blocked instance is reported if and only if some instance cannot run. The
/// one reported is the first of them, with its first transaction that is
/// stopped.
pub proof fn law_first_blocked_instance_is_reported(
    instances: Seq<InstanceView>,
    nonces: Map<Seq<u8>, u64>,
)
    ensures
        match first_blocked(instances, nonces) {
            Some((id, s)) => exists|i: int| #[trigger]
                blocked_at(instances, nonces, i, s) && instances[i].id == id,
            None => runs_up_to(instances, nonces, instances.len() as int),
        },
    decreases instances.len(),
{
    if instances.len() > 0 {
        let n = instances.len() - 1;
        let before = instances.drop_last();
        let start = run_all(before, nonces).0;
        law_first_blocked_instance_is_reported(before, nonces);
        assert(instances.take(n) =~= before);
        assert(instances[n] == instances.last());
        lemma_first_stop(instances[n].entries, start);
        match first_blocked(before, nonces) {
            Some((id, s)) => {
                let i = choose|i: int| #[trigger]
                    blocked_at(before, nonces, i, s) && before[i].id == id;
                lemma_runs_up_to(before, instances, nonces, i);
                assert(before.take(i) =~= instances.take(i));
                assert(before[i] == instances[i]);
                assert(blocked_at(instances, nonces, i, s));
            },
            None => {
                lemma_runs_up_to(before, instances, nonces, n);
                match first_stop(instances[n].entries, start) {
                    Some(s) => {
                        assert(blocked_at(instances, nonces, n, s));
                    },
                    None => {},
                }
            },
        }
    }
}

/// Each of the first `n` instances runs, or has run already, on the nonces that
/// those before it leave.
pub open spec fn runs_up_to(
    instances: Seq<InstanceView>,
    nonces: Map<Seq<u8>, u64>,
    n: int,
) -> bool {
    forall|i: int|
        0 <= i < n ==> run(
            (#[trigger] instances[i]).entries,
            run_all(instances.take(i), nonces).0,
        ) is Some
}

proof fn lemma_runs_up_to(
    before: Seq<InstanceView>,
    instances: Seq<InstanceView>,
    nonces: Map<Seq<u8>, u64>,
    n: int,
)
    requires
        instances.len() > 0,
        before == instances.drop_last(),
        0 <= n <= before.len(),
        runs_up_to(before, nonces, n),
    ensures
        runs_up_to(instances, nonces, n),
{
    assert forall|i: int| 0 <= i < n implies run(
        (#[trigger] instances[i]).entries,
        run_all(instances.take(i), nonces).0,
    ) is Some by {
        assert(before[i] == instances[i]);
        assert(before.take(i) =~= instances.take(i));
    }
}

/// Running transactions never moves a nonce back, and knows no new sender.
pub proof fn law_nonces_only_grow(
    instances: Seq<InstanceView>,
    nonces: Map<Seq<u8>, u64>,
)
    ensures
        run_all(instances, nonces).0.dom() == nonces.dom(),
        forall|sender: Seq<u8>| #[trigger]
            nonces.contains_key(sender) ==> nonces[sender] <= run_all(instances, nonces).0[sender],
    decreases instances.len(),
{
    if instances.len() > 0 {
        law_nonces_only_grow(instances.drop_last(), nonces);
        lemma_run_grows(instances.last().entries, run_all(instances.drop_last(), nonces).0);
    }
}

proof fn lemma_run_grows(entries: Seq<ReservationView>, nonces: Map<Seq<u8>, u64>)
    ensures
        run(entries, nonces) matches Some(r) ==> r.nonces.dom() == nonces.dom() && forall|
            sender: Seq<u8>,
        | #[trigger]
            nonces.contains_key(sender) ==> nonces[sender] <= r.nonces[sender],
    decreases entries.len(),
{
    if entries.len() > 0 && run(entries, nonces) is Some {
        lemma_run_grows(entries.drop_last(), nonces);
        let b = run(entries.drop_last(), nonces)->0;
        let r = run(entries, nonces)->0;
        let e = entries.last();
        assert(b.nonces.contains_key(e.sender));
        assert(r.nonces.dom() =~= nonces.dom());
    }
}

/// How many of the entries are of `sender`.
pub open spec fn count_of(entries: Seq<ReservationView>, sender: Seq<u8>) -> nat
    decreases entries.len(),
{
    if entries.len() == 0 {
        0
    } else {
        count_of(entries.drop_last(), sender) + if entries.last().sender == sender {
            1nat
        } else {
            0nat
        }
    }
}

/// The entries are released and use the nonces of their senders one after the
/// other.
pub open spec fn consecutive(entries: Seq<ReservationView>, nonces: Map<Seq<u8>, u64>) -> bool {
    forall|j: int|
        0 <= j < entries.len() ==> {
            let e = #[trigger] entries[j];
            &&& e.status == XtEntryStatus::Released
            &&& nonces.contains_key(e.sender)
            &&& e.nonce == nonces[e.sender] + count_of(entries.take(j), e.sender)
        }
}

/// A released instance whose transactions use the nonces of their senders one
/// after the other executes as a whole, in its order.
pub proof fn law_released_instance_executes(
    entries: Seq<ReservationView>,
    nonces: Map<Seq<u8>, u64>,
)
    requires
        consecutive(entries, nonces),
    ensures
        run(entries, nonces) matches Some(r) && r.transactions == entries.map_values(
            |e: ReservationView| e.raw,
        ) && r.nonces.dom() == nonces.dom() && forall|sender: Seq<u8>| #[trigger]
            nonces.contains_key(sender) ==> r.nonces[sender] == (if nonces[sender] + count_of(
                entries,
                sender,
            ) <= u64::MAX {
                nonces[sender] + count_of(entries, sender)
            } else {
                u64::MAX as int
            }),
    decreases entries.len(),
{
    let raws = entries.map_values(|e: ReservationView| e.raw);
    if entries.len() > 0 {
        let n = entries.len() - 1;
        let before = entries.drop_last();
        assert forall|j: int| 0 <= j < before.len() implies {
            let e = #[trigger] before[j];
            &&& e.status == XtEntryStatus::Released
            &&& nonces.contains_key(e.sender)
            &&& e.nonce == nonces[e.sender] + count_of(before.take(j), e.sender)
        } by {
            assert(before[j] == entries[j]);
            assert(before.take(j) =~= entries.take(j));
        }
        law_released_instance_executes(before, nonces);
        let e = entries[n];
        assert(entries.take(n) =~= before);
        assert(e == entries.last());
        let b = run(before, nonces)->0;
        assert(nonces.contains_key(e.sender));
        assert(b.nonces.contains_key(e.sender));
        assert(b.nonces[e.sender] == e.nonce);
        let r = run(entries, nonces)->0;
        assert(r.transactions =~= raws);
        assert(r.nonces.dom() =~= nonces.dom());
    } else {
        assert(run(entries, nonces)->0.transactions =~= raws);
    }
}

/// The nonce after `nonce`, which is its own successor if it is the largest.
pub open spec fn successor(nonce: u64) -> int {
    if nonce < u64::MAX {
        nonce + 1
    } else {
        nonce as int
    }
}

/// How a list runs, transaction by transaction. One that has run already is
/// passed over. One whose nonce is the next of its sender runs if it is
/// released, and moves that nonce by one. Anything else stops the list: an
/// unknown sender, a nonce that is ahead, a transaction that is locked or
/// included.
pub proof fn law_transactions_run_in_turn(
    entries: Seq<ReservationView>,
    e: ReservationView,
    nonces: Map<Seq<u8>, u64>,
)
    ensures
        run(Seq::empty(), nonces) matches Some(r) && r.nonces == nonces && r.transactions.len()
            == 0,
        run(entries, nonces) is None ==> run(entries.push(e), nonces) is None,
        run(entries, nonces) matches Some(b) ==> {
            let after = run(entries.push(e), nonces);
            let known = b.nonces.contains_key(e.sender);
            let next = b.nonces[e.sender];
            &&& !known ==> after is None
            &&& known && e.nonce < next ==> after == Some(b)
            &&& known && e.nonce > next ==> after is None
            &&& known && e.nonce == next && (e.status == XtEntryStatus::Locked || e.status
                == XtEntryStatus::Included) ==> after is None
            &&& known && e.nonce == next && e.status == XtEntryStatus::Released ==> (after
                matches Some(r) && r.transactions == b.transactions.push(e.raw)
                && r.nonces.contains_key(e.sender) && r.nonces[e.sender] == successor(next)
                && forall|other: Seq<u8>|
                other != e.sender ==> (#[trigger] r.nonces.contains_key(other)
                    <==> b.nonces.contains_key(other)) && r.nonces[other] == b.nonces[other])
        },
{
    assert(entries.push(e).drop_last() =~= entries);
}

/// How the executable instances are collected, instance by instance, in order.
/// An instance that runs with at least one transaction is listed under its ID
/// with those transactions, and moves the nonces for the next. Any other is
/// passed over and leaves everything as it was for the next.
pub proof fn law_instances_are_collected_in_turn(
    instances: Seq<InstanceView>,
    x: InstanceView,
    nonces: Map<Seq<u8>, u64>,
)
    ensures
        run_all(Seq::empty(), nonces).0 == nonces,
        run_all(Seq::empty(), nonces).1.len() == 0,
        ({
            let before = run_all(instances, nonces);
            let after = run_all(instances.push(x), nonces);
            match run(x.entries, before.0) {
                Some(r) => if r.transactions.len() > 0 {
                    &&& after.0 == r.nonces
                    &&& after.1.len() == before.1.len() + 1
                    &&& after.1.drop_last() == before.1
                    &&& after.1.last().instance_id == x.id
                    &&& after.1.last().transactions == r.transactions
                    &&& after.1.last().senders == senders_in(x.entries)
                } else {
                    after == before
                },
                None => after == before,
            }
        }),
{
    assert(instances.push(x).drop_last() =~= instances);
    let before = run_all(instances, nonces);
    let after = run_all(instances.push(x), nonces);
    if run(x.entries, before.0) matches Some(r) && r.transactions.len() > 0 {
        assert(after.1.drop_last() =~= before.1);
    }
}

/// No instance that can execute is left out. Each whose transactions run on the
/// nonces that the instances before it leave, with one still to run, is listed
/// with exactly those transactions, whether or not an earlier instance is
/// blocked.
pub proof fn law_collected_list_is_complete(
    instances: Seq<InstanceView>,
    nonces: Map<Seq<u8>, u64>,
    i: int,
)
    requires
        0 <= i < instances.len(),
    ensures
        run(instances[i].entries, run_all(instances.take(i), nonces).0) matches Some(r)
            && r.transactions.len() > 0 ==> exists|k: int|
            0 <= k < run_all(instances, nonces).1.len() && (#[trigger] run_all(
                instances,
                nonces,
            ).1[k]).instance_id == instances[i].id && run_all(instances, nonces).1[k].transactions
                == run(instances[i].entries, run_all(instances.take(i), nonces).0)->0.transactions,
    decreases instances.len(),
{
    let start = run_all(instances.take(i), nonces).0;
    if run(instances[i].entries, start) matches Some(r) && r.transactions.len() > 0 {
        let n = instances.len() - 1;
        let before = instances.drop_last();
        let list = run_all(instances, nonces).1;
        let listed = run_all(before, nonces).1;
        if i == n {
            assert(instances.take(n) =~= before);
            assert(list[listed.len() as int].instance_id == instances[n].id);
        } else {
            assert(before.take(i) =~= instances.take(i));
            law_collected_list_is_complete(before, nonces, i);
            let k = choose|k: int|
                0 <= k < listed.len() && (#[trigger] listed[k]).instance_id == before[i].id
                    && listed[k].transactions == run(before[i].entries, start)->0.transactions;
            assert(list[k] == listed[k]);
        }
    }
}

/// Entries of other senders do not move a sender's nonce.
proof fn lemma_run_leaves(entries: Seq<ReservationView>, nonces: Map<Seq<u8>, u64>, sender: Seq<u8>)
    requires
        forall|j: int| 0 <= j < entries.len() ==> (#[trigger] entries[j]).sender != sender,
    ensures
        run(entries, nonces) matches Some(r) ==> (r.nonces.contains_key(sender)
            <==> nonces.contains_key(sender)) && r.nonces[sender] == nonces[sender],
    decreases entries.len(),
{
    if entries.len() > 0 && run(entries, nonces) is Some {
        let n = entries.len() - 1;
        assert(entries[n].sender != sender);
        assert forall|j: int| 0 <= j < n implies (#[trigger] entries.drop_last()[j]).sender
            != sender by {
            assert(entries[j].sender != sender);
        }
        lemma_run_leaves(entries.drop_last(), nonces, sender);
    }
}

/// Instances of other senders do not move a sender's nonce.
pub proof fn law_unrelated_instances_leave_a_nonce(
    instances: Seq<InstanceView>,
    nonces: Map<Seq<u8>, u64>,
    sender: Seq<u8>,
)
    requires
        forall|i: int, j: int|
            0 <= i < instances.len() && 0 <= j < instances[i].entries.len()
                ==> (#[trigger] instances[i].entries[j]).sender != sender,
    ensures
        run_all(instances, nonces).0.contains_key(sender) <==> nonces.contains_key(sender),
        run_all(instances, nonces).0[sender] == nonces[sender],
    decreases instances.len(),
{
    if instances.len() > 0 {
        let n = instances.len() - 1;
        let before = instances.drop_last();
        assert forall|i: int, j: int|
            0 <= i < before.len() && 0 <= j < before[i].entries.len() implies (
        #[trigger] before[i].entries[j]).sender != sender by {
            assert(instances[i].entries[j].sender != sender);
        }
        law_unrelated_instances_leave_a_nonce(before, nonces, sender);
        assert forall|j: int| 0 <= j < instances[n].entries.len() implies (
        #[trigger] instances[n].entries[j]).sender != sender by {}
        lemma_run_leaves(instances[n].entries, run_all(before, nonces).0, sender);
    }
}

/// An instance whose transactions are released and use the nonces of their
/// senders one after the other is listed, with all of them in its order,
/// whatever becomes of the instances of other senders before it.
pub proof fn law_unrelated_released_instance_is_listed(
    instances: Seq<InstanceView>,
    nonces: Map<Seq<u8>, u64>,
    i: int,
)
    requires
        0 <= i < instances.len(),
        instances[i].entries.len() > 0,
        consecutive(instances[i].entries, nonces),
        forall|h: int, j: int, k: int|
            0 <= h < i && 0 <= j < instances[h].entries.len() && 0 <= k
                < instances[i].entries.len() ==> (#[trigger] instances[h].entries[j]).sender != (
            #[trigger] instances[i].entries[k]).sender,
    ensures
        exists|k: int|
            0 <= k < run_all(instances, nonces).1.len() && (#[trigger] run_all(
                instances,
                nonces,
            ).1[k]).instance_id == instances[i].id && run_all(instances, nonces).1[k].transactions
                == instances[i].entries.map_values(|e: ReservationView| e.raw),
{
    let before = instances.take(i);
    let start = run_all(before, nonces).0;
    let entries = instances[i].entries;
    assert forall|k: int| 0 <= k < entries.len() implies {
        let e = #[trigger] entries[k];
        &&& e.status == XtEntryStatus::Released
        &&& start.contains_key(e.sender)
        &&& e.nonce == start[e.sender] + count_of(entries.take(k), e.sender)
    } by {
        let sender = entries[k].sender;
        assert forall|h: int, j: int|
            0 <= h < before.len() && 0 <= j < before[h].entries.len() implies (
        #[trigger] before[h].entries[j]).sender != sender by {
            assert(instances[h].entries[j].sender != instances[i].entries[k].sender);
        }
        law_unrelated_instances_leave_a_nonce(before, nonces, sender);
    }
    assert(consecutive(entries, start));
    law_released_instance_executes(entries, start);
    law_collected_list_is_complete(instances, nonces, i);
}

/// What stops a transaction is reported by its reason, with the nonce of its
/// sender where that is known; a transaction that is not stopped stops nothing.
pub proof fn law_stop_is_reported_with_its_reason(
    entries: Seq<ReservationView>,
    e: ReservationView,
    nonces: Map<Seq<u8>, u64>,
)
    ensures
        first_stop(Seq::empty(), nonces) is None,
        run(entries, nonces) is None ==> first_stop(entries.push(e), nonces) == first_stop(
            entries,
            nonces,
        ),
        run(entries, nonces) matches Some(b) ==> {
            let report = first_stop(entries.push(e), nonces);
            let known = b.nonces.contains_key(e.sender);
            let next = b.nonces[e.sender];
            &&& !known ==> (report matches Some(s) && s.entry == e && s.current_nonce is None
                && s.reason == "sender nonce unavailable in current state"@)
            &&& known && e.nonce < next ==> report is None
            &&& known && e.nonce >= next && e.status != XtEntryStatus::Released ==> (report
                matches Some(s) && s.entry == e && s.current_nonce == Some(next) && s.reason
                == "reservation is not released"@)
            &&& known && e.nonce > next && e.status == XtEntryStatus::Released ==> (report
                matches Some(s) && s.entry == e && s.current_nonce == Some(next) && s.reason
                == "nonce does not match current execution cursor"@)
            &&& known && e.nonce == next && e.status == XtEntryStatus::Released ==> report is None
        },
{
    assert(entries.push(e).drop_last() =~= entries);
}

} // verus!
