//! The pool of XT instances.

use vstd::prelude::*;
use vstd::string::*;

use super::execution::{
    executable_instances, executable_views, first_blocked, first_blocked_reason, run_all,
    ExecutableXtInstance, XtBlockedReason,
};
use super::index::{
    blocking_nonces, find_sender, holds_slots, index_ok, indexes, rebuild_senders,
    SenderNonceReservation, SenderReservations,
};
use super::lemmas::{
    lemma_aborted_wf, lemma_first_conflict, lemma_included_wf, lemma_position, lemma_position_is,
    lemma_rank, lemma_released_wf, lemma_senders_in, lemma_slots_kept, lemma_submitted_wf, mentions,
    mentions_carried, pairwise_disjoint,
};
use super::model::{
    aborted, active, conflict_error, conflicts, executed, executes_before, first_conflict,
    gate_restored, included, included_entry, included_instance, instance, is_at, live, position,
    projected, rank, release_result, released, released_count, released_entry, released_instance,
    reservations, senders_in, slot, submit_result, submitted, wf_instances, wf_pool, InstanceView,
    PoolErrorView, PoolView, ReservationView, TxView, XtEntryStatus, XtReservationPhase,
};
use super::nonces::NonceTable;
use super::reservation::{
    build_reservations, count_released, decode_reservations, decoded_txs, entry_views,
    instance_views, phase_entries, raw_views, same_reservations, sender_views, tx_views,
    unique_senders, SignedTx, XtInstance, XtPoolError, XtReservation,
};
use super::slot_laws::law_active_sender_has_a_blocking_nonce;
use super::types::{ReleaseXtRequest, SubmitXtRequest, XtOrderKey};
use crate::ids::{id_views, insert_id, remove_id};
use crate::primitives::{bytes_lt, text_less, Address};

verus! {

broadcast use vstd::std_specs::btree::group_btree_axioms;

/// What the request to submit does: the new pool, or why it is refused.
pub open spec fn submit_outcome(pool: PoolView, request: SubmitXtRequest) -> Result<
    PoolView,
    PoolErrorView,
> {
    match decoded_txs(raw_views(request.transactions@)) {
        Ok(txs) => submit_result(pool, request.instance_id@, request.order, txs),
        Err(text) => Err(PoolErrorView::InvalidTransaction(text)),
    }
}

/// What the request to release does: the new pool, or why it is refused. The
/// transactions matter only where the pool knows the instance.
pub open spec fn release_outcome(pool: PoolView, request: ReleaseXtRequest) -> Result<
    PoolView,
    PoolErrorView,
> {
    match decoded_txs(raw_views(request.transactions@)) {
        Ok(txs) => release_result(pool, request.instance_id@, txs),
        Err(text) => if live(pool.instances, request.instance_id@) {
            Err(PoolErrorView::InvalidTransaction(text))
        } else {
            Err(PoolErrorView::UnknownInstance(request.instance_id@))
        },
    }
}

/// An index stays right for the senders whose instances stay.
proof fn lemma_index_carried(
    by_sender: Seq<SenderReservations>,
    a: Seq<InstanceView>,
    b: Seq<InstanceView>,
    touched: Seq<Seq<u8>>,
)
    requires
        pairwise_disjoint(a),
        pairwise_disjoint(b),
        forall|other: Seq<u8>|
            !touched.contains(other) ==> #[trigger] indexes(by_sender, a, other)
                && mentions_carried(a, b, other) && mentions_carried(b, a, other),
    ensures
        forall|other: Seq<u8>|
            !touched.contains(other) ==> #[trigger] indexes(by_sender, b, other),
{
    assert forall|other: Seq<u8>| !touched.contains(other) implies #[trigger] indexes(
        by_sender,
        b,
        other,
    ) by {
        assert(indexes(by_sender, a, other));
        lemma_slots_kept(a, b, other);
        assert forall|i: int|
            0 <= i < by_sender.len() && (#[trigger] by_sender[i]).sender@ == other implies holds_slots(
            by_sender[i].by_nonce@,
            b,
            other,
        ) by {
            assert(holds_slots(by_sender[i].by_nonce@, a, other));
            assert forall|n: u64|
                match #[trigger] slot(b, other, n) {
                    Some(s) => by_sender[i].by_nonce@.contains_key(n)
                        && by_sender[i].by_nonce@[n]@ == s,
                    None => !by_sender[i].by_nonce@.contains_key(n),
                } by {
                assert(slot(a, other, n) == slot(b, other, n));
            }
        }
        if forall|i: int| 0 <= i < by_sender.len() ==> (#[trigger] by_sender[i]).sender@ != other {
            assert forall|n: u64| #[trigger] slot(b, other, n) is None by {
                assert(slot(a, other, n) == slot(b, other, n));
            }
        }
    }
}

/// How much of an instance can execute.
#[derive(Debug, Clone, Copy, PartialEq, Eq, Structural)]
pub struct ReleasedCounts {
    pub senders: usize,
    pub xt: usize,
    pub put_inbox: usize,
}

/// The XT instances that the builder knows, the nonces that they reserve, and
/// the IDs that hold the pool gate closed.
#[derive(Debug)]
pub struct XtPool {
    /// In the order of execution.
    instances: Vec<XtInstance>,
    /// In the order of the senders.
    by_sender: Vec<SenderReservations>,
    /// Chain-wide pool inclusion gate. Holds the IDs of in-flight XT instances
    /// from the moment `submit_locked` arrives until the builder either
    /// physically executes the instance (`note_executed`) or aborts it. While
    /// non-empty, mempool txs from senders not participating in any in-flight
    /// instance are skipped during flashblock build, keeping the executor's
    /// pre-state aligned with the sidecar's simulation baseline.
    pool_gate: Vec<String>,
}

impl View for XtPool {
    type V = PoolView;

    closed spec fn view(&self) -> PoolView {
        PoolView {
            instances: instance_views(self.instances@),
            gate: id_views(self.pool_gate@).to_set(),
        }
    }
}

impl Default for XtPool {
    /// An empty pool, its gate open.
    fn default() -> (res: Self)
        ensures
            res.wf(),
            res@.instances == Seq::<InstanceView>::empty(),
            res@.gate == Set::<Seq<char>>::empty(),
    {
        let res = XtPool { instances: Vec::new(), by_sender: Vec::new(), pool_gate: Vec::new() };
        assert(res@.instances =~= Seq::<InstanceView>::empty());
        assert(res@.gate =~= Set::<Seq<char>>::empty());
        res
    }
}

impl XtPool {
    /// What every operation keeps: the instances are in order and reserve
    /// disjoint nonces, and the index beside them agrees with them.
    pub closed spec fn wf(&self) -> bool {
        &&& wf_pool(self@)
        &&& forall|i: int| 0 <= i < self.instances@.len() ==> (#[trigger] self.instances@[i]).wf()
        &&& index_ok(self.by_sender@, self@.instances)
        &&& id_views(self.pool_gate@).no_duplicates()
    }

    /// The model behind a well-formed pool is well formed.
    pub proof fn lemma_wf(&self)
        requires
            self.wf(),
        ensures
            wf_pool(self@),
    {
    }

    /// Where the instance `id` stands.
    fn find_instance(&self, id: &String) -> (res: Option<usize>)
        requires
            wf_instances(self@.instances),
        ensures
            match res {
                Some(i) => i < self.instances@.len() && is_at(self@.instances, id@, i as int)
                    && live(self@.instances, id@) && position(self@.instances, id@) == i,
                None => !live(self@.instances, id@),
            },
    {
        let mut i: usize = 0;
        while i < self.instances.len()
            invariant
                i <= self.instances@.len(),
                wf_instances(self@.instances),
                forall|k: int|
                    0 <= k < i ==> (#[trigger] self.instances@[k]).instance_id@ != id@,
            decreases self.instances@.len() - i,
        {
            if self.instances[i].instance_id == *id {
                proof {
                    lemma_position_is(self@.instances, id@, i as int);
                }
                return Some(i);
            }
            i += 1;
        }
        assert(!live(self@.instances, id@)) by {
            if live(self@.instances, id@) {
                lemma_position(self@.instances, id@);
                let k = position(self@.instances, id@);
                assert(self.instances@[k].instance_id@ == id@);
            }
        }
        None
    }

    /// The reservation of `nonce` of `sender`.
    fn slot_ref(&self, sender: Address, nonce: u64) -> (res: Option<&SenderNonceReservation>)
        requires
            self.wf(),
        ensures
            match res {
                Some(r) => slot(self@.instances, sender@, nonce) == Some(r@),
                None => slot(self@.instances, sender@, nonce) is None,
            },
    {
        assert(indexes(self.by_sender@, self@.instances, sender@));
        match find_sender(&self.by_sender, sender) {
            Some(i) => {
                assert(holds_slots(
                    self.by_sender@[i as int].by_nonce@,
                    self@.instances,
                    sender@,
                ));
                proof {
                    let _ = slot(self@.instances, sender@, nonce);
                }
                self.by_sender[i].by_nonce.get(&nonce)
            },
            None => None,
        }
    }

    /// Returns true if an XT instance has reserved `nonce` of `sender`.
    pub fn has_reserved_nonce(&self, sender: Address, nonce: u64) -> (res: bool)
        requires
            self.wf(),
        ensures
            res == (slot(self@.instances, sender@, nonce) is Some),
    {
        match self.slot_ref(sender, nonce) {
            Some(reservation) => reservation.status.reserves_nonce(),
            None => false,
        }
    }

    /// Returns true if an XT instance has reserved `nonce` of `sender` and the
    /// transaction is not included yet.
    pub fn has_blocking_nonce(&self, sender: Address, nonce: u64) -> (res: bool)
        requires
            self.wf(),
        ensures
            res == (slot(self@.instances, sender@, nonce) matches Some(s) && s.status.blocks()),
            res == (slot(self@.instances, sender@, nonce) matches Some(s) && (s.status
                == XtEntryStatus::Locked || s.status == XtEntryStatus::Released)),
    {
        match self.slot_ref(sender, nonce) {
            Some(reservation) => reservation.status.blocks_pool_tx(),
            None => false,
        }
    }

    /// The first nonce of `sender`, from `start_nonce` on, that no XT instance
    /// has reserved; the largest nonce if there is none.
    pub fn projected_next_nonce(&self, sender: Address, start_nonce: u64) -> (res: u64)
        requires
            self.wf(),
        ensures
            res == projected(self@.instances, sender@, start_nonce),
    {
        let mut next_nonce: u64 = start_nonce;
        loop
            invariant
                self.wf(),
                projected(self@.instances, sender@, next_nonce) == projected(
                    self@.instances,
                    sender@,
                    start_nonce,
                ),
            decreases u64::MAX - next_nonce,
        {
            match self.slot_ref(sender, next_nonce) {
                Some(reservation) => {
                    if !reservation.status.counts_for_pending() || next_nonce == u64::MAX {
                        return next_nonce;
                    }
                    next_nonce += 1;
                },
                None => {
                    return next_nonce;
                },
            }
        }
    }

    /// Whether the reservations at `i` block mempool transactions.
    fn blocks_at(&self, i: usize) -> (res: bool)
        requires
            self.wf(),
            i < self.by_sender@.len(),
        ensures
            res == active(self@.instances, self.by_sender@[i as int].sender@),
    {
        let reservations = &self.by_sender[i];
        proof {
            let who = reservations.sender@;
            let map = reservations.by_nonce@;
            let blocking = blocking_nonces(map);
            assert(indexes(self.by_sender@, self@.instances, who));
            assert(holds_slots(map, self@.instances, who));
            assert(map.dom().finite());
            assert(blocking.finite());
            if reservations.blocking_count > 0 {
                let n = blocking.choose();
                assert(blocking.contains(n));
                assert(slot(self@.instances, who, n) == Some(map[n]@));
            } else if active(self@.instances, who) {
                let n = choose|n: u64|
                    (#[trigger] slot(self@.instances, who, n)) matches Some(s) && s.status.blocks();
                assert(blocking.contains(n));
                blocking.lemma_len0_is_empty();
            }
        }
        reservations.blocking_count > 0
    }

    /// Returns true while `sender` has at least one in-flight XT reservation
    /// that blocks pool inclusion at some nonce.
    pub fn is_active_sender(&self, sender: Address) -> (res: bool)
        requires
            self.wf(),
        ensures
            res == active(self@.instances, sender@),
            res == exists|nonce: u64|
                (#[trigger] slot(self@.instances, sender@, nonce)) matches Some(s) && (s.status
                    == XtEntryStatus::Locked || s.status == XtEntryStatus::Released),
    {
        proof {
            law_active_sender_has_a_blocking_nonce(self@.instances, sender@);
        }
        match find_sender(&self.by_sender, sender) {
            Some(i) => self.blocks_at(i),
            None => {
                assert(indexes(self.by_sender@, self@.instances, sender@));
                false
            },
        }
    }

    /// The senders with an in-flight XT reservation, in byte order.
    pub fn active_senders(&self) -> (res: Vec<Address>)
        requires
            self.wf(),
        ensures
            forall|i: int, j: int|
                0 <= i < j < res@.len() ==> bytes_lt((#[trigger] res@[i])@, (#[trigger] res@[j])@),
            forall|sender: Seq<u8>|
                #[trigger] sender_views(res@).contains(sender) <==> active(
                    self@.instances,
                    sender,
                ),
    {
        let mut senders: Vec<Address> = Vec::new();
        let mut i: usize = 0;
        while i < self.by_sender.len()
            invariant
                self.wf(),
                i <= self.by_sender@.len(),
                forall|a: int, b: int|
                    0 <= a < b < senders@.len() ==> bytes_lt(
                        (#[trigger] senders@[a])@,
                        (#[trigger] senders@[b])@,
                    ),
                forall|a: int|
                    0 <= a < senders@.len() ==> exists|k: int|
                        0 <= k < i && (#[trigger] self.by_sender@[k]).sender@ == (
                        #[trigger] senders@[a])@ && active(self@.instances, senders@[a]@),
                forall|k: int|
                    0 <= k < i && active(self@.instances, (#[trigger] self.by_sender@[k]).sender@)
                        ==> sender_views(senders@).contains(self.by_sender@[k].sender@),
            decreases self.by_sender@.len() - i,
        {
            if self.blocks_at(i) {
                let ghost before = senders@;
                let sender = self.by_sender[i].sender;
                senders.push(sender);
                assert forall|a: int, b: int| 0 <= a < b < senders@.len() implies bytes_lt(
                    (#[trigger] senders@[a])@,
                    (#[trigger] senders@[b])@,
                ) by {
                    if b == before.len() {
                        assert(before[a] == senders@[a]);
                        let k = choose|k: int|
                            0 <= k < i && (#[trigger] self.by_sender@[k]).sender@ == before[a]@;
                        assert(bytes_lt(self.by_sender@[k].sender@, sender@));
                    }
                }
                assert forall|k: int|
                    0 <= k < i + 1 && active(
                        self@.instances,
                        (#[trigger] self.by_sender@[k]).sender@,
                    ) implies sender_views(senders@).contains(self.by_sender@[k].sender@) by {
                    if k < i {
                        let who = self.by_sender@[k].sender@;
                        let a = choose|a: int|
                            0 <= a < sender_views(before).len() && sender_views(before)[a] == who;
                        assert(sender_views(senders@)[a] == who);
                    } else {
                        assert(sender_views(senders@)[before.len() as int] == sender@);
                    }
                }
                assert forall|a: int| 0 <= a < senders@.len() implies exists|k: int|
                    0 <= k < i + 1 && (#[trigger] self.by_sender@[k]).sender@ == (
                    #[trigger] senders@[a])@ && active(self@.instances, senders@[a]@) by {
                    if a < before.len() {
                        assert(senders@[a] == before[a]);
                    } else {
                        assert(self.by_sender@[i as int].sender@ == senders@[a]@);
                    }
                }
            }
            i += 1;
        }
        assert forall|sender: Seq<u8>|
            #[trigger] sender_views(senders@).contains(sender) <==> active(
                self@.instances,
                sender,
            ) by {
            if active(self@.instances, sender) {
                assert(indexes(self.by_sender@, self@.instances, sender));
                let k = choose|k: int|
                    0 <= k < self.by_sender@.len() && (#[trigger] self.by_sender@[k]).sender@
                        == sender;
                assert(sender_views(senders@).contains(self.by_sender@[k].sender@));
            }
            if sender_views(senders@).contains(sender) {
                let a = choose|a: int|
                    0 <= a < senders@.len() && sender_views(senders@)[a] == sender;
                assert(senders@[a]@ == sender);
            }
        }
        senders
    }

    /// Returns true while at least one in-flight XT is holding the pool gate
    /// closed. While true, mempool txs from senders without an in-flight XT
    /// reservation are skipped during flashblock build.
    pub fn pool_gate_closed(&self) -> (res: bool)
        ensures
            res == (self@.gate != Set::<Seq<char>>::empty()),
    {
        proof {
            if self.pool_gate@.len() > 0 {
                assert(id_views(self.pool_gate@)[0] == self.pool_gate@[0]@);
                assert(self@.gate.contains(self.pool_gate@[0]@));
            } else {
                assert(self@.gate =~= Set::<Seq<char>>::empty());
            }
        }
        !self.pool_gate.is_empty()
    }

    /// Returns true if the pool gate is closed and this sender is unrelated
    /// to every in-flight XT reservation. The flashblock pool iterator skips
    /// such txs without marking them invalid so they can be reconsidered as
    /// soon as the pool gate lifts.
    pub fn should_hold_pool_tx(&self, sender: Address) -> (res: bool)
        requires
            self.wf(),
        ensures
            res == (self@.gate != Set::<Seq<char>>::empty() && !active(self@.instances, sender@)),
            res == (self@.gate != Set::<Seq<char>>::empty() && forall|nonce: u64|
                (#[trigger] slot(self@.instances, sender@, nonce)) matches Some(s) ==> s.status
                    == XtEntryStatus::Included),
    {
        self.pool_gate_closed() && !self.is_active_sender(sender)
    }

    /// The instances that can execute on `current_nonces`, one after the other
    /// in the order of execution. An instance that cannot execute is passed
    /// over.
    pub fn collect_executable_instances(&self, current_nonces: &NonceTable) -> (res: Vec<
        ExecutableXtInstance,
    >)
        requires
            self.wf(),
        ensures
            executable_views(res@) == run_all(self@.instances, current_nonces@).1,
            res@.len() == run_all(self@.instances, current_nonces@).1.len(),
            forall|k: int|
                0 <= k < res@.len() ==> {
                    let e = run_all(self@.instances, current_nonces@).1[k];
                    &&& (#[trigger] res@[k]).instance_id@ == e.instance_id
                    &&& res@[k].transactions@.len() == e.transactions.len()
                    &&& forall|i: int|
                        0 <= i < e.transactions.len() ==> (#[trigger] res@[k].transactions@[i])@
                            == e.transactions[i]
                    &&& res@[k].senders@.len() == e.senders.len()
                    &&& forall|i: int|
                        0 <= i < e.senders.len() ==> (#[trigger] res@[k].senders@[i])@
                            == e.senders[i]
                },
    {
        let res = executable_instances(&self.instances, current_nonces);
        assert forall|k: int| 0 <= k < res@.len() implies {
            let e = run_all(self@.instances, current_nonces@).1[k];
            &&& (#[trigger] res@[k]).instance_id@ == e.instance_id
            &&& res@[k].transactions@.len() == e.transactions.len()
            &&& forall|i: int|
                0 <= i < e.transactions.len() ==> (#[trigger] res@[k].transactions@[i])@
                    == e.transactions[i]
            &&& res@[k].senders@.len() == e.senders.len()
            &&& forall|i: int|
                0 <= i < e.senders.len() ==> (#[trigger] res@[k].senders@[i])@ == e.senders[i]
        } by {
            let e = run_all(self@.instances, current_nonces@).1[k];
            assert(executable_views(res@)[k] == e);
            assert forall|i: int| 0 <= i < e.transactions.len() implies (
            #[trigger] res@[k].transactions@[i])@ == e.transactions[i] by {
                assert(raw_views(res@[k].transactions@)[i] == e.transactions[i]);
            }
            assert forall|i: int| 0 <= i < e.senders.len() implies (
            #[trigger] res@[k].senders@[i])@ == e.senders[i] by {
                assert(sender_views(res@[k].senders@)[i] == e.senders[i]);
            }
        }
        res
    }

    /// What stops the first instance that cannot execute on `current_nonces`.
    pub fn first_blocked_instance_reason(&self, current_nonces: &NonceTable) -> (res: Option<
        XtBlockedReason,
    >)
        requires
            self.wf(),
        ensures
            match first_blocked(self@.instances, current_nonces@) {
                Some((id, s)) => res matches Some(r) && r.reports(id, s),
                None => res is None,
            },
            first_blocked(self@.instances, current_nonces@) matches Some((id, s)) ==> (
            res matches Some(r) && {
                &&& r.instance_id@ == id && r.sender@ == s.entry.sender
                &&& r.phase@ == (match s.entry.phase {
                    XtReservationPhase::PutInbox => "put_inbox"@,
                    XtReservationPhase::Xt => "xt"@,
                })
                &&& r.status@ == (match s.entry.status {
                    XtEntryStatus::Locked => "locked"@,
                    XtEntryStatus::Released => "released"@,
                    XtEntryStatus::Included => "included"@,
                })
                &&& r.tx_index == s.entry.tx_index && r.entry_nonce == s.entry.nonce
                &&& r.current_nonce == s.current_nonce && r.tx_hash@ == s.entry.tx_hash
                &&& r.reason@ == s.reason
            }),
    {
        first_blocked_reason(&self.instances, current_nonces)
    }

    /// Whether `r`, asked for by instance `id`, takes a nonce that is reserved
    /// for another transaction.
    fn conflicts_with_pending(&self, id: &String, r: &XtReservation) -> (res: bool)
        requires
            self.wf(),
        ensures
            res == conflicts(self@.instances, id@, r@),
    {
        match self.slot_ref(r.sender, r.nonce) {
            Some(existing) => existing.status.counts_for_pending() && !(existing.instance_id == *id
                && existing.tx_hash == r.tx_hash),
            None => false,
        }
    }

    /// The error for the first of `rs` that conflicts.
    fn find_conflict(&self, id: &String, rs: &Vec<XtReservation>) -> (res: Option<XtPoolError>)
        requires
            self.wf(),
        ensures
            match first_conflict(self@.instances, id@, entry_views(rs@)) {
                Some(r) => res matches Some(e) && e@ == conflict_error(r),
                None => res is None,
            },
    {
        let ghost all = entry_views(rs@);
        let mut i: usize = 0;
        while i < rs.len()
            invariant
                self.wf(),
                i <= rs@.len(),
                all == entry_views(rs@),
                forall|k: int|
                    0 <= k < i ==> !conflicts(self@.instances, id@, #[trigger] all[k]),
            decreases rs@.len() - i,
        {
            let conflict = self.conflicts_with_pending(id, &rs[i]);
            assert(all[i as int] == rs@[i as int]@);
            if conflict {
                proof {
                    lemma_first_conflict(self@.instances, id@, all);
                }
                return Some(rs[i].conflict());
            }
            i += 1;
        }
        proof {
            lemma_first_conflict(self@.instances, id@, all);
        }
        None
    }

    /// How many instances execute before the instance `id` with key `order`.
    fn instance_rank(&self, id: &String, order: XtOrderKey) -> (res: usize)
        requires
            wf_instances(self@.instances),
        ensures
            res == rank(
                self@.instances,
                InstanceView { id: id@, order, entries: Seq::<ReservationView>::empty() },
            ),
            res <= self.instances@.len(),
    {
        let ghost x = InstanceView { id: id@, order, entries: Seq::<ReservationView>::empty() };
        proof {
            lemma_rank(self@.instances, x);
        }
        let mut i: usize = 0;
        while i < self.instances.len()
            invariant
                i <= self.instances@.len(),
                x == (InstanceView {
                    id: id@,
                    order,
                    entries: Seq::<ReservationView>::empty(),
                }),
                forall|k: int|
                    0 <= k < i ==> executes_before(#[trigger] self@.instances[k], x),
                rank(self@.instances, x) <= self@.instances.len(),
                forall|k: int|
                    0 <= k < self@.instances.len() ==> (executes_before(
                        #[trigger] self@.instances[k],
                        x,
                    ) <==> k < rank(self@.instances, x)),
            decreases self.instances@.len() - i,
        {
            let other = &self.instances[i];
            assert(self@.instances[i as int] == other@);
            let before = other.order.less(order) || (other.order == order && text_less(
                other.instance_id.as_str(),
                id.as_str(),
            ));
            assert(before == executes_before(self@.instances[i as int], x));
            if !before {
                assert(rank(self@.instances, x) == i) by {
                    let _ = self@.instances[rank(self@.instances, x) as int];
                }
                return i;
            }
            i += 1;
        }
        assert(rank(self@.instances, x) == i) by {
            let _ = self@.instances[rank(self@.instances, x) as int];
        }
        i
    }

    /// Adds an instance that conflicts with no other.
    fn insert_instance(&mut self, id: String, order: XtOrderKey, entries: Vec<XtReservation>)
        requires
            old(self).wf(),
            wf_instances(
                old(self)@.instances.insert(
                    rank(
                        old(self)@.instances,
                        InstanceView { id: id@, order, entries: entry_views(entries@) },
                    ) as int,
                    InstanceView { id: id@, order, entries: entry_views(entries@) },
                ),
            ),
        ensures
            final(self)@.instances == old(self)@.instances.insert(
                rank(
                    old(self)@.instances,
                    InstanceView { id: id@, order, entries: entry_views(entries@) },
                ) as int,
                InstanceView { id: id@, order, entries: entry_views(entries@) },
            ),
            final(self)@.gate == old(self)@.gate,
            id_views(final(self).pool_gate@).no_duplicates(),
            index_ok(final(self).by_sender@, final(self)@.instances),
            forall|i: int|
                0 <= i < final(self).instances@.len() ==> (
                #[trigger] final(self).instances@[i]).wf(),
    {
        let ghost before = self@.instances;
        let ghost had = self.instances@;
        let ghost x = InstanceView { id: id@, order, entries: entry_views(entries@) };
        let at = self.instance_rank(&id, order);
        proof {
            lemma_rank_by_key(
                before,
                x,
                InstanceView { id: id@, order, entries: Seq::<ReservationView>::empty() },
            );
        }
        let senders = unique_senders(&entries);
        let listed = unique_senders(&entries);
        let instance = XtInstance { instance_id: id, order, entries, senders };
        assert(instance@ == x);
        assert(instance.wf());
        self.instances.insert(at, instance);
        let ghost after = self@.instances;
        assert(self.instances@ == had.insert(at as int, instance));
        assert(after =~= before.insert(at as int, x));
        assert forall|i: int| 0 <= i < self.instances@.len() implies (
        #[trigger] self.instances@[i]).wf() by {
            if i < at {
                assert(self.instances@[i] == had[i]);
            } else if i > at {
                assert(self.instances@[i] == had[i - 1]);
            }
        }
        proof {
            let touched = sender_views(listed@);
            assert forall|other: Seq<u8>| !touched.contains(other) implies #[trigger] indexes(
                self.by_sender@,
                before,
                other,
            ) && mentions_carried(before, after, other) && mentions_carried(
                after,
                before,
                other,
            ) by {
                lemma_senders_in(x.entries, other);
                assert(!mentions(x, other));
                assert forall|i: int|
                    0 <= i < before.len() && mentions(#[trigger] before[i], other) implies exists|
                    k: int,
                |
                    0 <= k < after.len() && #[trigger] after[k] == before[i] by {
                    assert(after[if i < at { i } else { i + 1 }] == before[i]);
                }
                assert forall|i: int|
                    0 <= i < after.len() && mentions(#[trigger] after[i], other) implies exists|
                    k: int,
                |
                    0 <= k < before.len() && #[trigger] before[k] == after[i] by {
                    assert(i != at);
                    assert(before[if i < at { i } else { i - 1 }] == after[i]);
                }
            }
            lemma_index_carried(self.by_sender@, before, after, touched);
        }
        rebuild_senders(&self.instances, &mut self.by_sender, &listed);
    }

    /// Adds the XT transactions `rs` as instance `id`.
    fn submit(&mut self, id: String, order: XtOrderKey, rs: Vec<XtReservation>) -> (res: Result<
        (),
        XtPoolError,
    >)
        requires
            old(self).wf(),
            exists|txs: Seq<TxView>|
                entry_views(rs@) == #[trigger] reservations(
                    id@,
                    order,
                    XtReservationPhase::Xt,
                    XtEntryStatus::Locked,
                    txs,
                ),
        ensures
            final(self).wf(),
            match submitted(old(self)@, id@, order, entry_views(rs@)) {
                Ok(pool) => res is Ok && final(self)@ == pool,
                Err(error) => (res matches Err(e) && e@ == error) && final(self)@ == old(self)@,
            },
    {
        match self.find_instance(&id) {
            Some(i) => {
                let existing = phase_entries(&self.instances[i].entries, XtReservationPhase::Xt);
                if same_reservations(&existing, &rs) {
                    return Ok(());
                }
                return Err(XtPoolError::InstanceMismatch(id));
            },
            None => {},
        }
        match self.find_conflict(&id, &rs) {
            Some(error) => {
                return Err(error);
            },
            None => {},
        }
        proof {
            let txs = choose|txs: Seq<TxView>|
                entry_views(rs@) == #[trigger] reservations(
                    id@,
                    order,
                    XtReservationPhase::Xt,
                    XtEntryStatus::Locked,
                    txs,
                );
            lemma_submitted_wf(self@, id@, order, txs);
        }
        let gate_id = id.clone();
        self.insert_instance(id, order, rs);
        insert_id(&mut self.pool_gate, &gate_id);
        Ok(())
    }

    /// Reads the senders `touched` of the instance at `i` into the index again,
    /// where only that instance has changed since the index was right.
    fn reindex(&mut self, i: usize, touched: &Vec<Address>, Ghost(before): Ghost<Seq<InstanceView>>)
        requires
            i < old(self).instances@.len(),
            i < before.len(),
            old(self)@.instances == before.update(i as int, old(self)@.instances[i as int]),
            wf_instances(before),
            wf_instances(old(self)@.instances),
            index_ok(old(self).by_sender@, before),
            forall|other: Seq<u8>|
                mentions(before[i as int], other) || mentions(
                    old(self)@.instances[i as int],
                    other,
                ) ==> #[trigger] sender_views(touched@).contains(other),
        ensures
            final(self).instances == old(self).instances,
            final(self).pool_gate == old(self).pool_gate,
            index_ok(final(self).by_sender@, final(self)@.instances),
    {
        proof {
            let listed = sender_views(touched@);
            let after = self@.instances;
            assert forall|other: Seq<u8>| !listed.contains(other) implies #[trigger] indexes(
                self.by_sender@,
                before,
                other,
            ) && mentions_carried(before, after, other) && mentions_carried(
                after,
                before,
                other,
            ) by {
                assert forall|k: int|
                    0 <= k < before.len() && mentions(#[trigger] before[k], other) implies exists|
                    m: int,
                |
                    0 <= m < after.len() && #[trigger] after[m] == before[k] by {
                    assert(after[k] == before[k]);
                }
                assert forall|k: int|
                    0 <= k < after.len() && mentions(#[trigger] after[k], other) implies exists|
                    m: int,
                |
                    0 <= m < before.len() && #[trigger] before[m] == after[k] by {
                    assert(before[k] == after[k]);
                }
            }
            lemma_index_carried(self.by_sender@, before, after, listed);
        }
        rebuild_senders(&self.instances, &mut self.by_sender, touched);
    }

    /// Releases the instance at `i` behind `put_inbox`.
    fn release_at(&mut self, i: usize, put_inbox: Vec<XtReservation>) -> (res: Result<
        (),
        XtPoolError,
    >)
        requires
            old(self).wf(),
            i < old(self).instances@.len(),
            exists|txs: Seq<TxView>|
                entry_views(put_inbox@) == #[trigger] reservations(
                    old(self)@.instances[i as int].id,
                    old(self)@.instances[i as int].order,
                    XtReservationPhase::PutInbox,
                    XtEntryStatus::Released,
                    txs,
                ),
        ensures
            final(self).wf(),
            match released(
                old(self)@,
                old(self)@.instances[i as int].id,
                entry_views(put_inbox@),
            ) {
                Ok(pool) => res is Ok && final(self)@ == pool,
                Err(error) => (res matches Err(e) && e@ == error) && final(self)@ == old(self)@,
            },
    {
        let ghost before = self@;
        let ghost had = self.instances@;
        let ghost x = self@.instances[i as int];
        let ghost puts = entry_views(put_inbox@);
        proof {
            assert(is_at(before.instances, x.id, i as int));
            lemma_position_is(before.instances, x.id, i as int);
        }
        let existing = phase_entries(&self.instances[i].entries, XtReservationPhase::PutInbox);
        let first_release = existing.is_empty();
        if first_release {
            match self.find_conflict(&self.instances[i].instance_id, &put_inbox) {
                Some(error) => {
                    return Err(error);
                },
                None => {},
            }
        } else if !same_reservations(&existing, &put_inbox) {
            return Err(XtPoolError::InstanceMismatch(self.instances[i].instance_id.clone()));
        }
        proof {
            let txs = choose|txs: Seq<TxView>|
                puts == #[trigger] reservations(
                    x.id,
                    x.order,
                    XtReservationPhase::PutInbox,
                    XtEntryStatus::Released,
                    txs,
                );
            lemma_released_wf(before, x.id, txs);
        }
        let instance = &mut self.instances[i];
        if first_release {
            let mut entries = put_inbox;
            entries.append(&mut instance.entries);
            instance.entries = entries;
        }
        release_entries(&mut instance.entries);
        instance.senders = unique_senders(&instance.entries);
        let senders = unique_senders(&instance.entries);
        proof {
            let after = self@.instances;
            let y = released_instance(x, puts);
            assert(self.instances@[i as int]@.entries =~= y.entries);
            assert(self.instances@[i as int]@ == y);
            assert(after =~= before.instances.update(i as int, y));
            assert forall|k: int| 0 <= k < self.instances@.len() implies (
            #[trigger] self.instances@[k]).wf() by {
                if k != i {
                    assert(self.instances@[k] == had[k]);
                }
            }
            assert forall|other: Seq<u8>|
                mentions(x, other) || mentions(y, other) implies #[trigger] sender_views(
                senders@,
            ).contains(other) by {
                lemma_senders_in(y.entries, other);
                if mentions(x, other) {
                    let j = choose|j: int|
                        0 <= j < x.entries.len() && (#[trigger] x.entries[j]).sender == other;
                    let n = y.entries.len() - x.entries.len();
                    assert(y.entries[n + j].sender == other);
                }
            }
        }
        self.reindex(i, &senders, Ghost(before.instances));
        Ok(())
    }

    /// Reserves the nonces of the signed transactions `txs` for instance
    /// `instance_id` and closes the pool gate for it. A repeat of a live
    /// instance changes nothing; in particular it does not close the pool gate
    /// again.
    pub fn submit_signed(
        &mut self,
        instance_id: String,
        order: XtOrderKey,
        txs: Vec<SignedTx>,
    ) -> (res: Result<(), XtPoolError>)
        requires
            old(self).wf(),
        ensures
            final(self).wf(),
            match submit_result(old(self)@, instance_id@, order, tx_views(txs@)) {
                Ok(pool) => res is Ok && final(self)@ == pool,
                Err(error) => (res matches Err(e) && e@ == error) && final(self)@ == old(self)@,
            },
    {
        let rs = build_reservations(
            &instance_id,
            order,
            txs,
            XtReservationPhase::Xt,
            XtEntryStatus::Locked,
        );
        self.submit(instance_id, order, rs)
    }

    /// Reserves the nonces of an XT instance and closes the pool gate for it,
    /// as `submit_signed` does with the decoded transactions.
    pub fn submit_locked(&mut self, request: SubmitXtRequest) -> (res: Result<(), XtPoolError>)
        requires
            old(self).wf(),
        ensures
            final(self).wf(),
            match submit_outcome(old(self)@, request) {
                Ok(pool) => res is Ok && final(self)@ == pool,
                Err(error) => (res matches Err(e) && e@ == error) && final(self)@ == old(self)@,
            },
    {
        match decode_reservations(
            &request.instance_id,
            request.order,
            request.transactions,
            XtReservationPhase::Xt,
            XtEntryStatus::Locked,
        ) {
            Ok(rs) => self.submit(request.instance_id, request.order, rs),
            Err(error) => Err(error),
        }
    }

    /// Makes instance `instance_id` executable behind the signed `putInbox`
    /// transactions `txs`.
    pub fn release_signed(&mut self, instance_id: String, txs: Vec<SignedTx>) -> (res: Result<
        (),
        XtPoolError,
    >)
        requires
            old(self).wf(),
        ensures
            final(self).wf(),
            match release_result(old(self)@, instance_id@, tx_views(txs@)) {
                Ok(pool) => res is Ok && final(self)@ == pool,
                Err(error) => (res matches Err(e) && e@ == error) && final(self)@ == old(self)@,
            },
    {
        match self.find_instance(&instance_id) {
            Some(i) => {
                let put_inbox = build_reservations(
                    &instance_id,
                    self.instances[i].order,
                    txs,
                    XtReservationPhase::PutInbox,
                    XtEntryStatus::Released,
                );
                self.release_at(i, put_inbox)
            },
            None => Err(XtPoolError::UnknownInstance(instance_id)),
        }
    }

    /// Makes an XT instance executable, as `release_signed` does with the
    /// decoded transactions. Transactions are decoded only for an instance that
    /// the pool knows.
    pub fn release(&mut self, request: ReleaseXtRequest) -> (res: Result<(), XtPoolError>)
        requires
            old(self).wf(),
        ensures
            final(self).wf(),
            match release_outcome(old(self)@, request) {
                Ok(pool) => res is Ok && final(self)@ == pool,
                Err(error) => (res matches Err(e) && e@ == error) && final(self)@ == old(self)@,
            },
    {
        match self.find_instance(&request.instance_id) {
            Some(i) => {
                match decode_reservations(
                    &request.instance_id,
                    self.instances[i].order,
                    request.transactions,
                    XtReservationPhase::PutInbox,
                    XtEntryStatus::Released,
                ) {
                    Ok(put_inbox) => self.release_at(i, put_inbox),
                    Err(error) => Err(error),
                }
            },
            None => Err(XtPoolError::UnknownInstance(request.instance_id)),
        }
    }

    /// What of instance `instance_id` can execute, if the pool knows it.
    pub fn released_counts(&self, instance_id: &str) -> (res: Option<ReleasedCounts>)
        requires
            self.wf(),
        ensures
            match res {
                Some(counts) => live(self@.instances, instance_id@) && ({
                    let entries = instance(self@.instances, instance_id@).entries;
                    &&& counts.senders == senders_in(entries).len()
                    &&& counts.xt == released_count(entries, XtReservationPhase::Xt)
                    &&& counts.put_inbox == released_count(entries, XtReservationPhase::PutInbox)
                }),
                None => !live(self@.instances, instance_id@),
            },
    {
        let id = instance_id.to_owned();
        match self.find_instance(&id) {
            Some(i) => {
                let found = &self.instances[i];
                assert(found.wf());
                assert(sender_views(found.senders@).len() == found.senders@.len());
                Some(
                    ReleasedCounts {
                        senders: found.senders.len(),
                        xt: count_released(&found.entries, XtReservationPhase::Xt),
                        put_inbox: count_released(&found.entries, XtReservationPhase::PutInbox),
                    },
                )
            },
            None => None,
        }
    }

    /// Drops instance `instance_id` with its reservations. Its hold on the pool
    /// gate is lifted even if the instance was never submitted.
    pub fn abort(&mut self, instance_id: &str)
        requires
            old(self).wf(),
        ensures
            final(self).wf(),
            final(self)@ == aborted(old(self)@, instance_id@),
    {
        let id = instance_id.to_owned();
        proof {
            lemma_aborted_wf(self@, id@);
        }
        remove_id(&mut self.pool_gate, &id);
        match self.find_instance(&id) {
            Some(i) => self.remove_instance(i),
            None => {},
        }
    }

    /// Takes out the instance at `i`.
    fn remove_instance(&mut self, i: usize)
        requires
            i < old(self).instances@.len(),
            wf_instances(old(self)@.instances),
            wf_instances(old(self)@.instances.remove(i as int)),
            index_ok(old(self).by_sender@, old(self)@.instances),
            forall|k: int|
                0 <= k < old(self).instances@.len() ==> (#[trigger] old(self).instances@[k]).wf(),
        ensures
            final(self)@.instances == old(self)@.instances.remove(i as int),
            final(self).pool_gate == old(self).pool_gate,
            index_ok(final(self).by_sender@, final(self)@.instances),
            forall|k: int|
                0 <= k < final(self).instances@.len() ==> (
                #[trigger] final(self).instances@[k]).wf(),
    {
        let ghost before = self@.instances;
        let ghost had = self.instances@;
        let instance = self.instances.remove(i);
        let ghost after = self@.instances;
        assert(self.instances@ == had.remove(i as int));
        assert(after =~= before.remove(i as int));
        assert forall|k: int| 0 <= k < self.instances@.len() implies (
        #[trigger] self.instances@[k]).wf() by {
            assert(self.instances@[k] == had[if k < i { k } else { k + 1 }]);
        }
        proof {
            assert(instance == had[i as int]);
            let touched = sender_views(instance.senders@);
            let x = instance@;
            assert(before[i as int] == x);
            assert forall|other: Seq<u8>| !touched.contains(other) implies #[trigger] indexes(
                self.by_sender@,
                before,
                other,
            ) && mentions_carried(before, after, other) && mentions_carried(
                after,
                before,
                other,
            ) by {
                lemma_senders_in(x.entries, other);
                assert(!mentions(x, other));
                assert forall|k: int|
                    0 <= k < before.len() && mentions(#[trigger] before[k], other) implies exists|
                    m: int,
                |
                    0 <= m < after.len() && #[trigger] after[m] == before[k] by {
                    assert(k != i);
                    assert(after[if k < i { k } else { k - 1 }] == before[k]);
                }
                assert forall|k: int|
                    0 <= k < after.len() && mentions(#[trigger] after[k], other) implies exists|
                    m: int,
                |
                    0 <= m < before.len() && #[trigger] before[m] == after[k] by {
                    assert(before[if k < i { k } else { k + 1 }] == after[k]);
                }
            }
            lemma_index_carried(self.by_sender@, before, after, touched);
        }
        rebuild_senders(&self.instances, &mut self.by_sender, &instance.senders);
    }

    /// Lifts the hold of `instance_id` on the pool gate, once the builder has
    /// physically executed it inside a flashblock. Independent of
    /// `mark_included`, which tracks canonical confirmation.
    pub fn note_executed(&mut self, instance_id: &str)
        requires
            old(self).wf(),
        ensures
            final(self).wf(),
            final(self)@ == executed(old(self)@, instance_id@),
    {
        let id = instance_id.to_owned();
        let ghost before = self@;
        remove_id(&mut self.pool_gate, &id);
        assert forall|g: Seq<char>| #[trigger] self@.gate.contains(g) implies live(
            self@.instances,
            g,
        ) by {
            assert(before.gate.contains(g));
        }
    }

    /// Closes the pool gate again for instances that executed in a candidate
    /// flashblock that was later abandoned before publication. This restores
    /// the submit-to-execute lock without resurrecting already aborted
    /// instances.
    pub fn restore_gate(&mut self, instance_ids: &[String])
        requires
            old(self).wf(),
        ensures
            final(self).wf(),
            final(self)@ == gate_restored(old(self)@, id_views(instance_ids@)),
    {
        let ghost ids = id_views(instance_ids@);
        let ghost before = self@;
        let mut i: usize = 0;
        assert(self@ =~= gate_restored(before, ids.take(0)));
        while i < instance_ids.len()
            invariant
                i <= instance_ids@.len(),
                ids == id_views(instance_ids@),
                self.wf(),
                self@ == gate_restored(before, ids.take(i as int)),
            decreases instance_ids@.len() - i,
        {
            let id = &instance_ids[i];
            let ghost now = self@;
            assert(ids.take(i + 1) =~= ids.take(i as int).push(id@));
            if self.find_instance(id).is_some() {
                insert_id(&mut self.pool_gate, id);
            }
            proof {
                let done = ids.take(i as int);
                let next = ids.take(i + 1);
                assert forall|g: Seq<char>| #[trigger] self@.gate.contains(g) == gate_restored(
                    before,
                    next,
                ).gate.contains(g) by {
                    assert(next.contains(g) == (done.contains(g) || g == id@)) by {
                        if done.contains(g) {
                            let k = choose|k: int| 0 <= k < done.len() && done[k] == g;
                            assert(next[k] == g);
                        }
                        if next.contains(g) && g != id@ {
                            let k = choose|k: int| 0 <= k < next.len() && next[k] == g;
                            assert(done[k] == g);
                        }
                        assert(next[i as int] == id@);
                    }
                }
                assert(self@ =~= gate_restored(before, next));
                assert forall|g: Seq<char>| #[trigger] self@.gate.contains(g) implies live(
                    self@.instances,
                    g,
                ) by {
                    if !now.gate.contains(g) {
                        assert(g == id@);
                    }
                }
            }
            i += 1;
        }
        assert(ids.take(i as int) =~= ids);
    }

    /// Records that the instances `instance_ids` were included in a canonical
    /// block. Their nonces stay reserved but no longer block.
    pub fn mark_included(&mut self, instance_ids: &[String])
        requires
            old(self).wf(),
        ensures
            final(self).wf(),
            final(self)@ == included(old(self)@, id_views(instance_ids@)),
    {
        let ghost ids = id_views(instance_ids@);
        let ghost before = self@;
        let mut i: usize = 0;
        assert(self@ =~= included(before, ids.take(0)));
        while i < instance_ids.len()
            invariant
                i <= instance_ids@.len(),
                ids == id_views(instance_ids@),
                wf_pool(before),
                self.wf(),
                self@ == included(before, ids.take(i as int)),
            decreases instance_ids@.len() - i,
        {
            let ghost now = self@.instances;
            let ghost want = included(before, ids.take(i + 1));
            proof {
                lemma_included_wf(before, ids.take(i + 1));
                lemma_included_next(before, ids, i as int);
            }
            match self.find_instance(&instance_ids[i]) {
                Some(at) => self.include_at(at),
                None => {
                    assert(self@ =~= want);
                },
            }
            i += 1;
        }
        assert(ids.take(i as int) =~= ids);
    }

    /// Records that the instance at `i` was included.
    fn include_at(&mut self, i: usize)
        requires
            old(self).wf(),
            i < old(self).instances@.len(),
            wf_instances(
                old(self)@.instances.update(
                    i as int,
                    included_instance(old(self)@.instances[i as int]),
                ),
            ),
        ensures
            final(self).wf(),
            final(self)@.instances == old(self)@.instances.update(
                i as int,
                included_instance(old(self)@.instances[i as int]),
            ),
            final(self)@.gate == old(self)@.gate,
    {
        let ghost before = self@;
        let ghost had = self.instances@;
        let ghost x = self@.instances[i as int];
        let instance = &mut self.instances[i];
        include_entries(&mut instance.entries);
        let senders = unique_senders(&instance.entries);
        proof {
            let y = included_instance(x);
            assert(self.instances@[i as int]@ == y);
            assert(self@.instances =~= before.instances.update(i as int, y));
            lemma_senders_kept(x.entries, y.entries);
            assert forall|k: int| 0 <= k < self.instances@.len() implies (
            #[trigger] self.instances@[k]).wf() by {
                assert(had[k].wf());
                if k != i {
                    assert(self.instances@[k] == had[k]);
                }
            }
            assert forall|other: Seq<u8>|
                mentions(x, other) || mentions(y, other) implies #[trigger] sender_views(
                senders@,
            ).contains(other) by {
                lemma_senders_in(x.entries, other);
                lemma_senders_in(y.entries, other);
            }
        }
        self.reindex(i, &senders, Ghost(before.instances));
        assert forall|g: Seq<char>| #[trigger] self@.gate.contains(g) implies live(
            self@.instances,
            g,
        ) by {
            assert(before.gate.contains(g));
            lemma_position(before.instances, g);
            assert(is_at(self@.instances, g, position(before.instances, g)));
        }
    }
}

/// Recording one more inclusion.
proof fn lemma_included_next(pool: PoolView, ids: Seq<Seq<char>>, i: int)
    requires
        0 <= i < ids.len(),
        wf_pool(pool),
    ensures
        ({
            let now = included(pool, ids.take(i)).instances;
            let next = included(pool, ids.take(i + 1)).instances;
            &&& !live(now, ids[i]) ==> next == now
            &&& live(now, ids[i]) ==> next == now.update(
                position(now, ids[i]),
                included_instance(now[position(now, ids[i])]),
            )
        }),
{
    let done = ids.take(i);
    let taken = ids.take(i + 1);
    let now = included(pool, done).instances;
    let next = included(pool, taken).instances;
    let old = pool.instances;
    lemma_included_wf(pool, done);
    assert forall|g: Seq<char>| #[trigger] taken.contains(g) == (done.contains(g) || g
        == ids[i]) by {
        if done.contains(g) {
            let k = choose|k: int| 0 <= k < done.len() && done[k] == g;
            assert(taken[k] == g);
        }
        if taken.contains(g) && g != ids[i] {
            let k = choose|k: int| 0 <= k < taken.len() && taken[k] == g;
            assert(done[k] == g);
        }
        assert(taken[i] == ids[i]);
    }
    assert forall|k: int| 0 <= k < old.len() implies (#[trigger] now[k]).id == old[k].id
        && next[k] == (if old[k].id == ids[i] { included_instance(now[k]) } else { now[k] }) by {
        lemma_included_twice(old[k]);
    }
    if live(now, ids[i]) {
        let at = position(now, ids[i]);
        lemma_position(now, ids[i]);
        assert forall|k: int| 0 <= k < now.len() && k != at implies (#[trigger] now[k]).id
            != ids[i] by {}
        assert(next =~= now.update(at, included_instance(now[at])));
    } else {
        assert forall|k: int| 0 <= k < now.len() implies (#[trigger] now[k]).id != ids[i] by {
            assert(!is_at(now, ids[i], k));
        }
        assert(next =~= now);
    }
}

/// Recording an inclusion twice is recording it once.
proof fn lemma_included_twice(x: InstanceView)
    ensures
        included_instance(included_instance(x)) == included_instance(x),
{
    assert(included_instance(included_instance(x)).entries =~= included_instance(x).entries);
}

/// Lists with the same senders at each place have the same senders.
proof fn lemma_senders_kept(a: Seq<ReservationView>, b: Seq<ReservationView>)
    requires
        a.len() == b.len(),
        forall|j: int| 0 <= j < a.len() ==> (#[trigger] a[j]).sender == b[j].sender,
    ensures
        senders_in(a) == senders_in(b),
    decreases a.len(),
{
    if a.len() > 0 {
        assert forall|j: int| 0 <= j < a.len() - 1 implies (#[trigger] a.drop_last()[j]).sender
            == b.drop_last()[j].sender by {
            assert(a[j].sender == b[j].sender);
        }
        lemma_senders_kept(a.drop_last(), b.drop_last());
        assert(a[a.len() - 1].sender == b[a.len() - 1].sender);
    }
}

/// Makes the locked XT transactions executable.
fn release_entries(entries: &mut Vec<XtReservation>)
    ensures
        entry_views(final(entries)@) == entry_views(old(entries)@).map_values(
            |e: ReservationView| released_entry(e),
        ),
{
    let ghost before = entry_views(entries@);
    let ghost want = before.map_values(|e: ReservationView| released_entry(e));
    let mut j: usize = 0;
    while j < entries.len()
        invariant
            j <= entries@.len(),
            entries@.len() == before.len(),
            want == before.map_values(|e: ReservationView| released_entry(e)),
            forall|k: int| 0 <= k < j ==> (#[trigger] entries@[k])@ == want[k],
            forall|k: int| j <= k < entries@.len() ==> (#[trigger] entries@[k])@ == before[k],
        decreases entries@.len() - j,
    {
        if entries[j].phase == XtReservationPhase::Xt && entries[j].status
            == XtEntryStatus::Locked {
            entries[j].status = XtEntryStatus::Released;
        }
        j += 1;
    }
    assert(entry_views(entries@) =~= want);
}

/// Records that the released transactions were included.
fn include_entries(entries: &mut Vec<XtReservation>)
    ensures
        entry_views(final(entries)@) == entry_views(old(entries)@).map_values(
            |e: ReservationView| included_entry(e),
        ),
{
    let ghost before = entry_views(entries@);
    let ghost want = before.map_values(|e: ReservationView| included_entry(e));
    let mut j: usize = 0;
    while j < entries.len()
        invariant
            j <= entries@.len(),
            entries@.len() == before.len(),
            want == before.map_values(|e: ReservationView| included_entry(e)),
            forall|k: int| 0 <= k < j ==> (#[trigger] entries@[k])@ == want[k],
            forall|k: int| j <= k < entries@.len() ==> (#[trigger] entries@[k])@ == before[k],
        decreases entries@.len() - j,
    {
        if entries[j].status == XtEntryStatus::Released {
            entries[j].status = XtEntryStatus::Included;
        }
        j += 1;
    }
    assert(entry_views(entries@) =~= want);
}

/// The place of an instance depends on its ID and its order key alone.
proof fn lemma_rank_by_key(instances: Seq<InstanceView>, a: InstanceView, b: InstanceView)
    requires
        a.id == b.id,
        a.order == b.order,
    ensures
        rank(instances, a) == rank(instances, b),
    decreases instances.len(),
{
    if instances.len() > 0 {
        lemma_rank_by_key(instances.drop_last(), a, b);
    }
}

} // verus!
