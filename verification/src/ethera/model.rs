//! What the XT pool is, and what each operation makes of it.

use vstd::prelude::*;

use super::types::{order_lt, XtOrderKey};
use crate::primitives::text_lt;

verus! {

/// Which part of an XT instance a transaction belongs to.
#[derive(Debug, Clone, Copy, PartialEq, Eq, PartialOrd, Ord, Structural)]
pub enum XtReservationPhase {
    PutInbox,
    Xt,
}

impl XtReservationPhase {
    /// The name of the phase.
    pub open spec fn name(self) -> Seq<char> {
        match self {
            XtReservationPhase::PutInbox => "put_inbox"@,
            XtReservationPhase::Xt => "xt"@,
        }
    }

    /// The name of the phase.
    pub fn as_str(self) -> (res: &'static str)
        ensures
            res@ == self.name(),
            self == XtReservationPhase::PutInbox ==> res@ == "put_inbox"@,
            self == XtReservationPhase::Xt ==> res@ == "xt"@,
    {
        match self {
            XtReservationPhase::PutInbox => "put_inbox",
            XtReservationPhase::Xt => "xt",
        }
    }
}

/// How far a reserved transaction has come.
#[derive(Debug, Clone, Copy, PartialEq, Eq, Structural)]
pub enum XtEntryStatus {
    Locked,
    Released,
    Included,
}

impl XtEntryStatus {
    /// The name of the status.
    pub open spec fn name(self) -> Seq<char> {
        match self {
            XtEntryStatus::Locked => "locked"@,
            XtEntryStatus::Released => "released"@,
            XtEntryStatus::Included => "included"@,
        }
    }

    /// A transaction of the mempool with the same sender and nonce has to wait.
    pub open spec fn blocks(self) -> bool {
        self != XtEntryStatus::Included
    }

    /// The name of the status.
    pub fn as_str(self) -> (res: &'static str)
        ensures
            res@ == self.name(),
            self == XtEntryStatus::Locked ==> res@ == "locked"@,
            self == XtEntryStatus::Released ==> res@ == "released"@,
            self == XtEntryStatus::Included ==> res@ == "included"@,
    {
        match self {
            XtEntryStatus::Locked => "locked",
            XtEntryStatus::Released => "released",
            XtEntryStatus::Included => "included",
        }
    }

    /// Whether the nonce counts towards the sender's pending nonce: in every
    /// status.
    pub fn counts_for_pending(self) -> (res: bool)
        ensures
            res,
    {
        matches!(self, XtEntryStatus::Locked | XtEntryStatus::Released | XtEntryStatus::Included)
    }

    /// Whether the nonce is taken: in every status.
    pub fn reserves_nonce(self) -> (res: bool)
        ensures
            res,
    {
        matches!(self, XtEntryStatus::Locked | XtEntryStatus::Released | XtEntryStatus::Included)
    }

    /// Whether a mempool transaction with the nonce has to wait: until the
    /// reserved transaction is included.
    pub fn blocks_pool_tx(self) -> (res: bool)
        ensures
            res == self.blocks(),
            res == (self == XtEntryStatus::Locked || self == XtEntryStatus::Released),
    {
        matches!(self, XtEntryStatus::Locked | XtEntryStatus::Released)
    }
}

/// One transaction of an XT instance, with the nonce that it reserves.
pub struct ReservationView {
    pub instance_id: Seq<char>,
    pub order: XtOrderKey,
    pub phase: XtReservationPhase,
    pub tx_index: nat,
    pub sender: Seq<u8>,
    pub nonce: u64,
    pub tx_hash: Seq<u8>,
    pub raw: Seq<u8>,
    pub status: XtEntryStatus,
}

/// An XT instance: its transactions in the order in which they execute.
pub struct InstanceView {
    pub id: Seq<char>,
    pub order: XtOrderKey,
    pub entries: Seq<ReservationView>,
}

/// What is known of one reserved nonce of a sender.
pub struct SlotView {
    pub instance_id: Seq<char>,
    pub tx_hash: Seq<u8>,
    pub status: XtEntryStatus,
}

/// The pool: its instances in the order of execution, and the IDs that hold
/// the pool gate closed.
#[verifier::ext_equal]
pub struct PoolView {
    pub instances: Seq<InstanceView>,
    pub gate: Set<Seq<char>>,
}

/// Why the pool refused a request.
pub enum PoolErrorView {
    InvalidTransaction(Seq<char>),
    UnknownInstance(Seq<char>),
    NonceConflict { instance_id: Seq<char>, sender: Seq<u8>, nonce: u64 },
    InstanceMismatch(Seq<char>),
}

/// A decoded transaction: its bytes, its signer and the nonce that it uses.
pub struct TxView {
    pub raw: Seq<u8>,
    pub sender: Seq<u8>,
    pub nonce: u64,
    pub tx_hash: Seq<u8>,
}

/// The reservations that instance `id` asks for with `txs`, numbered from zero.
pub open spec fn reservations(
    id: Seq<char>,
    order: XtOrderKey,
    phase: XtReservationPhase,
    status: XtEntryStatus,
    txs: Seq<TxView>,
) -> Seq<ReservationView> {
    Seq::new(
        txs.len(),
        |i: int|
            ReservationView {
                instance_id: id,
                order,
                phase,
                tx_index: i as nat,
                sender: txs[i].sender,
                nonce: txs[i].nonce,
                tx_hash: txs[i].tx_hash,
                raw: txs[i].raw,
                status,
            },
    )
}

/// `a` executes before `b`: by order key, and by ID where the keys are equal.
pub open spec fn executes_before(a: InstanceView, b: InstanceView) -> bool {
    order_lt(a.order, b.order) || (a.order == b.order && text_lt(a.id, b.id))
}

/// The entry reserves `nonce` of `sender`.
pub open spec fn reserves(entry: ReservationView, sender: Seq<u8>, nonce: u64) -> bool {
    entry.sender == sender && entry.nonce == nonce
}

/// The last of `entries` that reserves `nonce` of `sender`.
pub open spec fn last_entry(
    entries: Seq<ReservationView>,
    sender: Seq<u8>,
    nonce: u64,
) -> Option<ReservationView>
    decreases entries.len(),
{
    if entries.len() == 0 {
        None
    } else if reserves(entries.last(), sender, nonce) {
        Some(entries.last())
    } else {
        last_entry(entries.drop_last(), sender, nonce)
    }
}

/// What a slot tells of an entry.
pub open spec fn slot_of(entry: ReservationView) -> SlotView {
    SlotView { instance_id: entry.instance_id, tx_hash: entry.tx_hash, status: entry.status }
}

/// The reservation of `nonce` of `sender`, if an instance holds one. Where an
/// instance lists the nonce more than once, its last entry counts.
pub open spec fn slot(instances: Seq<InstanceView>, sender: Seq<u8>, nonce: u64) -> Option<SlotView>
    decreases instances.len(),
{
    if instances.len() == 0 {
        None
    } else {
        match last_entry(instances.last().entries, sender, nonce) {
            Some(entry) => Some(slot_of(entry)),
            None => slot(instances.drop_last(), sender, nonce),
        }
    }
}

/// `sender` has a reservation that makes its mempool transactions wait.
pub open spec fn active(instances: Seq<InstanceView>, sender: Seq<u8>) -> bool {
    exists|nonce: u64|
        (#[trigger] slot(instances, sender, nonce)) matches Some(s) && s.status.blocks()
}

/// The first nonce of `sender`, from `start` on, that is not reserved; the
/// largest nonce if there is none.
pub open spec fn projected(instances: Seq<InstanceView>, sender: Seq<u8>, start: u64) -> u64
    decreases u64::MAX - start,
{
    if slot(instances, sender, start) is None || start == u64::MAX {
        start
    } else {
        projected(instances, sender, (start + 1) as u64)
    }
}

/// The senders of `entries`, each once, in the order in which they appear.
pub open spec fn senders_in(entries: Seq<ReservationView>) -> Seq<Seq<u8>>
    decreases entries.len(),
{
    if entries.len() == 0 {
        Seq::empty()
    } else {
        let before = senders_in(entries.drop_last());
        if before.contains(entries.last().sender) {
            before
        } else {
            before.push(entries.last().sender)
        }
    }
}

/// The instance at `i` is `id`.
pub open spec fn is_at(instances: Seq<InstanceView>, id: Seq<char>, i: int) -> bool {
    0 <= i < instances.len() && instances[i].id == id
}

/// The pool holds the instance `id`.
pub open spec fn live(instances: Seq<InstanceView>, id: Seq<char>) -> bool {
    exists|i: int| is_at(instances, id, i)
}

/// Where the instance `id` stands.
pub open spec fn position(instances: Seq<InstanceView>, id: Seq<char>) -> int {
    choose|i: int| is_at(instances, id, i)
}

/// The instance `id`.
pub open spec fn instance(instances: Seq<InstanceView>, id: Seq<char>) -> InstanceView {
    instances[position(instances, id)]
}

/// How many of `instances` execute before `x`.
pub open spec fn rank(instances: Seq<InstanceView>, x: InstanceView) -> nat
    decreases instances.len(),
{
    if instances.len() == 0 {
        0
    } else {
        rank(instances.drop_last(), x) + if executes_before(instances.last(), x) {
            1nat
        } else {
            0nat
        }
    }
}

/// The entries of one phase.
pub open spec fn of_phase(
    entries: Seq<ReservationView>,
    phase: XtReservationPhase,
) -> Seq<ReservationView> {
    entries.filter(|e: ReservationView| e.phase == phase)
}

/// Two entries stand for the same transaction at the same place.
pub open spec fn same_reservation(a: ReservationView, b: ReservationView) -> bool {
    &&& a.tx_hash == b.tx_hash
    &&& a.sender == b.sender
    &&& a.nonce == b.nonce
    &&& a.order == b.order
    &&& a.phase == b.phase
    &&& a.tx_index == b.tx_index
}

/// Two lists stand for the same transactions.
pub open spec fn same_list(a: Seq<ReservationView>, b: Seq<ReservationView>) -> bool {
    &&& a.len() == b.len()
    &&& forall|i: int| 0 <= i < a.len() ==> same_reservation(#[trigger] a[i], b[i])
}

/// `r`, asked for by instance `id`, takes a nonce that is reserved for another
/// transaction.
pub open spec fn conflicts(
    instances: Seq<InstanceView>,
    id: Seq<char>,
    r: ReservationView,
) -> bool {
    slot(instances, r.sender, r.nonce) matches Some(s) && !(s.instance_id == id && s.tx_hash
        == r.tx_hash)
}

/// The first of `rs` that conflicts.
pub open spec fn first_conflict(
    instances: Seq<InstanceView>,
    id: Seq<char>,
    rs: Seq<ReservationView>,
) -> Option<ReservationView>
    decreases rs.len(),
{
    if rs.len() == 0 {
        None
    } else {
        match first_conflict(instances, id, rs.drop_last()) {
            Some(r) => Some(r),
            None => if conflicts(instances, id, rs.last()) {
                Some(rs.last())
            } else {
                None
            },
        }
    }
}

/// The error for a conflicting reservation.
pub open spec fn conflict_error(r: ReservationView) -> PoolErrorView {
    PoolErrorView::NonceConflict { instance_id: r.instance_id, sender: r.sender, nonce: r.nonce }
}

/// Submitting the XT transactions `rs` as instance `id`. A repeat of a live
/// instance changes nothing.
pub open spec fn submitted(
    pool: PoolView,
    id: Seq<char>,
    order: XtOrderKey,
    rs: Seq<ReservationView>,
) -> Result<PoolView, PoolErrorView> {
    if live(pool.instances, id) {
        if same_list(
            of_phase(instance(pool.instances, id).entries, XtReservationPhase::Xt),
            rs,
        ) {
            Ok(pool)
        } else {
            Err(PoolErrorView::InstanceMismatch(id))
        }
    } else {
        match first_conflict(pool.instances, id, rs) {
            Some(r) => Err(conflict_error(r)),
            None => {
                let x = InstanceView { id, order, entries: rs };
                Ok(
                    PoolView {
                        instances: pool.instances.insert(rank(pool.instances, x) as int, x),
                        gate: pool.gate.insert(id),
                    },
                )
            },
        }
    }
}

/// A locked XT transaction becomes executable.
pub open spec fn released_entry(e: ReservationView) -> ReservationView {
    if e.phase == XtReservationPhase::Xt && e.status == XtEntryStatus::Locked {
        ReservationView { status: XtEntryStatus::Released, ..e }
    } else {
        e
    }
}

/// The instance with its locked transactions released, and with the
/// `putInbox` transactions `put_inbox` in front if it had none.
pub open spec fn released_instance(
    x: InstanceView,
    put_inbox: Seq<ReservationView>,
) -> InstanceView {
    let entries = if of_phase(x.entries, XtReservationPhase::PutInbox).len() == 0 {
        put_inbox + x.entries
    } else {
        x.entries
    };
    InstanceView { entries: entries.map_values(|e: ReservationView| released_entry(e)), ..x }
}

/// Releasing the live instance `id` behind `put_inbox`.
pub open spec fn released(
    pool: PoolView,
    id: Seq<char>,
    put_inbox: Seq<ReservationView>,
) -> Result<PoolView, PoolErrorView> {
    let x = instance(pool.instances, id);
    let existing = of_phase(x.entries, XtReservationPhase::PutInbox);
    let conflict = first_conflict(pool.instances, id, put_inbox);
    if existing.len() == 0 && conflict is Some {
        Err(conflict_error(conflict->0))
    } else if existing.len() > 0 && !same_list(existing, put_inbox) {
        Err(PoolErrorView::InstanceMismatch(id))
    } else {
        Ok(
            PoolView {
                instances: pool.instances.update(
                    position(pool.instances, id),
                    released_instance(x, put_inbox),
                ),
                gate: pool.gate,
            },
        )
    }
}

/// What submitting the transactions `txs` as instance `id` does: the new pool,
/// or why it is refused.
pub open spec fn submit_result(
    pool: PoolView,
    id: Seq<char>,
    order: XtOrderKey,
    txs: Seq<TxView>,
) -> Result<PoolView, PoolErrorView> {
    submitted(
        pool,
        id,
        order,
        reservations(id, order, XtReservationPhase::Xt, XtEntryStatus::Locked, txs),
    )
}

/// What releasing instance `id` behind the `putInbox` transactions `txs` does:
/// the new pool, or why it is refused.
pub open spec fn release_result(
    pool: PoolView,
    id: Seq<char>,
    txs: Seq<TxView>,
) -> Result<PoolView, PoolErrorView> {
    if live(pool.instances, id) {
        released(
            pool,
            id,
            reservations(
                id,
                instance(pool.instances, id).order,
                XtReservationPhase::PutInbox,
                XtEntryStatus::Released,
                txs,
            ),
        )
    } else {
        Err(PoolErrorView::UnknownInstance(id))
    }
}

/// How many of the entries of a phase can execute.
pub open spec fn released_count(
    entries: Seq<ReservationView>,
    phase: XtReservationPhase,
) -> nat {
    entries.filter(
        |e: ReservationView| e.phase == phase && e.status == XtEntryStatus::Released,
    ).len()
}

/// Dropping the instance `id`, if it is live, and its hold on the pool gate.
pub open spec fn aborted(pool: PoolView, id: Seq<char>) -> PoolView {
    PoolView {
        instances: if live(pool.instances, id) {
            pool.instances.remove(position(pool.instances, id))
        } else {
            pool.instances
        },
        gate: pool.gate.remove(id),
    }
}

/// Lifting the hold of `id` on the pool gate.
pub open spec fn executed(pool: PoolView, id: Seq<char>) -> PoolView {
    PoolView { instances: pool.instances, gate: pool.gate.remove(id) }
}

/// Closing the pool gate again for those of `ids` that are live.
pub open spec fn gate_restored(pool: PoolView, ids: Seq<Seq<char>>) -> PoolView {
    PoolView {
        instances: pool.instances,
        gate: Set::new(
            |id: Seq<char>|
                pool.gate.contains(id) || (ids.contains(id) && live(pool.instances, id)),
        ),
    }
}

/// A released transaction becomes included.
pub open spec fn included_entry(e: ReservationView) -> ReservationView {
    if e.status == XtEntryStatus::Released {
        ReservationView { status: XtEntryStatus::Included, ..e }
    } else {
        e
    }
}

/// The instance with its released transactions included.
pub open spec fn included_instance(x: InstanceView) -> InstanceView {
    InstanceView { entries: x.entries.map_values(|e: ReservationView| included_entry(e)), ..x }
}

/// Recording that those of `ids` that are live were included.
pub open spec fn included(pool: PoolView, ids: Seq<Seq<char>>) -> PoolView {
    PoolView {
        instances: pool.instances.map_values(
            |x: InstanceView|
                if ids.contains(x.id) {
                    included_instance(x)
                } else {
                    x
                },
        ),
        gate: pool.gate,
    }
}

/// The entries belong to the instance; the `putInbox` transactions come first,
/// numbered from zero, then the XT transactions, numbered from zero.
pub open spec fn laid_out(x: InstanceView, puts: int) -> bool {
    &&& 0 <= puts <= x.entries.len()
    &&& forall|j: int|
        0 <= j < x.entries.len() ==> {
            let e = #[trigger] x.entries[j];
            &&& e.instance_id == x.id
            &&& e.order == x.order
            &&& j < puts ==> e.phase == XtReservationPhase::PutInbox && e.tx_index == j
            &&& j >= puts ==> e.phase == XtReservationPhase::Xt && e.tx_index == j - puts
        }
}

/// An instance is locked as a whole, before it has any `putInbox` transaction.
pub open spec fn uniformly_locked(x: InstanceView) -> bool {
    forall|j: int, k: int|
        0 <= j < x.entries.len() && 0 <= k < x.entries.len() && (
        #[trigger] x.entries[j]).status == XtEntryStatus::Locked ==> {
            let e = #[trigger] x.entries[k];
            e.status == XtEntryStatus::Locked && e.phase == XtReservationPhase::Xt
        }
}

/// What holds of every instance.
pub open spec fn wf_instance(x: InstanceView) -> bool {
    &&& exists|puts: int| laid_out(x, puts)
    &&& uniformly_locked(x)
}

/// No nonce of a sender is reserved by both instances.
pub open spec fn disjoint(a: InstanceView, b: InstanceView) -> bool {
    forall|j: int, k: int|
        0 <= j < a.entries.len() && 0 <= k < b.entries.len() ==> !(
        (#[trigger] a.entries[j]).sender == (#[trigger] b.entries[k]).sender
            && a.entries[j].nonce == b.entries[k].nonce)
}

/// What holds of the instances of every pool: they stand in the order of
/// execution, each ID once, and no two reserve the same nonce.
pub open spec fn wf_instances(instances: Seq<InstanceView>) -> bool {
    &&& forall|i: int, j: int|
        0 <= i < j < instances.len() ==> executes_before(
            #[trigger] instances[i],
            #[trigger] instances[j],
        )
    &&& forall|i: int, j: int|
        0 <= i < instances.len() && 0 <= j < instances.len() && i != j ==> (
        #[trigger] instances[i]).id != (#[trigger] instances[j]).id
    &&& forall|i: int| 0 <= i < instances.len() ==> wf_instance(#[trigger] instances[i])
    &&& forall|i: int, j: int|
        0 <= i < instances.len() && 0 <= j < instances.len() && i != j ==> disjoint(
            #[trigger] instances[i],
            #[trigger] instances[j],
        )
}

/// What holds of every pool: besides its instances, only live ones hold
/// the pool gate closed.
pub open spec fn wf_pool(pool: PoolView) -> bool {
    &&& wf_instances(pool.instances)
    &&& forall|id: Seq<char>| #[trigger] pool.gate.contains(id) ==> live(pool.instances, id)
}

} // verus!
