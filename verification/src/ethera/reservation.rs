//! Reserved transactions, and how they are made from raw ones.

use vstd::prelude::*;
use vstd::string::*;

use super::model::{
    conflict_error, of_phase, released_count, reservations, same_list, same_reservation, senders_in,
    InstanceView, PoolErrorView, ReservationView, TxView, XtEntryStatus, XtReservationPhase,
};
use super::types::XtOrderKey;
use crate::outside::{
    address_hex, decode_2718, decoded_2718, recover_signer, recovered_signer, TxFields,
};
use crate::primitives::{Address, TxHash};
use crate::text::{decimal_number, hex_text, prefixed, u64_decimal};

verus! {

/// Why the pool refused a request.
#[derive(Debug)]
pub enum XtPoolError {
    InvalidTransaction(String),
    UnknownInstance(String),
    NonceConflict { instance_id: String, sender: Address, nonce: u64 },
    InstanceMismatch(String),
}

impl View for XtPoolError {
    type V = PoolErrorView;

    open spec fn view(&self) -> PoolErrorView {
        match self {
            XtPoolError::InvalidTransaction(detail) => PoolErrorView::InvalidTransaction(detail@),
            XtPoolError::UnknownInstance(id) => PoolErrorView::UnknownInstance(id@),
            XtPoolError::NonceConflict { instance_id, sender, nonce } => {
                PoolErrorView::NonceConflict {
                    instance_id: instance_id@,
                    sender: sender@,
                    nonce: *nonce,
                }
            },
            XtPoolError::InstanceMismatch(id) => PoolErrorView::InstanceMismatch(id@),
        }
    }
}

/// The text of a refusal.
pub open spec fn error_text(error: PoolErrorView) -> Seq<char> {
    match error {
        PoolErrorView::InvalidTransaction(detail) => "invalid XT transaction: "@ + detail,
        PoolErrorView::UnknownInstance(id) => "unknown instance "@ + id,
        PoolErrorView::NonceConflict { instance_id, sender, nonce } => "instance "@ + instance_id
            + " conflicts with reserved nonce "@ + prefixed(hex_text(sender)) + ":"@
            + decimal_number(nonce as nat),
        PoolErrorView::InstanceMismatch(id) => "instance "@ + id
            + " already exists with different transactions"@,
    }
}

impl XtPoolError {
    /// The error as a message.
    pub fn message(&self) -> (res: String)
        ensures
            res@ == error_text(self@),
            match *self {
                XtPoolError::InvalidTransaction(detail) => res@ == "invalid XT transaction: "@
                    + detail@,
                XtPoolError::UnknownInstance(id) => res@ == "unknown instance "@ + id@,
                XtPoolError::NonceConflict { instance_id, sender, nonce } => res@ == "instance "@
                    + instance_id@ + " conflicts with reserved nonce "@ + prefixed(
                    hex_text(sender@),
                ) + ":"@ + decimal_number(nonce as nat),
                XtPoolError::InstanceMismatch(id) => res@ == "instance "@ + id@
                    + " already exists with different transactions"@,
            },
    {
        match self {
            XtPoolError::InvalidTransaction(detail) => {
                "invalid XT transaction: ".to_owned().concat(detail.as_str())
            },
            XtPoolError::UnknownInstance(id) => "unknown instance ".to_owned().concat(id.as_str()),
            XtPoolError::NonceConflict { instance_id, sender, nonce } => {
                "instance ".to_owned().concat(instance_id.as_str()).concat(
                    " conflicts with reserved nonce ",
                ).concat(address_hex(sender).as_str()).concat(":").concat(
                    u64_decimal(*nonce).as_str(),
                )
            },
            XtPoolError::InstanceMismatch(id) => "instance ".to_owned().concat(id.as_str()).concat(
                " already exists with different transactions",
            ),
        }
    }
}

/// A raw transaction with its signer and the nonce that it uses.
#[derive(Debug, Clone)]
pub struct SignedTx {
    pub raw: Vec<u8>,
    pub sender: Address,
    pub nonce: u64,
    pub tx_hash: TxHash,
}

impl View for SignedTx {
    type V = TxView;

    open spec fn view(&self) -> TxView {
        TxView { raw: self.raw@, sender: self.sender@, nonce: self.nonce, tx_hash: self.tx_hash@ }
    }
}

/// The transactions of a list.
pub open spec fn tx_views(txs: Seq<SignedTx>) -> Seq<TxView> {
    txs.map_values(|tx: SignedTx| tx@)
}

/// The bytes of each raw transaction.
pub open spec fn raw_views(raws: Seq<Vec<u8>>) -> Seq<Seq<u8>> {
    raws.map_values(|raw: Vec<u8>| raw@)
}

/// The transaction that `raw` encodes as `fields` and that `signer` signed.
pub open spec fn signed_tx_of(
    raw: Seq<u8>,
    fields: TxFields,
    signer: Option<Seq<u8>>,
) -> Result<TxView, Seq<char>> {
    match signer {
        Some(sender) => Ok(
            TxView { raw, sender, nonce: fields.nonce, tx_hash: fields.tx_hash@ },
        ),
        None => Err("signature recovery failed"@),
    }
}

/// What a raw transaction decodes to, or why it is invalid.
pub open spec fn decoded_tx(raw: Seq<u8>) -> Result<TxView, Seq<char>> {
    match decoded_2718(raw) {
        Ok(fields) => signed_tx_of(raw, fields, recovered_signer(raw)),
        Err(text) => Err(text),
    }
}

/// What raw transactions decode to, or why the first invalid one is invalid.
pub open spec fn decoded_txs(raws: Seq<Seq<u8>>) -> Result<Seq<TxView>, Seq<char>>
    decreases raws.len(),
{
    if raws.len() == 0 {
        Ok(Seq::empty())
    } else {
        match decoded_txs(raws.drop_last()) {
            Ok(before) => match decoded_tx(raws.last()) {
                Ok(tx) => Ok(before.push(tx)),
                Err(text) => Err(text),
            },
            Err(text) => Err(text),
        }
    }
}

/// The signed transaction in `raw`, given what it decodes to and who signed
/// it.
pub fn signed_tx(raw: Vec<u8>, fields: TxFields, signer: Option<Address>) -> (res: Result<
    SignedTx,
    XtPoolError,
>)
    ensures
        match signer {
            Some(sender) => res matches Ok(tx) && tx@ == (TxView {
                raw: raw@,
                sender: sender@,
                nonce: fields.nonce,
                tx_hash: fields.tx_hash@,
            }),
            None => res matches Err(e) && e@ == PoolErrorView::InvalidTransaction(
                "signature recovery failed"@,
            ),
        },
{
    match signer {
        Some(sender) => Ok(SignedTx { raw, sender, nonce: fields.nonce, tx_hash: fields.tx_hash }),
        None => Err(XtPoolError::InvalidTransaction("signature recovery failed".to_owned())),
    }
}

/// Decodes one raw transaction and recovers its signer.
fn decode_transaction(raw: Vec<u8>) -> (res: Result<SignedTx, XtPoolError>)
    ensures
        match decoded_tx(raw@) {
            Ok(tx) => res matches Ok(t) && t@ == tx,
            Err(text) => res matches Err(e) && e@ == PoolErrorView::InvalidTransaction(text),
        },
{
    match decode_2718(&raw) {
        Ok(fields) => {
            let signer = recover_signer(&raw);
            signed_tx(raw, fields, signer)
        },
        Err(text) => Err(XtPoolError::InvalidTransaction(text)),
    }
}

/// Decodes raw transactions, up to the first invalid one.
pub fn decode_transactions(transactions: Vec<Vec<u8>>) -> (res: Result<
    Vec<SignedTx>,
    XtPoolError,
>)
    ensures
        match decoded_txs(raw_views(transactions@)) {
            Ok(txs) => res matches Ok(ts) && tx_views(ts@) == txs,
            Err(text) => res matches Err(e) && e@ == PoolErrorView::InvalidTransaction(text),
        },
{
    let mut txs: Vec<SignedTx> = Vec::new();
    let ghost raws = raw_views(transactions@);
    let mut i: usize = 0;
    assert(tx_views(txs@) =~= Seq::<TxView>::empty());
    while i < transactions.len()
        invariant
            i <= transactions@.len(),
            raws == raw_views(transactions@),
            decoded_txs(raws.take(i as int)) == Ok::<Seq<TxView>, Seq<char>>(tx_views(txs@)),
        decreases transactions@.len() - i,
    {
        let raw: Vec<u8> = transactions[i].clone();
        assert(raw@ =~= transactions@[i as int]@);
        let ghost next = raws.take(i + 1);
        assert(next.drop_last() =~= raws.take(i as int));
        assert(next.last() == raw@);
        match decode_transaction(raw) {
            Ok(tx) => {
                let ghost before = txs@;
                txs.push(tx);
                assert(tx_views(txs@) =~= tx_views(before).push(tx@));
            },
            Err(e) => {
                proof {
                    lemma_decoded_txs_error(raws, i + 1);
                }
                return Err(e);
            },
        }
        i += 1;
    }
    assert(raws.take(i as int) =~= raws);
    Ok(txs)
}

/// An invalid transaction makes every longer list invalid for the same reason.
proof fn lemma_decoded_txs_error(raws: Seq<Seq<u8>>, n: int)
    requires
        0 <= n <= raws.len(),
        decoded_txs(raws.take(n)) is Err,
    ensures
        decoded_txs(raws) == decoded_txs(raws.take(n)),
    decreases raws.len(),
{
    if n == raws.len() {
        assert(raws.take(n) =~= raws);
    } else {
        assert(raws.drop_last().take(n) =~= raws.take(n));
        lemma_decoded_txs_error(raws.drop_last(), n);
    }
}

/// A transaction that an XT instance has reserved.
#[derive(Debug)]
pub struct XtReservation {
    pub instance_id: String,
    pub order: XtOrderKey,
    pub phase: XtReservationPhase,
    pub tx_index: usize,
    pub sender: Address,
    pub nonce: u64,
    pub tx_hash: TxHash,
    pub raw: Vec<u8>,
    pub status: XtEntryStatus,
}

impl View for XtReservation {
    type V = ReservationView;

    open spec fn view(&self) -> ReservationView {
        ReservationView {
            instance_id: self.instance_id@,
            order: self.order,
            phase: self.phase,
            tx_index: self.tx_index as nat,
            sender: self.sender@,
            nonce: self.nonce,
            tx_hash: self.tx_hash@,
            raw: self.raw@,
            status: self.status,
        }
    }
}

/// The reservations of a list.
pub open spec fn entry_views(entries: Seq<XtReservation>) -> Seq<ReservationView> {
    entries.map_values(|e: XtReservation| e@)
}

impl XtReservation {
    /// A copy of the reservation.
    pub fn copy(&self) -> (res: Self)
        ensures
            res@ == self@,
    {
        let raw = self.raw.clone();
        assert(raw@ =~= self.raw@);
        XtReservation {
            instance_id: self.instance_id.clone(),
            order: self.order,
            phase: self.phase,
            tx_index: self.tx_index,
            sender: self.sender,
            nonce: self.nonce,
            tx_hash: self.tx_hash,
            raw,
            status: self.status,
        }
    }

    /// The error for this reservation where it conflicts.
    pub fn conflict(&self) -> (res: XtPoolError)
        ensures
            res@ == conflict_error(self@),
            res@ == (PoolErrorView::NonceConflict {
                instance_id: self.instance_id@,
                sender: self.sender@,
                nonce: self.nonce,
            }),
    {
        XtPoolError::NonceConflict {
            instance_id: self.instance_id.clone(),
            sender: self.sender,
            nonce: self.nonce,
        }
    }
}

/// The reservations that instance `instance_id` asks for with `txs`.
pub fn build_reservations(
    instance_id: &String,
    order: XtOrderKey,
    txs: Vec<SignedTx>,
    phase: XtReservationPhase,
    status: XtEntryStatus,
) -> (res: Vec<XtReservation>)
    ensures
        entry_views(res@) == reservations(instance_id@, order, phase, status, tx_views(txs@)),
        res@.len() == txs@.len(),
        forall|i: int|
            0 <= i < txs@.len() ==> {
                let e = #[trigger] res@[i];
                let tx = txs@[i];
                &&& e.instance_id@ == instance_id@ && e.order == order && e.phase == phase
                &&& e.tx_index == i && e.sender@ == tx.sender@ && e.nonce == tx.nonce
                &&& e.tx_hash@ == tx.tx_hash@ && e.raw@ == tx.raw@ && e.status == status
            },
{
    let mut res: Vec<XtReservation> = Vec::new();
    let mut i: usize = 0;
    let ghost want = reservations(instance_id@, order, phase, status, tx_views(txs@));
    while i < txs.len()
        invariant
            i <= txs@.len(),
            want == reservations(instance_id@, order, phase, status, tx_views(txs@)),
            entry_views(res@) =~= want.take(i as int),
        decreases txs@.len() - i,
    {
        let raw: Vec<u8> = txs[i].raw.clone();
        assert(raw@ =~= txs@[i as int].raw@);
        let ghost before = res@;
        let entry = XtReservation {
            instance_id: instance_id.clone(),
            order,
            phase,
            tx_index: i,
            sender: txs[i].sender,
            nonce: txs[i].nonce,
            tx_hash: txs[i].tx_hash,
            raw,
            status,
        };
        res.push(entry);
        assert(entry@ == want[i as int]);
        assert(entry_views(res@) =~= entry_views(before).push(entry@));
        i += 1;
    }
    assert(want.take(i as int) =~= want);
    assert forall|k: int| 0 <= k < txs@.len() implies {
        let e = #[trigger] res@[k];
        let tx = txs@[k];
        &&& e.instance_id@ == instance_id@ && e.order == order && e.phase == phase
        &&& e.tx_index == k && e.sender@ == tx.sender@ && e.nonce == tx.nonce
        &&& e.tx_hash@ == tx.tx_hash@ && e.raw@ == tx.raw@ && e.status == status
    } by {
        assert(entry_views(res@)[k] == want[k]);
    }
    res
}

/// Decodes raw transactions into the reservations that instance `instance_id`
/// asks for.
pub fn decode_reservations(
    instance_id: &String,
    order: XtOrderKey,
    transactions: Vec<Vec<u8>>,
    phase: XtReservationPhase,
    status: XtEntryStatus,
) -> (res: Result<Vec<XtReservation>, XtPoolError>)
    ensures
        match decoded_txs(raw_views(transactions@)) {
            Ok(txs) => res matches Ok(rs) && entry_views(rs@) == reservations(
                instance_id@,
                order,
                phase,
                status,
                txs,
            ),
            Err(text) => res matches Err(e) && e@ == PoolErrorView::InvalidTransaction(text),
        },
{
    match decode_transactions(transactions) {
        Ok(txs) => Ok(build_reservations(instance_id, order, txs, phase, status)),
        Err(e) => Err(e),
    }
}

/// Whether two lists stand for the same transactions.
pub fn same_reservations(existing: &Vec<XtReservation>, incoming: &Vec<XtReservation>) -> (res:
    bool)
    ensures
        res == same_list(entry_views(existing@), entry_views(incoming@)),
        res == (existing@.len() == incoming@.len() && forall|i: int|
            0 <= i < existing@.len() ==> {
                let a = #[trigger] existing@[i];
                let b = incoming@[i];
                &&& a.tx_hash@ == b.tx_hash@ && a.sender@ == b.sender@ && a.nonce == b.nonce
                &&& a.order == b.order && a.phase == b.phase && a.tx_index == b.tx_index
            }),
{
    let ghost a = entry_views(existing@);
    let ghost b = entry_views(incoming@);
    if existing.len() != incoming.len() {
        return false;
    }
    let mut i: usize = 0;
    while i < existing.len()
        invariant
            i <= existing@.len(),
            existing@.len() == incoming@.len(),
            a == entry_views(existing@),
            b == entry_views(incoming@),
            forall|k: int| 0 <= k < i ==> same_reservation(#[trigger] a[k], b[k]),
        decreases existing@.len() - i,
    {
        let left = &existing[i];
        let right = &incoming[i];
        let same = left.tx_hash == right.tx_hash && left.sender == right.sender && left.nonce
            == right.nonce && left.order == right.order && left.phase == right.phase
            && left.tx_index == right.tx_index;
        assert(same == same_reservation(a[i as int], b[i as int]));
        if !same {
            return false;
        }
        i += 1;
    }
    assert forall|k: int| 0 <= k < existing@.len() implies {
        let x = #[trigger] existing@[k];
        let y = incoming@[k];
        &&& x.tx_hash@ == y.tx_hash@ && x.sender@ == y.sender@ && x.nonce == y.nonce
        &&& x.order == y.order && x.phase == y.phase && x.tx_index == y.tx_index
    } by {
        assert(same_reservation(a[k], b[k]));
    }
    true
}

/// Whether `senders` holds `sender`.
pub fn contains_sender(senders: &Vec<Address>, sender: Address) -> (res: bool)
    ensures
        res == sender_views(senders@).contains(sender@),
{
    let mut i: usize = 0;
    while i < senders.len()
        invariant
            i <= senders@.len(),
            forall|k: int| 0 <= k < i ==> (#[trigger] senders@[k])@ != sender@,
        decreases senders@.len() - i,
    {
        if senders[i] == sender {
            assert(sender_views(senders@)[i as int] == sender@);
            return true;
        }
        i += 1;
    }
    assert(!sender_views(senders@).contains(sender@)) by {
        if sender_views(senders@).contains(sender@) {
            let k = choose|k: int|
                0 <= k < senders@.len() && sender_views(senders@)[k] == sender@;
            assert(senders@[k]@ == sender@);
        }
    }
    false
}

/// The addresses of a list.
pub open spec fn sender_views(senders: Seq<Address>) -> Seq<Seq<u8>> {
    senders.map_values(|a: Address| a@)
}

/// The senders of `entries`, each once, in the order in which they appear.
pub fn unique_senders(entries: &Vec<XtReservation>) -> (res: Vec<Address>)
    ensures
        sender_views(res@) == senders_in(entry_views(entries@)),
{
    let mut senders: Vec<Address> = Vec::new();
    let ghost all = entry_views(entries@);
    let mut i: usize = 0;
    assert(sender_views(senders@) =~= Seq::<Seq<u8>>::empty());
    while i < entries.len()
        invariant
            i <= entries@.len(),
            all == entry_views(entries@),
            sender_views(senders@) == senders_in(all.take(i as int)),
        decreases entries@.len() - i,
    {
        let sender = entries[i].sender;
        let ghost next = all.take(i + 1);
        assert(next.drop_last() =~= all.take(i as int));
        assert(next.last().sender == sender@);
        if !contains_sender(&senders, sender) {
            let ghost before = senders@;
            senders.push(sender);
            assert(sender_views(senders@) =~= sender_views(before).push(sender@));
        }
        i += 1;
    }
    assert(all.take(i as int) =~= all);
    senders
}

/// A copy of the entries of one phase.
pub fn phase_entries(entries: &Vec<XtReservation>, phase: XtReservationPhase) -> (res: Vec<
    XtReservation,
>)
    ensures
        entry_views(res@) == of_phase(entry_views(entries@), phase),
{
    let mut res: Vec<XtReservation> = Vec::new();
    let ghost all = entry_views(entries@);
    let mut i: usize = 0;
    assert(entry_views(res@) =~= of_phase(all.take(0), phase)) by {
        reveal(Seq::filter);
    }
    while i < entries.len()
        invariant
            i <= entries@.len(),
            all == entry_views(entries@),
            entry_views(res@) == of_phase(all.take(i as int), phase),
        decreases entries@.len() - i,
    {
        let ghost next = all.take(i + 1);
        assert(next.drop_last() =~= all.take(i as int));
        proof {
            reveal(Seq::filter);
        }
        if entries[i].phase == phase {
            let ghost before = res@;
            let entry = entries[i].copy();
            res.push(entry);
            assert(entry_views(res@) =~= entry_views(before).push(entry@));
        }
        i += 1;
    }
    assert(all.take(i as int) =~= all);
    res
}

/// How many of the entries of a phase can execute.
pub fn count_released(entries: &Vec<XtReservation>, phase: XtReservationPhase) -> (res: usize)
    ensures
        res == released_count(entry_views(entries@), phase),
{
    let mut count: usize = 0;
    let ghost all = entry_views(entries@);
    let mut i: usize = 0;
    assert(released_count(all.take(0), phase) == 0) by {
        reveal(Seq::filter);
    }
    while i < entries.len()
        invariant
            i <= entries@.len(),
            all == entry_views(entries@),
            count == released_count(all.take(i as int), phase),
            count <= i,
        decreases entries@.len() - i,
    {
        let ghost next = all.take(i + 1);
        assert(next.drop_last() =~= all.take(i as int));
        proof {
            reveal(Seq::filter);
        }
        if entries[i].phase == phase && entries[i].status == XtEntryStatus::Released {
            count += 1;
        }
        i += 1;
    }
    assert(all.take(i as int) =~= all);
    count
}

/// An XT instance of the pool.
#[derive(Debug)]
pub struct XtInstance {
    pub instance_id: String,
    pub order: XtOrderKey,
    pub entries: Vec<XtReservation>,
    pub senders: Vec<Address>,
}

impl View for XtInstance {
    type V = InstanceView;

    open spec fn view(&self) -> InstanceView {
        InstanceView {
            id: self.instance_id@,
            order: self.order,
            entries: entry_views(self.entries@),
        }
    }
}

impl XtInstance {
    /// The senders are those of the entries.
    pub open spec fn wf(&self) -> bool {
        sender_views(self.senders@) == senders_in(self@.entries)
    }
}

/// The instances of a list.
pub open spec fn instance_views(instances: Seq<XtInstance>) -> Seq<InstanceView> {
    instances.map_values(|x: XtInstance| x@)
}

/// Lists are viewed in their order, each item by its fields.
pub proof fn law_lists_are_viewed_in_order(
    txs: Seq<SignedTx>,
    raws: Seq<Vec<u8>>,
    senders: Seq<Address>,
    entries: Seq<XtReservation>,
    instances: Seq<XtInstance>,
    i: int,
)
    ensures
        tx_views(txs).len() == txs.len(),
        0 <= i < txs.len() ==> {
            let v = tx_views(txs)[i];
            v.raw == txs[i].raw@ && v.sender == txs[i].sender.bytes@ && v.nonce == txs[i].nonce
                && v.tx_hash == txs[i].tx_hash.bytes@
        },
        raw_views(raws).len() == raws.len(),
        0 <= i < raws.len() ==> raw_views(raws)[i] == raws[i]@,
        sender_views(senders).len() == senders.len(),
        0 <= i < senders.len() ==> sender_views(senders)[i] == senders[i].bytes@,
        entry_views(entries).len() == entries.len(),
        0 <= i < entries.len() ==> {
            let v = entry_views(entries)[i];
            let e = entries[i];
            &&& v.instance_id == e.instance_id@ && v.order == e.order && v.phase == e.phase
            &&& v.tx_index == e.tx_index && v.sender == e.sender.bytes@ && v.nonce == e.nonce
            &&& v.tx_hash == e.tx_hash.bytes@ && v.raw == e.raw@ && v.status == e.status
        },
        instance_views(instances).len() == instances.len(),
        0 <= i < instances.len() ==> {
            let v = instance_views(instances)[i];
            v.id == instances[i].instance_id@ && v.order == instances[i].order && v.entries
                == entry_views(instances[i].entries@)
        },
{
}

/// The entries of a phase are picked in their order.
pub proof fn law_phase_entries_keep_their_order(
    entries: Seq<ReservationView>,
    e: ReservationView,
    phase: XtReservationPhase,
)
    ensures
        of_phase(Seq::empty(), phase) == Seq::<ReservationView>::empty(),
        of_phase(entries.push(e), phase) == (if e.phase == phase {
            of_phase(entries, phase).push(e)
        } else {
            of_phase(entries, phase)
        }),
{
    reveal(Seq::filter);
    assert(entries.push(e).drop_last() =~= entries);
}

} // verus!
