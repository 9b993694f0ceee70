//! The reservations of each sender by nonce, kept beside the instances.

use std::collections::BTreeMap;
use vstd::prelude::*;

use super::model::{
    last_entry, reserves, slot, slot_of, InstanceView, ReservationView, SlotView, XtEntryStatus,
};
use super::reservation::{entry_views, instance_views, sender_views, XtInstance};
use crate::primitives::{
    bytes_lt, lemma_bytes_lt_asymmetric, lemma_bytes_lt_total, lemma_bytes_lt_transitive, Address,
    TxHash,
};

verus! {

broadcast use vstd::std_specs::btree::group_btree_axioms;

/// A reserved nonce of a sender.
#[derive(Debug)]
pub struct SenderNonceReservation {
    pub instance_id: String,
    pub tx_hash: TxHash,
    pub status: XtEntryStatus,
}

impl View for SenderNonceReservation {
    type V = SlotView;

    open spec fn view(&self) -> SlotView {
        SlotView {
            instance_id: self.instance_id@,
            tx_hash: self.tx_hash@,
            status: self.status,
        }
    }
}

/// The reserved nonces of a sender.
#[derive(Debug)]
pub struct SenderReservations {
    pub sender: Address,
    pub by_nonce: BTreeMap<u64, SenderNonceReservation>,
    pub blocking_count: usize,
}

/// The nonces whose reservations make mempool transactions wait.
pub open spec fn blocking_nonces(by_nonce: Map<u64, SenderNonceReservation>) -> Set<u64> {
    by_nonce.dom().filter(|n: u64| by_nonce[n].status.blocks())
}

/// `by_nonce` holds the slots of `sender`.
pub open spec fn holds_slots(
    by_nonce: Map<u64, SenderNonceReservation>,
    instances: Seq<InstanceView>,
    sender: Seq<u8>,
) -> bool {
    forall|n: u64|
        match #[trigger] slot(instances, sender, n) {
            Some(s) => by_nonce.contains_key(n) && by_nonce[n]@ == s,
            None => !by_nonce.contains_key(n),
        }
}

impl SenderReservations {
    /// The count is that of the nonces that block, and some nonce is reserved.
    pub open spec fn wf(&self) -> bool {
        &&& self.blocking_count == blocking_nonces(self.by_nonce@).len()
        &&& exists|n: u64| self.by_nonce@.contains_key(n)
    }
}

/// The senders stand in byte order, each once.
pub open spec fn sorted_senders(by_sender: Seq<SenderReservations>) -> bool {
    &&& forall|i: int, j: int|
        0 <= i < j < by_sender.len() ==> bytes_lt(
            (#[trigger] by_sender[i]).sender@,
            (#[trigger] by_sender[j]).sender@,
        )
    &&& forall|i: int| 0 <= i < by_sender.len() ==> (#[trigger] by_sender[i]).wf()
}

/// The index knows the reservations of `sender`.
pub open spec fn indexes(
    by_sender: Seq<SenderReservations>,
    instances: Seq<InstanceView>,
    sender: Seq<u8>,
) -> bool {
    &&& forall|i: int|
        0 <= i < by_sender.len() && (#[trigger] by_sender[i]).sender@ == sender ==> holds_slots(
            by_sender[i].by_nonce@,
            instances,
            sender,
        )
    &&& (forall|i: int| 0 <= i < by_sender.len() ==> (#[trigger] by_sender[i]).sender@ != sender)
        ==> forall|n: u64| #[trigger] slot(instances, sender, n) is None
}

/// The index knows the reservations of every sender, and no others.
pub open spec fn index_ok(
    by_sender: Seq<SenderReservations>,
    instances: Seq<InstanceView>,
) -> bool {
    &&& sorted_senders(by_sender)
    &&& forall|sender: Seq<u8>| #[trigger] indexes(by_sender, instances, sender)
}

/// The entries of senders other than `touched` are the same in both.
pub open spec fn same_but_for(
    before: Seq<SenderReservations>,
    after: Seq<SenderReservations>,
    touched: Seq<Seq<u8>>,
) -> bool {
    &&& forall|i: int|
        0 <= i < before.len() && !touched.contains((#[trigger] before[i]).sender@)
            ==> after.contains(before[i])
    &&& forall|i: int|
        0 <= i < after.len() && !touched.contains((#[trigger] after[i]).sender@)
            ==> before.contains(after[i])
}

/// Where the reservations of `sender` stand.
pub fn find_sender(by_sender: &Vec<SenderReservations>, sender: Address) -> (res: Option<usize>)
    ensures
        match res {
            Some(i) => i < by_sender@.len() && by_sender@[i as int].sender@ == sender@,
            None => forall|i: int|
                0 <= i < by_sender@.len() ==> (#[trigger] by_sender@[i]).sender@ != sender@,
        },
{
    let mut i: usize = 0;
    while i < by_sender.len()
        invariant
            i <= by_sender@.len(),
            forall|k: int| 0 <= k < i ==> (#[trigger] by_sender@[k]).sender@ != sender@,
        decreases by_sender@.len() - i,
    {
        if by_sender[i].sender == sender {
            return Some(i);
        }
        i += 1;
    }
    None
}

/// Adding or replacing a nonce changes the count of blocking nonces by what
/// the nonce was and what it becomes.
proof fn lemma_blocking_insert(
    by_nonce: Map<u64, SenderNonceReservation>,
    nonce: u64,
    r: SenderNonceReservation,
)
    requires
        by_nonce.dom().finite(),
    ensures
        blocking_nonces(by_nonce).finite(),
        blocking_nonces(by_nonce).len() <= by_nonce.len(),
        blocking_nonces(by_nonce.insert(nonce, r)).len() == blocking_nonces(by_nonce).len() + (
        if r.status.blocks() {
            1int
        } else {
            0
        }) - (if by_nonce.contains_key(nonce) && by_nonce[nonce].status.blocks() {
            1int
        } else {
            0
        }),
{
    let before = blocking_nonces(by_nonce);
    let after = blocking_nonces(by_nonce.insert(nonce, r));
    assert(before.subset_of(by_nonce.dom()));
    vstd::set_lib::lemma_len_subset(before, by_nonce.dom());
    if r.status.blocks() {
        assert(after =~= before.insert(nonce));
    } else {
        assert(after =~= before.remove(nonce));
    }
}

/// The slots that the first `i` instances and the first `j` entries of the
/// next one give.
spec fn slot_so_far(
    instances: Seq<InstanceView>,
    i: int,
    j: int,
    sender: Seq<u8>,
    nonce: u64,
) -> Option<SlotView> {
    match last_entry(instances[i].entries.take(j), sender, nonce) {
        Some(e) => Some(slot_of(e)),
        None => slot(instances.take(i), sender, nonce),
    }
}

/// The reservations of `sender`, read from the instances.
fn collect_reservations(instances: &Vec<XtInstance>, sender: Address) -> (res: SenderReservations)
    ensures
        res.sender@ == sender@,
        holds_slots(res.by_nonce@, instance_views(instances@), sender@),
        res.blocking_count == blocking_nonces(res.by_nonce@).len(),
{
    let mut by_nonce: BTreeMap<u64, SenderNonceReservation> = BTreeMap::new();
    let mut blocking_count: usize = 0;
    let ghost views = instance_views(instances@);
    let ghost who = sender@;
    assert(blocking_nonces(by_nonce@) =~= Set::<u64>::empty());
    let mut i: usize = 0;
    while i < instances.len()
        invariant
            i <= instances@.len(),
            views == instance_views(instances@),
            who == sender@,
            holds_slots(by_nonce@, views.take(i as int), who),
            blocking_count == blocking_nonces(by_nonce@).len(),
        decreases instances@.len() - i,
    {
        let entries = &instances[i].entries;
        let ghost own = views[i as int].entries;
        assert(own == entry_views(entries@));
        assert(own.take(0) =~= Seq::<ReservationView>::empty());
        assert(forall|n: u64|
            slot_so_far(views, i as int, 0, who, n) == #[trigger] slot(views.take(i as int), who, n));
        let mut j: usize = 0;
        while j < entries.len()
            invariant
                i < instances@.len(),
                views == instance_views(instances@),
                who == sender@,
                own == views[i as int].entries,
                own == entry_views(entries@),
                j <= entries@.len(),
                forall|n: u64|
                    match #[trigger] slot_so_far(views, i as int, j as int, who, n) {
                        Some(s) => by_nonce@.contains_key(n) && by_nonce@[n]@ == s,
                        None => !by_nonce@.contains_key(n),
                    },
                blocking_count == blocking_nonces(by_nonce@).len(),
            decreases entries@.len() - j,
        {
            let entry = &entries[j];
            let ghost next = own.take(j + 1);
            assert(next.drop_last() =~= own.take(j as int));
            assert(next.last() == entry@);
            let ghost map_before = by_nonce@;
            if entry.sender == sender && entry.status.counts_for_pending() {
                let reservation = SenderNonceReservation {
                    instance_id: entry.instance_id.clone(),
                    tx_hash: entry.tx_hash,
                    status: entry.status,
                };
                proof {
                    lemma_blocking_insert(by_nonce@, entry.nonce, reservation);
                    lemma_blocking_insert(
                        by_nonce@.insert(entry.nonce, reservation),
                        entry.nonce,
                        reservation,
                    );
                }
                let blocks = reservation.status.blocks_pool_tx();
                let ghost added = reservation;
                let previous = by_nonce.insert(entry.nonce, reservation);
                let blocked = match previous {
                    Some(p) => p.status.blocks_pool_tx(),
                    None => false,
                };
                if blocks && !blocked {
                    assert(blocking_nonces(by_nonce@).len() <= by_nonce@.len());
                    assert(by_nonce@.len() <= usize::MAX) by {
                        assert(vstd::std_specs::btree::spec_btree_map_len(&by_nonce)
                            == by_nonce@.len());
                    }
                    blocking_count += 1;
                } else if !blocks && blocked {
                    blocking_count -= 1;
                }
                assert forall|n: u64|
                    match #[trigger] slot_so_far(views, i as int, j + 1, who, n) {
                        Some(s) => by_nonce@.contains_key(n) && by_nonce@[n]@ == s,
                        None => !by_nonce@.contains_key(n),
                    } by {
                    let _ = slot_so_far(views, i as int, j as int, who, n);
                    if n == entry.nonce {
                        assert(reserves(next.last(), who, n));
                    } else {
                        assert(!reserves(next.last(), who, n));
                    }
                }
            } else {
                assert forall|n: u64|
                    #[trigger] slot_so_far(views, i as int, j + 1, who, n) == slot_so_far(
                        views,
                        i as int,
                        j as int,
                        who,
                        n,
                    ) by {
                    assert(!reserves(next.last(), who, n));
                }
            }
            j += 1;
        }
        let ghost through = views.take(i + 1);
        assert(through.drop_last() =~= views.take(i as int));
        assert(own.take(j as int) =~= own);
        assert forall|n: u64| slot(through, who, n) == #[trigger] slot_so_far(
            views,
            i as int,
            j as int,
            who,
            n,
        ) by {
            assert(through.last().entries == own);
        }
        assert(holds_slots(by_nonce@, through, who)) by {
            assert forall|n: u64|
                match #[trigger] slot(through, who, n) {
                    Some(s) => by_nonce@.contains_key(n) && by_nonce@[n]@ == s,
                    None => !by_nonce@.contains_key(n),
                } by {
                assert(slot(through, who, n) == slot_so_far(views, i as int, j as int, who, n));
            }
        }
        i += 1;
    }
    assert(views.take(i as int) =~= views);
    SenderReservations { sender, by_nonce, blocking_count }
}

/// How many senders come before `sender`.
fn sender_rank(by_sender: &Vec<SenderReservations>, sender: Address) -> (res: usize)
    requires
        sorted_senders(by_sender@),
        forall|i: int| 0 <= i < by_sender@.len() ==> (#[trigger] by_sender@[i]).sender@ != sender@,
    ensures
        res <= by_sender@.len(),
        forall|i: int|
            0 <= i < res ==> bytes_lt((#[trigger] by_sender@[i]).sender@, sender@),
        forall|i: int|
            res <= i < by_sender@.len() ==> bytes_lt(sender@, (#[trigger] by_sender@[i]).sender@),
{
    let mut i: usize = 0;
    while i < by_sender.len() && by_sender[i].sender.less(&sender)
        invariant
            i <= by_sender@.len(),
            forall|k: int| 0 <= k < i ==> bytes_lt((#[trigger] by_sender@[k]).sender@, sender@),
        decreases by_sender@.len() - i,
    {
        i += 1;
    }
    assert forall|k: int| i <= k < by_sender@.len() implies bytes_lt(
        sender@,
        (#[trigger] by_sender@[k]).sender@,
    ) by {
        let first = by_sender@[i as int].sender@;
        lemma_bytes_lt_total(first, sender@);
        if i < k {
            lemma_bytes_lt_transitive(sender@, first, by_sender@[k].sender@);
        }
    }
    i
}

/// Reads the reservations of `sender` from the instances into the index.
pub fn rebuild_sender(
    instances: &Vec<XtInstance>,
    by_sender: &mut Vec<SenderReservations>,
    sender: Address,
)
    requires
        sorted_senders(old(by_sender)@),
    ensures
        sorted_senders(final(by_sender)@),
        indexes(final(by_sender)@, instance_views(instances@), sender@),
        forall|other: Seq<u8>|
            other != sender@ && #[trigger] indexes(
                old(by_sender)@,
                instance_views(instances@),
                other,
            ) ==> indexes(final(by_sender)@, instance_views(instances@), other),
        forall|i: int|
            0 <= i < old(by_sender)@.len() && (#[trigger] old(by_sender)@[i]).sender@ != sender@
                ==> final(by_sender)@.contains(old(by_sender)@[i]),
        forall|i: int|
            0 <= i < final(by_sender)@.len() && (#[trigger] final(by_sender)@[i]).sender@ != sender@
                ==> old(by_sender)@.contains(final(by_sender)@[i]),
{
    let fresh = collect_reservations(instances, sender);
    let ghost views = instance_views(instances@);
    let ghost before = by_sender@;
    proof {
        if fresh.by_nonce@.is_empty() {
            assert forall|n: u64| #[trigger] slot(views, sender@, n) is None by {
                assert(!fresh.by_nonce@.dom().contains(n));
            }
        }
    }
    match find_sender(by_sender, sender) {
        Some(i) => {
            assert forall|k: int| 0 <= k < before.len() && k != i implies (
            #[trigger] before[k]).sender@ != sender@ by {
                lemma_bytes_lt_asymmetric(before[k].sender@, sender@);
            }
            if fresh.by_nonce.is_empty() {
                by_sender.remove(i);
                let ghost after = by_sender@;
                assert(after =~= before.remove(i as int));
                assert forall|k: int|
                    0 <= k < before.len() && (#[trigger] before[k]).sender@ != sender@ implies
                    after.contains(before[k]) by {
                    assert(after[if k < i { k } else { k - 1 }] == before[k]);
                }
                assert forall|k: int|
                    0 <= k < after.len() && (#[trigger] after[k]).sender@ != sender@ implies
                    before.contains(after[k]) by {
                    assert(before[if k < i { k } else { k + 1 }] == after[k]);
                }
                assert forall|k: int| 0 <= k < after.len() implies #[trigger] after[k] == before[if k
                    < i {
                    k
                } else {
                    k + 1
                }] by {}
                assert forall|other: Seq<u8>|
                    other != sender@ && #[trigger] indexes(before, views, other) implies indexes(
                    after,
                    views,
                    other,
                ) by {
                    if forall|k: int| 0 <= k < after.len() ==> (#[trigger] after[k]).sender@
                        != other {
                        assert forall|k: int| 0 <= k < before.len() implies (
                        #[trigger] before[k]).sender@ != other by {
                            if k < i {
                                assert(after[k] == before[k]);
                            } else if k > i {
                                assert(after[k - 1] == before[k]);
                            }
                        }
                    }
                }
            } else {
                by_sender[i] = fresh;
                let ghost after = by_sender@;
                assert(after =~= before.update(i as int, fresh));
                assert forall|k: int|
                    0 <= k < before.len() && (#[trigger] before[k]).sender@ != sender@ implies
                    after.contains(before[k]) by {
                    assert(after[k] == before[k]);
                }
                assert forall|k: int|
                    0 <= k < after.len() && (#[trigger] after[k]).sender@ != sender@ implies
                    before.contains(after[k]) by {
                    assert(before[k] == after[k]);
                }
                assert forall|other: Seq<u8>|
                    other != sender@ && #[trigger] indexes(before, views, other) implies indexes(
                    after,
                    views,
                    other,
                ) by {
                    if forall|k: int| 0 <= k < after.len() ==> (#[trigger] after[k]).sender@
                        != other {
                        assert forall|k: int| 0 <= k < before.len() implies (
                        #[trigger] before[k]).sender@ != other by {
                            assert(after[k].sender@ == before[k].sender@);
                        }
                    }
                }
            }
        },
        None => {
            if !fresh.by_nonce.is_empty() {
                let at = sender_rank(by_sender, sender);
                by_sender.insert(at, fresh);
                let ghost after = by_sender@;
                assert(after =~= before.insert(at as int, fresh));
                assert(after[at as int] == fresh);
                assert forall|k: int|
                    0 <= k < before.len() && (#[trigger] before[k]).sender@ != sender@ implies
                    after.contains(before[k]) by {
                    assert(after[if k < at { k } else { k + 1 }] == before[k]);
                }
                assert forall|k: int|
                    0 <= k < after.len() && (#[trigger] after[k]).sender@ != sender@ implies
                    before.contains(after[k]) by {
                    assert(before[if k < at { k } else { k - 1 }] == after[k]);
                }
                assert forall|k: int| 0 <= k < after.len() && k != at implies #[trigger] after[k]
                    == before[if k < at {
                    k
                } else {
                    k - 1
                }] by {}
                assert forall|other: Seq<u8>|
                    other != sender@ && #[trigger] indexes(before, views, other) implies indexes(
                    after,
                    views,
                    other,
                ) by {
                    if forall|k: int| 0 <= k < after.len() ==> (#[trigger] after[k]).sender@
                        != other {
                        assert forall|k: int| 0 <= k < before.len() implies (
                        #[trigger] before[k]).sender@ != other by {
                            if k < at {
                                assert(after[k] == before[k]);
                            } else {
                                assert(after[k + 1] == before[k]);
                            }
                        }
                    }
                }
            }
        },
    }
}

/// Reads the reservations of each of `senders` from the instances into the
/// index.
pub fn rebuild_senders(
    instances: &Vec<XtInstance>,
    by_sender: &mut Vec<SenderReservations>,
    senders: &Vec<Address>,
)
    requires
        sorted_senders(old(by_sender)@),
        forall|other: Seq<u8>|
            !sender_views(senders@).contains(other) ==> #[trigger] indexes(
                old(by_sender)@,
                instance_views(instances@),
                other,
            ),
    ensures
        index_ok(final(by_sender)@, instance_views(instances@)),
        same_but_for(old(by_sender)@, final(by_sender)@, sender_views(senders@)),
{
    let ghost views = instance_views(instances@);
    let ghost all = sender_views(senders@);
    let ghost start = by_sender@;
    assert(all.skip(0) =~= all);
    let mut i: usize = 0;
    while i < senders.len()
        invariant
            i <= senders@.len(),
            views == instance_views(instances@),
            all == sender_views(senders@),
            sorted_senders(by_sender@),
            same_but_for(start, by_sender@, all),
            forall|other: Seq<u8>|
                !all.skip(i as int).contains(other) ==> #[trigger] indexes(
                    by_sender@,
                    views,
                    other,
                ),
        decreases senders@.len() - i,
    {
        let ghost before = by_sender@;
        rebuild_sender(instances, by_sender, senders[i]);
        proof {
            let after = by_sender@;
            let sender = senders@[i as int]@;
            assert(all[i as int] == sender);
            assert forall|k: int|
                0 <= k < start.len() && !all.contains((#[trigger] start[k]).sender@) implies
                after.contains(start[k]) by {
                let m = choose|m: int| 0 <= m < before.len() && before[m] == start[k];
                assert(before[m].sender@ != sender);
            }
            assert forall|k: int|
                0 <= k < after.len() && !all.contains((#[trigger] after[k]).sender@) implies
                start.contains(after[k]) by {
                let m = choose|m: int| 0 <= m < before.len() && before[m] == after[k];
                assert(start.contains(before[m]));
            }
        }
        assert forall|other: Seq<u8>| !all.skip(i + 1).contains(other) implies #[trigger] indexes(
            by_sender@,
            views,
            other,
        ) by {
            if other != all[i as int] {
                assert(!all.skip(i as int).contains(other)) by {
                    if all.skip(i as int).contains(other) {
                        let k = choose|k: int|
                            0 <= k < all.skip(i as int).len() && all.skip(i as int)[k] == other;
                        assert(all.skip(i + 1)[k - 1] == other);
                    }
                }
                assert(indexes(before, views, other));
            }
        }
        i += 1;
    }
    assert forall|sender: Seq<u8>| #[trigger] indexes(by_sender@, views, sender) by {
        assert(!all.skip(i as int).contains(sender));
    }
}

} // verus!
