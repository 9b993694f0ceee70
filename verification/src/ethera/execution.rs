//! Which instances can execute on the current nonces, and what stops the
//! others.

use vstd::prelude::*;

use super::model::{senders_in, InstanceView, ReservationView, XtEntryStatus};
use super::nonces::NonceTable;
use super::reservation::{
    entry_views, instance_views, raw_views, sender_views, XtInstance, XtReservation,
};
use crate::primitives::{Address, TxHash};

verus! {

/// Account nonces, and the transactions that led there.
#[verifier::ext_equal]
pub struct RunView {
    pub nonces: Map<Seq<u8>, u64>,
    pub transactions: Seq<Seq<u8>>,
}

/// An instance that can execute: its transactions that are still to run.
pub struct ExecutableView {
    pub instance_id: Seq<char>,
    pub transactions: Seq<Seq<u8>>,
    pub senders: Seq<Seq<u8>>,
}

/// Why a transaction cannot execute, and the nonce of its sender if known.
pub struct StopView {
    pub entry: ReservationView,
    pub current_nonce: Option<u64>,
    pub reason: Seq<char>,
}

/// The nonce after `nonce`; the largest one stays.
pub open spec fn next_nonce(nonce: u64) -> u64 {
    if nonce == u64::MAX {
        nonce
    } else {
        (nonce + 1) as u64
    }
}

/// The transaction has run already.
pub open spec fn is_stale(e: ReservationView, nonces: Map<Seq<u8>, u64>) -> bool {
    nonces.contains_key(e.sender) && e.nonce < nonces[e.sender]
}

/// What stops the transaction, if anything does: an unknown sender, a status
/// that is not `Released`, or a nonce ahead of the sender's.
pub open spec fn stop(e: ReservationView, nonces: Map<Seq<u8>, u64>) -> Option<StopView> {
    if !nonces.contains_key(e.sender) {
        Some(
            StopView {
                entry: e,
                current_nonce: None,
                reason: "sender nonce unavailable in current state"@,
            },
        )
    } else if is_stale(e, nonces) {
        None
    } else if e.status != XtEntryStatus::Released {
        Some(
            StopView {
                entry: e,
                current_nonce: Some(nonces[e.sender]),
                reason: "reservation is not released"@,
            },
        )
    } else if e.nonce != nonces[e.sender] {
        Some(
            StopView {
                entry: e,
                current_nonce: Some(nonces[e.sender]),
                reason: "nonce does not match current execution cursor"@,
            },
        )
    } else {
        None
    }
}

/// What the entries do to the nonces, in order; nothing if one is stopped.
/// Transactions that have run already are passed over.
pub open spec fn run(entries: Seq<ReservationView>, nonces: Map<Seq<u8>, u64>) -> Option<RunView>
    decreases entries.len(),
{
    if entries.len() == 0 {
        Some(RunView { nonces, transactions: Seq::empty() })
    } else {
        match run(entries.drop_last(), nonces) {
            Some(before) => {
                let e = entries.last();
                if stop(e, before.nonces) is Some {
                    None
                } else if is_stale(e, before.nonces) {
                    Some(before)
                } else {
                    Some(
                        RunView {
                            nonces: before.nonces.insert(e.sender, next_nonce(e.nonce)),
                            transactions: before.transactions.push(e.raw),
                        },
                    )
                }
            },
            None => None,
        }
    }
}

/// The nonces after the instances that can execute, and those instances.
pub open spec fn run_all(
    instances: Seq<InstanceView>,
    nonces: Map<Seq<u8>, u64>,
) -> (Map<Seq<u8>, u64>, Seq<ExecutableView>)
    decreases instances.len(),
{
    if instances.len() == 0 {
        (nonces, Seq::empty())
    } else {
        let (before, ready) = run_all(instances.drop_last(), nonces);
        let x = instances.last();
        match run(x.entries, before) {
            Some(after) => if after.transactions.len() > 0 {
                (
                    after.nonces,
                    ready.push(
                        ExecutableView {
                            instance_id: x.id,
                            transactions: after.transactions,
                            senders: senders_in(x.entries),
                        },
                    ),
                )
            } else {
                (before, ready)
            },
            None => (before, ready),
        }
    }
}

/// The first of the entries that is stopped.
pub open spec fn first_stop(
    entries: Seq<ReservationView>,
    nonces: Map<Seq<u8>, u64>,
) -> Option<StopView>
    decreases entries.len(),
{
    if entries.len() == 0 {
        None
    } else {
        match run(entries.drop_last(), nonces) {
            Some(before) => stop(entries.last(), before.nonces),
            None => first_stop(entries.drop_last(), nonces),
        }
    }
}

/// What stops the first instance that cannot execute, with its ID.
pub open spec fn first_blocked(
    instances: Seq<InstanceView>,
    nonces: Map<Seq<u8>, u64>,
) -> Option<(Seq<char>, StopView)>
    decreases instances.len(),
{
    if instances.len() == 0 {
        None
    } else {
        match first_blocked(instances.drop_last(), nonces) {
            Some(b) => Some(b),
            None => {
                let x = instances.last();
                match first_stop(x.entries, run_all(instances.drop_last(), nonces).0) {
                    Some(s) => Some((x.id, s)),
                    None => None,
                }
            },
        }
    }
}

/// An instance that can execute.
#[derive(Debug, Clone)]
pub struct ExecutableXtInstance {
    pub instance_id: String,
    pub transactions: Vec<Vec<u8>>,
    /// Unique senders whose nonces are consumed by this instance (in encounter order).
    pub senders: Vec<Address>,
}

impl View for ExecutableXtInstance {
    type V = ExecutableView;

    open spec fn view(&self) -> ExecutableView {
        ExecutableView {
            instance_id: self.instance_id@,
            transactions: raw_views(self.transactions@),
            senders: sender_views(self.senders@),
        }
    }
}

/// The executable instances of a list.
pub open spec fn executable_views(list: Seq<ExecutableXtInstance>) -> Seq<ExecutableView> {
    list.map_values(|x: ExecutableXtInstance| x@)
}

/// Why an instance cannot execute.
#[derive(Debug, Clone)]
pub struct XtBlockedReason {
    pub instance_id: String,
    pub sender: Address,
    pub phase: &'static str,
    pub status: &'static str,
    pub tx_index: usize,
    pub entry_nonce: u64,
    pub current_nonce: Option<u64>,
    pub tx_hash: TxHash,
    pub reason: &'static str,
}

impl XtBlockedReason {
    /// The reason reports that `s` stops instance `id`.
    pub open spec fn reports(&self, id: Seq<char>, s: StopView) -> bool {
        &&& self.instance_id@ == id
        &&& self.sender@ == s.entry.sender
        &&& self.phase@ == s.entry.phase.name()
        &&& self.status@ == s.entry.status.name()
        &&& self.tx_index == s.entry.tx_index
        &&& self.entry_nonce == s.entry.nonce
        &&& self.current_nonce == s.current_nonce
        &&& self.tx_hash@ == s.entry.tx_hash
        &&& self.reason@ == s.reason
    }
}

/// What becomes of a transaction on the current nonces.
enum Step {
    Stale,
    Executed,
    Stopped { current_nonce: Option<u64>, reason: &'static str },
}

/// Tries a transaction on the nonces, and moves them if it executes.
fn step(entry: &XtReservation, nonces: &mut NonceTable) -> (res: Step)
    ensures
        match res {
            Step::Stale => stop(entry@, old(nonces)@) is None && is_stale(entry@, old(nonces)@)
                && final(nonces)@ == old(nonces)@,
            Step::Executed => stop(entry@, old(nonces)@) is None && !is_stale(
                entry@,
                old(nonces)@,
            ) && final(nonces)@ == old(nonces)@.insert(entry@.sender, next_nonce(entry.nonce)),
            Step::Stopped { current_nonce, reason } => stop(entry@, old(nonces)@) == Some(
                StopView { entry: entry@, current_nonce, reason: reason@ },
            ) && final(nonces)@ == old(nonces)@,
        },
{
    let current = match nonces.get(entry.sender) {
        Some(current) => current,
        None => {
            return Step::Stopped {
                current_nonce: None,
                reason: "sender nonce unavailable in current state",
            };
        },
    };
    if entry.nonce < current {
        return Step::Stale;
    }
    if entry.status != XtEntryStatus::Released {
        return Step::Stopped {
            current_nonce: Some(current),
            reason: "reservation is not released",
        };
    }
    if entry.nonce != current {
        return Step::Stopped {
            current_nonce: Some(current),
            reason: "nonce does not match current execution cursor",
        };
    }
    nonces.insert(entry.sender, current.saturating_add(1));
    Step::Executed
}

/// A list that is stopped stays stopped, at the same entry.
proof fn lemma_stopped(entries: Seq<ReservationView>, nonces: Map<Seq<u8>, u64>, n: int)
    requires
        0 < n <= entries.len(),
        run(entries.take(n), nonces) is None,
    ensures
        run(entries, nonces) is None,
        first_stop(entries, nonces) == first_stop(entries.take(n), nonces),
    decreases entries.len(),
{
    if n == entries.len() {
        assert(entries.take(n) =~= entries);
    } else {
        assert(entries.drop_last().take(n) =~= entries.take(n));
        lemma_stopped(entries.drop_last(), nonces, n);
    }
}

/// The outcome of trying an instance.
enum Attempt {
    Done { nonces: NonceTable, transactions: Vec<Vec<u8>> },
    Stopped { index: usize, current_nonce: Option<u64>, reason: &'static str },
}

/// Tries the transactions of an instance, in order, on a copy of the nonces.
fn attempt(entries: &Vec<XtReservation>, nonces: &NonceTable) -> (res: Attempt)
    ensures
        match res {
            Attempt::Done { nonces: after, transactions } => run(entry_views(entries@), nonces@)
                == Some(RunView { nonces: after@, transactions: raw_views(transactions@) })
                && first_stop(entry_views(entries@), nonces@) is None,
            Attempt::Stopped { index, current_nonce, reason } => run(
                entry_views(entries@),
                nonces@,
            ) is None && index < entries@.len() && first_stop(entry_views(entries@), nonces@)
                == Some(
                StopView { entry: entries@[index as int]@, current_nonce, reason: reason@ },
            ),
        },
{
    let mut expected = nonces.copy();
    let mut transactions: Vec<Vec<u8>> = Vec::new();
    let ghost all = entry_views(entries@);
    let mut i: usize = 0;
    assert(raw_views(transactions@) =~= Seq::<Seq<u8>>::empty());
    while i < entries.len()
        invariant
            i <= entries@.len(),
            all == entry_views(entries@),
            run(all.take(i as int), nonces@) == Some(
                RunView { nonces: expected@, transactions: raw_views(transactions@) },
            ),
            first_stop(all.take(i as int), nonces@) is None,
        decreases entries@.len() - i,
    {
        let ghost next = all.take(i + 1);
        assert(next.drop_last() =~= all.take(i as int));
        assert(next.last() == entries@[i as int]@);
        match step(&entries[i], &mut expected) {
            Step::Stale => {},
            Step::Executed => {
                let ghost before = transactions@;
                let raw = entries[i].raw.clone();
                assert(raw@ =~= entries@[i as int].raw@);
                transactions.push(raw);
                assert(raw_views(transactions@) =~= raw_views(before).push(raw@));
            },
            Step::Stopped { current_nonce, reason } => {
                proof {
                    lemma_stopped(all, nonces@, i + 1);
                }
                return Attempt::Stopped { index: i, current_nonce, reason };
            },
        }
        i += 1;
    }
    assert(all.take(i as int) =~= all);
    Attempt::Done { nonces: expected, transactions }
}

/// The instances that can execute on `current_nonces`, one after the other.
pub(crate) fn executable_instances(
    instances: &Vec<XtInstance>,
    current_nonces: &NonceTable,
) -> (res: Vec<ExecutableXtInstance>)
    requires
        forall|i: int| 0 <= i < instances@.len() ==> (#[trigger] instances@[i]).wf(),
    ensures
        executable_views(res@) == run_all(instance_views(instances@), current_nonces@).1,
{
    let mut expected = current_nonces.copy();
    let mut executable: Vec<ExecutableXtInstance> = Vec::new();
    let ghost all = instance_views(instances@);
    let ghost start = current_nonces@;
    let mut i: usize = 0;
    assert(executable_views(executable@) =~= Seq::<ExecutableView>::empty());
    while i < instances.len()
        invariant
            i <= instances@.len(),
            all == instance_views(instances@),
            forall|k: int| 0 <= k < instances@.len() ==> (#[trigger] instances@[k]).wf(),
            run_all(all.take(i as int), start) == (
                expected@,
                executable_views(executable@),
            ),
        decreases instances@.len() - i,
    {
        let instance = &instances[i];
        let ghost next = all.take(i + 1);
        assert(next.drop_last() =~= all.take(i as int));
        assert(next.last() == instance@);
        match attempt(&instance.entries, &expected) {
            Attempt::Done { nonces, transactions } => {
                if transactions.len() > 0 {
                    let ghost before = executable@;
                    expected = nonces;
                    let senders = instance.senders.clone();
                    assert(sender_views(senders@) =~= sender_views(instance.senders@));
                    let ready = ExecutableXtInstance {
                        instance_id: instance.instance_id.clone(),
                        transactions,
                        senders,
                    };
                    executable.push(ready);
                    assert(executable_views(executable@) =~= executable_views(before).push(ready@));
                }
            },
            Attempt::Stopped { .. } => {},
        }
        i += 1;
    }
    assert(all.take(i as int) =~= all);
    executable
}

/// What stops the first instance that cannot execute on `current_nonces`.
pub(crate) fn first_blocked_reason(
    instances: &Vec<XtInstance>,
    current_nonces: &NonceTable,
) -> (res: Option<XtBlockedReason>)
    ensures
        match first_blocked(instance_views(instances@), current_nonces@) {
            Some((id, s)) => res matches Some(r) && r.reports(id, s),
            None => res is None,
        },
{
    let mut expected = current_nonces.copy();
    let ghost all = instance_views(instances@);
    let ghost start = current_nonces@;
    let mut i: usize = 0;
    while i < instances.len()
        invariant
            i <= instances@.len(),
            all == instance_views(instances@),
            start == current_nonces@,
            run_all(all.take(i as int), start).0 == expected@,
            first_blocked(all.take(i as int), start) is None,
        decreases instances@.len() - i,
    {
        let instance = &instances[i];
        let ghost next = all.take(i + 1);
        assert(next.drop_last() =~= all.take(i as int));
        assert(next.last() == instance@);
        match attempt(&instance.entries, &expected) {
            Attempt::Done { nonces, transactions } => {
                if transactions.len() > 0 {
                    expected = nonces;
                }
            },
            Attempt::Stopped { index, current_nonce, reason } => {
                let entry = &instance.entries[index];
                proof {
                    lemma_blocked(all, start, i + 1);
                }
                return Some(
                    XtBlockedReason {
                        instance_id: instance.instance_id.clone(),
                        sender: entry.sender,
                        phase: entry.phase.as_str(),
                        status: entry.status.as_str(),
                        tx_index: entry.tx_index,
                        entry_nonce: entry.nonce,
                        current_nonce,
                        tx_hash: entry.tx_hash,
                        reason,
                    },
                );
            },
        }
        i += 1;
    }
    assert(all.take(i as int) =~= all);
    None
}

/// The first blocked instance of a longer list is that of a shorter one.
proof fn lemma_blocked(instances: Seq<InstanceView>, nonces: Map<Seq<u8>, u64>, n: int)
    requires
        0 < n <= instances.len(),
        first_blocked(instances.take(n), nonces) is Some,
    ensures
        first_blocked(instances, nonces) == first_blocked(instances.take(n), nonces),
    decreases instances.len(),
{
    if n == instances.len() {
        assert(instances.take(n) =~= instances);
    } else {
        assert(instances.drop_last().take(n) =~= instances.take(n));
        lemma_blocked(instances.drop_last(), nonces, n);
    }
}

} // verus!
