//! What holds of the sidecar callbacks as a whole.

use vstd::prelude::*;

use super::client::{stepped, url_of, ConfirmPhase, EventView, WorkerView};
use super::overrides::{
    account_override, lemma_field_names, lemma_word_injective, quantity, slot_changed, state_diff,
    transition_override, word,
};
use super::state::{
    cache_modified, lookup, new_contract, AccountStatus, CacheView, SlotValues, StateView,
    TransitionView,
};
use crate::outside::Json;
use crate::text::{
    hex_number, hex_text, law_hex_number_reads_back, law_zeros_in_front_change_nothing,
    lemma_trim_end, prefixed, reads_as, trim_end, zero_padded,
};

verus! {

/// Slashes at the end of the endpoint make no difference, and none is left in
/// front of the path.
pub proof fn law_trailing_slashes_are_dropped(endpoint: Seq<char>, path: Seq<char>)
    ensures
        url_of(endpoint.push('/'), path) == url_of(endpoint, path),
        ({
            let base = trim_end(endpoint, '/');
            &&& url_of(endpoint, path) == base + path
            &&& base.len() <= endpoint.len()
            &&& base == endpoint.take(base.len() as int)
            &&& base.len() > 0 ==> base.last() != '/'
            &&& forall|i: int| base.len() <= i < endpoint.len() ==> endpoint[i] == '/'
        }),
{
    assert(endpoint.push('/').drop_last() =~= endpoint);
    lemma_trim_end(endpoint, '/');
}

/// The event is an answer to what the worker asked for.
pub open spec fn answers(phase: ConfirmPhase, event: EventView) -> bool {
    match phase {
        ConfirmPhase::Waiting => event is Received || event is Closed,
        ConfirmPhase::Collecting => event is Received || event is Drained || event is Closed,
        ConfirmPhase::Posting { .. } => event is Posted || event is Failed,
        ConfirmPhase::Pausing { .. } => event is Paused,
        ConfirmPhase::Stopped => false,
    }
}

/// The worker after a number of events.
pub open spec fn after_events(w: WorkerView, events: Seq<EventView>) -> WorkerView
    decreases events.len(),
{
    if events.len() == 0 {
        w
    } else {
        stepped(after_events(w, events.drop_last()), events.last())
    }
}

/// Each event is an answer to what the worker asked for.
pub open spec fn all_answer(w: WorkerView, events: Seq<EventView>) -> bool
    decreases events.len(),
{
    events.len() == 0 || (all_answer(w, events.drop_last()) && answers(
        after_events(w, events.drop_last()).phase,
        events.last(),
    ))
}

/// The instances that were received, in order.
pub open spec fn all_received(events: Seq<EventView>) -> Seq<Seq<char>>
    decreases events.len(),
{
    if events.len() == 0 {
        Seq::empty()
    } else {
        match events.last() {
            EventView::Received(ids) => all_received(events.drop_last()) + ids,
            _ => all_received(events.drop_last()),
        }
    }
}

/// The instances of the batches that the sidecar accepted, in order.
pub open spec fn all_confirmed(w: WorkerView, events: Seq<EventView>) -> Seq<Seq<char>>
    decreases events.len(),
{
    if events.len() == 0 {
        Seq::empty()
    } else {
        match events.last() {
            EventView::Posted => all_confirmed(w, events.drop_last()) + after_events(
                w,
                events.drop_last(),
            ).batch,
            _ => all_confirmed(w, events.drop_last()),
        }
    }
}

/// No instance is lost or confirmed twice: what was received is what the
/// sidecar accepted, followed by what is still queued.
pub proof fn law_no_instance_is_lost(w: WorkerView, events: Seq<EventView>)
    requires
        w.batch == Seq::<Seq<char>>::empty(),
        all_answer(w, events),
    ensures
        all_received(events) == all_confirmed(w, events) + after_events(w, events).batch,
    decreases events.len(),
{
    if events.len() > 0 {
        law_no_instance_is_lost(w, events.drop_last());
        assert(all_received(events) =~= all_confirmed(w, events) + after_events(w, events).batch);
    } else {
        assert(all_received(events) =~= all_confirmed(w, events) + after_events(w, events).batch);
    }
}

/// The worker after `n` failures, each followed by a pause.
pub open spec fn after_failures(w: WorkerView, n: nat) -> WorkerView
    decreases n,
{
    if n == 0 {
        w
    } else {
        stepped(
            stepped(after_failures(w, (n - 1) as nat), EventView::Failed),
            EventView::Paused,
        )
    }
}

/// A batch is posted once and then again after each of `max_retries` failures.
/// The failure after that leaves the batch queued.
pub proof fn law_failed_batch_is_retried_and_kept(w: WorkerView, n: nat)
    requires
        w.phase == (ConfirmPhase::Posting { attempt: 0 }),
        n <= w.max_retries,
    ensures
        after_failures(w, n) == (WorkerView {
            phase: ConfirmPhase::Posting { attempt: n as u32 },
            ..w
        }),
        n < w.max_retries ==> stepped(after_failures(w, n), EventView::Failed) == (WorkerView {
            phase: ConfirmPhase::Pausing { attempt: n as u32 },
            ..w
        }),
        n == w.max_retries ==> stepped(after_failures(w, n), EventView::Failed) == (WorkerView {
            phase: ConfirmPhase::Waiting,
            ..w
        }),
    decreases n,
{
    if n > 0 {
        law_failed_batch_is_retried_and_kept(w, (n - 1) as nat);
    }
}

/// When the queue closes, instances that are still queued are posted once more,
/// with all retries. The worker stops with instances unconfirmed only after that
/// round has failed too.
pub proof fn law_closing_gives_a_last_round(w: WorkerView)
    requires
        w.phase == ConfirmPhase::Waiting,
    ensures
        w.batch.len() > 0 && !w.last_round ==> {
            let last = stepped(w, EventView::Closed);
            let failed = stepped(
                after_failures(last, w.max_retries as nat),
                EventView::Failed,
            );
            &&& last == (WorkerView {
                phase: ConfirmPhase::Posting { attempt: 0 },
                last_round: true,
                ..w
            })
            &&& failed == (WorkerView { last_round: true, ..w })
            &&& stepped(failed, EventView::Closed) == (WorkerView {
                phase: ConfirmPhase::Stopped,
                last_round: true,
                ..w
            })
        },
        w.batch.len() == 0 || w.last_round ==> stepped(w, EventView::Closed) == (WorkerView {
            phase: ConfirmPhase::Stopped,
            ..w
        }),
{
    if w.batch.len() > 0 && !w.last_round {
        law_failed_batch_is_retried_and_kept(
            stepped(w, EventView::Closed),
            w.max_retries as nat,
        );
    }
}

/// A worker stops only when nothing is queued any more, or after the last
/// round.
pub proof fn law_stops_only_after_the_last_round(w: WorkerView, events: Seq<EventView>)
    requires
        w.phase == ConfirmPhase::Waiting,
    ensures
        after_events(w, events).phase == ConfirmPhase::Stopped ==> after_events(
            w,
            events,
        ).batch.len() == 0 || after_events(w, events).last_round,
    decreases events.len(),
{
    if events.len() > 0 {
        law_stops_only_after_the_last_round(w, events.drop_last());
    }
}

/// The override of an account that is modified in the cache has the balance
/// and the nonce of the cache, whatever its transition says; so the sidecar
/// recognizes transactions that are already included.
pub proof fn law_cache_gives_balance_and_nonce(state: StateView, address: Seq<u8>)
    requires
        lookup(state.cache, address) matches Some(c) && !c.status.not_modified() && c.account
            is Some,
    ensures
        ({
            let info = lookup(state.cache, address)->0.account->0;
            account_override(state, address) matches Some(fields) && fields.contains_key(
                "balance"@,
            ) && fields["balance"@] == Json::Text(quantity(info.balance))
                && fields.contains_key("nonce"@) && fields["nonce"@] == Json::Text(
                quantity(info.nonce as nat),
            )
        }),
{
    lemma_field_names();
}

/// An account that is gone from the modified cache is overridden to be empty.
pub proof fn law_gone_account_is_emptied(state: StateView, address: Seq<u8>)
    requires
        lookup(state.cache, address) matches Some(c) && !c.status.not_modified() && c.account
            is None,
    ensures
        account_override(state, address) matches Some(fields) && is_emptied(fields),
{
    lemma_field_names();
}

/// The override empties the account: no balance, nonce, code or storage.
pub open spec fn is_emptied(fields: Map<Seq<char>, Json>) -> bool {
    &&& fields.contains_key("balance"@) && fields["balance"@] == Json::Text("0x0"@)
    &&& fields.contains_key("nonce"@) && fields["nonce"@] == Json::Text("0x0"@)
    &&& fields.contains_key("code"@) && fields["code"@] == Json::Text("0x"@)
    &&& fields.contains_key("state"@) && fields["state"@] == Json::Object(Map::empty())
}

/// An account without a transition that is not modified in the cache has no
/// override.
pub proof fn law_untouched_account_has_no_override(state: StateView, address: Seq<u8>)
    requires
        lookup(state.transitions, address) is None,
        lookup(state.cache, address) matches Some(c) ==> c.status.not_modified(),
    ensures
        account_override(state, address) is None,
{
}

/// A transition replaces the storage of an account or lists its changed slots,
/// never both. It replaces the storage where the account was destroyed or is
/// gone.
pub proof fn law_storage_is_replaced_or_patched(account: TransitionView)
    ensures
        transition_override(account) matches Some(fields) ==> {
            let replaced = account.status.destroyed() || account.info is None;
            &&& replaced ==> is_emptied(fields)
            &&& fields.contains_key("state"@) <==> replaced
            &&& fields.contains_key("stateDiff"@) <==> !replaced && state_diff(account.storage)
                != Map::<Seq<char>, Json>::empty()
        },
{
    lemma_field_names();
}

/// The changed slots, and no others, are listed, each with its present value.
pub proof fn law_changed_slots_are_listed(storage: Seq<(nat, SlotValues)>, slot: nat)
    ensures
        state_diff(storage).contains_key(word(slot)) <==> slot_changed(storage, slot),
        slot_changed(storage, slot) ==> state_diff(storage)[word(slot)] == Json::Text(
            word(lookup(storage, slot)->0.present),
        ),
{
    if state_diff(storage).contains_key(word(slot)) {
        let other = choose|other: nat| #[trigger]
            slot_changed(storage, other) && word(slot) == word(other);
        lemma_word_injective(slot, other);
    }
}

/// The account is as it was loaded from the database.
pub open spec fn as_loaded(status: AccountStatus) -> bool {
    match status {
        AccountStatus::LoadedNotExisting => true,
        AccountStatus::Loaded => true,
        AccountStatus::LoadedEmptyEIP161 => true,
        AccountStatus::InMemoryChange => false,
        AccountStatus::Changed => false,
        AccountStatus::Destroyed => false,
        AccountStatus::DestroyedChanged => false,
        AccountStatus::DestroyedAgain => false,
    }
}

/// The account was destroyed, perhaps to be created again.
pub open spec fn once_destroyed(status: AccountStatus) -> bool {
    match status {
        AccountStatus::LoadedNotExisting => false,
        AccountStatus::Loaded => false,
        AccountStatus::LoadedEmptyEIP161 => false,
        AccountStatus::InMemoryChange => false,
        AccountStatus::Changed => false,
        AccountStatus::Destroyed => true,
        AccountStatus::DestroyedChanged => true,
        AccountStatus::DestroyedAgain => true,
    }
}

/// The account has code, and did not have it before.
pub open spec fn got_code(account: TransitionView) -> bool {
    account.info matches Some(info) && info.code is Some && (account.previous_info matches Some(
        previous,
    ) ==> previous.code_hash != info.code_hash)
}

/// The slot has another value than before.
pub open spec fn got_value(storage: Seq<(nat, SlotValues)>, slot: nat) -> bool {
    lookup(storage, slot) matches Some(v) && v.previous != v.present
}

/// `diff` lists the changed slots and their present values, and nothing else.
pub open spec fn lists_changed_slots(
    diff: Map<Seq<char>, Json>,
    storage: Seq<(nat, SlotValues)>,
) -> bool {
    &&& forall|slot: nat| #[trigger]
        got_value(storage, slot) ==> diff.contains_key(word(slot)) && diff[word(slot)]
            == Json::Text(word(lookup(storage, slot)->0.present))
    &&& forall|key: Seq<char>| #[trigger]
        diff.contains_key(key) ==> exists|slot: nat| #[trigger]
            got_value(storage, slot) && key == word(slot)
}

/// What a transition makes of an account, by its status. An override is made
/// exactly if the account is not as it was loaded, got code, or has a changed
/// slot. It empties an account that was destroyed or is gone. Of any other it
/// gives balance and nonce, the code if the account got it, and the changed
/// slots if there are any, and nothing else.
pub proof fn law_transition_by_status(account: TransitionView)
    ensures
        transition_override(account) is Some <==> !as_loaded(account.status) || got_code(account)
            || exists|slot: nat| #[trigger] got_value(account.storage, slot),
        transition_override(account) matches Some(fields) ==> if once_destroyed(account.status)
            || account.info is None {
            is_emptied(fields) && forall|key: Seq<char>| #[trigger]
                fields.contains_key(key) ==> key == "balance"@ || key == "nonce"@ || key
                    == "code"@ || key == "state"@
        } else {
            let info = account.info->0;
            &&& fields.contains_key("balance"@)
            &&& fields["balance"@] == Json::Text(quantity(info.balance))
            &&& fields.contains_key("nonce"@)
            &&& fields["nonce"@] == Json::Text(quantity(info.nonce as nat))
            &&& fields.contains_key("code"@) <==> got_code(account)
            &&& got_code(account) ==> fields["code"@] == Json::Text(
                prefixed(hex_text(info.code->0)),
            )
            &&& fields.contains_key("stateDiff"@) <==> exists|slot: nat| #[trigger]
                got_value(account.storage, slot)
            &&& fields.contains_key("stateDiff"@) ==> (fields["stateDiff"@] matches Json::Object(
                diff,
            ) && lists_changed_slots(diff, account.storage))
            &&& forall|key: Seq<char>| #[trigger]
                fields.contains_key(key) ==> key == "balance"@ || key == "nonce"@ || key
                    == "code"@ || key == "stateDiff"@
        },
{
    lemma_field_names();
    let storage = account.storage;
    let diff = state_diff(storage);
    assert forall|slot: nat| #[trigger] got_value(storage, slot) == slot_changed(
        storage,
        slot,
    ) by {}
    assert(lists_changed_slots(diff, storage)) by {
        assert forall|slot: nat| #[trigger] got_value(storage, slot) implies diff.contains_key(
            word(slot),
        ) && diff[word(slot)] == Json::Text(word(lookup(storage, slot)->0.present)) by {
            law_changed_slots_are_listed(storage, slot);
        }
        assert forall|key: Seq<char>| #[trigger] diff.contains_key(key) implies exists|slot: nat|
            #[trigger] got_value(storage, slot) && key == word(slot) by {
            let slot = choose|slot: nat| #[trigger]
                slot_changed(storage, slot) && key == word(slot);
            assert(got_value(storage, slot));
        }
    }
    if exists|slot: nat| #[trigger] got_value(storage, slot) {
        let slot = choose|slot: nat| #[trigger] got_value(storage, slot);
        assert(diff.contains_key(word(slot)));
        assert(diff != Map::<Seq<char>, Json>::empty());
    } else {
        assert(diff =~= Map::<Seq<char>, Json>::empty());
    }
    assert((new_contract(account) is Some) == got_code(account));
}

/// How the override of an account comes about, by its status in the cache. An
/// account that is not in the cache, or is there as it was loaded, has what its
/// transition asks for. Otherwise balance and nonce are those of the cache; code
/// of the transition stays, and without it the cache's code is taken; an
/// account that is gone is emptied. What else the transition asks for stays.
pub proof fn law_override_by_cache_status(state: StateView, address: Seq<u8>)
    ensures
        ({
            let transition = match lookup(state.transitions, address) {
                Some(account) => transition_override(account),
                None => None,
            };
            match lookup(state.cache, address) {
                None => account_override(state, address) == transition,
                Some(cached) => if as_loaded(cached.status) {
                    account_override(state, address) == transition
                } else {
                    let base = match transition {
                        Some(fields) => fields,
                        None => Map::<Seq<char>, Json>::empty(),
                    };
                    account_override(state, address) matches Some(fields) && match cached.account {
                        Some(info) => {
                            &&& fields.contains_key("balance"@)
                            &&& fields["balance"@] == Json::Text(quantity(info.balance))
                            &&& fields.contains_key("nonce"@)
                            &&& fields["nonce"@] == Json::Text(quantity(info.nonce as nat))
                            &&& fields.contains_key("code"@) <==> base.contains_key("code"@)
                                || info.code is Some
                            &&& base.contains_key("code"@) ==> fields["code"@] == base["code"@]
                            &&& !base.contains_key("code"@) && info.code is Some ==> fields["code"@]
                                == Json::Text(prefixed(hex_text(info.code->0)))
                            &&& forall|key: Seq<char>|
                                key != "balance"@ && key != "nonce"@ && key != "code"@ ==> (
                                #[trigger] fields.contains_key(key) <==> base.contains_key(key))
                                    && fields[key] == base[key]
                        },
                        None => {
                            &&& is_emptied(fields)
                            &&& forall|key: Seq<char>|
                                key != "balance"@ && key != "nonce"@ && key != "code"@ && key
                                    != "state"@ ==> (#[trigger] fields.contains_key(key)
                                    <==> base.contains_key(key)) && fields[key] == base[key]
                        },
                    }
                },
            }
        }),
{
    lemma_field_names();
}

/// The cache counts as modified exactly if one of its accounts is not as it was
/// loaded.
pub proof fn law_modified_cache(cache: Seq<(Seq<u8>, CacheView)>)
    ensures
        cache_modified(cache) <==> exists|i: int|
            0 <= i < cache.len() && !as_loaded((#[trigger] cache[i]).1.status),
{
    if cache_modified(cache) {
        let i = choose|i: int|
            0 <= i < cache.len() && !(#[trigger] cache[i]).1.status.not_modified();
        assert(!as_loaded(cache[i].1.status));
    }
    if exists|i: int| 0 <= i < cache.len() && !as_loaded((#[trigger] cache[i]).1.status) {
        let i = choose|i: int|
            0 <= i < cache.len() && !as_loaded((#[trigger] cache[i]).1.status);
        assert(!cache[i].1.status.not_modified());
    }
}

/// A quantity is "0x" and the digits of the number, without leading zeros. A
/// word is "0x" and its digits with zeros in front up to 64 digits.
pub proof fn law_quantities_and_words_read_back(n: nat)
    ensures
        ({
            let q = quantity(n);
            let w = word(n);
            &&& q.len() > 2 && q[0] == '0' && q[1] == 'x'
            &&& w.len() >= 66 && w[0] == '0' && w[1] == 'x'
            &&& reads_as(q.skip(2), n)
            &&& reads_as(w.skip(2), n)
            &&& q.len() > 3 ==> q[2] != '0'
            &&& w.len() > 66 ==> w[2] != '0'
        }),
{
    law_hex_number_reads_back(n);
    let digits = hex_number(n);
    assert(quantity(n).skip(2) =~= digits);
    assert(word(n).skip(2) =~= zero_padded(digits, 64));
    law_zeros_in_front_change_nothing(digits, 64, n);
}

/// A round of posting. Once the queue is drained or closed, the batch is posted
/// for the first time; a success ends the round with nothing queued; a failure
/// leaves the batch and pauses before the next post, as long as retries are
/// left.
pub proof fn law_round_of_posting(w: WorkerView)
    ensures
        w.phase == ConfirmPhase::Collecting ==> {
            &&& stepped(w, EventView::Drained) == (WorkerView {
                phase: ConfirmPhase::Posting { attempt: 0 },
                ..w
            })
            &&& stepped(w, EventView::Closed) == (WorkerView {
                phase: ConfirmPhase::Posting { attempt: 0 },
                ..w
            })
        },
        w.phase matches ConfirmPhase::Posting { attempt } ==> {
            &&& stepped(w, EventView::Posted).phase == ConfirmPhase::Waiting
            &&& stepped(w, EventView::Posted).batch.len() == 0
            &&& stepped(w, EventView::Failed).batch == w.batch
            &&& stepped(w, EventView::Failed).phase == (if attempt < w.max_retries {
                ConfirmPhase::Pausing { attempt }
            } else {
                ConfirmPhase::Waiting
            })
        },
        w.phase matches ConfirmPhase::Pausing { attempt } ==> attempt < u32::MAX ==> stepped(
            w,
            EventView::Paused,
        ) == (WorkerView { phase: ConfirmPhase::Posting { attempt: (attempt + 1) as u32 }, ..w }),
        w.phase == ConfirmPhase::Waiting || w.phase == ConfirmPhase::Collecting ==> forall|
            ids: Seq<Seq<char>>,
        | #[trigger]
            stepped(w, EventView::Received(ids)) == (WorkerView {
                phase: ConfirmPhase::Collecting,
                batch: w.batch + ids,
                ..w
            }),
{
}

/// No event changes where the worker posts to or how often it retries, and one
/// that does not answer what the worker asked for changes nothing.
pub proof fn law_events_out_of_phase_change_nothing(w: WorkerView, event: EventView)
    ensures
        stepped(w, event).url == w.url,
        stepped(w, event).max_retries == w.max_retries,
        !answers(w.phase, event) ==> stepped(w, event) == w,
{
}

} // verus!
