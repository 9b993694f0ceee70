//! Helpers for building state overrides for sidecar simulations.

use serde_json::{Map as JsonMap, Value};
use vstd::prelude::*;
use vstd::string::*;

use super::state::{
    distinct_keys, lemma_lookup, lookup, new_contract, storage_view, transition_views, wf_state,
    CacheAccount, CacheView, SlotValues, StateSnapshot, StateView, StorageSlot, TransitionAccount,
    TransitionView,
};
use crate::outside::{
    address_checksum, checksummed, hex_encode, json_contains_key, json_insert, json_is_empty,
    json_members, json_new, json_object, json_object_entry, json_text, json_value, u256_hex,
    u256_hex_word, Json,
};
use crate::primitives::{Address, U256};
use crate::text::{
    hex_number, hex_text, lemma_hex_number_injective, lemma_hex_text_injective,
    lemma_prefixed_injective, lower_hex, prefixed, u64_hex, zero_padded,
};

verus! {

/// A number as a JSON-RPC quantity: without leading zeros.
pub open spec fn quantity(n: nat) -> Seq<char> {
    prefixed(hex_number(n))
}

/// A number as a storage word: with 64 digits.
pub open spec fn word(n: nat) -> Seq<char> {
    prefixed(zero_padded(hex_number(n), 64))
}

/// The value of `slot` has changed.
pub open spec fn slot_changed(storage: Seq<(nat, SlotValues)>, slot: nat) -> bool {
    lookup(storage, slot) matches Some(v) && v.previous != v.present
}

/// The changed slots, with their values.
pub open spec fn state_diff(storage: Seq<(nat, SlotValues)>) -> Map<Seq<char>, Json> {
    Map::new(
        |key: Seq<char>| exists|slot: nat| #[trigger] slot_changed(storage, slot) && key == word(slot),
        |key: Seq<char>|
            {
                let slot = choose|slot: nat| #[trigger]
                    slot_changed(storage, slot) && key == word(slot);
                Json::Text(word(lookup(storage, slot)->0.present))
            },
    )
}

/// An override with the balance and the nonce of an account.
pub open spec fn with_fields(
    fields: Map<Seq<char>, Json>,
    balance: nat,
    nonce: u64,
) -> Map<Seq<char>, Json> {
    fields.insert("balance"@, Json::Text(quantity(balance))).insert(
        "nonce"@,
        Json::Text(quantity(nonce as nat)),
    )
}

/// An override that empties an account.
pub open spec fn with_destroyed(fields: Map<Seq<char>, Json>) -> Map<Seq<char>, Json> {
    fields.insert("balance"@, Json::Text("0x0"@)).insert("nonce"@, Json::Text("0x0"@)).insert(
        "code"@,
        Json::Text("0x"@),
    ).insert("state"@, Json::Object(Map::empty()))
}

/// An override with the code of an account.
pub open spec fn with_code(fields: Map<Seq<char>, Json>, code: Seq<u8>) -> Map<Seq<char>, Json> {
    fields.insert("code"@, Json::Text(prefixed(hex_text(code))))
}

/// The override that a transition asks for, but for storage: an account that
/// is gone, or was destroyed in between, is emptied.
pub open spec fn transition_fields(account: TransitionView) -> Map<Seq<char>, Json> {
    match account.info {
        Some(info) => if account.status.destroyed() {
            with_destroyed(Map::empty())
        } else {
            let fields = with_fields(Map::empty(), info.balance, info.nonce);
            match new_contract(account) {
                Some(code) => with_code(fields, code),
                None => fields,
            }
        },
        None => with_destroyed(Map::empty()),
    }
}

/// The override that a transition asks for, if it changed anything. Changed
/// slots are listed unless the storage is replaced as a whole.
pub open spec fn transition_override(account: TransitionView) -> Option<Map<Seq<char>, Json>> {
    let diff = state_diff(account.storage);
    let fields = transition_fields(account);
    if account.status.not_modified() && new_contract(account) is None && diff == Map::<
        Seq<char>,
        Json,
    >::empty() {
        None
    } else if diff != Map::<Seq<char>, Json>::empty() && !fields.contains_key("state"@) {
        Some(fields.insert("stateDiff"@, Json::Object(diff)))
    } else {
        Some(fields)
    }
}

/// The override of an account, brought up to date from the cache. Code that the
/// override has stays.
pub open spec fn cache_patched(
    fields: Map<Seq<char>, Json>,
    account: CacheView,
) -> Map<Seq<char>, Json> {
    match account.account {
        Some(info) => {
            let patched = with_fields(fields, info.balance, info.nonce);
            match info.code {
                Some(code) => if patched.contains_key("code"@) {
                    patched
                } else {
                    with_code(patched, code)
                },
                None => patched,
            }
        },
        None => with_destroyed(fields),
    }
}

/// The override of the account `address`, if it needs one: what its transition
/// asks for, brought up to date from the cache if it is modified there.
pub open spec fn account_override(state: StateView, address: Seq<u8>) -> Option<
    Map<Seq<char>, Json>,
> {
    let transition = match lookup(state.transitions, address) {
        Some(account) => transition_override(account),
        None => None,
    };
    match lookup(state.cache, address) {
        Some(account) => if account.status.not_modified() {
            transition
        } else {
            Some(
                cache_patched(
                    match transition {
                        Some(fields) => fields,
                        None => Map::empty(),
                    },
                    account,
                ),
            )
        },
        None => transition,
    }
}

/// `members` holds the override of each account that needs one under its
/// checksummed address, and nothing else.
pub open spec fn overrides_of(members: Map<Seq<char>, Json>, state: StateView) -> bool {
    &&& forall|address: Seq<u8>|
        (#[trigger] account_override(state, address)) matches Some(fields) ==> members.contains_key(
            checksummed(address),
        ) && members[checksummed(address)] == Json::Object(fields)
    &&& forall|key: Seq<char>| #[trigger]
        members.contains_key(key) ==> exists|address: Seq<u8>|
            (#[trigger] account_override(state, address)) is Some && key == checksummed(address)
}

/// The checksummed text of `address` differs from its digits in case only.
pub open spec fn spells(address: Seq<u8>) -> bool {
    lower_hex(checksummed(address)) == prefixed(hex_text(address))
}

/// Addresses whose texts differ from their digits in case only have different
/// texts.
pub proof fn lemma_spells_injective(a: Seq<u8>, b: Seq<u8>)
    requires
        spells(a),
        spells(b),
        checksummed(a) == checksummed(b),
    ensures
        a == b,
{
    lemma_prefixed_injective(hex_text(a), hex_text(b));
    lemma_hex_text_injective(a, b);
}

/// The names of the fields of an override are different.
pub proof fn lemma_field_names()
    ensures
        "state"@ != "balance"@,
        "state"@ != "nonce"@,
        "state"@ != "code"@,
        "code"@ != "balance"@,
        "code"@ != "nonce"@,
        "balance"@ != "nonce"@,
        "stateDiff"@ != "state"@,
        "stateDiff"@ != "balance"@,
        "stateDiff"@ != "nonce"@,
        "stateDiff"@ != "code"@,
{
    reveal_strlit("state");
    reveal_strlit("balance");
    reveal_strlit("nonce");
    reveal_strlit("code");
    reveal_strlit("stateDiff");
    assert("stateDiff"@.len() == 9);
    assert("state"@.len() == 5 && "balance"@.len() == 7 && "nonce"@.len() == 5 && "code"@.len()
        == 4);
    assert("state"@[0] == 's' && "nonce"@[0] == 'n');
}

/// Taking one more slot into account.
proof fn lemma_state_diff_next(storage: Seq<(nat, SlotValues)>, i: int)
    requires
        distinct_keys(storage),
        0 <= i < storage.len(),
    ensures
        state_diff(storage.take(i + 1)) == (if storage[i].1.previous != storage[i].1.present {
            state_diff(storage.take(i)).insert(
                word(storage[i].0),
                Json::Text(word(storage[i].1.present)),
            )
        } else {
            state_diff(storage.take(i))
        }),
{
    let done = storage.take(i);
    let next = storage.take(i + 1);
    let (slot, v) = storage[i];
    assert(next.drop_last() =~= done);
    assert(next.last() == (slot, v));
    lemma_lookup(done, slot);
    assert(lookup(done, slot) is None) by {
        if lookup(done, slot) is Some {
            let k = choose|k: int|
                0 <= k < done.len() && #[trigger] done[k] == (slot, lookup(done, slot)->0);
            assert(storage[k].0 == storage[i].0);
        }
    }
    let a = state_diff(next);
    let b = if v.previous != v.present {
        state_diff(done).insert(word(slot), Json::Text(word(v.present)))
    } else {
        state_diff(done)
    };
    assert forall|key: Seq<char>| #[trigger] a.contains_key(key) == b.contains_key(key) by {
        if a.contains_key(key) {
            let s = choose|s: nat| #[trigger] slot_changed(next, s) && key == word(s);
            assert(s == slot || slot_changed(done, s));
        }
        if b.contains_key(key) {
            if v.previous != v.present && key == word(slot) {
                assert(slot_changed(next, slot));
            } else {
                let s = choose|s: nat| #[trigger] slot_changed(done, s) && key == word(s);
                assert(slot_changed(next, s));
            }
        }
    }
    assert forall|key: Seq<char>| #[trigger] a.contains_key(key) implies a[key] == b[key] by {
        let s = choose|s: nat| #[trigger] slot_changed(next, s) && key == word(s);
        if v.previous != v.present && key == word(slot) {
            lemma_word_injective(s, slot);
        } else {
            assert(s != slot);
            assert(slot_changed(done, s));
            let r = choose|r: nat| #[trigger] slot_changed(done, r) && key == word(r);
            lemma_word_injective(s, r);
        }
    }
    assert(a =~= b);
}

/// Different numbers have different words.
pub proof fn lemma_word_injective(a: nat, b: nat)
    requires
        word(a) == word(b),
    ensures
        a == b,
{
    lemma_prefixed_injective(zero_padded(hex_number(a), 64), zero_padded(hex_number(b), 64));
    lemma_hex_number_injective(a, b, 64);
}

/// `digits` with "0x" in front.
fn prefix(digits: String) -> (res: String)
    ensures
        res@ == prefixed(digits@),
{
    proof {
        reveal_strlit("0x");
    }
    let res = "0x".to_owned().concat(digits.as_str());
    assert(res@ =~= prefixed(digits@));
    res
}

/// The changed slots, with their values.
fn changed_slots(storage: &Vec<StorageSlot>) -> (res: JsonMap<String, Value>)
    requires
        distinct_keys(storage_view(storage@)),
    ensures
        json_members(res) == state_diff(storage_view(storage@)),
{
    let mut diff = json_new();
    let ghost all = storage_view(storage@);
    let mut i: usize = 0;
    assert(state_diff(all.take(0)) =~= Map::<Seq<char>, Json>::empty()) by {
        assert forall|slot: nat| !#[trigger] slot_changed(all.take(0), slot) by {}
    }
    while i < storage.len()
        invariant
            i <= storage@.len(),
            all == storage_view(storage@),
            distinct_keys(all),
            json_members(diff) == state_diff(all.take(i as int)),
        decreases storage@.len() - i,
    {
        proof {
            lemma_state_diff_next(all, i as int);
        }
        let value = &storage[i];
        if value.is_changed() {
            let key = prefix(u256_hex_word(value.slot));
            json_insert(&mut diff, key, json_text(prefix(u256_hex_word(value.present_value))));
        }
        i += 1;
    }
    assert(all.take(i as int) =~= all);
    diff
}

/// Sets the balance and the nonce of an override.
fn set_account_override_fields(account_map: &mut JsonMap<String, Value>, balance: U256, nonce: u64)
    ensures
        json_members(*final(account_map)) == with_fields(
            json_members(*old(account_map)),
            balance.value(),
            nonce,
        ),
{
    json_insert(account_map, "balance".to_owned(), json_text(prefix(u256_hex(balance))));
    json_insert(account_map, "nonce".to_owned(), json_text(prefix(u64_hex(nonce))));
}

/// Makes an override empty the account.
fn set_destroyed_account_override(account_map: &mut JsonMap<String, Value>)
    ensures
        json_members(*final(account_map)) == with_destroyed(json_members(*old(account_map))),
{
    json_insert(account_map, "balance".to_owned(), json_text("0x0".to_owned()));
    json_insert(account_map, "nonce".to_owned(), json_text("0x0".to_owned()));
    json_insert(account_map, "code".to_owned(), json_text("0x".to_owned()));
    json_insert(account_map, "state".to_owned(), json_object(json_new()));
}

/// Sets the code of an override.
fn set_code(account_map: &mut JsonMap<String, Value>, code: &Vec<u8>)
    ensures
        json_members(*final(account_map)) == with_code(json_members(*old(account_map)), code@),
{
    json_insert(account_map, "code".to_owned(), json_text(prefix(hex_encode(code))));
}

/// The override that a transition asks for, if it changed anything.
fn override_of_transition(account: &TransitionAccount) -> (res: Option<JsonMap<String, Value>>)
    requires
        distinct_keys(account@.storage),
    ensures
        match transition_override(account@) {
            Some(fields) => res matches Some(map) && json_members(map) == fields,
            None => res is None,
        },
{
    let state_diff = changed_slots(&account.storage);
    let has_account_change = !account.status.is_not_modified()
        || account.has_new_contract().is_some();
    let has_storage_change = !json_is_empty(&state_diff);
    if !has_account_change && !has_storage_change {
        return None;
    }
    let mut account_map = json_new();
    match &account.info {
        Some(info) => {
            if account.status.was_destroyed() {
                set_destroyed_account_override(&mut account_map);
            } else {
                set_account_override_fields(&mut account_map, info.balance, info.nonce);
                if let Some(code) = account.has_new_contract() {
                    set_code(&mut account_map, code);
                }
            }
        },
        None => set_destroyed_account_override(&mut account_map),
    }
    assert(json_members(account_map) == transition_fields(account@));
    if has_storage_change && !json_contains_key(&account_map, "state") {
        json_insert(&mut account_map, "stateDiff".to_owned(), json_object(state_diff));
    }
    Some(account_map)
}

/// Access to the override of `addr`, empty if there was none.
fn ensure_account_override_entry<'a>(
    overrides: &'a mut JsonMap<String, Value>,
    addr: Address,
) -> (entry: &'a mut JsonMap<String, Value>)
    requires
        json_members(*old(overrides)).contains_key(checksummed(addr@)) ==> json_members(
            *old(overrides),
        )[checksummed(addr@)] is Object,
    ensures
        json_members(*entry) == (if json_members(*old(overrides)).contains_key(checksummed(addr@)) {
            json_members(*old(overrides))[checksummed(addr@)]->Object_0
        } else {
            Map::<Seq<char>, Json>::empty()
        }),
        json_members(*final(overrides)) == json_members(*old(overrides)).insert(
            checksummed(addr@),
            Json::Object(json_members(*final(entry))),
        ),
        spells(addr@),
{
    let key = address_checksum(&addr);
    json_object_entry(overrides, key)
}

/// Brings the override of an account up to date from the cache.
fn patch_from_cache(account_map: &mut JsonMap<String, Value>, account: &CacheAccount)
    ensures
        json_members(*final(account_map)) == cache_patched(
            json_members(*old(account_map)),
            account@,
        ),
{
    match &account.account {
        Some(info) => {
            set_account_override_fields(account_map, info.balance, info.nonce);
            if let Some(code) = &info.code {
                if !json_contains_key(account_map, "code") {
                    set_code(account_map, code);
                }
            }
        },
        None => set_destroyed_account_override(account_map),
    }
}

/// Every account that needs an override has a text that spells it.
spec fn all_spelled(state: StateView) -> bool {
    forall|address: Seq<u8>|
        (#[trigger] account_override(state, address)) is Some ==> spells(address)
}

/// Changing the override of one account.
proof fn lemma_overrides_step(
    members: Map<Seq<char>, Json>,
    a: StateView,
    b: StateView,
    address: Seq<u8>,
    fields: Map<Seq<char>, Json>,
)
    requires
        overrides_of(members, a),
        all_spelled(a),
        spells(address),
        account_override(b, address) == Some(fields),
        forall|other: Seq<u8>|
            other != address ==> #[trigger] account_override(b, other) == account_override(a, other),
    ensures
        overrides_of(members.insert(checksummed(address), Json::Object(fields)), b),
        all_spelled(b),
{
    let after = members.insert(checksummed(address), Json::Object(fields));
    assert forall|other: Seq<u8>|
        (#[trigger] account_override(b, other)) matches Some(f) implies after.contains_key(
        checksummed(other),
    ) && after[checksummed(other)] == Json::Object(account_override(b, other)->0) by {
        if other != address {
            assert(account_override(a, other) is Some);
            if checksummed(other) == checksummed(address) {
                lemma_spells_injective(other, address);
            }
        }
    }
    assert forall|key: Seq<char>| #[trigger] after.contains_key(key) implies exists|other: Seq<u8>|
        (#[trigger] account_override(b, other)) is Some && key == checksummed(other) by {
        if key == checksummed(address) {
            assert(account_override(b, address) is Some);
        } else {
            assert(members.contains_key(key));
            let other = choose|other: Seq<u8>|
                (#[trigger] account_override(a, other)) is Some && key == checksummed(other);
            assert(account_override(b, other) is Some);
        }
    }
    assert forall|other: Seq<u8>|
        (#[trigger] account_override(b, other)) is Some implies spells(other) by {
        if other != address {
            assert(account_override(a, other) is Some);
        }
    }
}

/// Where no override changes, the members stay right.
proof fn lemma_overrides_same(members: Map<Seq<char>, Json>, a: StateView, b: StateView)
    requires
        overrides_of(members, a),
        all_spelled(a),
        forall|other: Seq<u8>| #[trigger]
            account_override(b, other) == account_override(a, other),
    ensures
        overrides_of(members, b),
        all_spelled(b),
{
    assert forall|key: Seq<char>| #[trigger] members.contains_key(key) implies exists|
        other: Seq<u8>,
    |
        (#[trigger] account_override(b, other)) is Some && key == checksummed(other) by {
        let other = choose|other: Seq<u8>|
            (#[trigger] account_override(a, other)) is Some && key == checksummed(other);
        assert(account_override(b, other) is Some);
    }
    assert forall|other: Seq<u8>|
        (#[trigger] account_override(b, other)) matches Some(f) implies members.contains_key(
        checksummed(other),
    ) && members[checksummed(other)] == Json::Object(account_override(b, other)->0) by {
        assert(account_override(a, other) is Some);
    }
    assert forall|other: Seq<u8>|
        (#[trigger] account_override(b, other)) is Some implies spells(other) by {
        assert(account_override(a, other) is Some);
    }
}

/// One more pair gives its key its value, and other keys keep theirs.
proof fn lemma_lookup_next<K, V>(pairs: Seq<(K, V)>, i: int)
    requires
        distinct_keys(pairs),
        0 <= i < pairs.len(),
    ensures
        lookup(pairs.take(i), pairs[i].0) is None,
        lookup(pairs.take(i + 1), pairs[i].0) == Some(pairs[i].1),
        forall|key: K|
            key != pairs[i].0 ==> #[trigger] lookup(pairs.take(i + 1), key) == lookup(
                pairs.take(i),
                key,
            ),
{
    let done = pairs.take(i);
    let next = pairs.take(i + 1);
    assert(next.drop_last() =~= done);
    assert(next.last() == pairs[i]);
    lemma_lookup(done, pairs[i].0);
    if lookup(done, pairs[i].0) is Some {
        let v = lookup(done, pairs[i].0)->0;
        let k = choose|k: int| 0 <= k < done.len() && #[trigger] done[k] == (pairs[i].0, v);
        assert(pairs[k].0 == pairs[i].0);
    }
}

/// The overrides that the transitions ask for.
fn transition_overrides(
    transitions: &Vec<(Address, TransitionAccount)>,
) -> (res: JsonMap<String, Value>)
    requires
        wf_state(
            StateView { transitions: transition_views(transitions@), cache: Seq::empty() },
        ),
    ensures
        overrides_of(
            json_members(res),
            StateView { transitions: transition_views(transitions@), cache: Seq::empty() },
        ),
        all_spelled(
            StateView { transitions: transition_views(transitions@), cache: Seq::empty() },
        ),
{
    let mut overrides = json_new();
    let ghost all = transition_views(transitions@);
    let ghost none = Seq::<(Seq<u8>, CacheView)>::empty();
    let mut i: usize = 0;
    while i < transitions.len()
        invariant
            i <= transitions@.len(),
            all == transition_views(transitions@),
            none == Seq::<(Seq<u8>, CacheView)>::empty(),
            wf_state(StateView { transitions: all, cache: none }),
            overrides_of(
                json_members(overrides),
                StateView { transitions: all.take(i as int), cache: none },
            ),
            all_spelled(StateView { transitions: all.take(i as int), cache: none }),
        decreases transitions@.len() - i,
    {
        let addr = transitions[i].0;
        let account = &transitions[i].1;
        let ghost members = json_members(overrides);
        let ghost a = StateView { transitions: all.take(i as int), cache: none };
        let ghost b = StateView { transitions: all.take(i + 1), cache: none };
        proof {
            assert(all[i as int] == (addr@, account@));
            lemma_lookup_next(all, i as int);
            assert(account_override(a, addr@) is None);
            assert(account_override(b, addr@) == transition_override(account@));
            assert forall|other: Seq<u8>| other != addr@ implies #[trigger] account_override(
                b,
                other,
            ) == account_override(a, other) by {
                assert(lookup(b.transitions, other) == lookup(a.transitions, other));
            }
        }
        match override_of_transition(account) {
            Some(account_map) => {
                let key = address_checksum(&addr);
                json_insert(&mut overrides, key, json_object(account_map));
                proof {
                    lemma_overrides_step(members, a, b, addr@, json_members(account_map));
                }
            },
            None => {
                proof {
                    lemma_overrides_same(members, a, b);
                }
            },
        }
        i += 1;
    }
    assert(all.take(i as int) =~= all);
    overrides
}

/// Build JSON-RPC state overrides for the current in-progress builder state.
///
/// The cache tracks the builder's current post-execution account state even
/// when transitions are missing or incomplete. Nonce and balance are patched
/// from it so that the sidecar can recognize already-included XTs and avoid
/// redelivering stale transactions in the next flashblock.
pub fn build_state_overrides(state: &StateSnapshot) -> (res: Value)
    requires
        wf_state(state@),
    ensures
        json_value(res) matches Json::Object(members) && overrides_of(members, state@),
        json_value(res) matches Json::Object(members) && (forall|a: Seq<u8>|
            (#[trigger] account_override(state@, a)) matches Some(fields)
                ==> members.contains_key(checksummed(a)) && members[checksummed(a)]
                == Json::Object(fields)) && (forall|key: Seq<char>| #[trigger]
            members.contains_key(key) ==> exists|a: Seq<u8>|
                (#[trigger] account_override(state@, a)) is Some && key == checksummed(a)),
        forall|a: Seq<u8>|
            (#[trigger] account_override(state@, a)) is Some ==> lower_hex(checksummed(a))
                == prefixed(hex_text(a)),
{
    let ghost transitions = state@.transitions;
    let ghost all = state@.cache;
    let ghost none = Seq::<(Seq<u8>, CacheView)>::empty();
    let mut overrides = match &state.transitions {
        Some(listed) => transition_overrides(listed),
        None => transition_overrides(&Vec::new()),
    };
    assert(state.transitions is None ==> transition_views(
        Seq::<(Address, TransitionAccount)>::empty(),
    ) =~= transitions);
    assert(all.take(0) =~= none);
    let mut j: usize = 0;
    while j < state.cache.len()
        invariant
            j <= state.cache@.len(),
            transitions == state@.transitions,
            all == state@.cache,
            wf_state(state@),
            overrides_of(
                json_members(overrides),
                StateView { transitions, cache: all.take(j as int) },
            ),
            all_spelled(StateView { transitions, cache: all.take(j as int) }),
        decreases state.cache@.len() - j,
    {
        let addr = state.cache[j].0;
        let account = &state.cache[j].1;
        let ghost members = json_members(overrides);
        let ghost a = StateView { transitions, cache: all.take(j as int) };
        let ghost b = StateView { transitions, cache: all.take(j + 1) };
        proof {
            assert(all[j as int] == (addr@, account@));
            lemma_lookup_next(all, j as int);
            assert forall|other: Seq<u8>| other != addr@ implies #[trigger] account_override(
                b,
                other,
            ) == account_override(a, other) by {
                assert(lookup(b.cache, other) == lookup(a.cache, other));
            }
            if members.contains_key(checksummed(addr@)) {
                let other = choose|other: Seq<u8>|
                    (#[trigger] account_override(a, other)) is Some && checksummed(addr@)
                        == checksummed(other);
                assert(members[checksummed(other)] is Object);
            }
        }
        if account.status.is_not_modified() {
            proof {
                assert(account_override(b, addr@) == account_override(a, addr@));
                lemma_overrides_same(members, a, b);
            }
        } else {
            let account_map = ensure_account_override_entry(&mut overrides, addr);
            let ghost had = json_members(*account_map);
            proof {
                if members.contains_key(checksummed(addr@)) {
                    let other = choose|other: Seq<u8>|
                        (#[trigger] account_override(a, other)) is Some && checksummed(addr@)
                            == checksummed(other);
                    lemma_spells_injective(other, addr@);
                    assert(account_override(a, addr@) == Some(had));
                } else {
                    assert(account_override(a, addr@) is None);
                }
                assert(account_override(b, addr@) == Some(cache_patched(had, account@)));
            }
            patch_from_cache(account_map, account);
            proof {
                lemma_overrides_step(members, a, b, addr@, cache_patched(had, account@));
            }
        }
        j += 1;
    }
    assert(all.take(j as int) =~= all);
    json_object(overrides)
}

} // verus!
