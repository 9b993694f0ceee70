//! The builder's in-progress state, as far as overrides are made from it.

use vstd::prelude::*;

use crate::primitives::{Address, B256, U256};

verus! {

/// The value that `pairs` gives to `key`, if it has one.
pub open spec fn lookup<K, V>(pairs: Seq<(K, V)>, key: K) -> Option<V>
    decreases pairs.len(),
{
    if pairs.len() == 0 {
        None
    } else if pairs.last().0 == key {
        Some(pairs.last().1)
    } else {
        lookup(pairs.drop_last(), key)
    }
}

/// No key occurs twice.
pub open spec fn distinct_keys<K, V>(pairs: Seq<(K, V)>) -> bool {
    forall|i: int, j: int|
        0 <= i < pairs.len() && 0 <= j < pairs.len() && i != j ==> (#[trigger] pairs[i]).0 != (
        #[trigger] pairs[j]).0
}

/// What is looked up stands in the list, and what stands there is found.
pub proof fn lemma_lookup<K, V>(pairs: Seq<(K, V)>, key: K)
    ensures
        match lookup(pairs, key) {
            Some(v) => exists|i: int| 0 <= i < pairs.len() && #[trigger] pairs[i] == (key, v),
            None => forall|i: int| 0 <= i < pairs.len() ==> (#[trigger] pairs[i]).0 != key,
        },
    decreases pairs.len(),
{
    if pairs.len() > 0 {
        let n = pairs.len() - 1;
        assert(pairs[n] == pairs.last());
        if pairs.last().0 == key {
            assert(pairs[n] == (key, pairs.last().1));
        } else {
            let before = pairs.drop_last();
            lemma_lookup(before, key);
            match lookup(before, key) {
                Some(v) => {
                    let i = choose|i: int| 0 <= i < before.len() && #[trigger] before[i] == (key, v);
                    assert(pairs[i] == (key, v));
                },
                None => {
                    assert forall|i: int| 0 <= i < pairs.len() implies (#[trigger] pairs[i]).0
                        != key by {
                        if i < n {
                            assert(pairs[i] == before[i]);
                        }
                    }
                },
            }
        }
    }
}

/// What the builder knows of an account compared to the database.
#[derive(Debug, Clone, Copy, PartialEq, Eq, Structural)]
pub enum AccountStatus {
    LoadedNotExisting,
    Loaded,
    LoadedEmptyEIP161,
    InMemoryChange,
    Changed,
    Destroyed,
    DestroyedChanged,
    DestroyedAgain,
}

impl AccountStatus {
    /// The account is as it was loaded.
    pub open spec fn not_modified(self) -> bool {
        self == AccountStatus::LoadedNotExisting || self == AccountStatus::Loaded || self
            == AccountStatus::LoadedEmptyEIP161
    }

    /// The account was destroyed, perhaps to be created again.
    pub open spec fn destroyed(self) -> bool {
        self == AccountStatus::Destroyed || self == AccountStatus::DestroyedChanged || self
            == AccountStatus::DestroyedAgain
    }

    /// Whether the account is as it was loaded.
    pub fn is_not_modified(self) -> (res: bool)
        ensures
            res == self.not_modified(),
            res == (self == AccountStatus::LoadedNotExisting || self == AccountStatus::Loaded
                || self == AccountStatus::LoadedEmptyEIP161),
    {
        matches!(
            self,
            AccountStatus::LoadedNotExisting | AccountStatus::Loaded
                | AccountStatus::LoadedEmptyEIP161
        )
    }

    /// Whether the account was destroyed, perhaps to be created again.
    pub fn was_destroyed(self) -> (res: bool)
        ensures
            res == self.destroyed(),
            res == (self == AccountStatus::Destroyed || self == AccountStatus::DestroyedChanged
                || self == AccountStatus::DestroyedAgain),
    {
        matches!(
            self,
            AccountStatus::Destroyed | AccountStatus::DestroyedChanged
                | AccountStatus::DestroyedAgain
        )
    }
}

/// Balance, nonce and code of an account.
#[derive(Debug, Clone)]
pub struct AccountInfo {
    pub balance: U256,
    pub nonce: u64,
    pub code_hash: B256,
    /// The code, if it is loaded.
    pub code: Option<Vec<u8>>,
}

/// Balance, nonce and code of an account.
pub struct InfoView {
    pub balance: nat,
    pub nonce: u64,
    pub code_hash: Seq<u8>,
    pub code: Option<Seq<u8>>,
}

impl View for AccountInfo {
    type V = InfoView;

    open spec fn view(&self) -> InfoView {
        InfoView {
            balance: self.balance.value(),
            nonce: self.nonce,
            code_hash: self.code_hash@,
            code: match self.code {
                Some(code) => Some(code@),
                None => None,
            },
        }
    }
}

/// An account that may be absent.
pub open spec fn info_view(info: Option<AccountInfo>) -> Option<InfoView> {
    match info {
        Some(i) => Some(i@),
        None => None,
    }
}

/// A storage slot with its value before and now.
#[derive(Debug, Clone, Copy)]
pub struct StorageSlot {
    pub slot: U256,
    pub previous_or_original_value: U256,
    pub present_value: U256,
}

/// The value of a storage slot before and now.
pub struct SlotValues {
    pub previous: nat,
    pub present: nat,
}

/// The slots of a list with their values.
pub open spec fn storage_view(storage: Seq<StorageSlot>) -> Seq<(nat, SlotValues)> {
    storage.map_values(
        |s: StorageSlot|
            (
                s.slot.value(),
                SlotValues {
                    previous: s.previous_or_original_value.value(),
                    present: s.present_value.value(),
                },
            ),
    )
}

impl StorageSlot {
    /// Whether the value has changed.
    pub fn is_changed(&self) -> (res: bool)
        ensures
            res == (self.previous_or_original_value.value() != self.present_value.value()),
    {
        !self.previous_or_original_value.same(self.present_value)
    }
}

/// What execution did to an account.
#[derive(Debug, Clone)]
pub struct TransitionAccount {
    pub info: Option<AccountInfo>,
    pub status: AccountStatus,
    pub previous_info: Option<AccountInfo>,
    pub storage: Vec<StorageSlot>,
}

/// What execution did to an account.
pub struct TransitionView {
    pub info: Option<InfoView>,
    pub status: AccountStatus,
    pub previous_info: Option<InfoView>,
    pub storage: Seq<(nat, SlotValues)>,
}

impl View for TransitionAccount {
    type V = TransitionView;

    open spec fn view(&self) -> TransitionView {
        TransitionView {
            info: info_view(self.info),
            status: self.status,
            previous_info: info_view(self.previous_info),
            storage: storage_view(self.storage@),
        }
    }
}

/// The hash of an account's code, if there is an account.
pub open spec fn code_hash_of(info: Option<InfoView>) -> Option<Seq<u8>> {
    match info {
        Some(i) => Some(i.code_hash),
        None => None,
    }
}

/// The code that an account got, if it is not the code that it had.
pub open spec fn new_contract(account: TransitionView) -> Option<Seq<u8>> {
    if code_hash_of(account.info) == code_hash_of(account.previous_info) {
        None
    } else {
        match account.info {
            Some(info) => info.code,
            None => None,
        }
    }
}

impl TransitionAccount {
    /// The code that the account got, if it is not the code that it had.
    pub fn has_new_contract(&self) -> (res: Option<&Vec<u8>>)
        ensures
            match new_contract(self@) {
                Some(code) => res matches Some(c) && c@ == code,
                None => res is None,
            },
            res is Some <==> (self.info matches Some(info) && info.code is Some && (
            self.previous_info matches Some(previous) ==> previous.code_hash@ != info.code_hash@)),
            res matches Some(code) ==> code@ == self.info->0.code->0@,
    {
        match &self.info {
            Some(info) => {
                let same = match &self.previous_info {
                    Some(previous) => info.code_hash == previous.code_hash,
                    None => false,
                };
                if same {
                    return None;
                }
                match &info.code {
                    Some(code) => Some(code),
                    None => None,
                }
            },
            None => None,
        }
    }
}

/// An account as the builder's cache has it.
#[derive(Debug, Clone)]
pub struct CacheAccount {
    pub account: Option<AccountInfo>,
    pub status: AccountStatus,
}

/// An account as the builder's cache has it.
pub struct CacheView {
    pub account: Option<InfoView>,
    pub status: AccountStatus,
}

impl View for CacheAccount {
    type V = CacheView;

    open spec fn view(&self) -> CacheView {
        CacheView { account: info_view(self.account), status: self.status }
    }
}

/// The builder's in-progress state.
#[derive(Debug, Clone)]
pub struct StateSnapshot {
    /// What execution did to each account, if that is tracked.
    pub transitions: Option<Vec<(Address, TransitionAccount)>>,
    /// The accounts of the cache.
    pub cache: Vec<(Address, CacheAccount)>,
}

/// The builder's in-progress state.
pub struct StateView {
    pub transitions: Seq<(Seq<u8>, TransitionView)>,
    pub cache: Seq<(Seq<u8>, CacheView)>,
}

/// The accounts of a list of transitions.
pub open spec fn transition_views(transitions: Seq<(Address, TransitionAccount)>) -> Seq<
    (Seq<u8>, TransitionView),
> {
    transitions.map_values(|t: (Address, TransitionAccount)| (t.0@, t.1@))
}

/// The accounts of a cache.
pub open spec fn cache_views(cache: Seq<(Address, CacheAccount)>) -> Seq<(Seq<u8>, CacheView)> {
    cache.map_values(|c: (Address, CacheAccount)| (c.0@, c.1@))
}

impl View for StateSnapshot {
    type V = StateView;

    open spec fn view(&self) -> StateView {
        StateView {
            transitions: match self.transitions {
                Some(transitions) => transition_views(transitions@),
                None => Seq::empty(),
            },
            cache: cache_views(self.cache@),
        }
    }
}

/// Each account occurs once among the transitions and once in the cache, and
/// each slot once in the storage of a transition.
pub open spec fn wf_state(state: StateView) -> bool {
    &&& distinct_keys(state.transitions)
    &&& distinct_keys(state.cache)
    &&& forall|i: int|
        0 <= i < state.transitions.len() ==> distinct_keys(
            (#[trigger] state.transitions[i]).1.storage,
        )
}

/// The cache holds a modified account.
pub open spec fn cache_modified(cache: Seq<(Seq<u8>, CacheView)>) -> bool {
    exists|i: int| 0 <= i < cache.len() && !(#[trigger] cache[i]).1.status.not_modified()
}

impl StateSnapshot {
    /// Whether the cache holds a modified account.
    pub fn has_cache_modifications(&self) -> (res: bool)
        ensures
            res == cache_modified(self@.cache),
    {
        let mut i: usize = 0;
        while i < self.cache.len()
            invariant
                i <= self.cache@.len(),
                forall|k: int|
                    0 <= k < i ==> (#[trigger] self@.cache[k]).1.status.not_modified(),
            decreases self.cache@.len() - i,
        {
            if !self.cache[i].1.status.is_not_modified() {
                assert(!self@.cache[i as int].1.status.not_modified());
                return true;
            }
            i += 1;
        }
        false
    }
}

/// The state is viewed account by account and slot by slot, in order.
pub proof fn law_state_is_viewed_in_order(state: StateSnapshot, i: int, j: int)
    ensures
        state.transitions is None ==> state@.transitions.len() == 0,
        state.transitions matches Some(list) ==> state@.transitions.len() == list@.len() && (0 <= i
            < list@.len() ==> {
            let account = list@[i].1;
            let v = state@.transitions[i].1;
            &&& state@.transitions[i].0 == list@[i].0.bytes@
            &&& v.status == account.status
            &&& info_shown(account.info, v.info)
            &&& info_shown(account.previous_info, v.previous_info)
            &&& v.storage.len() == account.storage@.len()
            &&& 0 <= j < account.storage@.len() ==> v.storage[j].0
                == account.storage@[j].slot.value() && v.storage[j].1.previous
                == account.storage@[j].previous_or_original_value.value() && v.storage[j].1.present
                == account.storage@[j].present_value.value()
        }),
        state@.cache.len() == state.cache@.len(),
        0 <= i < state.cache@.len() ==> {
            let cached = state.cache@[i].1;
            let v = state@.cache[i].1;
            &&& state@.cache[i].0 == state.cache@[i].0.bytes@
            &&& v.status == cached.status
            &&& info_shown(cached.account, v.account)
        },
{
}

/// The view shows the account's balance, nonce, code hash and code.
pub open spec fn info_shown(info: Option<AccountInfo>, v: Option<InfoView>) -> bool {
    match info {
        Some(i) => v matches Some(w) && w.balance == i.balance.value() && w.nonce == i.nonce
            && w.code_hash == i.code_hash.bytes@ && match i.code {
            Some(code) => w.code == Some(code@),
            None => w.code is None,
        },
        None => v is None,
    }
}

} // verus!
