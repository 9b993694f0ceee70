use ethera::primitives::{Address, B256, U256};
use ethera::sidecar::overrides::build_state_overrides;
use ethera::sidecar::state::{
    AccountInfo, AccountStatus, CacheAccount, StateSnapshot, StorageSlot, TransitionAccount,
};
use ethera::text::{trim_end_char, u64_decimal, u64_hex};
use serde_json::Value;

fn with_last_byte(byte: u8) -> Address {
    let mut bytes = [0; 20];
    bytes[19] = byte;
    Address::new(bytes)
}

fn text_of(address: Address) -> String {
    alloy_primitives::Address::from(address.bytes).to_string()
}

fn info(balance: u64, nonce: u64, code: Option<&[u8]>) -> AccountInfo {
    AccountInfo {
        balance: U256::from_u64(balance),
        nonce,
        code_hash: B256::new([code.map_or(0, |c| c.len() as u8); 32]),
        code: code.map(|c| c.to_vec()),
    }
}

fn slot(slot: u64, previous: u64, present: u64) -> StorageSlot {
    StorageSlot {
        slot: U256::from_u64(slot),
        previous_or_original_value: U256::from_u64(previous),
        present_value: U256::from_u64(present),
    }
}

fn transition(
    info: Option<AccountInfo>,
    status: AccountStatus,
    storage: Vec<StorageSlot>,
) -> TransitionAccount {
    TransitionAccount { info, status, previous_info: Some(self::info(0, 0, None)), storage }
}

fn cached(account: Option<AccountInfo>, status: AccountStatus) -> CacheAccount {
    CacheAccount { account, status }
}

fn fields<'a>(overrides: &'a Value, address: Address) -> Option<&'a serde_json::Map<String, Value>> {
    overrides.as_object().and_then(|map| map.get(&text_of(address))).and_then(Value::as_object)
}

fn text(value: &str) -> Value {
    Value::String(value.to_string())
}

fn word(digits: &str) -> String {
    format!("0x{digits:0>64}")
}

#[test]
fn build_state_overrides_uses_cache_nonce_when_transition_state_is_empty() {
    let addr = with_last_byte(0x11);
    // Simulate the live failure mode: cache has the updated sender nonce,
    // but the transitions are empty for the next flashblock poll.
    let state = StateSnapshot {
        transitions: Some(Vec::new()),
        cache: vec![(addr, cached(Some(info(1, 2, None)), AccountStatus::Changed))],
    };

    let overrides = build_state_overrides(&state);
    let account_override = fields(&overrides, addr).expect("override for modified account");

    assert_eq!(account_override.get("nonce"), Some(&text("0x2")));
    assert_eq!(account_override.get("balance"), Some(&text("0x1")));
}

#[test]
fn keys_are_checksummed_addresses() {
    let bytes: [u8; 20] = [
        0x5a, 0xae, 0xb6, 0x05, 0x3f, 0x3e, 0x94, 0xc9, 0xb9, 0xa0, 0x9f, 0x33, 0x66, 0x94, 0x35,
        0xe7, 0xef, 0x1b, 0xea, 0xed,
    ];
    let state = StateSnapshot {
        transitions: None,
        cache: vec![(
            Address::new(bytes),
            cached(Some(info(0, 0, None)), AccountStatus::InMemoryChange),
        )],
    };
    let overrides = build_state_overrides(&state);
    let keys: Vec<&String> = overrides.as_object().unwrap().keys().collect();
    assert_eq!(keys, vec!["0x5aAeb6053F3E94C9b9A09f33669435E7Ef1BeAed"]);
}

#[test]
fn unmodified_accounts_have_no_override() {
    let state = StateSnapshot {
        transitions: Some(vec![(
            with_last_byte(1),
            transition(Some(info(9, 9, None)), AccountStatus::Loaded, vec![slot(1, 5, 5)]),
        )]),
        cache: vec![
            (with_last_byte(2), cached(Some(info(9, 9, None)), AccountStatus::Loaded)),
            (with_last_byte(3), cached(None, AccountStatus::LoadedNotExisting)),
            (with_last_byte(4), cached(Some(info(0, 0, None)), AccountStatus::LoadedEmptyEIP161)),
        ],
    };
    assert!(!state.has_cache_modifications());
    assert_eq!(build_state_overrides(&state), Value::Object(serde_json::Map::new()));
}

#[test]
fn transition_lists_changed_slots() {
    let address = with_last_byte(1);
    let state = StateSnapshot {
        transitions: Some(vec![(
            address,
            transition(
                Some(info(255, 16, None)),
                AccountStatus::Changed,
                vec![slot(0x1f, 0, 0xabc), slot(2, 7, 7), slot(3, 1, 0)],
            ),
        )]),
        cache: Vec::new(),
    };
    let overrides = build_state_overrides(&state);
    let account = fields(&overrides, address).unwrap();
    assert_eq!(account.get("balance"), Some(&text("0xff")));
    assert_eq!(account.get("nonce"), Some(&text("0x10")));
    assert!(!account.contains_key("code"));
    assert!(!account.contains_key("state"));
    let diff = account.get("stateDiff").and_then(Value::as_object).unwrap();
    assert_eq!(diff.len(), 2);
    assert_eq!(diff.get(&word("1f")), Some(&text(&word("abc"))));
    assert_eq!(diff.get(&word("3")), Some(&text(&word("0"))));
}

#[test]
fn storage_change_alone_makes_an_override() {
    let address = with_last_byte(1);
    let state = StateSnapshot {
        transitions: Some(vec![(
            address,
            transition(Some(info(1, 1, None)), AccountStatus::Loaded, vec![slot(0, 0, 1)]),
        )]),
        cache: Vec::new(),
    };
    let overrides = build_state_overrides(&state);
    let account = fields(&overrides, address).unwrap();
    assert_eq!(account.len(), 3);
    assert!(account.contains_key("stateDiff"));
}

#[test]
fn new_contract_code_is_listed() {
    let address = with_last_byte(1);
    let created = transition(Some(info(0, 1, Some(&[0x60, 0x0a]))), AccountStatus::Loaded, vec![]);
    assert_eq!(created.has_new_contract(), Some(&vec![0x60, 0x0a]));
    let state =
        StateSnapshot { transitions: Some(vec![(address, created)]), cache: Vec::new() };
    let overrides = build_state_overrides(&state);
    assert_eq!(fields(&overrides, address).unwrap().get("code"), Some(&text("0x600a")));
}

#[test]
fn known_code_is_not_new() {
    let code = info(0, 1, Some(&[0x60]));
    let mut account = transition(Some(code.clone()), AccountStatus::Changed, vec![]);
    account.previous_info = Some(code);
    assert_eq!(account.has_new_contract(), None);
    account.previous_info = None;
    assert_eq!(account.has_new_contract(), Some(&vec![0x60]));
    account.info = None;
    assert_eq!(account.has_new_contract(), None);
}

#[test]
fn destroyed_account_is_emptied() {
    for (info, status) in [
        (Some(info(5, 5, None)), AccountStatus::Destroyed),
        (Some(info(5, 5, None)), AccountStatus::DestroyedChanged),
        (None, AccountStatus::DestroyedAgain),
        (None, AccountStatus::Changed),
    ] {
        let address = with_last_byte(1);
        let state = StateSnapshot {
            transitions: Some(vec![(address, transition(info, status, vec![slot(1, 0, 1)]))]),
            cache: Vec::new(),
        };
        let overrides = build_state_overrides(&state);
        let account = fields(&overrides, address).unwrap();
        assert_eq!(account.len(), 4);
        assert_eq!(account.get("balance"), Some(&text("0x0")));
        assert_eq!(account.get("nonce"), Some(&text("0x0")));
        assert_eq!(account.get("code"), Some(&text("0x")));
        assert_eq!(account.get("state"), Some(&Value::Object(serde_json::Map::new())));
    }
}

#[test]
fn cache_patches_the_transition() {
    let address = with_last_byte(1);
    let gone = with_last_byte(2);
    let fresh = with_last_byte(3);
    let changed = transition(
        Some(info(1, 1, Some(&[0x01]))),
        AccountStatus::Changed,
        vec![slot(1, 0, 1)],
    );
    let state = StateSnapshot {
        transitions: Some(vec![(address, changed.clone()), (gone, changed)]),
        cache: vec![
            (address, cached(Some(info(2, 7, Some(&[0x02, 0x03]))), AccountStatus::Changed)),
            (gone, cached(None, AccountStatus::Destroyed)),
            (fresh, cached(Some(info(3, 0, Some(&[0xFE]))), AccountStatus::InMemoryChange)),
        ],
    };
    assert!(state.has_cache_modifications());
    let overrides = build_state_overrides(&state);
    let account = fields(&overrides, address).unwrap();
    assert_eq!(account.get("balance"), Some(&text("0x2")));
    assert_eq!(account.get("nonce"), Some(&text("0x7")));
    assert_eq!(account.get("code"), Some(&text("0x01")));
    assert!(account.contains_key("stateDiff"));
    let emptied = fields(&overrides, gone).unwrap();
    assert_eq!(emptied.get("state"), Some(&Value::Object(serde_json::Map::new())));
    assert_eq!(emptied.get("code"), Some(&text("0x")));
    assert_eq!(fields(&overrides, fresh).unwrap().get("code"), Some(&text("0xfe")));
    assert_eq!(overrides.as_object().unwrap().len(), 3);
}

#[test]
fn large_numbers_use_all_limbs() {
    let address = with_last_byte(1);
    let large = U256 { l0: 1, l1: 0, l2: 0, l3: 0xf000_0000_0000_0000 };
    let state = StateSnapshot {
        transitions: Some(vec![(
            address,
            transition(
                Some(AccountInfo { balance: large, ..info(0, 0, None) }),
                AccountStatus::Changed,
                vec![StorageSlot { present_value: large, ..slot(0, 0, 0) }],
            ),
        )]),
        cache: Vec::new(),
    };
    let overrides = build_state_overrides(&state);
    let account = fields(&overrides, address).unwrap();
    let digits = "0xf000000000000000000000000000000000000000000000000000000000000001";
    assert_eq!(account.get("balance"), Some(&text(digits)));
    let diff = account.get("stateDiff").and_then(Value::as_object).unwrap();
    assert_eq!(diff.get(&word("0")), Some(&text(digits)));
}

#[test]
fn numbers_are_written_without_leading_zeros() {
    assert_eq!(u64_hex(0), "0");
    assert_eq!(u64_hex(255), "ff");
    assert_eq!(u64_hex(u64::MAX), "ffffffffffffffff");
    assert_eq!(u64_decimal(0), "0");
    assert_eq!(u64_decimal(1070), "1070");
    assert_eq!(u64_decimal(u64::MAX), "18446744073709551615");
    assert_eq!(trim_end_char("a/b//", '/'), "a/b");
}
