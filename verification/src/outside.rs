//! The calls into other crates, and what is relied on of each.

use alloy_consensus::Transaction;
use alloy_eips::Decodable2718;
use op_alloy_consensus::OpTxEnvelope;
use reth_primitives_traits::SignedTransaction;
use vstd::prelude::*;

use crate::primitives::{Address, B256, U256};
use crate::text::{hex_number, hex_text, lower_hex, prefixed, zero_padded};

verus! {

/// The fields of a decoded transaction that the library reads.
#[derive(Debug, Clone, Copy)]
pub struct TxFields {
    pub nonce: u64,
    pub tx_hash: B256,
    /// The callee, absent for a contract creation.
    pub to: Option<Address>,
    pub value: U256,
}

/// What `OpTxEnvelope::decode_2718` makes of `raw`: the transaction's fields,
/// or the text of the decoding error.
pub uninterp spec fn decoded_2718(raw: Seq<u8>) -> Result<TxFields, Seq<char>>;

/// The address that `SignedTransaction::try_clone_into_recovered` recovers
/// from the transaction encoded in `raw`, if `raw` decodes and its signature
/// is valid.
pub uninterp spec fn recovered_signer(raw: Seq<u8>) -> Option<Seq<u8>>;

/// The text of `alloy_primitives::Address`'s `Display`.
pub uninterp spec fn checksummed(address: Seq<u8>) -> Seq<char>;

/// Calls `OpTxEnvelope::decode_2718` and reads the nonce, the hash, the callee
/// and the value of the transaction. Nothing is claimed but that the outcome
/// is a function of the bytes.
#[verifier::external_body]
pub(crate) fn decode_2718(raw: &Vec<u8>) -> (res: Result<TxFields, String>)
    ensures
        match res {
            Ok(fields) => decoded_2718(raw@) == Ok::<TxFields, Seq<char>>(fields),
            Err(text) => decoded_2718(raw@) == Err::<TxFields, Seq<char>>(text@),
        },
{
    let tx = OpTxEnvelope::decode_2718(&mut raw.as_slice()).map_err(|err| err.to_string())?;
    let [l0, l1, l2, l3] = tx.value().into_limbs();
    Ok(TxFields {
        nonce: tx.nonce(),
        tx_hash: B256 { bytes: tx.tx_hash().0 },
        to: tx.to().map(|to| Address { bytes: to.into_array() }),
        value: U256 { l0, l1, l2, l3 },
    })
}

/// Calls `SignedTransaction::try_clone_into_recovered` on the transaction that
/// `OpTxEnvelope::decode_2718` reads from `raw`, and gives the signer. Nothing
/// is claimed but that the outcome is a function of the bytes.
#[verifier::external_body]
pub(crate) fn recover_signer(raw: &Vec<u8>) -> (res: Option<Address>)
    ensures
        match res {
            Some(signer) => recovered_signer(raw@) == Some(signer@),
            None => recovered_signer(raw@) is None,
        },
{
    let tx = OpTxEnvelope::decode_2718(&mut raw.as_slice()).ok()?;
    let recovered = tx.try_clone_into_recovered().ok()?;
    Some(Address { bytes: recovered.signer().into_array() })
}

/// Formats an address with the `LowerHex` of `alloy_primitives::Address` and
/// its alternate flag: "0x" and two lowercase digits for each byte. Its `Debug`
/// writes the same text.
#[verifier::external_body]
pub(crate) fn address_hex(address: &Address) -> (res: String)
    ensures
        res@ == prefixed(hex_text(address@)),
{
    format!("{:#x}", alloy_primitives::Address::from(address.bytes))
}

/// Formats an address with the `Display` of `alloy_primitives::Address`: "0x"
/// and two digits for each byte, some of the letters in upper case. Which ones
/// is a function of the address and is not spelled out.
#[verifier::external_body]
pub(crate) fn address_checksum(address: &Address) -> (res: String)
    ensures
        res@ == checksummed(address@),
        lower_hex(res@) == prefixed(hex_text(address@)),
{
    alloy_primitives::Address::from(address.bytes).to_string()
}

/// Calls `hex::encode`: two lowercase digits for each byte.
#[verifier::external_body]
pub(crate) fn hex_encode(data: &Vec<u8>) -> (res: String)
    ensures
        res@ == hex_text(data@),
{
    hex::encode(data)
}

/// Formats a number with the `LowerHex` of `alloy_primitives::U256`: its
/// hexadecimal digits without leading zeros.
#[verifier::external_body]
pub(crate) fn u256_hex(n: U256) -> (res: String)
    ensures
        res@ == hex_number(n.value()),
{
    format!("{:x}", alloy_primitives::U256::from_limbs([n.l0, n.l1, n.l2, n.l3]))
}

/// Formats a number with the `LowerHex` of `alloy_primitives::U256` and the
/// width and the zero flag of `064`: its hexadecimal digits, with zeros in
/// front up to 64 digits.
#[verifier::external_body]
pub(crate) fn u256_hex_word(n: U256) -> (res: String)
    ensures
        res@ == zero_padded(hex_number(n.value()), 64),
{
    format!("{:064x}", alloy_primitives::U256::from_limbs([n.l0, n.l1, n.l2, n.l3]))
}

/// A JSON value, as far as the library tells values apart.
pub enum Json {
    Text(Seq<char>),
    Object(Map<Seq<char>, Json>),
    Other,
}

#[verifier::external_type_specification]
#[verifier::external_body]
pub struct ExJsonValue(serde_json::Value);

#[verifier::external_type_specification]
#[verifier::external_body]
#[verifier::reject_recursive_types(K)]
#[verifier::reject_recursive_types(V)]
pub struct ExJsonMap<K, V>(serde_json::Map<K, V>);

/// What a JSON value holds.
pub uninterp spec fn json_value(value: serde_json::Value) -> Json;

/// The members of a JSON object.
pub uninterp spec fn json_members(
    object: serde_json::Map<String, serde_json::Value>,
) -> Map<Seq<char>, Json>;

/// Calls `serde_json::Map::new`: an object without members.
#[verifier::external_body]
pub(crate) fn json_new() -> (res: serde_json::Map<String, serde_json::Value>)
    ensures
        json_members(res) == (Map::<Seq<char>, Json>::empty()),
{
    serde_json::Map::new()
}

/// The variant `serde_json::Value::String`.
#[verifier::external_body]
pub(crate) fn json_text(text: String) -> (res: serde_json::Value)
    ensures
        json_value(res) == Json::Text(text@),
{
    serde_json::Value::String(text)
}

/// The variant `serde_json::Value::Object`.
#[verifier::external_body]
pub(crate) fn json_object(
    members: serde_json::Map<String, serde_json::Value>,
) -> (res: serde_json::Value)
    ensures
        json_value(res) == Json::Object(json_members(members)),
{
    serde_json::Value::Object(members)
}

/// Calls `serde_json::Map::insert`: the member `key` is added or replaced.
#[verifier::external_body]
pub(crate) fn json_insert(
    object: &mut serde_json::Map<String, serde_json::Value>,
    key: String,
    value: serde_json::Value,
)
    ensures
        json_members(*final(object)) == json_members(*old(object)).insert(key@, json_value(value)),
{
    object.insert(key, value);
}

/// Calls `serde_json::Map::contains_key`.
#[verifier::external_body]
pub(crate) fn json_contains_key(
    object: &serde_json::Map<String, serde_json::Value>,
    key: &str,
) -> (res: bool)
    ensures
        res == json_members(*object).contains_key(key@),
{
    object.contains_key(key)
}

/// Calls `serde_json::Map::is_empty`.
#[verifier::external_body]
pub(crate) fn json_is_empty(object: &serde_json::Map<String, serde_json::Value>) -> (res: bool)
    ensures
        res == (json_members(*object) == Map::<Seq<char>, Json>::empty()),
{
    object.is_empty()
}

/// Calls `serde_json::Map::entry` and `Entry::or_insert` with an empty object, and
/// gives access to the object under `key`: the one that was there, or the new
/// one. What the caller leaves in it is what the member then holds.
#[verifier::external_body]
pub(crate) fn json_object_entry<'a>(
    object: &'a mut serde_json::Map<String, serde_json::Value>,
    key: String,
) -> (entry: &'a mut serde_json::Map<String, serde_json::Value>)
    requires
        json_members(*old(object)).contains_key(key@) ==> json_members(*old(object))[key@] is Object,
    ensures
        json_members(*entry) == (if json_members(*old(object)).contains_key(key@) {
            json_members(*old(object))[key@]->Object_0
        } else {
            Map::<Seq<char>, Json>::empty()
        }),
        json_members(*final(object)) == json_members(*old(object)).insert(
            key@,
            Json::Object(json_members(*final(entry))),
        ),
{
    let empty = serde_json::Value::Object(serde_json::Map::new());
    object.entry(key).or_insert(empty).as_object_mut().unwrap()
}

} // verus!
