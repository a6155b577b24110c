//! JSON text of byte lists, through `serde_json`.

use vstd::prelude::*;
use crate::decimal::decimal_texts;
use crate::rsa_crypto::bytes_view;
use crate::text::join_spec;

pub use crate::message::Message;

verus! {

/// The compact JSON array of the bytes `v`: `[b0,b1,...]`.
pub open spec fn json_byte_array(v: Seq<u8>) -> Seq<char> {
    seq!['['] + join_spec(decimal_texts(v), seq![',']) + seq![']']
}

/// What `serde_json::from_str::<Vec<u8>>` reads from `s`, where it succeeds.
pub uninterp spec fn json_bytes_parse(s: Seq<char>) -> Option<Seq<u8>>;

/// `serde_json::to_string` of a byte list, which its compact formatter
/// writes as `[`, the decimal bytes separated by `,`, and `]`; it cannot fail
/// for bytes.
#[verifier::external_body]
fn json_of_bytes(v: &[u8]) -> (res: String)
    ensures
        res@ == json_byte_array(v@),
{
    match serde_json::to_string(v) {
        Ok(s) => s,
        Err(_) => String::new(),
    }
}

/// `serde_json::from_str::<Vec<u8>>` of `s`, `None` where it fails. Stated:
/// the result is [`json_bytes_parse`] of `s`, and the JSON array that
/// `serde_json` writes for bytes reads back as those bytes.
#[verifier::external_body]
fn json_parse_bytes(s: &str) -> (res: Option<Vec<u8>>)
    ensures
        bytes_view(res) == json_bytes_parse(s@),
        forall|v: Seq<u8>| #[trigger] json_byte_array(v) == s@ ==> bytes_view(res) == Some(v),
{
    serde_json::from_str::<Vec<u8>>(s).ok()
}

/// The JSON text of `numbers`.
pub fn serde_vec(numbers: Vec<u8>) -> (res: String)
    ensures
        res@ == json_byte_array(numbers@),
{
    json_of_bytes(numbers.as_slice())
}

/// The bytes that the JSON array `json_string` holds, which must be one.
pub fn deserder_vec(json_string: String) -> (res: Vec<u8>)
    requires
        json_bytes_parse(json_string@) is Some,
    ensures
        json_bytes_parse(json_string@) == Some(res@),
{
    match json_parse_bytes(json_string.as_str()) {
        Some(v) => v,
        None => {
            proof {
                assert(false);
            }
            Vec::new()
        },
    }
}

/// The bytes that the JSON array `json_string` holds, `None` where it is
/// not one. The text that [`serde_vec`] writes reads back as its bytes.
pub fn try_deserder_vec(json_string: String) -> (res: Option<Vec<u8>>)
    ensures
        bytes_view(res) == json_bytes_parse(json_string@),
        forall|v: Seq<u8>| #[trigger] json_byte_array(v) == json_string@ ==> bytes_view(res) == Some(v),
{
    match json_parse_bytes(json_string.as_str()) {
        Some(_) => Some(deserder_vec(json_string)),
        None => None,
    }
}

} // verus!
