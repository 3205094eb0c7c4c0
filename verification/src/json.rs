//! Decoding of JSON documents, which is left to `serde_json`.
//!
//! Nothing in this module is proved: it states what the rest of the library
//! takes for granted of the decoder.

use crate::store::{assoc, entry_keys};
use std::collections::HashMap;
use vstd::prelude::*;

verus! {

/// The error type of `serde_json`.
#[verifier::external_type_specification]
#[verifier::external_body]
pub struct ExJsonError(serde_json::Error);

/// What `serde_json::from_slice` makes of `bytes` when it is asked for a map
/// from strings to strings: the map, or `None` where it reports an error.
pub uninterp spec fn json_string_map(bytes: Seq<u8>) -> Option<Map<Seq<char>, Seq<char>>>;

/// The text of the values of a list of entries.
pub open spec fn entry_texts(entries: Seq<(String, String)>) -> Seq<Seq<char>> {
    entries.map_values(|e: (String, String)| e.1@)
}

/// Calls `serde_json::from_slice` to decode `bytes` as a
/// `HashMap<String, String>`, and hands out the entries of that map as a
/// list. The contract claims that the decoder's answer depends on `bytes`
/// alone, that the list holds each key of the decoded map once, with its
/// value, and that an error is returned exactly where the decoder reports
/// one. The order of the list is that in which the hash map is walked, of
/// which nothing is claimed.
#[verifier::external_body]
pub(crate) fn decode_string_map(bytes: &[u8]) -> (r: Result<
    Vec<(String, String)>,
    serde_json::Error,
>)
    ensures
        match r {
            Ok(entries) => {
                &&& entry_keys(entries@).no_duplicates()
                &&& json_string_map(bytes@) == Some(
                    assoc(entry_keys(entries@), entry_texts(entries@)),
                )
            },
            Err(_) => json_string_map(bytes@) is None,
        },
{
    let map: HashMap<String, String> = serde_json::from_slice(bytes)?;
    Ok(map.into_iter().collect())
}

} // verus!
