//! Small lookup helpers: replaces a map access that returns an `Option`
//! with one that returns a `Result` and a proper error.

use vstd::prelude::*;
use std::collections::HashMap;

verus! {

broadcast use vstd::std_specs::hash::group_hash_axioms;

/// An error of the lookup helpers.
#[derive(Debug)]
pub enum EdError {
    KeyNotFound { key_str: String },
}

pub type EdResult<T> = Result<T, EdError>;

/// Relies on std's `Debug` formatting to render the missing key for the
/// error message; nothing is assumed of the text produced.
#[verifier::external_body]
fn debug_string<K: std::fmt::Debug>(k: &K) -> String {
    format!("{:?}", k)
}

/// Looks `key` up in `hash_map`, reporting a missing key as a `KeyNotFound`
/// error that names the key. For every key type whose hashing obeys the
/// standard model, the call returns `Ok` with the stored value exactly when
/// the map contains the key, and `KeyNotFound` otherwise.
pub fn map_get<'a, K: std::fmt::Debug + std::hash::Hash + std::cmp::Eq, V>(
    hash_map: &'a HashMap<K, V>,
    key: &K,
) -> (r: EdResult<&'a V>)
    ensures
        vstd::std_specs::hash::obeys_key_model::<K>() ==> match r {
            Ok(v) => hash_map@.contains_key(*key) && *v == hash_map@[*key],
            Err(e) => !hash_map@.contains_key(*key) && e matches EdError::KeyNotFound { key_str: _ },
        },
{
    match hash_map.get(key) {
        Some(value) => Ok(value),
        None => Err(EdError::KeyNotFound { key_str: debug_string(key) }),
    }
}

} // verus!
