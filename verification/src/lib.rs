//! A streaming full-text search engine for JSON-lines documents.
//!
//! Documents are staged in an ordered in-memory buffer; when the buffer
//! exceeds its byte budget, the entry with the largest sort key is spilled:
//! it is assigned a monotonically increasing document key, its trigrams are
//! sampled into a probabilistic inverted index, and its body is appended
//! (optionally dictionary-compressed) to an in-memory document store.
//! Queries combine a buffer scan with an index-backed, deadline-bounded
//! store scan; every returned document is confirmed by a substring filter.

use vstd::prelude::*;

pub mod buffer;
pub mod commands;
pub mod display;
pub mod engine;
pub mod index;
pub mod keys;
pub mod laws;
pub mod pointer;
pub mod ranges;
pub mod store;
pub mod text;
pub mod trigram;

verus! {

/// A single query result as shown to a consumer: the raw document text,
/// any resolved pointer projections, and the display string derived from them.
pub struct Item {
    pub text: String,
    pub pointers: Vec<String>,
    pub pointer_states: Vec<PointerStateItem>,
    pub view: String,
}

/// A JSON pointer together with its resolved projection for one document.
pub struct PointerStateItem {
    pub text: String,
    pub resolved: String,
    pub checked: bool,
}

/// A configurable pointer projection: its pointer text, its display
/// ordering number, and whether it is used for display or for sorting.
#[derive(Clone)]
pub struct PointerState {
    pub text: String,
    pub number: u64,
    pub checked: bool,
    pub checked_sort: bool,
}

/// The consumer-side settings worth persisting across runs.
pub struct SerializableParameters {
    pub pointer_state: Vec<PointerState>,
    pub pointer_state_view: Vec<PointerState>,
    pub indexed_data_in_bytes: u64,
    pub sort: String,
}

impl Default for SerializableParameters {
    /// No pointers, no sort, nothing indexed.
    fn default() -> (r: SerializableParameters)
        ensures
            r.pointer_state@.len() == 0,
            r.pointer_state_view@.len() == 0,
            r.indexed_data_in_bytes == 0,
            r.sort@.len() == 0,
    {
        SerializableParameters {
            pointer_state: Vec::new(),
            pointer_state_view: Vec::new(),
            indexed_data_in_bytes: 0,
            sort: String::new(),
        }
    }
}

impl Item {
    /// Wraps a raw document body; projections start out empty.
    pub fn new(text: &str) -> (r: Item)
        ensures
            r.text@ == text@,
            r.pointers@.len() == 0,
            r.pointer_states@.len() == 0,
            r.view@.len() == 0,
    {
        Item {
            text: String::from_str(text),
            pointers: Vec::new(),
            pointer_states: Vec::new(),
            view: String::new(),
        }
    }
}

} // verus!
