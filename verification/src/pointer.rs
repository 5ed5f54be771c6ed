//! Sort-key derivation: a document is parsed as JSON and a configured JSON
//! pointer is resolved against it; the resulting string (or rendered value)
//! becomes the document's sort key. When the pointer is empty, parsing
//! fails or resolution fails, the caller falls back to a fresh random key.

use vstd::prelude::*;

verus! {

/// Whether a character sequence parses as JSON: a function of the text
/// alone.
pub uninterp spec fn json_valid(s: Seq<char>) -> bool;

/// What resolving a JSON pointer against a document yields: the string's
/// content when the pointer reaches a JSON string, the rendered JSON text
/// for any other non-null value, nothing when the document does not parse,
/// the pointer text is not valid pointer syntax, the location is absent,
/// or the value there is null. A function of the two texts alone.
pub uninterp spec fn resolved_of(text: Seq<char>, pointer: Seq<char>) -> Option<Seq<char>>;

/// What a display pointer shows for a document: the resolved projection,
/// or the pointer text itself when nothing resolves.
pub open spec fn display_resolved(text: Seq<char>, pointer: Seq<char>) -> Seq<char> {
    match resolved_of(text, pointer) {
        Some(v) => v,
        None => pointer,
    }
}

/// Relies on `serde_json::from_str::<Value>`: whether it succeeds depends
/// on the text alone.
#[verifier::external_body]
fn parse_json_ok(s: &str) -> (r: bool)
    ensures
        r == json_valid(s@),
{
    serde_json::from_str::<serde_json::Value>(s).is_ok()
}

/// Whether the text parses as JSON.
pub fn is_valid_json(s: &str) -> (r: bool)
    ensures
        r == json_valid(s@),
{
    parse_json_ok(s)
}

/// Relies on the parse–resolve–render chain `serde_json::from_str`,
/// `jsonptr::Pointer::parse`, `Pointer::resolve` and
/// `serde_json::to_string`: returns exactly the resolved projection
/// (`resolved_of`), and nothing when the document is not JSON.
#[verifier::external_body]
fn eval_pointer(text: &str, pointer: &str) -> (r: Option<String>)
    ensures
        r is Some <==> resolved_of(text@, pointer@) is Some,
        r is Some ==> r->0@ == resolved_of(text@, pointer@)->0,
        !json_valid(text@) ==> r is None,
{
    let doc: serde_json::Value = serde_json::from_str(text).ok()?;
    let ptr = jsonptr::Pointer::parse(pointer).ok()?;
    let hit = ptr.resolve(&doc).ok()?;
    match hit {
        serde_json::Value::Null => None,
        serde_json::Value::String(s) => Some(s.clone()),
        other => serde_json::to_string(other).ok(),
    }
}

/// Relies on `uuid::Uuid::new_v4` and its hyphenated rendering: a fresh
/// random 128-bit identifier; nothing is assumed of its characters beyond
/// the documented 36-character hyphenated form.
#[verifier::external_body]
pub(crate) fn random_sort_key() -> (r: String)
    ensures
        r@.len() == 36,
{
    uuid::Uuid::new_v4().to_string()
}

/// Resolves the configured sort pointer against a document: `None` when
/// the pointer is empty or the projection resolves to nothing; otherwise
/// exactly the resolved projection.
pub fn resolve_pointer_some(text: &str, pointer: &str) -> (r: Option<String>)
    ensures
        pointer@.len() == 0 ==> r is None,
        pointer@.len() > 0 ==> (r is Some <==> resolved_of(text@, pointer@) is Some),
        pointer@.len() > 0 && r is Some ==> r->0@ == resolved_of(text@, pointer@)->0,
        !json_valid(text@) ==> r is None,
{
    if pointer.is_empty() {
        return None;
    }
    eval_pointer(text, pointer)
}

/// Resolves a display pointer against a document: exactly the resolved
/// projection, falling back to the pointer text itself when the projection
/// resolves to nothing (in particular when the document is not JSON).
pub fn resolve_pointer(text: &str, pointer: &str) -> (r: String)
    ensures
        resolved_of(text@, pointer@) is Some ==> r@ == resolved_of(text@, pointer@)->0,
        resolved_of(text@, pointer@) is None ==> r@ == pointer@,
        !json_valid(text@) ==> r@ == pointer@,
{
    match eval_pointer(text, pointer) {
        Some(s) => s,
        None => String::from_str(pointer),
    }
}

} // verus!
