//! The command bus: the messages an indexer task consumes, the shared
//! query state written by the consumer side, and the single step function
//! that applies one command to the engine and says what the host should do
//! next. The host owns the channel and the result sink; the decisions live
//! here.

use vstd::prelude::*;

verus! {

use vstd::multiset::Multiset;
use crate::buffer::byte_len;
use crate::display::resolve;
use crate::engine::{doc_matches, ram_scan, Engine};
use crate::pointer::{random_sort_key, resolve_pointer_some};
use crate::text::{chars_of, lower_of};
use crate::{Item, PointerState};

/// The shared, consumer-written query state: the text currently in the
/// query boxes, the configured sort pointer, and the tail flag.
pub struct GlobalState {
    pub query: String,
    pub query_neg: String,
    pub label_num: u64,
    pub sort: String,
    pub tail: bool,
    pub exact: bool,
}

impl Default for GlobalState {
    /// Empty queries, no sort pointer, tailing off.
    fn default() -> (r: GlobalState)
        ensures
            r.query@.len() == 0,
            r.query_neg@.len() == 0,
            r.label_num == 0,
            r.sort@.len() == 0,
            !r.tail,
            !r.exact,
    {
        GlobalState {
            query: String::new(),
            query_neg: String::new(),
            label_num: 0,
            sort: String::new(),
            tail: false,
            exact: false,
        }
    }
}

/// A command for the indexer task.
#[derive(Clone)]
pub enum CommandMessage {
    /// Run a query: positive text, negative text, exact flag, deadline in
    /// milliseconds, result limit, and the pointer projections to resolve.
    Filter(String, String, bool, u64, usize, Vec<PointerState>),
    /// Drop every document and reset all counters.
    Clear,
    /// Persist and stop.
    Quit,
    /// Ask the host to attach the external pod-log tailer.
    Pod,
    /// Ingest one document line.
    InsertJson(String),
}

/// A result delivered back to the consumer: the matching documents and a
/// rendered statistics line.
pub enum ResultMessage {
    Messages(Vec<String>, String),
}

/// What the host should do after one command was applied.
pub enum Action {
    /// Nothing to deliver.
    Nothing,
    /// Deliver these resolved items; the flag says whether the deadline
    /// cut the scan short.
    Results(Vec<Item>, bool),
    /// Persist and leave the command loop.
    Stop,
    /// Spawn the external pod-log tailer.
    SpawnTail,
}

/// A queued query is stale when the consumer has typed on: the queued
/// (query, negative query) pair differs from the current one.
pub fn is_stale_query(current_query: &String, current_neg: &String, q: &String, neg: &String) -> (r:
    bool)
    ensures
        r == !(current_query@ == q@ && current_neg@ == neg@),
{
    !((*current_query == *q) && (*current_neg == *neg))
}

/// Applies one command to the engine.
///
/// `Insert` derives the sort key from the configured sort pointer (falling
/// back to a fresh random key) and stages the document. `Filter` is
/// discarded when stale, else executed with its deadline and its pointer
/// projections resolved. `Clear` resets everything; `Quit` and `Pod` only
/// tell the host what to do.
pub fn handle_command(engine: &mut Engine, cmd: CommandMessage, current: &GlobalState) -> (r:
    Action)
    requires
        old(engine).wf(),
        cmd matches CommandMessage::InsertJson(body) ==> old(engine).staged_bytes() + byte_len(
            body@,
        ) <= usize::MAX && old(engine).total_bytes_spec() + byte_len(body@) <= u64::MAX && old(engine).next_key() + old(engine).buffer_view().len() + 1 <= u64::MAX,
    ensures
        final(engine).wf(),
        match cmd {
            CommandMessage::Quit => r is Stop && *final(engine) == *old(engine),
            CommandMessage::Pod => r is SpawnTail && *final(engine) == *old(engine),
            CommandMessage::Clear => r is Nothing && final(engine).doc_count() == 0 && final(engine).corpus() =~= Multiset::<Seq<char>>::empty() && final(engine).next_key() == 0
                && final(engine).total_bytes_spec() == 0,
            CommandMessage::InsertJson(body) => r is Nothing && final(engine).total_bytes_spec()
                == old(engine).total_bytes_spec() + byte_len(body@) && (final(engine).corpus()
                =~= old(engine).corpus().insert(body@) || exists|prev: Seq<char>|
                old(engine).corpus().count(prev) > 0 && final(engine).corpus() =~= old(engine).corpus().remove(prev).insert(body@)),
            CommandMessage::Filter(q, nq, exact, _time, lim, _ps) => *final(engine) == *old(engine)
                && if !(current.query@ == q@ && current.query_neg@ == nq@) {
                r is Nothing
            } else {
                r matches Action::Results(items, _tr) && items@.len() <= lim && (forall|i: int|
                    0 <= i < items@.len() ==> doc_matches(
                        exact,
                        (#[trigger] items@[i]).text@,
                        lower_of(q@),
                        lower_of(nq@),
                        nq@.len() > 0,
                    ) && old(engine).corpus().count(items@[i].text@) > 0) && ({
                    // the deterministic buffer-scan phase is always delivered
                    let ram = ram_scan(
                        old(engine).buffer_view(),
                        old(engine).buffer_view().len() as int,
                        exact,
                        lower_of(q@),
                        lower_of(nq@),
                        nq@.len() > 0,
                        lim as nat,
                    );
                    ram.len() <= items@.len() && forall|i: int|
                        0 <= i < ram.len() ==> (#[trigger] items@[i]).text@ == ram[i]
                })
            },
        },
{
    match cmd {
        CommandMessage::Quit => Action::Stop,
        CommandMessage::Pod => Action::SpawnTail,
        CommandMessage::Clear => {
            engine.clear();
            Action::Nothing
        },
        CommandMessage::InsertJson(body) => {
            let sort_key: String = match resolve_pointer_some(body.as_str(), current.sort.as_str())
            {
                Some(s) => s,
                None => random_sort_key(),
            };
            let key_chars = chars_of(sort_key.as_str());
            engine.insert(key_chars, body);
            Action::Nothing
        },
        CommandMessage::Filter(q, nq, exact, time, lim, ps) => {
            if is_stale_query(&current.query, &current.query_neg, &q, &nq) {
                return Action::Nothing;
            }
            let outcome = engine.find(q.as_str(), nq.as_str(), exact, lim, Some(time));
            let found = outcome.items;
            let mut items: Vec<Item> = Vec::new();
            let mut i: usize = 0;
            while i < found.len()
                invariant
                    i <= found@.len(),
                    items@.len() == i,
                    forall|k: int| 0 <= k < i ==> (#[trigger] items@[k]).text@ == found@[k]@,
                decreases found@.len() - i,
            {
                items.push(Item::new(found[i].as_str()));
                i = i + 1;
            }
            resolve(&mut items, &ps);
            proof {
                assert(forall|k: int|
                    0 <= k < items@.len() ==> (#[trigger] items@[k]).text@ == found@[k]@);
            }
            Action::Results(items, outcome.truncated)
        },
    }
}

/// Applies a toggled pointer checkbox to a pointer list: every entry whose
/// pointer text equals the toggled one takes its checked flag and ordering
/// number; the rest stay as they were.
#[verifier::loop_isolation(false)]
pub fn apply_pointer_check(pointers: &mut Vec<PointerState>, ps: &PointerState)
    ensures
        final(pointers)@.len() == old(pointers)@.len(),
        forall|i: int|
            0 <= i < final(pointers)@.len() ==> {
                let before = old(pointers)@[i];
                let after = #[trigger] final(pointers)@[i];
                &&& after.text@ == before.text@
                &&& after.checked_sort == before.checked_sort
                &&& (before.text@ == ps.text@ ==> after.checked == ps.checked && after.number
                    == ps.number)
                &&& (before.text@ != ps.text@ ==> after.checked == before.checked && after.number
                    == before.number)
            },
{
    let n: usize = pointers.len();
    let mut i: usize = 0;
    while i < n
        invariant
            i <= n,
            n == pointers@.len() == old(pointers)@.len(),
            forall|k: int| i <= k < n ==> pointers@[k] == old(pointers)@[k],
            forall|k: int|
                0 <= k < i ==> {
                    let before = old(pointers)@[k];
                    let after = #[trigger] pointers@[k];
                    &&& after.text@ == before.text@
                    &&& after.checked_sort == before.checked_sort
                    &&& (before.text@ == ps.text@ ==> after.checked == ps.checked && after.number
                        == ps.number)
                    &&& (before.text@ != ps.text@ ==> after.checked == before.checked
                        && after.number == before.number)
                },
        decreases n - i,
    {
        let same: bool = pointers[i].text == ps.text;
        if same {
            let entry = &mut pointers[i];
            entry.checked = ps.checked;
            entry.number = ps.number;
        }
        i = i + 1;
    }
}

/// Applies a toggled sort checkbox: only entries with the toggled pointer
/// text keep (and take) the sort mark, every other entry loses it. Returns
/// the new sort pointer: the toggled text when it was switched on and is
/// present in the list, the empty string otherwise.
#[verifier::loop_isolation(false)]
pub fn apply_pointer_sort(pointers: &mut Vec<PointerState>, ps: &PointerState) -> (sort: String)
    ensures
        final(pointers)@.len() == old(pointers)@.len(),
        forall|i: int|
            0 <= i < final(pointers)@.len() ==> {
                let before = old(pointers)@[i];
                let after = #[trigger] final(pointers)@[i];
                &&& after.text@ == before.text@
                &&& after.checked == before.checked
                &&& after.number == before.number
                &&& after.checked_sort == (before.text@ == ps.text@ && ps.checked_sort)
            },
        ({
            let present = exists|i: int|
                0 <= i < old(pointers)@.len() && (#[trigger] old(pointers)@[i]).text@ == ps.text@;
            if ps.checked_sort && present {
                sort@ == ps.text@
            } else {
                sort@.len() == 0
            }
        }),
{
    let n: usize = pointers.len();
    let mut found: bool = false;
    let mut i: usize = 0;
    while i < n
        invariant
            i <= n,
            n == pointers@.len() == old(pointers)@.len(),
            forall|k: int| i <= k < n ==> pointers@[k] == old(pointers)@[k],
            forall|k: int|
                0 <= k < i ==> {
                    let before = old(pointers)@[k];
                    let after = #[trigger] pointers@[k];
                    &&& after.text@ == before.text@
                    &&& after.checked == before.checked
                    &&& after.number == before.number
                    &&& after.checked_sort == (before.text@ == ps.text@ && ps.checked_sort)
                },
            found == exists|k: int|
                0 <= k < i && (#[trigger] old(pointers)@[k]).text@ == ps.text@,
        decreases n - i,
    {
        let same: bool = pointers[i].text == ps.text;
        let entry = &mut pointers[i];
        entry.checked_sort = same && ps.checked_sort;
        if same {
            found = true;
        }
        i = i + 1;
        assert(found == exists|k: int|
            0 <= k < i && (#[trigger] old(pointers)@[k]).text@ == ps.text@) by {
            if same {
                assert((old(pointers)@[i - 1]).text@ == ps.text@);
            }
        }
    }
    if ps.checked_sort && found {
        ps.text.clone()
    } else {
        String::new()
    }
}

} // verus!
