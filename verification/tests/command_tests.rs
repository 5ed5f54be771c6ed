use melt::commands::{
    apply_pointer_check, apply_pointer_sort, handle_command, is_stale_query, Action,
    CommandMessage, GlobalState,
};
use melt::display::{join_spaces, resolve};
use melt::engine::Engine;
use melt::pointer::{is_valid_json, resolve_pointer, resolve_pointer_some};
use melt::{Item, PointerState, SerializableParameters};

fn fresh_engine() -> Engine {
    Engine::new(1 << 20, 1 << 20)
}

#[test]
fn insert_then_filter() {
    let mut e = fresh_engine();
    let mut state = GlobalState::default();
    state.query = String::from("alpha");
    let a1 = handle_command(
        &mut e,
        CommandMessage::InsertJson(String::from("{\"m\":\"alpha one\"}")),
        &state,
    );
    assert!(matches!(a1, Action::Nothing));
    let a2 = handle_command(
        &mut e,
        CommandMessage::InsertJson(String::from("{\"m\":\"beta two\"}")),
        &state,
    );
    assert!(matches!(a2, Action::Nothing));
    let filter = CommandMessage::Filter(
        String::from("alpha"),
        String::new(),
        false,
        1000,
        10,
        Vec::new(),
    );
    match handle_command(&mut e, filter, &state) {
        Action::Results(items, truncated) => {
            assert!(!truncated);
            assert_eq!(items.len(), 1);
            assert_eq!(items[0].text, "{\"m\":\"alpha one\"}");
            // with no checked pointers, the view is the raw text
            assert_eq!(items[0].view, items[0].text);
        }
        _ => panic!("expected results"),
    }
}

#[test]
fn stale_filter_is_discarded() {
    let mut e = fresh_engine();
    let mut state = GlobalState::default();
    state.query = String::from("current");
    let filter = CommandMessage::Filter(
        String::from("old"),
        String::new(),
        false,
        1000,
        10,
        Vec::new(),
    );
    assert!(matches!(handle_command(&mut e, filter, &state), Action::Nothing));
    assert!(is_stale_query(
        &String::from("current"),
        &String::new(),
        &String::from("old"),
        &String::new()
    ));
    assert!(!is_stale_query(
        &String::from("same"),
        &String::from("neg"),
        &String::from("same"),
        &String::from("neg")
    ));
}

#[test]
fn quit_pod_and_clear() {
    let mut e = fresh_engine();
    let state = GlobalState::default();
    assert!(matches!(handle_command(&mut e, CommandMessage::Quit, &state), Action::Stop));
    assert!(matches!(handle_command(&mut e, CommandMessage::Pod, &state), Action::SpawnTail));
    handle_command(
        &mut e,
        CommandMessage::InsertJson(String::from("doc")),
        &state,
    );
    assert_eq!(e.size(), 1);
    assert!(matches!(handle_command(&mut e, CommandMessage::Clear, &state), Action::Nothing));
    assert_eq!(e.size(), 0);
}

#[test]
fn sort_pointer_orders_results() {
    let mut e = fresh_engine();
    let mut state = GlobalState::default();
    state.sort = String::from("/ts");
    for (ts, m) in [("3", "third"), ("1", "first"), ("2", "second")] {
        handle_command(
            &mut e,
            CommandMessage::InsertJson(format!("{{\"ts\":\"{}\",\"m\":\"{}\"}}", ts, m)),
            &state,
        );
    }
    let filter =
        CommandMessage::Filter(String::new(), String::new(), false, 1000, 10, Vec::new());
    match handle_command(&mut e, filter, &state) {
        Action::Results(items, _) => {
            // scanned largest sort key first
            assert_eq!(items.len(), 3);
            assert!(items[0].text.contains("third"));
            assert!(items[1].text.contains("second"));
            assert!(items[2].text.contains("first"));
        }
        _ => panic!("expected results"),
    }
}

#[test]
fn json_pointer_resolution() {
    assert!(is_valid_json("{\"a\":1}"));
    assert!(!is_valid_json("not json"));
    assert_eq!(
        resolve_pointer_some("{\"a\":{\"b\":\"deep\"}}", "/a/b"),
        Some(String::from("deep"))
    );
    assert_eq!(
        resolve_pointer_some("{\"a\":7}", "/a"),
        Some(String::from("7"))
    );
    assert_eq!(resolve_pointer_some("{\"a\":1}", ""), None);
    assert_eq!(resolve_pointer_some("not json", "/a"), None);
    assert_eq!(resolve_pointer_some("{\"a\":null}", "/a"), None);
    assert_eq!(resolve_pointer_some("{\"a\":1}", "/missing"), None);
    assert_eq!(resolve_pointer("not json", "/a"), "/a");
    assert_eq!(resolve_pointer("{\"a\":\"x\"}", "/a"), "x");
    assert_eq!(resolve_pointer("{\"a\":\"x\"}", "/b"), "/b");
}

#[test]
fn random_fallback_keys_do_not_collide() {
    // with no sort pointer configured, every insert gets a fresh random
    // sort key, so equal bodies stay distinct documents
    let mut e = fresh_engine();
    let state = GlobalState::default();
    for _ in 0..5 {
        handle_command(
            &mut e,
            CommandMessage::InsertJson(String::from("same body")),
            &state,
        );
    }
    assert_eq!(e.size(), 5);
}

#[test]
fn pointer_check_toggling() {
    let mut pointers = vec![
        PointerState { text: String::from("/a"), number: u64::MAX, checked: false, checked_sort: false },
        PointerState { text: String::from("/b"), number: u64::MAX, checked: false, checked_sort: false },
    ];
    let toggled = PointerState {
        text: String::from("/b"),
        number: 1,
        checked: true,
        checked_sort: false,
    };
    apply_pointer_check(&mut pointers, &toggled);
    assert!(!pointers[0].checked);
    assert!(pointers[1].checked);
    assert_eq!(pointers[1].number, 1);
}

#[test]
fn pointer_sort_selection() {
    let mut pointers = vec![
        PointerState { text: String::from("/a"), number: 0, checked: false, checked_sort: true },
        PointerState { text: String::from("/b"), number: 0, checked: false, checked_sort: false },
    ];
    let toggled = PointerState {
        text: String::from("/b"),
        number: 0,
        checked: false,
        checked_sort: true,
    };
    let sort = apply_pointer_sort(&mut pointers, &toggled);
    assert_eq!(sort, "/b");
    assert!(!pointers[0].checked_sort);
    assert!(pointers[1].checked_sort);
    let untoggled = PointerState {
        text: String::from("/b"),
        number: 0,
        checked: false,
        checked_sort: false,
    };
    let sort2 = apply_pointer_sort(&mut pointers, &untoggled);
    assert_eq!(sort2, "");
    assert!(!pointers[1].checked_sort);
}

#[test]
fn resolve_with_checked_pointer_builds_view() {
    let mut items = vec![Item::new("{\"a\":\"one\",\"b\":\"two\"}")];
    let pointers = vec![
        PointerState { text: String::from("/a"), number: 0, checked: true, checked_sort: false },
        PointerState { text: String::from("/b"), number: 1, checked: true, checked_sort: false },
    ];
    resolve(&mut items, &pointers);
    assert_eq!(items[0].view, "one two");
    assert_eq!(items[0].pointers, vec![String::from("one"), String::from("two")]);
}

#[test]
fn join_with_spaces() {
    assert_eq!(join_spaces(&Vec::new()), "");
    assert_eq!(join_spaces(&vec![String::from("a")]), "a");
    assert_eq!(join_spaces(&vec![String::from("a"), String::from("b c")]), "a b c");
}

#[test]
fn defaults() {
    let g = GlobalState::default();
    assert_eq!(g.query, "");
    assert_eq!(g.query_neg, "");
    assert_eq!(g.sort, "");
    assert!(!g.tail);
    assert!(!g.exact);
    assert_eq!(g.label_num, 0);
    let p = SerializableParameters::default();
    assert_eq!(p.indexed_data_in_bytes, 0);
    assert!(p.pointer_state.is_empty());
    assert!(p.pointer_state_view.is_empty());
    assert_eq!(p.sort, "");
}

#[test]
fn item_new_starts_empty() {
    let item = Item::new("raw text");
    assert_eq!(item.text, "raw text");
    assert!(item.pointers.is_empty());
    assert!(item.pointer_states.is_empty());
    assert_eq!(item.view, "");
}
