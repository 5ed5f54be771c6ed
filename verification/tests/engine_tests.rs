use melt::engine::Engine;
use melt::text::chars_of;

fn key(s: &str) -> Vec<char> {
    chars_of(s)
}

fn items_of(outcome: melt::engine::QueryOutcome) -> Vec<String> {
    outcome.items
}

#[test]
fn basic_recall() {
    let mut e = Engine::new(1 << 20, 1 << 20);
    e.insert(key("a"), String::from("{\"a\":\"hello world\"}"));
    e.insert(key("b"), String::from("{\"a\":\"hello there\"}"));
    e.insert(key("c"), String::from("{\"a\":\"bye\"}"));
    let r = e.find("hello", "", false, 10, Some(1000));
    let items = items_of(r);
    assert_eq!(items.len(), 2);
    // newest (largest sort key) first
    assert_eq!(items[0], "{\"a\":\"hello there\"}");
    assert_eq!(items[1], "{\"a\":\"hello world\"}");
}

#[test]
fn negative_filter() {
    let mut e = Engine::new(1 << 20, 1 << 20);
    e.insert(key("a"), String::from("{\"a\":\"hello world\"}"));
    e.insert(key("b"), String::from("{\"a\":\"hello there\"}"));
    e.insert(key("c"), String::from("{\"a\":\"bye\"}"));
    let r = e.find("hello", "world", false, 10, Some(1000));
    let items = items_of(r);
    assert_eq!(items.len(), 1);
    assert_eq!(items[0], "{\"a\":\"hello there\"}");
}

#[test]
fn exact_vs_tokenised() {
    let mut e = Engine::new(1 << 20, 1 << 20);
    e.insert(key("a"), String::from("{\"x\":\"foo bar\"}"));
    e.insert(key("b"), String::from("{\"x\":\"bar foo\"}"));
    let exact = e.find("foo bar", "", true, 10, Some(1000));
    assert_eq!(exact.items.len(), 1);
    assert_eq!(exact.items[0], "{\"x\":\"foo bar\"}");
    let loose = e.find("foo bar", "", false, 10, Some(1000));
    assert_eq!(loose.items.len(), 2);
}

#[test]
fn spill_correctness() {
    // 100-byte staging budget forces spills; every document stays findable
    let mut e = Engine::new(100, 1 << 20);
    for i in 0..50 {
        let body = format!("doc{:07}", i); // 10 bytes
        assert_eq!(body.len(), 10);
        e.insert(key(&format!("k{:03}", i)), body);
    }
    assert_eq!(e.size(), 50);
    assert!(e.staged() <= 100);
    let r = e.find("", "", false, 100, None);
    assert_eq!(r.items.len(), 50);
    assert!(!r.truncated);
}

#[test]
fn deadline_zero_returns_ram_phase_only() {
    let mut e = Engine::new(100, 1 << 20);
    for i in 0..50 {
        e.insert(key(&format!("k{:03}", i)), format!("doc{:07}", i));
    }
    // some documents are in the store; a zero deadline keeps them out
    let ram_only = e.find("", "", false, 100, Some(0));
    let all = e.find("", "", false, 100, None);
    assert!(ram_only.truncated);
    assert!(ram_only.items.len() < all.items.len());
    assert_eq!(all.items.len(), 50);
    // the zero-deadline result is a prefix of the full result
    for (i, item) in ram_only.items.iter().enumerate() {
        assert_eq!(item, &all.items[i]);
    }
}

#[test]
fn clear_semantics() {
    let mut e = Engine::new(1 << 20, 1 << 20);
    for i in 0..10 {
        e.insert(key(&format!("k{}", i)), format!("body {}", i));
    }
    assert_eq!(e.size(), 10);
    assert!(e.data_bytes() > 0);
    e.clear();
    assert_eq!(e.size(), 0);
    assert_eq!(e.data_bytes(), 0);
    let r = e.find("", "", false, 100, Some(1000));
    assert_eq!(r.items.len(), 0);
    // the engine accepts new documents after a clear
    e.insert(key("a"), String::from("fresh"));
    assert_eq!(e.size(), 1);
}

#[test]
fn empty_document_matches_only_empty_query() {
    let mut e = Engine::new(1 << 20, 1 << 20);
    e.insert(key("a"), String::new());
    let all = e.find("", "", false, 10, Some(1000));
    assert_eq!(all.items.len(), 1);
    assert_eq!(all.items[0], "");
    let none = e.find("x", "", false, 10, Some(1000));
    assert_eq!(none.items.len(), 0);
    let none_exact = e.find("x", "", true, 10, Some(1000));
    assert_eq!(none_exact.items.len(), 0);
}

#[test]
fn short_terms_bypass_index_but_still_filter() {
    // spill everything so the index-backed path answers
    let mut e = Engine::new(1, 1 << 20);
    e.insert(key("a"), String::from("zab-one"));
    e.insert(key("b"), String::from("zzz-two"));
    e.insert(key("c"), String::from("qab-three"));
    let r = e.find("ab", "", false, 10, None);
    let mut texts = r.items.clone();
    texts.sort();
    assert_eq!(texts, vec![String::from("qab-three"), String::from("zab-one")]);
}

#[test]
fn case_insensitive_matching() {
    let mut e = Engine::new(1 << 20, 1 << 20);
    e.insert(key("a"), String::from("HELLO World"));
    let lower_query = e.find("hello world", "", false, 10, Some(1000));
    assert_eq!(lower_query.items.len(), 1);
    let upper_query = e.find("HELLO", "", false, 10, Some(1000));
    assert_eq!(upper_query.items.len(), 1);
    let exact_mixed = e.find("Hello WORLD", "", true, 10, Some(1000));
    assert_eq!(exact_mixed.items.len(), 1);
}

#[test]
fn dictionary_compression_round_trip() {
    // a tiny budget and threshold force training and compressed spills;
    // every body must come back byte-identical through the store
    let mut e = Engine::new(64, 32);
    let mut bodies: Vec<String> = Vec::new();
    for i in 0..40 {
        let body = format!("the quick brown fox {} jumps over the lazy dog", i);
        bodies.push(body.clone());
        e.insert(key(&format!("k{:03}", i)), body);
    }
    let r = e.find("", "", false, 100, None);
    assert_eq!(r.items.len(), 40);
    let mut got = r.items.clone();
    got.sort();
    bodies.sort();
    assert_eq!(got, bodies);
}

#[test]
fn limit_caps_results() {
    let mut e = Engine::new(1 << 20, 1 << 20);
    for i in 0..10 {
        e.insert(key(&format!("k{}", i)), format!("same text {}", i));
    }
    let r = e.find("same", "", false, 3, Some(1000));
    assert_eq!(r.items.len(), 3);
}

#[test]
fn duplicate_sort_key_replaces() {
    let mut e = Engine::new(1 << 20, 1 << 20);
    e.insert(key("same"), String::from("first"));
    e.insert(key("same"), String::from("second"));
    assert_eq!(e.size(), 1);
    let r = e.find("", "", false, 10, Some(1000));
    assert_eq!(r.items.len(), 1);
    assert_eq!(r.items[0], "second");
}

#[test]
fn persistence_round_trip() {
    let mut e = Engine::new(100, 64);
    for i in 0..30 {
        e.insert(key(&format!("k{:03}", i)), format!("persisted body {}", i));
    }
    let count = e.size();
    let mut before = e.find("", "", false, 100, None).items;
    before.sort();
    let parts = e.to_parts();
    let e2 = Engine::from_parts(parts).expect("reload should succeed");
    assert_eq!(e2.size(), count);
    let r = e2.find("", "", false, 100, None);
    assert_eq!(r.items.len(), 30);
    let mut after = r.items;
    after.sort();
    assert_eq!(before, after);
}

#[test]
fn persistence_rejects_corrupt_parts() {
    let mut e = Engine::new(100, 64);
    for i in 0..20 {
        e.insert(key(&format!("k{:03}", i)), format!("stored body {}", i));
    }
    let mut parts = e.to_parts();
    if let Some(first) = parts.store_entries.first().copied() {
        // point the first chunk past the end of the log
        parts.store_entries[0] = (parts.store_log.len(), first.1 + 1, first.2);
        assert!(Engine::from_parts(parts).is_none());
    } else {
        panic!("expected at least one stored document");
    }
}

#[test]
fn data_bytes_counts_raw_bytes() {
    let mut e = Engine::new(1 << 20, 1 << 20);
    e.insert(key("a"), String::from("abcd"));
    e.insert(key("b"), String::from("ef"));
    assert_eq!(e.data_bytes(), 6);
}

#[test]
fn exact_negative_query() {
    let mut e = Engine::new(1 << 20, 1 << 20);
    e.insert(key("a"), String::from("alert: bad thing happened"));
    e.insert(key("b"), String::from("alert: thing looks bad"));
    // the exact negative excludes only the contiguous phrase
    let r = e.find("alert", "bad thing", true, 10, Some(1000));
    assert_eq!(r.items.len(), 1);
    assert_eq!(r.items[0], "alert: thing looks bad");
    // the tokenised negative excludes documents with both tokens anywhere
    let r2 = e.find("alert", "bad thing", false, 10, Some(1000));
    assert_eq!(r2.items.len(), 0);
}

#[test]
fn negative_only_spilled_documents() {
    // negatives are confirmed on store-backed hits too
    let mut e = Engine::new(1, 1 << 20);
    e.insert(key("a"), String::from("keep this entry"));
    e.insert(key("b"), String::from("drop this entry"));
    let r = e.find("entry", "drop", false, 10, None);
    assert_eq!(r.items.len(), 1);
    assert_eq!(r.items[0], "keep this entry");
}
