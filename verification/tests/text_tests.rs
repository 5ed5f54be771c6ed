use melt::buffer::cmp_chars;
use melt::index::SearchIndex;
use melt::ranges::find_all_ranges;
use melt::text::{chars_of, contains_sub, is_match, lower_chars, split_terms};

#[test]
fn chars_round_trip() {
    let v = chars_of("héllo");
    assert_eq!(v.len(), 5);
    assert_eq!(v[1], 'é');
}

#[test]
fn lowercasing() {
    let v = lower_chars("HeLLo");
    assert_eq!(v, vec!['h', 'e', 'l', 'l', 'o']);
}

#[test]
fn substring_containment() {
    let hay = chars_of("hello world");
    assert!(contains_sub(&hay, &chars_of("lo wo")));
    assert!(contains_sub(&hay, &chars_of("")));
    assert!(!contains_sub(&hay, &chars_of("worlds")));
}

#[test]
fn tokenised_matching() {
    let hay = chars_of("the quick brown fox");
    assert!(is_match(false, &chars_of("fox quick"), &hay));
    assert!(is_match(false, &chars_of("  fox   the "), &hay));
    assert!(!is_match(false, &chars_of("fox cat"), &hay));
    assert!(is_match(true, &chars_of("quick brown"), &hay));
    assert!(!is_match(true, &chars_of("brown quick"), &hay));
    assert!(is_match(false, &chars_of(""), &hay));
}

#[test]
fn term_splitting() {
    let q = chars_of("  foo  bar ");
    let terms = split_terms(&q);
    assert_eq!(terms.len(), 2);
    assert_eq!(terms[0], (2usize, 5usize));
    assert_eq!(terms[1], (7usize, 10usize));
}

#[test]
fn char_vector_ordering() {
    assert_eq!(cmp_chars(&chars_of("abc"), &chars_of("abd")), -1);
    assert_eq!(cmp_chars(&chars_of("abc"), &chars_of("abc")), 0);
    assert_eq!(cmp_chars(&chars_of("abcd"), &chars_of("abc")), 1);
    assert_eq!(cmp_chars(&chars_of(""), &chars_of("a")), -1);
}

#[test]
fn index_first_occurrence_is_admitted() {
    // the first document seen for each trigram is always admitted
    let mut idx = SearchIndex::new();
    let k0 = idx.add(&chars_of("abcdef"));
    let k1 = idx.add(&chars_of("uvwxyz"));
    assert_eq!(k0, 0);
    assert_eq!(k1, 1);
    assert_eq!(idx.get_size(), 2);
    let hits = idx.search(&chars_of("abcd"), false);
    assert_eq!(hits, vec![0u64]);
    let miss = idx.search(&chars_of("qqqq"), false);
    assert!(miss.is_empty());
    // a short term cannot constrain the candidates
    let all = idx.search(&chars_of("ab"), false);
    assert_eq!(all, vec![0u64, 1u64]);
    let or_hits = idx.search_or(&chars_of("wxyz qqqq"));
    assert_eq!(or_hits, vec![1u64]);
    let or_empty = idx.search_or(&chars_of(""));
    assert!(or_empty.is_empty());
}

#[test]
fn index_clear_resets_keys() {
    let mut idx = SearchIndex::new();
    idx.add(&chars_of("abcdef"));
    idx.clear();
    assert_eq!(idx.get_size(), 0);
    let k = idx.add(&chars_of("abcdef"));
    assert_eq!(k, 0);
}

#[test]
fn highlight_ranges() {
    let words = vec![String::from("LO"), String::from("wor")];
    let ranges = find_all_ranges("Hello World", &words);
    let flags: Vec<(String, bool)> = ranges
        .iter()
        .map(|r| (r.string.iter().collect::<String>(), r.is_match))
        .collect();
    assert_eq!(
        flags,
        vec![
            (String::from("hel"), false),
            (String::from("lo"), true),
            (String::from(" "), false),
            (String::from("wor"), true),
            (String::from("ld"), false),
        ]
    );
}

#[test]
fn highlight_ranges_no_words() {
    let ranges = find_all_ranges("abc", &Vec::new());
    assert_eq!(ranges.len(), 1);
    assert!(!ranges[0].is_match);
    let text: String = ranges[0].string.iter().collect();
    assert_eq!(text, "abc");
}
