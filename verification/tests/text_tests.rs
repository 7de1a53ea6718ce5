use mindcache_core::query::{apply_limit, holds_keyword, matches_filter, select, sort_newest_first};
use mindcache_core::rank::order_descending;
use mindcache_core::record::{copy_pairs, same_pairs, MemoryItem, QueryFilter};
use mindcache_core::text::{is_stop_word, push_distinct, tally_texts};

fn item(content: &str, timestamp: i64) -> MemoryItem {
    MemoryItem {
        id: String::new(),
        user_id: "u".to_string(),
        session_id: "s".to_string(),
        content: content.to_string(),
        metadata: Vec::new(),
        timestamp,
        ttl_hours: None,
        importance: 500_000,
    }
}

fn texts(words: &[&str]) -> Vec<String> {
    words.iter().map(|w| w.to_string()).collect()
}

#[test]
fn stop_words_are_known() {
    for word in ["the", "and", "or", "but", "with", "between", "i", "would", "being", "those"] {
        assert!(is_stop_word(word), "{}", word);
    }
    for word in ["gold", "The", "", "thee", "woul", "an"] {
        assert!(!is_stop_word(word), "{}", word);
    }
}

#[test]
fn tally_counts_in_order_of_first_occurrence() {
    assert_eq!(
        tally_texts(&texts(&["b", "a", "b", "c", "a", "b"])),
        vec![("b".to_string(), 3), ("a".to_string(), 2), ("c".to_string(), 1)]
    );
    assert!(tally_texts(&Vec::new()).is_empty());
    let mut list = texts(&["x"]);
    push_distinct(&mut list, "y".to_string());
    push_distinct(&mut list, "x".to_string());
    push_distinct(&mut list, "".to_string());
    assert_eq!(list, texts(&["x", "y", ""]));
}

#[test]
fn descending_order_is_stable() {
    assert_eq!(order_descending(&vec![3, 1, 3, 2]), vec![0, 2, 3, 1]);
    assert_eq!(order_descending(&vec![-5, i128::MAX, i128::MIN]), vec![1, 0, 2]);
    assert_eq!(order_descending(&vec![7, 7, 7]), vec![0, 1, 2]);
    assert!(order_descending(&Vec::new()).is_empty());
}

#[test]
fn keywords_match_whatever_the_case() {
    assert!(holds_keyword("I love trading GOLD futures", &texts(&["gold"])));
    assert!(holds_keyword("i love trading gold futures", &texts(&["silver", "FUTURES"])));
    assert!(holds_keyword("\u{c9}COLE normale", &texts(&["\u{e9}cole"])));
    assert!(!holds_keyword("I love trading gold futures", &texts(&["goldfish"])));
    assert!(!holds_keyword("anything", &Vec::new()));
    assert!(holds_keyword("anything", &texts(&[""])));
}

#[test]
fn filter_predicates_one_by_one() {
    let memory = item("Gold is up", 100);
    assert!(matches_filter(&memory, &QueryFilter::all()));
    let check = |filter: QueryFilter| matches_filter(&memory, &filter);
    assert!(check(QueryFilter { user_id: Some("u".to_string()), ..QueryFilter::all() }));
    assert!(!check(QueryFilter { user_id: Some("U".to_string()), ..QueryFilter::all() }));
    assert!(check(QueryFilter { session_id: Some("s".to_string()), ..QueryFilter::all() }));
    assert!(!check(QueryFilter { session_id: Some("".to_string()), ..QueryFilter::all() }));
    assert!(check(QueryFilter { date_from: Some(100), ..QueryFilter::all() }));
    assert!(!check(QueryFilter { date_from: Some(101), ..QueryFilter::all() }));
    assert!(check(QueryFilter { date_to: Some(100), ..QueryFilter::all() }));
    assert!(!check(QueryFilter { date_to: Some(99), ..QueryFilter::all() }));
    assert!(check(QueryFilter { min_importance: Some(500_000), ..QueryFilter::all() }));
    assert!(!check(QueryFilter { min_importance: Some(500_001), ..QueryFilter::all() }));
    assert!(check(QueryFilter { keywords: Some(texts(&["GOLD"])), ..QueryFilter::all() }));
    assert!(!check(QueryFilter { keywords: Some(texts(&["silver"])), ..QueryFilter::all() }));
    assert!(check(QueryFilter { limit: Some(0), ..QueryFilter::all() }));
}

#[test]
fn selection_sorts_and_cuts() {
    let items = vec![item("a", 1), item("b", 3), item("c", 2), item("d", 3)];
    let sorted: Vec<String> = sort_newest_first(items.clone()).into_iter().map(|m| m.content).collect();
    assert_eq!(sorted, vec!["b", "d", "c", "a"]);
    let cut: Vec<String> = apply_limit(items.clone(), Some(2)).into_iter().map(|m| m.content).collect();
    assert_eq!(cut, vec!["a", "b"]);
    assert_eq!(apply_limit(items.clone(), Some(9)).len(), 4);
    assert_eq!(apply_limit(items.clone(), None).len(), 4);
    let filter = QueryFilter { date_from: Some(2), limit: Some(2), ..QueryFilter::all() };
    let hits: Vec<String> = select(items, &filter).into_iter().map(|m| m.content).collect();
    assert_eq!(hits, vec!["b", "d"]);
}

#[test]
fn records_are_copied_and_compared_by_value() {
    let mut memory = item("a", 1);
    memory.metadata = vec![("k".to_string(), "v".to_string())];
    let copy = memory.duplicate();
    assert!(copy.same_as(&memory));
    let mut other = memory.duplicate();
    other.metadata[0].1 = "w".to_string();
    assert!(!other.same_as(&memory));
    let mut timed = memory.duplicate();
    timed.ttl_hours = Some(0);
    assert!(!timed.same_as(&memory));
    assert!(same_pairs(&copy_pairs(&memory.metadata), &memory.metadata));
    assert!(!same_pairs(&memory.metadata, &Vec::new()));
}
