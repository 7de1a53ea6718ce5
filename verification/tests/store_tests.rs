use mindcache_core::codec::frame_bounds;
use mindcache_core::index::{format_index, index_fits, parse_index, scan_log};
use mindcache_core::record::{
    clamp_importance, metadata_value, MemoryItem, QueryFilter, StoreError, IMPORTANCE_ONE,
};
use mindcache_core::storage::MemoryStorage;

const T0: i64 = 1_700_000_000_000;
const HOUR: i64 = 3_600_000;

fn item(user: &str, session: &str, content: &str, timestamp: i64, importance: i32) -> MemoryItem {
    MemoryItem {
        id: String::new(),
        user_id: user.to_string(),
        session_id: session.to_string(),
        content: content.to_string(),
        metadata: Vec::new(),
        timestamp,
        ttl_hours: Some(24),
        importance,
    }
}

fn for_user(user: &str) -> QueryFilter {
    QueryFilter { user_id: Some(user.to_string()), ..QueryFilter::all() }
}

#[test]
fn test_save_and_recall() {
    let mut storage = MemoryStorage::new("./test_storage");
    let memory = MemoryItem {
        id: "".to_string(),
        user_id: "test_user".to_string(),
        session_id: "session_1".to_string(),
        content: "I love trading gold futures".to_string(),
        metadata: Vec::new(),
        timestamp: T0,
        ttl_hours: Some(24),
        importance: 800_000,
    };

    let memory_id = storage.save(memory).unwrap();
    assert!(!memory_id.is_empty());

    let filter = QueryFilter {
        user_id: Some("test_user".to_string()),
        session_id: None,
        keywords: Some(vec!["gold".to_string()]),
        date_from: None,
        date_to: None,
        limit: Some(10),
        min_importance: None,
    };

    let results = storage.recall(filter);
    assert_eq!(results.len(), 1);
    assert_eq!(results[0].content, "I love trading gold futures");
}

#[test]
fn new_store_is_empty_and_knows_its_paths() {
    let storage = MemoryStorage::new("data/dir");
    assert_eq!(storage.live_count(), 0);
    assert_eq!(storage.log_bytes().len(), 0);
    assert_eq!(storage.storage_path(), "data/dir/memories.bin");
    assert_eq!(storage.index_path(), "data/dir/index");
    assert_eq!(storage.index_text(), ":0\n");
    assert!(storage.recall(QueryFilter::all()).is_empty());
}

#[test]
fn save_without_user_is_refused() {
    let mut storage = MemoryStorage::new("dir");
    let res = storage.save(item("", "s", "x", T0, 0));
    assert_eq!(res, Err(StoreError::EmptyUser));
    assert_eq!(storage.live_count(), 0);
    assert_eq!(storage.log_bytes().len(), 0);
}

#[test]
fn save_keeps_a_given_id_and_makes_a_fresh_one_otherwise() {
    let mut storage = MemoryStorage::new("dir");
    let mut named = item("u", "s", "named", T0, 500_000);
    named.id = "my-id".to_string();
    assert_eq!(storage.save(named), Ok("my-id".to_string()));
    let first = storage.save(item("u", "s", "one", T0, 500_000)).unwrap();
    let second = storage.save(item("u", "s", "two", T0, 500_000)).unwrap();
    assert_eq!(first.len(), 36);
    assert_eq!(second.len(), 36);
    assert_ne!(first, second);
    let all = storage.load_live();
    assert_eq!(all.len(), 3);
    assert_eq!(all[0].id, "my-id");
    assert_eq!(all[1].id, first);
    assert_eq!(all[2].id, second);
}

#[test]
fn saved_record_comes_back_unchanged() {
    let mut storage = MemoryStorage::new("dir");
    let mut memory = item("alice", "s1", "Caf\u{e9} na\u{ef}ve r\u{e9}sum\u{e9} \u{1f680}", T0 + 17, 250_000);
    memory.metadata = vec![
        ("category".to_string(), "test".to_string()),
        ("tags".to_string(), "a, b".to_string()),
    ];
    memory.ttl_hours = None;
    let id = storage.save(memory.clone()).unwrap();
    let hits = storage.recall(for_user("alice"));
    assert_eq!(hits.len(), 1);
    assert_eq!(hits[0].id, id);
    assert_eq!(hits[0].content, memory.content);
    assert_eq!(hits[0].user_id, memory.user_id);
    assert_eq!(hits[0].session_id, memory.session_id);
    assert_eq!(hits[0].metadata, memory.metadata);
    assert_eq!(hits[0].timestamp, T0 + 17);
    assert_eq!(hits[0].ttl_hours, None);
    assert_eq!(hits[0].importance, 250_000);
    assert!(hits[0].same_as(&storage.read_at(0).unwrap()));
}

#[test]
fn importance_is_clamped_at_write_time() {
    assert_eq!(clamp_importance(2_000_000), IMPORTANCE_ONE);
    assert_eq!(clamp_importance(-500_000), 0);
    assert_eq!(clamp_importance(300_000), 300_000);
    assert_eq!(clamp_importance(0), 0);
    assert_eq!(clamp_importance(1_000_000), 1_000_000);

    let mut storage = MemoryStorage::new("dir");
    storage.save(item("edge_user", "s", "High importance test", T0, 2_000_000)).unwrap();
    storage.save(item("edge_user", "s", "Negative importance test", T0 + 1, -500_000)).unwrap();
    let hits = storage.get_session_memories("edge_user", "s");
    let high = hits.iter().find(|m| m.content.contains("High importance test")).unwrap();
    assert_eq!(high.importance, 1_000_000);
    let low = hits.iter().find(|m| m.content.contains("Negative importance test")).unwrap();
    assert_eq!(low.importance, 0);
}

#[test]
fn log_holds_length_prefixed_frames() {
    let mut storage = MemoryStorage::new("dir");
    let mut memory = item("u", "s", "hello", T0, 500_000);
    memory.id = "id-1".to_string();
    storage.save(memory.clone()).unwrap();
    let log = storage.log_bytes().to_vec();
    let announced = u32::from_le_bytes([log[0], log[1], log[2], log[3]]) as usize;
    assert_eq!(announced + 4, log.len());
    let payload = bincode::serialize(&(
        &memory.id,
        &memory.user_id,
        &memory.session_id,
        &memory.content,
        &memory.metadata,
        memory.timestamp,
        memory.ttl_hours,
        memory.importance,
    ))
    .unwrap();
    assert_eq!(&log[4..], &payload[..]);
    assert_eq!(frame_bounds(&log, 0), Some((4, log.len())));
    assert_eq!(frame_bounds(&log, 1), None);
    assert_eq!(frame_bounds(&log, log.len()), None);

    storage.save(item("u", "s", "second", T0, 1)).unwrap();
    let grown = storage.log_bytes().to_vec();
    assert_eq!(&grown[..log.len()], &log[..]);
    assert_eq!(storage.recall_offsets("u"), vec![0, log.len()]);
}

#[test]
fn read_at_tells_corrupt_places_from_records() {
    let mut storage = MemoryStorage::new("dir");
    storage.save(item("u", "s", "first", T0, 1)).unwrap();
    let second_at = storage.log_bytes().len();
    storage.save(item("u", "s", "second", T0, 2)).unwrap();
    assert_eq!(storage.read_at(0).unwrap().content, "first");
    assert_eq!(storage.read_at(second_at).unwrap().content, "second");
    assert_eq!(storage.read_at(1).err(), Some(StoreError::CorruptRecord));
    assert_eq!(storage.read_at(storage.log_bytes().len()).err(), Some(StoreError::CorruptRecord));
    assert_eq!(storage.read_at(usize::MAX).err(), Some(StoreError::CorruptRecord));
}

#[test]
fn test_multi_user_isolation() {
    let mut storage = MemoryStorage::new("dir");
    storage.save(item("alice", "sa", "Alice's secret trading strategy", T0, 500_000)).unwrap();
    storage.save(item("bob", "sb", "Bob's investment portfolio review", T0 + 1, 500_000)).unwrap();

    let alice_memories = storage.recall(for_user("alice"));
    assert_eq!(alice_memories.len(), 1);
    assert!(alice_memories[0].content.contains("Alice's"));
    assert!(alice_memories.iter().all(|m| m.user_id == "alice"));

    let bob_memories = storage.recall(for_user("bob"));
    assert_eq!(bob_memories.len(), 1);
    assert!(bob_memories[0].content.contains("Bob's"));
    assert!(bob_memories.iter().all(|m| m.user_id == "bob"));

    assert!(storage.recall(for_user("carol")).is_empty());
    assert_eq!(storage.recall(QueryFilter::all()).len(), 2);
}

#[test]
fn test_advanced_recall_filtering() {
    let mut storage = MemoryStorage::new("dir");
    let user_id = "filter_test_user";
    let memories_data = vec![
        ("High importance trading alert", 900_000, "trading", "AAPL"),
        ("Medium importance market update", 600_000, "market", "SPY"),
        ("Low importance casual observation", 200_000, "casual", "TSLA"),
        ("Important risk management note", 800_000, "risk", "portfolio"),
        ("Regular portfolio check", 400_000, "portfolio", "balance"),
    ];
    let mut at = T0;
    for (content, importance, category, asset) in memories_data {
        let mut memory = item(user_id, "session", content, at, importance);
        memory.metadata = vec![
            ("category".to_string(), category.to_string()),
            ("asset".to_string(), asset.to_string()),
        ];
        storage.save(memory).unwrap();
        at += 1000;
    }

    let trading = storage.recall(QueryFilter {
        keywords: Some(vec!["trading".to_string()]),
        ..for_user(user_id)
    });
    assert_eq!(trading.len(), 1);
    assert!(trading[0].content.contains("trading alert"));

    let important = storage.recall(QueryFilter { min_importance: Some(700_000), ..for_user(user_id) });
    assert_eq!(important.len(), 2);
    assert_eq!(important[0].content, "Important risk management note");
    assert_eq!(important[1].content, "High importance trading alert");

    let limited = storage.recall(QueryFilter { limit: Some(2), ..for_user(user_id) });
    assert_eq!(limited.len(), 2);
    assert_eq!(limited[0].content, "Regular portfolio check");
    assert_eq!(limited[1].content, "Important risk management note");

    let none = storage.recall(QueryFilter { limit: Some(0), ..for_user(user_id) });
    assert!(none.is_empty());
}

#[test]
fn filter_is_the_conjunction_of_its_predicates() {
    let mut storage = MemoryStorage::new("dir");
    storage.save(item("u1", "s1", "buy gold", T0, 900_000)).unwrap();
    storage.save(item("u1", "s2", "buy silver", T0 + HOUR, 100_000)).unwrap();
    storage.save(item("u2", "s1", "sell gold", T0 + 2 * HOUR, 900_000)).unwrap();
    storage.save(item("u1", "s1", "hold gold", T0 + 3 * HOUR, 500_000)).unwrap();

    let contents = |filter: QueryFilter| -> Vec<String> {
        storage.recall(filter).into_iter().map(|m| m.content).collect()
    };
    let by_user = contents(for_user("u1"));
    let by_session = contents(QueryFilter { session_id: Some("s1".to_string()), ..QueryFilter::all() });
    let by_word = contents(QueryFilter { keywords: Some(vec!["GOLD".to_string()]), ..QueryFilter::all() });
    let by_floor = contents(QueryFilter { min_importance: Some(500_000), ..QueryFilter::all() });
    let by_dates = contents(QueryFilter {
        date_from: Some(T0 + HOUR),
        date_to: Some(T0 + 3 * HOUR),
        ..QueryFilter::all()
    });
    assert_eq!(by_user, vec!["hold gold", "buy silver", "buy gold"]);
    assert_eq!(by_session, vec!["hold gold", "sell gold", "buy gold"]);
    assert_eq!(by_word, vec!["hold gold", "sell gold", "buy gold"]);
    assert_eq!(by_floor, vec!["hold gold", "sell gold", "buy gold"]);
    assert_eq!(by_dates, vec!["hold gold", "sell gold", "buy silver"]);

    let all = contents(QueryFilter {
        user_id: Some("u1".to_string()),
        session_id: Some("s1".to_string()),
        keywords: Some(vec!["GOLD".to_string()]),
        date_from: Some(T0 + HOUR),
        date_to: Some(T0 + 3 * HOUR),
        limit: None,
        min_importance: Some(500_000),
    });
    let expected: Vec<String> = by_user
        .iter()
        .filter(|c| by_session.contains(c) && by_word.contains(c) && by_floor.contains(c) && by_dates.contains(c))
        .cloned()
        .collect();
    assert_eq!(all, expected);
    assert_eq!(all, vec!["hold gold"]);
}

#[test]
fn date_bounds_are_inclusive() {
    let mut storage = MemoryStorage::new("dir");
    storage.save(item("u", "s", "a", T0, 1)).unwrap();
    storage.save(item("u", "s", "b", T0 + 1, 1)).unwrap();
    storage.save(item("u", "s", "c", T0 + 2, 1)).unwrap();
    let hits = storage.recall(QueryFilter { date_from: Some(T0), date_to: Some(T0 + 1), ..QueryFilter::all() });
    assert_eq!(hits.len(), 2);
    assert_eq!(hits[0].content, "b");
    assert_eq!(hits[1].content, "a");
}

#[test]
fn recall_orders_newest_first_and_ties_by_append_order() {
    let mut storage = MemoryStorage::new("dir");
    storage.save(item("u", "s", "old", T0, 1)).unwrap();
    storage.save(item("v", "s", "tie one", T0 + 5, 1)).unwrap();
    storage.save(item("u", "s", "newest", T0 + 9, 1)).unwrap();
    storage.save(item("u", "s", "tie two", T0 + 5, 1)).unwrap();
    storage.save(item("v", "s", "tie three", T0 + 5, 1)).unwrap();
    let contents: Vec<String> = storage.recall(QueryFilter::all()).into_iter().map(|m| m.content).collect();
    assert_eq!(contents, vec!["newest", "tie one", "tie two", "tie three", "old"]);
}

#[test]
fn keyword_scenario_returns_exactly_the_mentions() {
    let mut storage = MemoryStorage::new("dir");
    storage.save(item("u", "s", "Bought AAPL stock at $175 per share", T0, 500_000)).unwrap();
    storage.save(item("u", "s", "Apple earnings beat expectations", T0 + 1, 500_000)).unwrap();
    storage.save(item("u", "s", "Tech sector showing strong growth", T0 + 2, 500_000)).unwrap();
    storage.save(item("u", "s", "Consider taking profits on aapl position", T0 + 3, 500_000)).unwrap();
    storage.save(item("u", "s", "Portfolio allocation to tech is now 40%", T0 + 4, 500_000)).unwrap();
    let hits = storage.recall(QueryFilter { keywords: Some(vec!["AAPL".to_string()]), ..QueryFilter::all() });
    assert_eq!(hits.len(), 2);
    assert_eq!(hits[0].content, "Consider taking profits on aapl position");
    assert_eq!(hits[1].content, "Bought AAPL stock at $175 per share");

    let any = storage.recall(QueryFilter {
        keywords: Some(vec!["nonexistent_keyword_12345".to_string(), "EARNINGS".to_string()]),
        ..QueryFilter::all()
    });
    assert_eq!(any.len(), 1);
    assert_eq!(any[0].content, "Apple earnings beat expectations");

    let no_results = storage.recall(QueryFilter {
        keywords: Some(vec!["nonexistent_keyword_12345".to_string()]),
        ..QueryFilter::all()
    });
    assert_eq!(no_results.len(), 0);
    let no_words = storage.recall(QueryFilter { keywords: Some(Vec::new()), ..QueryFilter::all() });
    assert_eq!(no_words.len(), 0);
}

#[test]
fn test_statistics_accuracy() {
    let mut storage = MemoryStorage::new("dir");
    let users = vec![("user1", 5), ("user2", 3), ("user3", 7)];
    let mut total_memories = 0;
    for (user, memory_count) in &users {
        for i in 0..*memory_count {
            storage.save(item(user, "session", &format!("Memory {} for {}", i, user), T0 + i, 500_000)).unwrap();
            total_memories += 1;
        }
    }
    let stats = storage.get_stats();
    let total_stored: usize = stats.iter().map(|(_, n)| *n).sum();
    assert_eq!(total_stored, total_memories);
    assert_eq!(
        stats,
        vec![("user1".to_string(), 5), ("user2".to_string(), 3), ("user3".to_string(), 7)]
    );
    assert_eq!(storage.live_count(), 15);
}

#[test]
fn tombstone_takes_one_record_out_and_leaves_the_log() {
    let mut storage = MemoryStorage::new("dir");
    let a = storage.save(item("u", "s", "a", T0, 1)).unwrap();
    let b = storage.save(item("u", "s", "b", T0 + 1, 1)).unwrap();
    let len = storage.log_bytes().len();
    assert!(storage.tombstone(&a));
    assert!(!storage.tombstone(&a));
    assert!(!storage.tombstone("no such id"));
    assert_eq!(storage.log_bytes().len(), len);
    let left = storage.load_live();
    assert_eq!(left.len(), 1);
    assert_eq!(left[0].id, b);
    assert_eq!(storage.read_at(0).unwrap().id, a);
}

#[test]
fn tombstone_marked_takes_the_marked_positions() {
    let mut storage = MemoryStorage::new("dir");
    for (i, name) in ["a", "b", "c", "d"].iter().enumerate() {
        storage.save(item("u", "s", name, T0 + i as i64, 1)).unwrap();
    }
    let gone = storage.tombstone_marked(&vec![true, false, true]);
    assert_eq!(gone, 2);
    let left: Vec<String> = storage.load_live().into_iter().map(|m| m.content).collect();
    assert_eq!(left, vec!["b", "d"]);
    assert_eq!(storage.tombstone_marked(&Vec::new()), 0);
    assert_eq!(storage.tombstone_marked(&vec![false, true, true, true]), 1);
    assert_eq!(storage.live_count(), 1);
}

#[test]
fn cleanup_takes_records_whose_ttl_ran_out() {
    let mut storage = MemoryStorage::new("dir");
    let mut short = item("u", "s", "short", T0, 900_000);
    short.ttl_hours = Some(1);
    let mut long = item("u", "s", "long", T0, 100_000);
    long.ttl_hours = Some(3);
    let mut none = item("u", "s", "none", T0, 100_000);
    none.ttl_hours = None;
    storage.save(short).unwrap();
    storage.save(long).unwrap();
    storage.save(none).unwrap();
    assert_eq!(storage.cleanup_expired_at(T0 + HOUR), 0);
    assert_eq!(storage.cleanup_expired_at(T0 + HOUR + 1), 1);
    assert_eq!(storage.cleanup_expired_at(T0 + 2 * HOUR), 0);
    let left: Vec<String> = storage.load_live().into_iter().map(|m| m.content).collect();
    assert_eq!(left, vec!["long", "none"]);
    assert_eq!(storage.cleanup_expired(), 1);
    assert_eq!(storage.live_count(), 1);
}

#[test]
fn compact_drops_dead_frames_and_keeps_live_records() {
    let mut storage = MemoryStorage::new("dir");
    let a = storage.save(item("u", "s", "a", T0, 1)).unwrap();
    let first_frame = storage.log_bytes().len();
    storage.save(item("v", "s", "b", T0 + 1, 1)).unwrap();
    storage.save(item("u", "s", "c", T0 + 2, 1)).unwrap();
    let before = storage.log_bytes().len();
    assert_eq!(storage.compact(), 0);
    assert!(storage.tombstone(&a));
    let reclaimed = storage.compact();
    assert_eq!(reclaimed, first_frame);
    assert_eq!(storage.log_bytes().len(), before - first_frame);
    let left: Vec<String> = storage.load_live().into_iter().map(|m| m.content).collect();
    assert_eq!(left, vec!["b", "c"]);
    assert_eq!(storage.recall_offsets("v"), vec![0]);
    assert_eq!(storage.read_at(0).unwrap().content, "b");
    let rebuilt = scan_log(storage.log_bytes());
    assert_eq!(format_index(&rebuilt, storage.log_bytes().len()), storage.index_text());
    assert_eq!(storage.compact(), 0);
}

#[test]
fn index_text_lists_each_user_with_offsets() {
    let mut storage = MemoryStorage::new("dir");
    storage.save(item("alice", "s", "a", T0, 1)).unwrap();
    let b0 = storage.log_bytes().len();
    storage.save(item("bob", "s", "b", T0, 1)).unwrap();
    let a1 = storage.log_bytes().len();
    storage.save(item("alice", "s", "c", T0, 1)).unwrap();
    let len = storage.log_bytes().len();
    assert_eq!(storage.index_text(), format!(":{}\nalice:0,{}\nbob:{}\n", len, a1, b0));
    assert_eq!(storage.recall_offsets("alice"), vec![0, a1]);
    assert_eq!(storage.recall_offsets("bob"), vec![b0]);
    assert!(storage.recall_offsets("carol").is_empty());
}

#[test]
fn index_file_is_parsed_into_ascending_offsets() {
    let parsed = parse_index(":99\nbob:30\nalice:0,45\n").unwrap();
    assert_eq!(
        parsed,
        (99, vec![("alice".to_string(), 0), ("bob".to_string(), 30), ("alice".to_string(), 45)])
    );
    assert_eq!(parse_index(":0").unwrap(), (0, Vec::new()));
    assert_eq!(parse_index(":+7").unwrap(), (7, Vec::new()));
    assert_eq!(parse_index(":007\nbob:+010").unwrap(), (7, vec![("bob".to_string(), 10)]));
    assert_eq!(parse_index(":18446744073709551615").unwrap().0 as u64, u64::MAX);
    assert_eq!(parse_index(":18446744073709551616"), None);
    assert_eq!(parse_index(":+"), None);
    assert_eq!(parse_index(":-0"), None);
    assert_eq!(parse_index(": 7"), None);
    assert_eq!(parse_index(":7 "), None);
    assert_eq!(parse_index(":1_000"), None);
    assert_eq!(parse_index(":\u{661}"), None);
    assert_eq!(parse_index(":7\nalice:\n").unwrap(), (7, Vec::new()));
    assert_eq!(
        parse_index(":7\nalice:1,,2").unwrap(),
        (7, vec![("alice".to_string(), 1), ("alice".to_string(), 2)])
    );
    assert_eq!(parse_index(""), None);
    assert_eq!(parse_index("alice:1\n"), None);
    assert_eq!(parse_index(":\nalice:1\n"), None);
    assert_eq!(parse_index(":x\nalice:1\n"), None);
    assert_eq!(parse_index(":1:2\n"), None);
    assert_eq!(parse_index(":7\nalice"), None);
    assert_eq!(parse_index(":7\na:b:1"), None);
    assert_eq!(parse_index(":7\nalice:1,x"), None);
    assert_eq!(parse_index(":7\nalice:-1"), None);
    assert_eq!(parse_index(":7\nalice:99999999999999999999999999"), None);
    assert_eq!(parse_index(":99999999999999999999999999\n"), None);
}

#[test]
fn store_opens_on_its_index_file() {
    let mut storage = MemoryStorage::new("dir");
    let a = storage.save(item("alice", "s", "a", T0, 1)).unwrap();
    storage.save(item("bob", "s", "b", T0 + 1, 1)).unwrap();
    storage.save(item("alice", "s", "c", T0 + 2, 1)).unwrap();
    assert!(storage.tombstone(&a));
    let log = storage.log_bytes().to_vec();
    let text = storage.index_text();

    let reopened = MemoryStorage::open("dir", log.clone(), Some(&text));
    let live: Vec<String> = reopened.load_live().into_iter().map(|m| m.content).collect();
    assert_eq!(live, vec!["b", "c"]);
    assert_eq!(reopened.index_text(), text);
    assert_eq!(reopened.log_bytes(), &log[..]);
    assert_eq!(reopened.storage_path(), "dir/memories.bin");
}

#[test]
fn store_rebuilds_its_index_from_the_log() {
    let mut storage = MemoryStorage::new("dir");
    let a = storage.save(item("alice", "s", "a", T0, 1)).unwrap();
    storage.save(item("bob", "s", "b", T0 + 1, 1)).unwrap();
    assert!(storage.tombstone(&a));
    let log = storage.log_bytes().to_vec();

    let all = |store: &MemoryStorage| -> Vec<String> {
        store.load_live().into_iter().map(|m| m.content).collect()
    };
    let absent = MemoryStorage::open("dir", log.clone(), None);
    assert_eq!(all(&absent), vec!["a", "b"]);
    let unreadable = MemoryStorage::open("dir", log.clone(), Some("not an index"));
    assert_eq!(all(&unreadable), vec!["a", "b"]);
    let len = log.len();
    let beyond = MemoryStorage::open("dir", log.clone(), Some(&format!(":{}\nbob:{}\n", len, len)));
    assert_eq!(all(&beyond), vec!["a", "b"]);
    let wrong_user = MemoryStorage::open("dir", log.clone(), Some(&format!(":{}\nbob:0\n", len)));
    assert_eq!(all(&wrong_user), vec!["a", "b"]);
    let no_length = MemoryStorage::open("dir", log.clone(), Some("alice:0\n"));
    assert_eq!(all(&no_length), vec!["a", "b"]);
    let kept = MemoryStorage::open("dir", log.clone(), Some(&storage.index_text()));
    assert_eq!(all(&kept), vec!["b"]);

    let mut cut = log.clone();
    cut.truncate(log.len() - 3);
    let truncated = MemoryStorage::open("dir", cut, None);
    assert_eq!(all(&truncated), vec!["a"]);

    let empty = MemoryStorage::open("dir", Vec::new(), None);
    assert_eq!(empty.live_count(), 0);
}

#[test]
fn index_written_for_a_shorter_log_is_not_used() {
    let mut storage = MemoryStorage::new("dir");
    let a = storage.save(item("alice", "s", "a", T0, 1)).unwrap();
    storage.save(item("bob", "s", "b", T0 + 1, 1)).unwrap();
    assert!(storage.tombstone(&a));
    let older = storage.index_text();
    storage.save(item("alice", "s", "c", T0 + 2, 1)).unwrap();
    let log = storage.log_bytes().to_vec();
    let reopened = MemoryStorage::open("dir", log.clone(), Some(&older));
    let live: Vec<String> = reopened.load_live().into_iter().map(|m| m.content).collect();
    assert_eq!(live, vec!["a", "b", "c"]);
    let current = MemoryStorage::open("dir", log, Some(&storage.index_text()));
    let live: Vec<String> = current.load_live().into_iter().map(|m| m.content).collect();
    assert_eq!(live, vec!["b", "c"]);
}

#[test]
fn generated_ids_differ_from_the_ids_in_the_store() {
    let mut storage = MemoryStorage::new("dir");
    let mut ids: Vec<String> = Vec::new();
    for i in 0..50 {
        let id = storage.save(item("u", "s", "x", T0 + i, 1)).unwrap();
        assert_eq!(id.len(), 36);
        assert!(!ids.contains(&id));
        ids.push(id);
    }
    assert_eq!(storage.find_id(&ids[0]), 0);
    assert_eq!(storage.find_id(&ids[49]), 49);
    assert_eq!(storage.find_id("no such id"), 50);
    let mut named = item("u", "s", "named twice", T0, 1);
    named.id = ids[3].clone();
    assert_eq!(storage.save(named), Ok(ids[3].clone()));
    assert_eq!(storage.find_id(&ids[3]), 3);
    assert_eq!(storage.live_count(), 51);
}

#[test]
fn test_full_memory_lifecycle() {
    let mut storage = MemoryStorage::new("dir");
    let mut sessions = mindcache_core::session::SessionManager::new();
    let session_id = sessions.create_session("test_user", Some("Test Session".to_string()));

    let memory_id = storage.save(item("test_user", &session_id, "Test memory content", T0, 500_000)).unwrap();
    assert!(!memory_id.is_empty());

    let memories = storage.recall(QueryFilter {
        keywords: Some(vec!["Test".to_string()]),
        ..for_user("test_user")
    });
    assert_eq!(memories.len(), 1);
    assert_eq!(memories[0].content, "Test memory content");
    assert_eq!(memories[0].user_id, "test_user");
    assert_eq!(memories[0].session_id, session_id);
}

#[test]
fn test_concurrent_access_simulation() {
    let mut storage = MemoryStorage::new("dir");
    let mut sessions = mindcache_core::session::SessionManager::new();
    let user_id = "concurrent_user";
    let session_id = sessions.create_session(user_id, Some("Concurrent Test".to_string()));

    let mut memory_ids = Vec::new();
    for i in 0..20 {
        let memory_id = storage
            .save(item(user_id, &session_id, &format!("Concurrent memory {}", i), T0 + i, 500_000))
            .unwrap();
        memory_ids.push(memory_id);
    }
    for i in 0..10 {
        let memories = storage.recall(QueryFilter {
            keywords: Some(vec![format!("{}", i)]),
            ..for_user(user_id)
        });
        assert!(!memories.is_empty());
    }
    for i in 20..30usize {
        storage
            .save(item(user_id, &session_id, &format!("Mixed memory {}", i), T0 + i as i64, 500_000))
            .unwrap();
        let all_memories = storage.recall(for_user(user_id));
        assert!(all_memories.len() >= i - 20 + 1 + 20);
    }
    let final_memories = storage.recall(for_user(user_id));
    assert_eq!(final_memories.len(), 30);
    let session = sessions.get_session(&storage, &session_id).unwrap();
    assert_eq!(session.memory_count, 30);
    assert_eq!(session.name, Some("Concurrent Test".to_string()));
}

#[test]
fn scan_passes_over_a_frame_that_holds_no_record() {
    let mut storage = MemoryStorage::new("dir");
    storage.save(item("alice", "s", "a", T0, 1)).unwrap();
    let mut log = storage.log_bytes().to_vec();
    let good = log.len();
    log.extend_from_slice(&3u32.to_le_bytes());
    log.extend_from_slice(&[1, 2, 3]);
    let bad_end = log.len();
    let tail = storage.log_bytes().to_vec();
    log.extend_from_slice(&tail);
    let entries = scan_log(&log);
    assert_eq!(entries, vec![("alice".to_string(), 0), ("alice".to_string(), bad_end)]);
    assert!(index_fits(&entries, &log));
    assert!(!index_fits(&vec![("alice".to_string(), good)], &log));
    assert!(!index_fits(&vec![("alice".to_string(), bad_end), ("alice".to_string(), 0)], &log));
    assert!(!index_fits(&vec![("alice".to_string(), 0), ("alice".to_string(), 0)], &log));
    assert!(index_fits(&Vec::new(), &log));
}

#[test]
fn metadata_is_looked_up_at_the_first_occurrence() {
    let pairs = vec![
        ("tags".to_string(), "a".to_string()),
        ("other".to_string(), "x".to_string()),
        ("tags".to_string(), "b".to_string()),
    ];
    assert_eq!(metadata_value(&pairs, "tags"), Some("a".to_string()));
    assert_eq!(metadata_value(&pairs, "other"), Some("x".to_string()));
    assert_eq!(metadata_value(&pairs, "none"), None);
}

#[test]
fn test_edge_cases_and_error_handling() {
    let mut storage = MemoryStorage::new("dir");
    let memory_id = storage.save(item("edge_user", "s", "", T0, 500_000)).unwrap();
    assert!(!memory_id.is_empty());

    let long_content = "x".repeat(10000);
    let long_memory_id = storage.save(item("edge_user", "s", &long_content, T0 + 1, 500_000)).unwrap();
    assert!(!long_memory_id.is_empty());

    let special_content = "Special chars: \u{1f680}\u{1f4b0}\u{1f4c8} \u{e1}\u{e9}\u{ed}\u{f3}\u{fa} \u{f1} \u{4e2d}\u{6587} \u{627}\u{644}\u{639}\u{631}\u{628}\u{64a}\u{629}";
    let special_memory_id = storage.save(item("edge_user", "s", special_content, T0 + 2, 500_000)).unwrap();
    assert!(!special_memory_id.is_empty());

    let hits = storage.get_session_memories("edge_user", "s");
    assert_eq!(hits.len(), 3);
    assert_eq!(hits[0].content, special_content);
    assert_eq!(hits[1].content.len(), 10000);
    assert_eq!(hits[2].content, "");
    assert!(storage.get_session_memories("edge_user", "nonexistent_session_12345").is_empty());

    let no_results = storage.recall(QueryFilter {
        keywords: Some(vec!["nonexistent_keyword_12345".to_string()]),
        ..for_user("edge_user")
    });
    assert_eq!(no_results.len(), 0);

    let mut sessions = mindcache_core::session::SessionManager::new();
    let summary_result = sessions.generate_session_summary(&storage, "nonexistent_session_12345");
    assert!(summary_result.is_err());
    assert_eq!(summary_result.err(), Some(StoreError::NotFound));

    storage.save(item("edge_user", "s", "High importance test", T0 + 3, 2_000_000)).unwrap();
    let clamped_memories = storage.get_session_memories("edge_user", "s");
    let high_imp_memory = clamped_memories
        .iter()
        .find(|m| m.content.contains("High importance test"))
        .expect("Should find high importance memory");
    assert!(high_imp_memory.importance <= 1_000_000);
    assert_eq!(high_imp_memory.importance, 1_000_000);

    storage.save(item("edge_user", "s", "Negative importance test", T0 + 4, -500_000)).unwrap();
    let all_memories = storage.get_session_memories("edge_user", "s");
    let neg_imp_memory = all_memories
        .iter()
        .find(|m| m.content.contains("Negative importance test"))
        .expect("Should find negative importance memory");
    assert!(neg_imp_memory.importance >= 0);
    assert_eq!(neg_imp_memory.importance, 0);
}

#[test]
fn test_storage_consistency_under_load() {
    let mut storage = MemoryStorage::new("dir");
    for i in 0..200 {
        storage.save(item("consistency_user", "s", &format!("Consistency test memory {}", i), T0 + i, 500_000)).unwrap();
        if i % 10 == 0 {
            let memories = storage.recall(for_user("consistency_user"));
            assert_eq!(memories.len(), (i + 1) as usize);
            assert_eq!(memories[0].content, format!("Consistency test memory {}", i));
        }
    }
}
