use mindcache_core::record::{MemoryItem, StoreError};
use mindcache_core::session::{
    aggregate_session, build_sessions, create_simple_summary, record_tags, summarize,
    SessionManager,
};
use mindcache_core::storage::MemoryStorage;
use mindcache_core::summary::{
    excerpt_of, extract_key_points, join_texts, mean_of, rank_topics, time_span, topic_words_of,
};

const T0: i64 = 1_700_000_000_000;
const HOUR: i64 = 3_600_000;
const DAY: i64 = 86_400_000;

fn item(user: &str, session: &str, content: &str, timestamp: i64, importance: i32) -> MemoryItem {
    MemoryItem {
        id: String::new(),
        user_id: user.to_string(),
        session_id: session.to_string(),
        content: content.to_string(),
        metadata: Vec::new(),
        timestamp,
        ttl_hours: None,
        importance,
    }
}

fn tagged(user: &str, session: &str, content: &str, timestamp: i64, tags: &str) -> MemoryItem {
    let mut memory = item(user, session, content, timestamp, 500_000);
    memory.metadata = vec![("tags".to_string(), tags.to_string())];
    memory
}

fn texts(words: &[&str]) -> Vec<String> {
    words.iter().map(|w| w.to_string()).collect()
}

#[test]
fn test_session_creation_and_retrieval() {
    let storage = MemoryStorage::new("./test_sessions");
    let mut session_manager = SessionManager::new();

    let session_id = session_manager.create_session("test_user", Some("Test Session".to_string()));
    assert!(!session_id.is_empty());

    let session = session_manager.get_session(&storage, &session_id);
    assert!(session.is_some());
    assert_eq!(session.unwrap().name, Some("Test Session".to_string()));
}

#[test]
fn created_session_is_empty_and_dated() {
    let storage = MemoryStorage::new("dir");
    let mut manager = SessionManager::new();
    let id = manager.create_session("u", None);
    assert_eq!(id.len(), 36);
    let session = manager.get_session(&storage, &id).unwrap();
    assert_eq!(session.id, id);
    assert_eq!(session.user_id, "u");
    assert_eq!(session.name, None);
    assert_eq!(session.memory_count, 0);
    assert!(session.tags.is_empty());
    assert!(session.metadata.is_empty());
    assert_eq!(session.created_at, session.last_active);
    assert!(session.created_at > T0);
    assert_ne!(manager.create_session("u", None), id);
}

#[test]
fn registered_session_takes_the_place_of_one_with_its_id() {
    let storage = MemoryStorage::new("dir");
    let mut manager = SessionManager::new();
    manager.register_session("s1", "u", Some("first".to_string()), 10);
    manager.register_session("s2", "u", None, 20);
    manager.register_session("s1", "v", Some("again".to_string()), 30);
    let session = manager.get_session(&storage, "s1").unwrap();
    assert_eq!(session.user_id, "v");
    assert_eq!(session.name, Some("again".to_string()));
    assert_eq!(session.created_at, 30);
    assert_eq!(
        manager.get_session_stats(),
        vec![("v".to_string(), 1), ("u".to_string(), 1), ("total_sessions".to_string(), 2)]
    );
}

#[test]
fn record_tags_are_split_and_trimmed() {
    assert_eq!(record_tags(&tagged("u", "s", "c", T0, "a, b ,c")), texts(&["a", "b", "c"]));
    assert_eq!(record_tags(&tagged("u", "s", "c", T0, "  solo\t")), texts(&["solo"]));
    assert_eq!(record_tags(&tagged("u", "s", "c", T0, "a,,b")), texts(&["a", "", "b"]));
    assert_eq!(record_tags(&tagged("u", "s", "c", T0, "")), texts(&[""]));
    assert!(record_tags(&item("u", "s", "c", T0, 1)).is_empty());
}

#[test]
fn sessions_are_formed_from_live_records() {
    let mut storage = MemoryStorage::new("dir");
    storage.save(tagged("u", "s1", "r1", T0, "a, b")).unwrap();
    storage.save(tagged("u", "s1", "r2", T0 + 2 * HOUR, "b,c , a")).unwrap();
    storage.save(item("u", "s1", "r3", T0 + HOUR, 500_000)).unwrap();
    storage.save(tagged("u", "s2", "r4", T0 + 5 * HOUR, "")).unwrap();
    storage.save(tagged("other", "s1", "r5", T0 + 9 * HOUR, "z")).unwrap();

    let mut manager = SessionManager::new();
    let sessions = manager.get_user_sessions(&storage, "u");
    assert_eq!(sessions.len(), 2);
    assert_eq!(sessions[0].id, "s2");
    assert_eq!(sessions[0].user_id, "u");
    assert_eq!(sessions[0].name, None);
    assert_eq!(sessions[0].created_at, T0 + 5 * HOUR);
    assert_eq!(sessions[0].last_active, T0 + 5 * HOUR);
    assert_eq!(sessions[0].memory_count, 1);
    assert_eq!(sessions[0].tags, texts(&[""]));
    assert_eq!(sessions[1].id, "s1");
    assert_eq!(sessions[1].created_at, T0);
    assert_eq!(sessions[1].last_active, T0 + 2 * HOUR);
    assert_eq!(sessions[1].memory_count, 3);
    assert_eq!(sessions[1].tags, texts(&["b", "c", "a"]));
    assert!(sessions[1].metadata.is_empty());

    assert!(manager.get_user_sessions(&storage, "nobody").is_empty());
    assert_eq!(manager.get_session_stats(), vec![("total_sessions".to_string(), 0)]);

    manager.register_session("s1", "u", Some("First".to_string()), 7);
    let named = manager.get_user_sessions(&storage, "u");
    assert_eq!(named[0].name, None);
    assert_eq!(named[1].id, "s1");
    assert_eq!(named[1].name, Some("First".to_string()));
    assert_eq!(named[1].created_at, T0);
    assert_eq!(named[1].memory_count, 3);
    assert_eq!(
        manager.get_session_stats(),
        vec![("u".to_string(), 1), ("total_sessions".to_string(), 1)]
    );
}

#[test]
fn aggregate_takes_only_the_named_session() {
    let memories = vec![
        item("u", "s1", "a", 30, 1),
        item("v", "s2", "b", 10, 1),
        item("w", "s1", "c", 20, 1),
    ];
    let session = aggregate_session(&memories, "s1").unwrap();
    assert_eq!(session.id, "s1");
    assert_eq!(session.user_id, "u");
    assert_eq!(session.created_at, 20);
    assert_eq!(session.last_active, 30);
    assert_eq!(session.memory_count, 2);
    assert!(aggregate_session(&memories, "s3").is_none());
    let all = build_sessions(&memories);
    assert_eq!(all.len(), 2);
    assert_eq!(all[0].id, "s1");
    assert_eq!(all[1].id, "s2");
    assert_eq!(all[1].memory_count, 1);
    assert!(build_sessions(&Vec::new()).is_empty());
}

#[test]
fn get_session_follows_the_live_records() {
    let mut storage = MemoryStorage::new("dir");
    let first = storage.save(item("u", "s1", "first", T0, 1)).unwrap();
    let mut manager = SessionManager::new();
    assert!(manager.get_session(&storage, "missing").is_none());
    let seen = manager.get_session(&storage, "s1").unwrap();
    assert_eq!(seen.memory_count, 1);
    assert_eq!(seen.user_id, "u");
    storage.save(item("u", "s1", "second", T0 + HOUR, 1)).unwrap();
    let again = manager.get_session(&storage, "s1").unwrap();
    assert_eq!(again.memory_count, 2);
    assert_eq!(again.created_at, T0);
    assert_eq!(again.last_active, T0 + HOUR);
    assert!(storage.tombstone(&first));
    let after = manager.get_session(&storage, "s1").unwrap();
    assert_eq!(after.memory_count, 1);
    assert_eq!(after.created_at, T0 + HOUR);
    assert_eq!(manager.get_session_stats(), vec![("total_sessions".to_string(), 0)]);
}

#[test]
fn opened_session_counts_the_records_saved_in_it() {
    let mut storage = MemoryStorage::new("dir");
    let mut manager = SessionManager::new();
    let id = manager.create_session("u", Some("Trading".to_string()));
    assert_eq!(manager.get_session(&storage, &id).unwrap().memory_count, 0);
    storage.save(tagged("u", &id, "Bought AAPL at $175", T0, "stocks")).unwrap();
    storage.save(item("intruder", &id, "AAPL of another user", T0 + 5, 1)).unwrap();

    let found = manager.search_sessions(&storage, "u", texts(&["aapl"]));
    assert_eq!(found.len(), 1);
    assert_eq!(found[0].id, id);
    assert_eq!(found[0].user_id, "u");
    assert_eq!(found[0].name, Some("Trading".to_string()));
    assert_eq!(found[0].memory_count, 1);
    assert_eq!(found[0].last_active, T0);
    assert_eq!(found[0].tags, texts(&["stocks"]));

    let session = manager.get_session(&storage, &id).unwrap();
    assert_eq!(session.memory_count, 1);
    assert_eq!(session.user_id, "u");
    assert_eq!(session.created_at, T0);
    assert_eq!(session.name, Some("Trading".to_string()));
    let summary = manager.generate_session_summary(&storage, &id).unwrap();
    assert_eq!(summary.user_id, "u");
    assert_eq!(summary.memory_count, 1);
    let theirs = manager.generate_user_session_summary(&storage, "intruder", &id).unwrap();
    assert_eq!(theirs.memory_count, 1);
    assert_eq!(theirs.user_id, "intruder");
    assert_eq!(manager.session_owner(&storage, &id), Some("u".to_string()));
    assert_eq!(manager.session_owner(&storage, "nowhere"), None);
}

#[test]
fn test_session_management_integration() {
    let mut storage = MemoryStorage::new("dir");
    let mut manager = SessionManager::new();
    let user_id = "session_test_user";
    let session1 = manager.create_session(user_id, Some("Trading Session".to_string()));
    let session2 = manager.create_session(user_id, Some("Research Session".to_string()));

    storage.save(item(user_id, &session1, "Bought AAPL at $175", T0, 500_000)).unwrap();
    storage.save(item(user_id, &session1, "Set stop loss at $170", T0 + 1, 500_000)).unwrap();
    storage.save(item(user_id, &session2, "Fed meeting analysis", T0 + 2, 500_000)).unwrap();

    let all_memories = storage.load_user(user_id);
    assert!(all_memories.len() >= 3, "Should have at least 3 memories, found {}", all_memories.len());

    let session1_memories: Vec<_> = all_memories.iter().filter(|m| m.session_id == session1).collect();
    assert_eq!(session1_memories.len(), 2);
    let session2_memories: Vec<_> = all_memories.iter().filter(|m| m.session_id == session2).collect();
    assert_eq!(session2_memories.len(), 1);

    assert!(session1_memories.iter().any(|m| m.content.contains("AAPL")));
    assert!(session1_memories.iter().any(|m| m.content.contains("stop loss")));
    assert!(session2_memories.iter().any(|m| m.content.contains("Fed meeting")));

    let sessions = manager.get_user_sessions(&storage, user_id);
    assert_eq!(sessions.len(), 2);
    assert_eq!(sessions[0].id, session2);
    assert_eq!(sessions[0].name, Some("Research Session".to_string()));
    assert_eq!(sessions[0].memory_count, 1);
    assert_eq!(sessions[1].id, session1);
    assert_eq!(sessions[1].name, Some("Trading Session".to_string()));
    assert_eq!(sessions[1].memory_count, 2);
}

#[test]
fn update_session_renames_and_retags() {
    let storage = MemoryStorage::new("dir");
    let mut manager = SessionManager::new();
    assert_eq!(manager.update_session("missing", None, None), Err(StoreError::NotFound));
    assert_eq!(manager.update_session_at("missing", None, None, 5), Err(StoreError::NotFound));
    manager.register_session("s1", "u", Some("old".to_string()), 10);
    assert_eq!(manager.update_session_at("s1", None, Some(texts(&["x", "y"])), 42), Ok(()));
    let session = manager.get_session(&storage, "s1").unwrap();
    assert_eq!(session.name, Some("old".to_string()));
    assert_eq!(session.tags, texts(&["x", "y"]));
    assert_eq!(session.last_active, 42);
    assert_eq!(session.created_at, 10);
    assert_eq!(manager.update_session("s1", Some("new".to_string()), None), Ok(()));
    let session = manager.get_session(&storage, "s1").unwrap();
    assert_eq!(session.name, Some("new".to_string()));
    assert_eq!(session.tags, texts(&["x", "y"]));
    assert!(session.last_active > T0);
}

#[test]
fn delete_session_tombstones_its_records() {
    let mut storage = MemoryStorage::new("dir");
    storage.save(item("u", "s1", "a", T0, 1)).unwrap();
    storage.save(item("u", "s2", "b", T0 + 1, 1)).unwrap();
    storage.save(item("v", "s1", "c", T0 + 2, 1)).unwrap();
    storage.save(item("u", "s1", "d", T0 + 3, 1)).unwrap();
    let mut manager = SessionManager::new();
    manager.register_session("s1", "u", Some("mine".to_string()), 5);
    let log_len = storage.log_bytes().len();
    assert_eq!(manager.delete_session(&mut storage, "s1"), 2);
    assert_eq!(storage.log_bytes().len(), log_len);
    assert_eq!(storage.storage_path(), "dir/memories.bin");
    let left: Vec<String> = storage.load_live().into_iter().map(|m| m.content).collect();
    assert_eq!(left, vec!["b", "c"]);
    assert_eq!(manager.get_session_stats(), vec![("total_sessions".to_string(), 0)]);
    let theirs = manager.get_session(&storage, "s1").unwrap();
    assert_eq!(theirs.user_id, "v");
    assert_eq!(theirs.name, None);
    assert_eq!(theirs.memory_count, 1);
    assert!(manager.get_session(&storage, "s2").is_some());
    assert_eq!(manager.delete_session(&mut storage, "s1"), 1);
    assert_eq!(manager.delete_session(&mut storage, "s1"), 0);
    assert!(manager.get_session(&storage, "s1").is_none());
}

#[test]
fn session_stats_count_sessions_by_user() {
    let mut manager = SessionManager::new();
    assert_eq!(manager.get_session_stats(), vec![("total_sessions".to_string(), 0)]);
    manager.register_session("a", "u1", None, 1);
    manager.register_session("b", "u2", None, 2);
    manager.register_session("c", "u1", None, 3);
    assert_eq!(
        manager.get_session_stats(),
        vec![("u1".to_string(), 2), ("u2".to_string(), 1), ("total_sessions".to_string(), 3)]
    );
}

#[test]
fn search_finds_the_sessions_that_mention_a_keyword() {
    let mut storage = MemoryStorage::new("dir");
    storage.save(item("u", "trade", "Bought AAPL at $175", T0, 1)).unwrap();
    storage.save(item("u", "trade", "Set stop loss at $170", T0 + HOUR, 1)).unwrap();
    storage.save(item("u", "research", "Fed meeting analysis", T0 + 2 * HOUR, 1)).unwrap();
    storage.save(item("u", "notes", "aapl looks strong", T0 + 3 * HOUR, 1)).unwrap();
    storage.save(item("v", "theirs", "AAPL again", T0 + 4 * HOUR, 1)).unwrap();
    let mut manager = SessionManager::new();
    let found = manager.search_sessions(&storage, "u", texts(&["AAPL"]));
    assert_eq!(found.len(), 2);
    assert_eq!(found[0].id, "notes");
    assert_eq!(found[0].memory_count, 1);
    assert_eq!(found[1].id, "trade");
    assert_eq!(found[1].memory_count, 2);
    assert_eq!(found[1].last_active, T0 + HOUR);
    assert!(manager.search_sessions(&storage, "u", texts(&["bitcoin"])).is_empty());
    assert!(manager.search_sessions(&storage, "nobody", texts(&["AAPL"])).is_empty());
}

#[test]
fn topic_words_leave_out_short_and_stop_words() {
    assert_eq!(
        topic_words_of("The Gold futures WERE about to rally and I sold"),
        texts(&["gold", "futures", "rally", "sold"])
    );
    assert_eq!(topic_words_of("  \t\n "), Vec::<String>::new());
    assert_eq!(topic_words_of("caf\u{e9} na\u{ef} abc"), texts(&["caf\u{e9}", "na\u{ef}"]));
    assert_eq!(
        rank_topics(&texts(&["b", "a", "c", "a", "c", "d", "e", "f", "c"])),
        texts(&["c", "a", "b", "d", "e"])
    );
    assert!(rank_topics(&Vec::new()).is_empty());
}

#[test]
fn test_session_summary() {
    let mut storage = MemoryStorage::new("./test_summary");
    let mut session_manager = SessionManager::new();
    storage.save(item("u", "s1", "Bought gold futures today", T0, 900_000)).unwrap();
    storage.save(item("u", "s1", "Gold futures rallied again", T0 + 2 * DAY, 300_000)).unwrap();
    storage.save(item("u", "s2", "Unrelated note", T0 + 3 * DAY, 100_000)).unwrap();

    let summary = session_manager.generate_session_summary(&storage, "s1").unwrap();
    assert_eq!(summary.session_id, "s1");
    assert_eq!(summary.user_id, "u");
    assert_eq!(summary.key_topics, texts(&["gold", "futures", "rallied", "again", "bought"]));
    assert_eq!(
        summary.summary_text,
        "Session contains 2 memories over 2 days. Key topics: gold, futures, rallied, again, bought. Most recent: \"Gold futures rallied again\""
    );
    assert_eq!(summary.memory_count, 2);
    assert_eq!(summary.date_range, (T0, T0 + 2 * DAY));
    assert_eq!(summary.importance_score, 600_000);

    let missing = session_manager.generate_session_summary(&storage, "nonexistent_session_12345");
    assert_eq!(missing.err(), Some(StoreError::NotFound));
}

#[test]
fn summary_of_one_record_names_no_span() {
    let one = vec![item("u", "s", "a b c", T0, 333_333)];
    let summary = summarize(&one, "s").unwrap();
    assert_eq!(summary.summary_text, "Session contains 1 memories. Most recent: \"a b c\"");
    assert!(summary.key_topics.is_empty());
    assert_eq!(summary.importance_score, 333_333);
    assert_eq!(summary.date_range, (T0, T0));
    assert_eq!(summarize(&Vec::new(), "s").err(), Some(StoreError::NotFound));
}

#[test]
fn summary_text_quotes_at_most_a_hundred_characters() {
    let long = "\u{e9}".repeat(101);
    let memories = vec![item("u", "s", &long, T0 + DAY - 1, 1), item("u", "s", "x", T0, 1)];
    let text = create_simple_summary(&memories, &texts(&["one"]));
    let expected = format!(
        "Session contains 2 memories over 0 days. Key topics: one. Most recent: \"{}...\"",
        "\u{e9}".repeat(100)
    );
    assert_eq!(text, expected);
    assert_eq!(create_simple_summary(&Vec::new(), &Vec::new()), "Session contains 0 memories. Most recent: \"\"");
}

#[test]
fn excerpts_and_joins() {
    assert_eq!(excerpt_of("abcdef", 3, ".."), "abc..");
    assert_eq!(excerpt_of("abc", 3, ".."), "abc");
    assert_eq!(excerpt_of("", 0, ".."), "");
    assert_eq!(excerpt_of("a", 0, ".."), "..");
    assert_eq!(join_texts(&texts(&["a", "b", "c"]), ", "), "a, b, c");
    assert_eq!(join_texts(&texts(&["a"]), ", "), "a");
    assert_eq!(join_texts(&Vec::new(), ", "), "");
    assert_eq!(join_texts(&texts(&["", ""]), "-"), "-");
}

#[test]
fn mean_and_span_of_a_group() {
    let group = vec![
        item("u", "s", "a", 50, 100_000),
        item("u", "s", "b", -20, 200_000),
        item("u", "s", "c", 70, 400_001),
    ];
    assert_eq!(mean_of(&group), 233_333);
    assert_eq!(time_span(&group), (-20, 70));
    assert_eq!(mean_of(&Vec::new()), 0);
    assert_eq!(time_span(&Vec::new()), (0, 0));
    let negative = vec![item("u", "s", "a", 0, -3), item("u", "s", "b", 0, -4)];
    assert_eq!(mean_of(&negative), -3);
    assert_eq!(extract_key_points(&group), Vec::<String>::new());
}

#[test]
fn test_session_summary_generation() {
    let mut storage = MemoryStorage::new("dir");
    let memories = vec![
        "Bought gold futures at $1850/oz due to inflation concerns",
        "Federal Reserve meeting indicated potential rate cuts",
        "Technology stocks showing weakness amid regulatory pressure",
        "Portfolio rebalancing needed - too heavy in growth stocks",
        "Risk management review scheduled for next week",
    ];
    for (i, memory) in memories.iter().enumerate() {
        storage.save(item("summary_test_user", "summary", memory, T0 + i as i64, 500_000)).unwrap();
    }
    let session_memories = storage.get_session_memories("summary_test_user", "summary");
    assert_eq!(session_memories.len(), 5, "Should have saved all memories to session");
    assert!(session_memories.iter().any(|m| m.content.contains("gold futures")));
    assert!(session_memories.iter().any(|m| m.content.contains("Federal Reserve")));
    assert!(session_memories.iter().any(|m| m.content.contains("Technology stocks")));

    let mut manager = SessionManager::new();
    let summary = manager.generate_session_summary(&storage, "summary").unwrap();
    assert_eq!(summary.memory_count, 5);
    assert_eq!(summary.key_topics, texts(&["stocks", "risk", "management", "review", "scheduled"]));
    assert!(summary.summary_text.starts_with("Session contains 5 memories over 0 days. Key topics: stocks, risk, management, review, scheduled."));
    assert!(summary.summary_text.ends_with("Most recent: \"Risk management review scheduled for next week\""));
}
