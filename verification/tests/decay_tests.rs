use mindcache_core::ages::{age_distribution, bracket_of};
use mindcache_core::cap::enforce_memory_limits;
use mindcache_core::compress::{compress_old_memories, create_compressed_memory, is_compressible};
use mindcache_core::decay::{expire_old_memories, should_expire, DecayPolicy, MemoryDecayEngine};
use mindcache_core::stale::{is_stale, summarize_old_sessions};
use mindcache_core::record::{MemoryItem, QueryFilter, StoreError};
use mindcache_core::session::SessionManager;
use mindcache_core::storage::MemoryStorage;
use mindcache_core::time::{days_between, has_elapsed, hours_between};

const T0: i64 = 1_700_000_000_000;
const HOUR: i64 = 3_600_000;
const DAY: i64 = 86_400_000;

fn item(id: &str, user: &str, session: &str, content: &str, timestamp: i64, importance: i32, ttl: Option<u32>) -> MemoryItem {
    MemoryItem {
        id: id.to_string(),
        user_id: user.to_string(),
        session_id: session.to_string(),
        content: content.to_string(),
        metadata: Vec::new(),
        timestamp,
        ttl_hours: ttl,
        importance,
    }
}

fn policy(max_age_hours: u32, threshold: i32, cap: usize, compression: bool) -> DecayPolicy {
    DecayPolicy {
        max_age_hours,
        importance_threshold: threshold,
        max_memories_per_user: cap,
        compression_enabled: compression,
        auto_summarize_sessions: false,
    }
}

fn contents(storage: &MemoryStorage) -> Vec<String> {
    storage.load_live().into_iter().map(|m| m.content).collect()
}

#[test]
fn test_decay_policy_creation() {
    let policy = DecayPolicy::default();
    assert_eq!(policy.max_age_hours, 24 * 30);
    assert_eq!(policy.importance_threshold, 300_000);
    assert!(policy.compression_enabled);
    assert_eq!(policy.max_memories_per_user, 10000);
    assert!(policy.auto_summarize_sessions);
}

#[test]
fn test_memory_compression() {
    let storage = MemoryStorage::new("./test_decay");
    let session_manager = SessionManager::new();
    let decay_engine = MemoryDecayEngine::new(storage, session_manager);
    assert_eq!(*decay_engine.policy(), DecayPolicy::default());
    assert_eq!(decay_engine.get_stats().memories_expired, 0);
    assert_eq!(decay_engine.get_stats().memories_compressed, 0);
    assert_eq!(decay_engine.get_stats().total_memories_before, 0);
    assert!(decay_engine.get_stats().last_decay_run > T0);
    assert_eq!(decay_engine.storage().live_count(), 0);
}

#[test]
fn ages_are_counted_in_whole_hours_and_days() {
    assert_eq!(hours_between(T0 + 2 * HOUR - 1, T0), 1);
    assert_eq!(hours_between(T0 + 2 * HOUR, T0), 2);
    assert_eq!(hours_between(T0, T0), 0);
    assert_eq!(hours_between(T0, T0 + 5 * HOUR), 0);
    assert_eq!(hours_between(i64::MAX, i64::MIN), 5_124_095_576_030);
    assert_eq!(days_between(T0 + 3 * DAY + 5, T0), 3);
    assert_eq!(days_between(T0 + DAY - 1, T0), 0);
    assert_eq!(days_between(T0, T0 + DAY), 0);
    assert!(!has_elapsed(T0 + HOUR, T0, 1));
    assert!(has_elapsed(T0 + HOUR + 1, T0, 1));
    assert!(has_elapsed(T0, T0 - 1, 0));
    assert!(!has_elapsed(i64::MAX, i64::MAX, u32::MAX));
}

#[test]
fn expiry_needs_age_and_little_importance() {
    let rules = policy(48, 300_000, 100, false);
    let now = T0 + 100 * HOUR;
    let by_ttl = item("", "u", "s", "c", now - 2 * HOUR, 100_000, Some(1));
    assert!(should_expire(&by_ttl, &rules, now));
    let important = item("", "u", "s", "c", now - 2 * HOUR, 900_000, Some(1));
    assert!(!should_expire(&important, &rules, now));
    let at_threshold = item("", "u", "s", "c", now - 2 * HOUR, 300_000, Some(1));
    assert!(!should_expire(&at_threshold, &rules, now));
    let within_ttl = item("", "u", "s", "c", now - HOUR, 100_000, Some(1));
    assert!(!should_expire(&within_ttl, &rules, now));
    let long_ttl = item("", "u", "s", "c", now - 90 * HOUR, 100_000, Some(100));
    assert!(!should_expire(&long_ttl, &rules, now));
    let by_age = item("", "u", "s", "c", now - 49 * HOUR, 100_000, None);
    assert!(should_expire(&by_age, &rules, now));
    let at_max_age = item("", "u", "s", "c", now - 49 * HOUR + 1, 100_000, None);
    assert!(!should_expire(&at_max_age, &rules, now));
    let from_the_future = item("", "u", "s", "c", now + 500 * HOUR, 100_000, None);
    assert!(!should_expire(&from_the_future, &rules, now));
}

#[test]
fn expiry_scenario_takes_exactly_the_unimportant_records() {
    let now = T0 + 2 * HOUR;
    let mut storage = MemoryStorage::new("dir");
    storage.save(item("", "u", "s", "keep", T0, 900_000, Some(1))).unwrap();
    storage.save(item("", "u", "s", "drop one", T0, 100_000, Some(1))).unwrap();
    storage.save(item("", "u", "s", "drop two", T0, 100_000, Some(1))).unwrap();
    let mut engine = MemoryDecayEngine::new(storage, SessionManager::new());
    let stats = engine.run_decay_at(now).unwrap();
    assert_eq!(stats.memories_expired, 2);
    assert_eq!(stats.memories_compressed, 0);
    assert_eq!(stats.total_memories_before, 3);
    assert_eq!(stats.total_memories_after, 1);
    assert_eq!(stats.total_memories_after, stats.total_memories_before - 2);
    assert_eq!(stats.storage_saved_bytes, 0);
    assert_eq!(stats.last_decay_run, now);
    assert_eq!(*engine.get_stats(), stats);
    let left = engine.storage().recall(QueryFilter::all());
    assert_eq!(left.len(), 1);
    assert_eq!(left[0].content, "keep");
    assert_eq!(left[0].importance, 900_000);
}

#[test]
fn expiry_phase_alone() {
    let rules = policy(10, 500_000, 100, false);
    let now = T0 + 100 * HOUR;
    let mut storage = MemoryStorage::new("dir");
    storage.save(item("", "u", "s", "old low", now - 11 * HOUR, 100_000, None)).unwrap();
    storage.save(item("", "u", "s", "old high", now - 11 * HOUR, 500_000, None)).unwrap();
    storage.save(item("", "v", "s", "new low", now - 10 * HOUR, 100_000, None)).unwrap();
    storage.save(item("", "v", "s", "ttl low", now - HOUR - 1, 0, Some(1))).unwrap();
    assert_eq!(expire_old_memories(&mut storage, &rules, now), 2);
    assert_eq!(contents(&storage), vec!["old high", "new low"]);
    assert_eq!(expire_old_memories(&mut storage, &rules, now), 0);
}

#[test]
fn compressed_record_is_built_from_its_group() {
    let group = vec![
        item("c", "u", "s", "gamma three", T0 + 2 * HOUR, 100_000, None),
        item("b", "u", "s", "beta two", T0 + HOUR, 200_000, None),
        item("a", "u", "s", "alpha one", T0, 300_001, None),
    ];
    let compressed = create_compressed_memory(&group, T0 + 50 * HOUR).unwrap();
    assert_eq!(compressed.original_ids, vec!["c", "b", "a"]);
    assert_eq!(compressed.user_id, "u");
    assert_eq!(compressed.session_id, "s");
    assert_eq!(compressed.summary, "gamma three | beta two | alpha one");
    assert_eq!(compressed.key_points, vec!["gamma", "three", "beta", "alpha"]);
    assert_eq!(compressed.date_range, (T0, T0 + 2 * HOUR));
    assert_eq!(compressed.original_count, 3);
    assert_eq!(compressed.combined_importance, 200_000);
    assert_eq!(compressed.compressed_at, T0 + 50 * HOUR);
    let record = compressed.to_record();
    assert_eq!(record.id, "");
    assert_eq!(record.content, "gamma three | beta two | alpha one");
    assert_eq!(record.timestamp, T0 + 50 * HOUR);
    assert_eq!(record.ttl_hours, None);
    assert_eq!(record.importance, 200_000);
    assert_eq!(
        record.metadata,
        vec![
            ("compressed".to_string(), "true".to_string()),
            ("original_count".to_string(), "3".to_string()),
            ("original_ids".to_string(), "c,b,a".to_string()),
            ("key_points".to_string(), "gamma,three,beta,alpha".to_string()),
        ]
    );
    assert_eq!(create_compressed_memory(&Vec::new(), T0).err(), Some(StoreError::NotFound));
}

#[test]
fn long_summary_is_cut_and_marked() {
    let long = "x".repeat(100);
    let group = vec![
        item("1", "u", "s", &long, T0, 1, None),
        item("2", "u", "s", &long, T0, 1, None),
        item("3", "u", "s", &long, T0, 1, None),
    ];
    let compressed = create_compressed_memory(&group, T0).unwrap();
    let expected = format!("{} | {}... [+2 more memories]", long, "x".repeat(97));
    assert_eq!(compressed.summary, expected);
    assert_eq!(compressed.key_points, vec![long]);
}

#[test]
fn compression_replaces_a_group_of_three() {
    let rules = policy(48, 300_000, 100, true);
    let now = T0 + 100 * HOUR;
    assert!(is_compressible(&item("", "u", "s", "c", now - 24 * HOUR, 299_999, None), &rules, now));
    assert!(!is_compressible(&item("", "u", "s", "c", now - 24 * HOUR + 1, 299_999, None), &rules, now));
    assert!(!is_compressible(&item("", "u", "s", "c", now - 24 * HOUR, 300_000, None), &rules, now));

    let mut storage = MemoryStorage::new("dir");
    storage.save(item("a", "u", "s", "alpha one", now - 30 * HOUR, 100_000, None)).unwrap();
    storage.save(item("b", "u", "s", "beta two", now - 29 * HOUR, 100_000, None)).unwrap();
    storage.save(item("c", "u", "s", "gamma three", now - 28 * HOUR, 100_000, None)).unwrap();
    storage.save(item("d", "u", "s", "recent", now - HOUR, 100_000, None)).unwrap();
    storage.save(item("e", "u", "t", "alone", now - 30 * HOUR, 100_000, None)).unwrap();
    storage.save(item("f", "u", "s", "weighty", now - 30 * HOUR, 900_000, None)).unwrap();
    storage.save(item("g", "v", "s", "theirs one", now - 30 * HOUR, 100_000, None)).unwrap();
    storage.save(item("h", "v", "s", "theirs two", now - 30 * HOUR, 100_000, None)).unwrap();
    let log_len = storage.log_bytes().len();

    let mut engine = MemoryDecayEngine::with_policy(storage, SessionManager::new(), rules);
    let stats = engine.run_decay_at(now).unwrap();
    assert_eq!(stats.memories_expired, 0);
    assert_eq!(stats.memories_compressed, 3);
    assert_eq!(stats.sessions_summarized, 0);
    assert_eq!(stats.total_memories_before, 8);
    assert_eq!(stats.total_memories_after, 6);
    assert!(engine.storage().log_bytes().len() > log_len);

    let live = engine.storage().load_live();
    let names: Vec<&str> = live.iter().map(|m| m.content.as_str()).collect();
    assert_eq!(
        names,
        vec!["recent", "alone", "weighty", "theirs one", "theirs two", "gamma three | beta two | alpha one"]
    );
    let compressed = &live[5];
    assert_eq!(compressed.id.len(), 36);
    assert_eq!(compressed.user_id, "u");
    assert_eq!(compressed.session_id, "s");
    assert_eq!(compressed.timestamp, now);
    assert_eq!(compressed.ttl_hours, None);
    assert_eq!(compressed.importance, 100_000);
    assert_eq!(
        compressed.metadata,
        vec![
            ("compressed".to_string(), "true".to_string()),
            ("original_count".to_string(), "3".to_string()),
            ("original_ids".to_string(), "c,b,a".to_string()),
            ("key_points".to_string(), "gamma,three,beta,alpha".to_string()),
        ]
    );

    let again = engine.run_decay_at(now).unwrap();
    assert_eq!(again.memories_expired, 0);
    assert_eq!(again.memories_compressed, 0);
    assert_eq!(again.total_memories_before, 6);
    assert_eq!(again.total_memories_after, 6);
    let still: Vec<String> = engine.storage().load_live().into_iter().map(|m| m.id).collect();
    let before: Vec<String> = live.into_iter().map(|m| m.id).collect();
    assert_eq!(still, before);
}

#[test]
fn small_groups_and_groups_of_several_users_stay() {
    let rules = DecayPolicy::default();
    let now = T0 + 1000 * HOUR;
    let mut two = MemoryStorage::new("dir");
    two.save(item("", "u", "s", "one", now - 400 * HOUR, 100_000, None)).unwrap();
    two.save(item("", "u", "s", "two", now - 400 * HOUR, 100_000, None)).unwrap();
    let log_len = two.log_bytes().len();
    assert_eq!(compress_old_memories(&mut two, &rules, now), Ok(0));
    assert_eq!(contents(&two), vec!["one", "two"]);
    assert_eq!(two.log_bytes().len(), log_len);

    let mut mixed = MemoryStorage::new("dir");
    mixed.save(item("", "u1", "s", "one", now - 400 * HOUR, 100_000, None)).unwrap();
    mixed.save(item("", "u1", "s", "two", now - 400 * HOUR, 100_000, None)).unwrap();
    mixed.save(item("", "u2", "s", "three", now - 400 * HOUR, 100_000, None)).unwrap();
    assert_eq!(compress_old_memories(&mut mixed, &rules, now), Ok(0));
    assert_eq!(contents(&mixed), vec!["one", "two", "three"]);
}

#[test]
fn important_records_within_the_cap_are_left_alone() {
    let now = T0 + 5000 * HOUR;
    let mut storage = MemoryStorage::new("dir");
    for i in 0..5 {
        storage.save(item("", "u", "s", &format!("kept {}", i), T0, 300_000 + i, Some(1))).unwrap();
    }
    let log = storage.log_bytes().to_vec();
    let mut engine = MemoryDecayEngine::new(storage, SessionManager::new());
    let stats = engine.run_decay_at(now).unwrap();
    assert_eq!(stats.memories_expired, 0);
    assert_eq!(stats.memories_compressed, 0);
    assert_eq!(stats.total_memories_before, 5);
    assert_eq!(stats.total_memories_after, 5);
    assert_eq!(engine.storage().log_bytes(), &log[..]);
    assert_eq!(engine.storage().storage_path(), "dir/memories.bin");
    assert_eq!(engine.storage().index_path(), "dir/index");
    assert_eq!(contents(engine.storage()), vec!["kept 0", "kept 1", "kept 2", "kept 3", "kept 4"]);
}

#[test]
fn compression_phase_alone_and_switched_off() {
    let rules = policy(0, 300_000, 100, true);
    let now = T0;
    let mut storage = MemoryStorage::new("dir");
    for i in 0..4 {
        storage.save(item("", "u", "s", &format!("note {}", i), T0 - i, 0, None)).unwrap();
    }
    storage.save(item("", "u", "other", "single", T0, 0, None)).unwrap();
    assert_eq!(compress_old_memories(&mut storage, &rules, now), Ok(4));
    assert_eq!(contents(&storage), vec!["single", "note 0 | note 1 | note 2 | note 3"]);
    assert_eq!(compress_old_memories(&mut storage, &rules, now), Ok(0));
    assert_eq!(storage.live_count(), 2);

    let mut untouched = MemoryStorage::new("dir");
    for i in 0..4 {
        untouched.save(item("", "u", "s", &format!("note {}", i), T0 - 100 * HOUR, 0, Some(1_000_000))).unwrap();
    }
    let mut engine = MemoryDecayEngine::with_policy(untouched, SessionManager::new(), policy(0, 300_000, 100, false));
    let stats = engine.run_decay_at(now).unwrap();
    assert_eq!(stats.memories_compressed, 0);
    assert_eq!(stats.total_memories_after, 4);
}

#[test]
fn cap_takes_the_least_important_and_then_the_oldest() {
    let rules = policy(u32::MAX, 0, 2, true);
    let mut storage = MemoryStorage::new("dir");
    storage.save(item("", "u", "s", "A", T0 + 3, 500_000, None)).unwrap();
    storage.save(item("", "u", "s", "B", T0 + 2, 100_000, None)).unwrap();
    storage.save(item("", "v", "s", "V", T0 + 2, 0, None)).unwrap();
    storage.save(item("", "u", "s", "C", T0 + 1, 100_000, None)).unwrap();
    storage.save(item("", "u", "s", "D", T0, 900_000, None)).unwrap();

    let mut three = MemoryStorage::open("dir", storage.log_bytes().to_vec(), None);
    assert_eq!(enforce_memory_limits(&mut three, &policy(u32::MAX, 0, 3, true)), 1);
    assert_eq!(contents(&three), vec!["A", "B", "V", "D"]);

    let mut engine = MemoryDecayEngine::with_policy(storage, SessionManager::new(), rules);
    let stats = engine.run_decay_at(T0 + 10).unwrap();
    assert_eq!(stats.memories_expired, 2);
    assert_eq!(stats.memories_compressed, 0);
    assert_eq!(stats.total_memories_before, 5);
    assert_eq!(stats.total_memories_after, 3);
    assert_eq!(contents(engine.storage()), vec!["A", "V", "D"]);
    for (_, count) in engine.storage().get_stats() {
        assert!(count <= 2);
    }
    let again = engine.run_decay_at(T0 + 10).unwrap();
    assert_eq!(again.memories_expired, 0);
    assert_eq!(again.total_memories_after, again.total_memories_before);

    let mut none = MemoryStorage::open("dir", engine.storage().log_bytes().to_vec(), None);
    assert_eq!(enforce_memory_limits(&mut none, &policy(u32::MAX, 0, 0, true)), 5);
    assert_eq!(none.live_count(), 0);
}

#[test]
fn decay_never_grows_the_store() {
    let now = T0 + 1000 * HOUR;
    let mut storage = MemoryStorage::new("dir");
    for i in 0..40i64 {
        let user = format!("user{}", i % 3);
        let session = format!("session{}", i % 4);
        let ttl = if i % 5 == 0 { Some(10) } else { None };
        let importance = ((i % 10) * 100_000) as i32;
        storage.save(item("", &user, &session, &format!("Decay test memory {}", i), now - i * 30 * HOUR, importance, ttl)).unwrap();
    }
    let rules = DecayPolicy { max_memories_per_user: 5, auto_summarize_sessions: true, ..policy(500, 450_000, 5, true) };
    let mut engine = MemoryDecayEngine::with_policy(storage, SessionManager::new(), rules);
    let stats = engine.run_decay_at(now).unwrap();
    assert_eq!(stats.total_memories_before, 40);
    assert!(stats.total_memories_after <= stats.total_memories_before);
    assert_eq!(stats.total_memories_after, engine.storage().live_count());
    for (_, count) in engine.storage().get_stats() {
        assert!(count <= 5);
    }
    let again = engine.run_decay_at(now).unwrap();
    assert_eq!(again.memories_expired, 0);
    assert_eq!(again.memories_compressed, 0);
    assert_eq!(again.total_memories_before, stats.total_memories_after);
    assert_eq!(again.total_memories_after, stats.total_memories_after);
}

#[test]
fn test_memory_decay_integration() {
    let now = chrono::Utc::now().timestamp_millis();
    let mut storage = MemoryStorage::new("dir");
    storage.save(item("", "decay_test_user", "s", "High importance memory", now, 900_000, Some(48))).unwrap();
    storage.save(item("", "decay_test_user", "s", "Low importance memory", now, 100_000, Some(1))).unwrap();
    storage.save(item("", "decay_test_user", "s", "Medium importance memory", now, 500_000, None)).unwrap();
    let before_decay = storage.get_session_memories("decay_test_user", "s");
    assert_eq!(before_decay.len(), 3);

    let mut engine = MemoryDecayEngine::new(storage, SessionManager::new());
    let decay_stats = engine.run_decay().unwrap();
    assert_eq!(decay_stats.total_memories_before, 3);
    assert_eq!(decay_stats.total_memories_after, 3);
    assert_eq!(decay_stats.memories_expired, 0);
    assert!(decay_stats.last_decay_run >= now);
}

#[test]
fn test_configuration_updates() {
    let mut storage = MemoryStorage::new("dir");
    storage.save(item("", "config_test_user", "s", "High importance", T0, 800_000, Some(1))).unwrap();
    storage.save(item("", "config_test_user", "s", "Low importance", T0, 300_000, Some(1))).unwrap();
    let mut engine = MemoryDecayEngine::new(storage, SessionManager::new());
    let first = engine.run_decay_at(T0 + 12 * HOUR).unwrap();
    assert_eq!(first.memories_expired, 0);
    engine.update_policy(DecayPolicy {
        max_age_hours: 12,
        importance_threshold: 500_000,
        max_memories_per_user: 500,
        compression_enabled: false,
        auto_summarize_sessions: false,
    });
    assert_eq!(engine.policy().importance_threshold, 500_000);
    assert_eq!(*engine.get_stats(), first);
    let second = engine.run_decay_at(T0 + 12 * HOUR).unwrap();
    assert_eq!(second.memories_expired, 1);
    assert_eq!(second.total_memories_before, 2);
    assert_eq!(second.total_memories_after, 1);
    assert_eq!(contents(engine.storage()), vec!["High importance"]);
}

#[test]
fn stale_sessions_are_counted() {
    let now = T0 + 30 * DAY;
    assert!(is_stale(now - 7 * DAY - 1, 6, now));
    assert!(!is_stale(now - 7 * DAY, 6, now));
    assert!(!is_stale(now - 7 * DAY - 1, 5, now));

    let mut storage = MemoryStorage::new("dir");
    for i in 0..6 {
        storage.save(item("", "u", "stale", &format!("old note {}", i), now - 8 * DAY - i, 900_000, None)).unwrap();
    }
    for i in 0..5 {
        storage.save(item("", "u", "small", &format!("few {}", i), now - 9 * DAY, 900_000, None)).unwrap();
    }
    for i in 0..7 {
        storage.save(item("", "v", "active", &format!("new {}", i), now - DAY, 900_000, None)).unwrap();
    }
    for i in 0..6 {
        storage.save(item("", "v", "theirs", &format!("old {}", i), now - 10 * DAY, 900_000, None)).unwrap();
    }
    let mut manager = SessionManager::new();
    assert_eq!(summarize_old_sessions(&storage, &mut manager, now), 2);
    assert_eq!(manager.get_session_stats(), vec![("total_sessions".to_string(), 0)]);

    let rules = DecayPolicy { auto_summarize_sessions: true, ..policy(u32::MAX, 0, 100, false) };
    let mut engine = MemoryDecayEngine::with_policy(storage, SessionManager::new(), rules);
    let stats = engine.run_decay_at(now).unwrap();
    assert_eq!(stats.sessions_summarized, 2);
    assert_eq!(stats.total_memories_after, 24);
    assert_eq!(engine.session_manager().get_session_stats().len(), 1);
}

#[test]
fn age_distribution_counts_each_bracket() {
    let now = T0 + 5000 * HOUR;
    let ages = [1, 24, 25, 168, 169, 720, 721, 2161];
    let mut items: Vec<MemoryItem> = ages
        .iter()
        .map(|h| item("", "u", "s", "c", now - h * HOUR, 1, None))
        .collect();
    items.push(item("", "u", "s", "c", now + HOUR / 2, 1, None));
    items.push(item("", "u", "s", "c", now + 2 * HOUR, 1, None));
    assert_eq!(
        age_distribution(&items, now),
        vec![
            ("0-24h".to_string(), 3),
            ("1-7d".to_string(), 2),
            ("1-4w".to_string(), 2),
            ("1-3m".to_string(), 1),
            ("3m+".to_string(), 2),
        ]
    );
    assert_eq!(bracket_of(now - 2160 * HOUR, now), 3);
    assert_eq!(bracket_of(now, now), 0);
    assert!(age_distribution(&Vec::new(), now).is_empty());
    let only_old = vec![item("", "u", "s", "c", now - 3000 * HOUR, 1, None)];
    assert_eq!(age_distribution(&only_old, now), vec![("3m+".to_string(), 1)]);

    let mut storage = MemoryStorage::new("dir");
    storage.save(item("", "u", "s", "c", T0, 1, None)).unwrap();
    let engine = MemoryDecayEngine::new(storage, SessionManager::new());
    assert_eq!(engine.analyze_memory_age_distribution(), vec![("3m+".to_string(), 1)]);
}

#[test]
fn engine_saves_into_its_store_and_gives_it_back() {
    let mut engine = MemoryDecayEngine::new(MemoryStorage::new("dir"), SessionManager::new());
    let id = engine.save(item("", "u", "s", "hello", T0, 2_000_000, None)).unwrap();
    assert_eq!(engine.save(item("", "", "s", "hello", T0, 1, None)), Err(StoreError::EmptyUser));
    let (storage, manager) = engine.into_parts();
    let live = storage.load_live();
    assert_eq!(live.len(), 1);
    assert_eq!(live[0].id, id);
    assert_eq!(live[0].importance, 1_000_000);
    assert_eq!(manager.get_session_stats(), vec![("total_sessions".to_string(), 0)]);
}
