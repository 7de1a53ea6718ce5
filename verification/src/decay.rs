//! The decay engine: a maintenance pass that expires records by age, compresses
//! groups of old records of little importance, counts the sessions that are
//! due for a summary, and holds every user to a cap.

use crate::ages::{age_distribution, age_rows, BRACKETS};
use crate::cap::{capped, count_of_user, enforce_memory_limits, lemma_capped_within_cap};
use crate::compress::{compress_old_memories, compresses_to, compression_failed, frames_of, stays};
use crate::laws::law_compression_never_grows;
use crate::record::{views, ItemView, MemoryItem, StoreError};
use crate::session::{SessionManager, SessionView};
use crate::stale::{saturated, summarize_old_sessions, summary_round};
use crate::storage::{lemma_unmarked_is_filter, saved, users_of, MemoryStorage};
use crate::text::distinct;
use crate::time::{age_hours, current_millis, elapsed, has_elapsed, hours_between};
use vstd::prelude::*;
use vstd::string::*;

verus! {

/// The rules of a decay run.
#[derive(Clone, Copy, Debug, PartialEq, Eq, Structural)]
pub struct DecayPolicy {
    /// Age in hours beyond which a record without a TTL of its own is past its
    /// time.
    pub max_age_hours: u32,
    /// Importance, in millionths, from which on a record is exempt from expiry
    /// and compression.
    pub importance_threshold: i32,
    /// The most live records that a user keeps.
    pub max_memories_per_user: usize,
    pub compression_enabled: bool,
    pub auto_summarize_sessions: bool,
}

/// The default policy: thirty days, a threshold of 0.3, ten thousand records a
/// user, both optional phases switched on.
pub open spec fn default_policy() -> DecayPolicy {
    DecayPolicy {
        max_age_hours: 720,
        importance_threshold: 300_000,
        max_memories_per_user: 10000,
        compression_enabled: true,
        auto_summarize_sessions: true,
    }
}

impl Default for DecayPolicy {
    fn default() -> (policy: Self)
        ensures
            policy == default_policy(),
    {
        DecayPolicy {
            max_age_hours: 720,
            importance_threshold: 300_000,
            max_memories_per_user: 10000,
            compression_enabled: true,
            auto_summarize_sessions: true,
        }
    }
}

/// The counters of one decay run.
#[derive(Clone, Copy, Debug, PartialEq, Eq, Structural)]
pub struct DecayStats {
    /// Records tombstoned for their age or to hold a user to the cap.
    pub memories_expired: usize,
    /// Records tombstoned because a compressed record took their place.
    pub memories_compressed: usize,
    pub sessions_summarized: usize,
    pub total_memories_before: usize,
    pub total_memories_after: usize,
    /// Bytes that the run gave back. A run tombstones and never rewrites the
    /// log, so this is 0.
    pub storage_saved_bytes: usize,
    /// Instant at which the run started.
    pub last_decay_run: i64,
}

/// True when the record's time is over: its own TTL has run out, or, without a
/// TTL, it is older than the policy allows.
pub open spec fn past_its_time(m: ItemView, policy: DecayPolicy, now: i64) -> bool {
    match m.ttl_hours {
        Some(ttl) => elapsed(now as int, m.timestamp as int, ttl as int),
        None => age_hours(now as int, m.timestamp as int) > policy.max_age_hours,
    }
}

/// True when the expiry phase tombstones the record: its time is over and its
/// importance is below the threshold.
pub open spec fn expires(m: ItemView, policy: DecayPolicy, now: i64) -> bool {
    past_its_time(m, policy, now) && m.importance < policy.importance_threshold
}

/// Selects the records that the expiry phase leaves.
pub open spec fn outlives(policy: DecayPolicy, now: i64) -> spec_fn(ItemView) -> bool {
    |m: ItemView| !expires(m, policy, now)
}

/// The live records after the expiry phase.
pub open spec fn after_expiry(live: Seq<ItemView>, policy: DecayPolicy, now: i64) -> Seq<
    ItemView,
> {
    live.filter(outlives(policy, now))
}

/// Decides whether the expiry phase tombstones a record.
pub fn should_expire(memory: &MemoryItem, policy: &DecayPolicy, now: i64) -> (due: bool)
    ensures
        due == expires(memory@, *policy, now),
{
    let past = match memory.ttl_hours {
        Some(ttl) => has_elapsed(now, memory.timestamp, ttl),
        None => hours_between(now, memory.timestamp) > policy.max_age_hours as i64,
    };
    past && memory.importance < policy.importance_threshold
}

/// The expiry phase: tombstones every live record whose time is over and whose
/// importance is below the threshold, and returns their number.
pub fn expire_old_memories(storage: &mut MemoryStorage, policy: &DecayPolicy, now: i64) -> (expired:
    usize)
    ensures
        final(storage).live() == after_expiry(old(storage).live(), *policy, now),
        final(storage).log_view() == old(storage).log_view(),
        final(storage).storage_path_view() == old(storage).storage_path_view(),
        final(storage).index_path_view() == old(storage).index_path_view(),
        expired + final(storage).live().len() == old(storage).live().len(),
{
    let items = storage.load_live();
    let ghost live = storage.live();
    let mut marks: Vec<bool> = Vec::new();
    let mut i: usize = 0;
    while i < items.len()
        invariant
            i <= items.len(),
            views(items@) == live,
            marks.len() == i,
            forall|j: int| 0 <= j < i ==> marks[j] == !outlives(*policy, now)(#[trigger] live[j]),
        decreases items.len() - i,
    {
        assert(live[i as int] == items[i as int]@);
        marks.push(should_expire(&items[i], policy, now));
        i += 1;
    }
    proof {
        lemma_unmarked_is_filter(live, marks@, outlives(*policy, now));
    }
    storage.tombstone_marked(&marks)
}

/// How one decay run moves the live records: from `before` through the expiry
/// phase, through the compression phase to `between` if the policy enables
/// it, and through the cap phase to `after`.
pub open spec fn decays_through(
    before: Seq<ItemView>,
    policy: DecayPolicy,
    now: i64,
    between: Seq<ItemView>,
    after: Seq<ItemView>,
) -> bool {
    &&& if policy.compression_enabled {
        compresses_to(after_expiry(before, policy, now), policy, now, between)
    } else {
        between == after_expiry(before, policy, now)
    }
    &&& after == capped(between, policy.max_memories_per_user)
}

/// What the summary phase counted, given the live records `between` that it
/// found.
pub open spec fn summaries_counted(
    between: Seq<ItemView>,
    policy: DecayPolicy,
    now: i64,
    stats: DecayStats,
    cache: Seq<SessionView>,
) -> bool {
    stats.sessions_summarized == if policy.auto_summarize_sessions {
        saturated(summary_round(cache, between, distinct(users_of(between)), now))
    } else {
        0
    }
}

/// How a decay run moves the log: it grows by the frames of the compressed
/// records that the compression phase appended, and by nothing else.
pub open spec fn log_through(
    before: Seq<ItemView>,
    policy: DecayPolicy,
    now: i64,
    between: Seq<ItemView>,
    log_before: Seq<u8>,
    log_after: Seq<u8>,
) -> bool {
    let kept = after_expiry(before, policy, now);
    if policy.compression_enabled {
        log_after == log_before + frames_of(
            between.skip(kept.filter(stays(kept, policy, now)).len() as int),
        )
    } else {
        log_after == log_before
    }
}

/// What a completed decay run leaves: live records that the phases made of the
/// records `before`, a log that grew by the compressed records, and counters
/// that say what the phases did. The run never leaves more live records than
/// it found, and it leaves no user above the cap.
pub open spec fn decay_run(
    before: Seq<ItemView>,
    policy: DecayPolicy,
    now: i64,
    after: Seq<ItemView>,
    stats: DecayStats,
    cache: Seq<SessionView>,
    log_before: Seq<u8>,
    log_after: Seq<u8>,
) -> bool {
    let kept = after_expiry(before, policy, now);
    &&& exists|between: Seq<ItemView>| #[trigger]
        decays_through(before, policy, now, between, after) && stats.memories_expired == (
        before.len() - kept.len()) + (between.len() - after.len()) && summaries_counted(
            between,
            policy,
            now,
            stats,
            cache,
        ) && log_through(before, policy, now, between, log_before, log_after)
    &&& stats.memories_compressed == if policy.compression_enabled {
        kept.len() - kept.filter(stays(kept, policy, now)).len()
    } else {
        0
    }
    &&& stats.total_memories_before == before.len()
    &&& stats.total_memories_after == after.len()
    &&& stats.total_memories_after <= stats.total_memories_before
    &&& forall|user: Seq<char>| #[trigger]
        count_of_user(after, user) <= policy.max_memories_per_user
    &&& stats.storage_saved_bytes == 0
    &&& stats.last_decay_run == now
}

/// How a decay run ends where it fails: the policy compresses, the expiry
/// phase has run, and the compression phase ended on a compressed record that
/// the store refused. No record that outlived the expiry phase is lost.
pub open spec fn decay_failed(
    before: Seq<ItemView>,
    policy: DecayPolicy,
    now: i64,
    after: Seq<ItemView>,
    log_before: Seq<u8>,
    log_after: Seq<u8>,
) -> bool {
    let kept = after_expiry(before, policy, now);
    &&& policy.compression_enabled
    &&& compression_failed(kept, policy, now, after, log_after.len() as int)
    &&& log_after == log_before + frames_of(after.skip(kept.len() as int))
}

/// What a decay run at the instant `now` makes of an engine. The policy, the
/// paths and what the session manager remembers stay as they were. A run that
/// completes keeps its counters; a run that fails keeps the old ones.
pub open spec fn decay_outcome(
    before: MemoryDecayEngine,
    now: i64,
    res: Result<DecayStats, StoreError>,
    after: MemoryDecayEngine,
) -> bool {
    &&& after.policy_view() == before.policy_view()
    &&& after.sessions_view().cached() == before.sessions_view().cached()
    &&& after.storage_view().storage_path_view() == before.storage_view().storage_path_view()
    &&& after.storage_view().index_path_view() == before.storage_view().index_path_view()
    &&& match res {
        Ok(stats) => {
            &&& after.stats_view() == stats
            &&& decay_run(
                before.storage_view().live(),
                before.policy_view(),
                now,
                after.storage_view().live(),
                stats,
                before.sessions_view().cached(),
                before.storage_view().log_view(),
                after.storage_view().log_view(),
            )
        },
        Err(e) => {
            &&& e == StoreError::StoreIO
            &&& after.stats_view() == before.stats_view()
            &&& decay_failed(
                before.storage_view().live(),
                before.policy_view(),
                now,
                after.storage_view().live(),
                before.storage_view().log_view(),
                after.storage_view().log_view(),
            )
        },
    }
}

/// The decay engine. It owns the store that it maintains and the session
/// manager through which it looks at sessions.
pub struct MemoryDecayEngine {
    storage: MemoryStorage,
    session_manager: SessionManager,
    policy: DecayPolicy,
    stats: DecayStats,
}

impl MemoryDecayEngine {
    /// The store.
    pub closed spec fn storage_view(&self) -> MemoryStorage {
        self.storage
    }

    /// The session manager.
    pub closed spec fn sessions_view(&self) -> SessionManager {
        self.session_manager
    }

    /// The policy that the next run follows.
    pub closed spec fn policy_view(&self) -> DecayPolicy {
        self.policy
    }

    /// The counters of the most recent run.
    pub closed spec fn stats_view(&self) -> DecayStats {
        self.stats
    }

    /// An engine under the default policy that has not run yet.
    pub fn new(storage: MemoryStorage, session_manager: SessionManager) -> (engine: Self)
        ensures
            engine.storage_view() == storage,
            engine.sessions_view() == session_manager,
            engine.policy_view() == default_policy(),
            engine.stats_view().memories_expired == 0,
            engine.stats_view().memories_compressed == 0,
            engine.stats_view().sessions_summarized == 0,
            engine.stats_view().total_memories_before == 0,
            engine.stats_view().total_memories_after == 0,
            engine.stats_view().storage_saved_bytes == 0,
    {
        MemoryDecayEngine {
            storage,
            session_manager,
            policy: DecayPolicy::default(),
            stats: DecayStats {
                memories_expired: 0,
                memories_compressed: 0,
                sessions_summarized: 0,
                total_memories_before: 0,
                total_memories_after: 0,
                storage_saved_bytes: 0,
                last_decay_run: current_millis(),
            },
        }
    }

    /// An engine under the given policy that has not run yet.
    pub fn with_policy(
        storage: MemoryStorage,
        session_manager: SessionManager,
        policy: DecayPolicy,
    ) -> (engine: Self)
        ensures
            engine.storage_view() == storage,
            engine.sessions_view() == session_manager,
            engine.policy_view() == policy,
            engine.stats_view().memories_expired == 0,
            engine.stats_view().memories_compressed == 0,
            engine.stats_view().sessions_summarized == 0,
            engine.stats_view().total_memories_before == 0,
            engine.stats_view().total_memories_after == 0,
            engine.stats_view().storage_saved_bytes == 0,
    {
        let mut engine = Self::new(storage, session_manager);
        engine.policy = policy;
        engine
    }

    /// The store.
    pub fn storage(&self) -> (storage: &MemoryStorage)
        ensures
            *storage == self.storage_view(),
    {
        &self.storage
    }

    /// The session manager.
    pub fn session_manager(&self) -> (manager: &SessionManager)
        ensures
            *manager == self.sessions_view(),
    {
        &self.session_manager
    }

    /// The policy that the next run follows.
    pub fn policy(&self) -> (policy: &DecayPolicy)
        ensures
            *policy == self.policy_view(),
    {
        &self.policy
    }

    /// Gives the store and the session manager back.
    pub fn into_parts(self) -> (parts: (MemoryStorage, SessionManager))
        ensures
            parts.0 == self.storage_view(),
            parts.1 == self.sessions_view(),
    {
        (self.storage, self.session_manager)
    }

    /// The counters of the most recent run.
    pub fn get_stats(&self) -> (stats: &DecayStats)
        ensures
            *stats == self.stats_view(),
    {
        &self.stats
    }

    /// Replaces the policy. The next run follows the new one.
    pub fn update_policy(&mut self, policy: DecayPolicy)
        ensures
            final(self).policy_view() == policy,
            final(self).storage_view() == old(self).storage_view(),
            final(self).sessions_view() == old(self).sessions_view(),
            final(self).stats_view() == old(self).stats_view(),
    {
        self.policy = policy;
    }

    /// Stores a record in the engine's store, as [`MemoryStorage::save`] does.
    pub fn save(&mut self, memory: MemoryItem) -> (res: Result<String, StoreError>)
        ensures
            final(self).policy_view() == old(self).policy_view(),
            final(self).stats_view() == old(self).stats_view(),
            final(self).sessions_view() == old(self).sessions_view(),
            saved(old(self).storage_view(), memory@, res, final(self).storage_view()),
    {
        self.storage.save(memory)
    }

    /// How many live records fall into each age bracket as of the present
    /// instant. See [`age_distribution`].
    pub fn analyze_memory_age_distribution(&self) -> (rows: Vec<(String, usize)>)
        ensures
            exists|now: i64|
                rows.deep_view() == #[trigger] age_rows(
                    self.storage_view().live(),
                    now,
                    BRACKETS as int,
                ),
    {
        let now = current_millis();
        let items = self.storage.load_live();
        let rows = age_distribution(&items, now);
        assert(rows.deep_view() == age_rows(self.storage_view().live(), now, BRACKETS as int));
        rows
    }

    /// Runs the four phases as of the instant `now` and returns the run's
    /// counters, which the engine keeps. The run fails only where the policy
    /// compresses and the store refuses a compressed record; it then ends
    /// early, with the store's error, and no live record is lost.
    pub fn run_decay_at(&mut self, now: i64) -> (res: Result<DecayStats, StoreError>)
        ensures
            decay_outcome(*old(self), now, res, *final(self)),
    {
        let ghost start = self.storage.live();
        let ghost start_log = self.storage.log_view();
        let ghost policy = self.policy;
        let ghost cache = self.session_manager.cached();
        let before = self.storage.live_count();
        let expired = expire_old_memories(&mut self.storage, &self.policy, now);
        let ghost kept = self.storage.live();
        let mut compressed: usize = 0;
        if self.policy.compression_enabled {
            match compress_old_memories(&mut self.storage, &self.policy, now) {
                Ok(replaced) => {
                    compressed = replaced;
                },
                Err(e) => {
                    proof {
                        assert(decay_failed(
                            start,
                            policy,
                            now,
                            self.storage.live(),
                            start_log,
                            self.storage.log_view(),
                        ));
                    }
                    return Err(e);
                },
            }
        }
        let ghost between = self.storage.live();
        let ghost grown_log = self.storage.log_view();
        let mut summarized: usize = 0;
        if self.policy.auto_summarize_sessions {
            summarized = summarize_old_sessions(&self.storage, &mut self.session_manager, now);
        }
        let limited = enforce_memory_limits(&mut self.storage, &self.policy);
        let after = self.storage.live_count();
        proof {
            let last = self.storage.live();
            assert(kept == after_expiry(start, policy, now));
            if policy.compression_enabled {
                law_compression_never_grows(kept, policy, now, between);
            }
            assert(between.len() <= kept.len());
            assert(expired == start.len() - kept.len());
            assert(limited == between.len() - last.len());
            assert(decays_through(start, policy, now, between, last));
            assert(log_through(start, policy, now, between, start_log, grown_log));
            assert forall|user: Seq<char>| #[trigger]
                count_of_user(last, user) <= policy.max_memories_per_user by {
                lemma_capped_within_cap(between, policy.max_memories_per_user, user);
            }
            assert(compressed == if policy.compression_enabled {
                kept.len() - kept.filter(stays(kept, policy, now)).len()
            } else {
                0
            });
        }
        let stats = DecayStats {
            memories_expired: expired + limited,
            memories_compressed: compressed,
            sessions_summarized: summarized,
            total_memories_before: before,
            total_memories_after: after,
            storage_saved_bytes: 0,
            last_decay_run: now,
        };
        proof {
            let last = self.storage.live();
            assert(decays_through(start, policy, now, between, last) && stats.memories_expired
                == (start.len() - kept.len()) + (between.len() - last.len())
                && summaries_counted(between, policy, now, stats, cache) && log_through(
                start,
                policy,
                now,
                between,
                start_log,
                self.storage.log_view(),
            ));
            assert(decay_run(
                start,
                policy,
                now,
                last,
                stats,
                cache,
                start_log,
                self.storage.log_view(),
            ));
        }
        self.stats = stats;
        Ok(stats)
    }

    /// Runs the four phases as of the present instant. What it does is what
    /// [`MemoryDecayEngine::run_decay_at`] does at that instant.
    pub fn run_decay(&mut self) -> (res: Result<DecayStats, StoreError>)
        ensures
            exists|now: i64| #[trigger] decay_outcome(*old(self), now, res, *final(self)),
    {
        let now = current_millis();
        let res = self.run_decay_at(now);
        assert(decay_outcome(*old(self), now, res, *self));
        res
    }
}

} // verus!
