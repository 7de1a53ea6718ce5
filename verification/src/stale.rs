//! The summary phase of a decay run: a summary is made of every session that has
//! been idle for more than seven days and holds more than five records.

use crate::record::ItemView;
use crate::session::{
    members_of, most_active_first, named_all, session_views, sessions_of, user_records,
    SessionManager, SessionView,
};
use crate::storage::{users_of, MemoryStorage};
use crate::text::{distinct, is_tally};
use crate::time::MILLIS_PER_DAY;
use vstd::prelude::*;
use vstd::string::*;

verus! {

/// Days without activity after which a session is due for a summary.
pub const STALE_DAYS: i64 = 7;

/// Records that a session must exceed to be due for a summary.
pub const SUBSTANTIAL_COUNT: usize = 5;

/// True when the session has been idle for more than seven days and holds
/// more than five records.
pub open spec fn stale(s: SessionView, now: i64) -> bool {
    &&& s.last_active < now - STALE_DAYS * (MILLIS_PER_DAY as int)
    &&& s.memory_count > SUBSTANTIAL_COUNT
}

/// Selects the sessions of a user of which the summary phase makes a
/// summary: the stale ones in which the user has a live record.
pub open spec fn due(live: Seq<ItemView>, user: Seq<char>, now: i64) -> spec_fn(
    SessionView,
) -> bool {
    |s: SessionView| stale(s, now) && members_of(live, user, s.id).len() > 0
}

/// The sessions of one user, as the summary phase sees them.
pub open spec fn sessions_seen(
    cache: Seq<SessionView>,
    live: Seq<ItemView>,
    user: Seq<char>,
) -> Seq<SessionView> {
    most_active_first(named_all(cache, sessions_of(user_records(live, user))))
}

/// The number of summaries that the summary phase makes for the users.
pub open spec fn summary_round(
    cache: Seq<SessionView>,
    live: Seq<ItemView>,
    users: Seq<Seq<char>>,
    now: i64,
) -> nat
    decreases users.len(),
{
    if users.len() == 0 {
        0
    } else {
        summary_round(cache, live, users.drop_last(), now) + sessions_seen(
            cache,
            live,
            users.last(),
        ).filter(due(live, users.last(), now)).len()
    }
}

/// A count as a machine integer holds it: itself, or the largest integer
/// where it is larger.
pub open spec fn saturated(n: nat) -> usize {
    if n > usize::MAX {
        usize::MAX
    } else {
        n as usize
    }
}

/// Decides [`stale`].
pub fn is_stale(last_active: i64, memory_count: usize, now: i64) -> (idle: bool)
    ensures
        idle == (last_active < now - STALE_DAYS * (MILLIS_PER_DAY as int) && memory_count
            > SUBSTANTIAL_COUNT),
{
    let cutoff: i128 = now as i128 - 604_800_000;
    (last_active as i128) < cutoff && memory_count > SUBSTANTIAL_COUNT
}

/// The summary phase: makes a summary of every stale session of every user
/// and returns how many it made. The summaries are not kept, and what the
/// session manager remembers stays as it is.
pub fn summarize_old_sessions(
    storage: &MemoryStorage,
    sessions: &mut SessionManager,
    now: i64,
) -> (summarized: usize)
    ensures
        summarized == saturated(
            summary_round(
                old(sessions).cached(),
                storage.live(),
                distinct(users_of(storage.live())),
                now,
            ),
        ),
        final(sessions).cached() == old(sessions).cached(),
{
    let stats = storage.get_stats();
    let ghost live = storage.live();
    let ghost users = distinct(users_of(live));
    let ghost cache = sessions.cached();
    let mut summarized: usize = 0;
    let mut u: usize = 0;
    while u < stats.len()
        invariant
            u <= stats.len(),
            live == storage.live(),
            users == distinct(users_of(live)),
            is_tally(stats.deep_view(), users_of(live)),
            sessions.cached() == cache,
            summarized == saturated(summary_round(cache, live, users.take(u as int), now)),
        decreases stats.len() - u,
    {
        let user = stats[u].0.as_str();
        proof {
            assert(stats.deep_view()[u as int] == (stats[u as int].0@, stats[u as int].1));
            assert(users[u as int] == user@);
            assert(users.take(u + 1).drop_last() =~= users.take(u as int));
            assert(users.take(u + 1).last() == user@);
        }
        let ghost base = summary_round(cache, live, users.take(u as int), now);
        let found = sessions.get_user_sessions(storage, user);
        let ghost seen = session_views(found@);
        let mut k: usize = 0;
        proof {
            seen.take(0).lemma_filter_len(due(live, user@, now));
        }
        while k < found.len()
            invariant
                k <= found.len(),
                live == storage.live(),
                sessions.cached() == cache,
                seen == session_views(found@),
                summarized == saturated(
                    base + seen.take(k as int).filter(due(live, user@, now)).len(),
                ),
            decreases found.len() - k,
        {
            let session = &found[k];
            proof {
                assert(seen[k as int] == session@);
                assert(seen.take(k + 1) =~= seen.take(k as int).push(session@));
                seen.take(k as int).lemma_filter_push(session@, due(live, user@, now));
            }
            if is_stale(session.last_active, session.memory_count, now) {
                match sessions.generate_user_session_summary(storage, user, session.id.as_str()) {
                    Ok(_) => {
                        summarized = summarized.saturating_add(1);
                    },
                    Err(_) => {},
                }
            }
            k += 1;
        }
        assert(seen.take(k as int) =~= seen);
        u += 1;
    }
    assert(users.take(u as int) =~= users);
    summarized
}

} // verus!
