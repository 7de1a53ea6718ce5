//! What holds of the store, the query engine and the decay engine for every
//! input, stated over the same functions as their contracts.

use crate::cap::{count_of_user, lemma_capped_within_cap};
use crate::compress::{compresses_to, is_compressed, lemma_leaders_are_marked, stays};
use crate::decay::{after_expiry, decays_through, outlives, DecayPolicy};
use crate::index::{
    digit_value, digits_value, index_matches_log, lemma_scan_finds_tiles, parsed_number, tiles,
};
use crate::query::{
    age_keys, dates_ok, importance_ok, keywords_ok, lemma_filter_members,
    lemma_newest_first_contains, lemma_newest_first_is_ranked, lemma_push_contains,
    lemma_recall_members, matching, newest_first, passes, recall_result, session_ok, user_ok,
};
use crate::rank::{descending_order, lemma_descending_order};
use crate::record::{stamped, FilterView, IMPORTANCE_ONE, ItemView};
use crate::session::{
    activity_keys, in_session, lemma_hit_is_a_member, members_of, most_active_first, named,
    search_filter, session_among, session_view, sessions_named, sessions_under, user_filter,
    user_records, SessionView,
};
use crate::storage::{lemma_unmarked_is_filter, lemma_unmarked_len, recovered};
use crate::summary::{earliest, latest};
use crate::text::{decimal, digit_char, distinct};
use vstd::prelude::*;

verus! {

/// True when a limit leaves a result of `count` records whole.
pub open spec fn spares(limit: Option<usize>, count: nat) -> bool {
    match limit {
        Some(n) => n >= count,
        None => true,
    }
}

/// Round trip. After a record has been saved under an id, a query whose
/// filter the stored record passes, and whose limit leaves the result whole,
/// returns a record with the content, user, session and metadata that were
/// saved, and with an importance between 0 and 1.
pub proof fn law_saved_record_is_recalled(
    live: Seq<ItemView>,
    saved: ItemView,
    id: Seq<char>,
    f: FilterView,
)
    requires
        passes(stamped(saved, id), f),
        spares(f.limit, live.push(stamped(saved, id)).filter(matching(f)).len()),
    ensures
        exists|k: int|
            0 <= k < recall_result(live.push(stamped(saved, id)), f).len() && {
                let found = #[trigger] recall_result(live.push(stamped(saved, id)), f)[k];
                &&& found.content == saved.content
                &&& found.user_id == saved.user_id
                &&& found.session_id == saved.session_id
                &&& found.metadata == saved.metadata
                &&& found.id == id
                &&& 0 <= found.importance <= IMPORTANCE_ONE
            },
{
    let stored = stamped(saved, id);
    let after = live.push(stored);
    let hits = after.filter(matching(f));
    lemma_push_contains(live, stored, stored);
    lemma_filter_members(after, matching(f), stored);
    lemma_newest_first_contains(hits, stored);
    let result = recall_result(after, f);
    assert(result == newest_first(hits));
    let k = choose|k: int| 0 <= k < result.len() && result[k] == stored;
    assert(result[k] == stored);
}

/// Isolation. A query for one user returns records of that user only.
pub proof fn law_recall_keeps_to_the_user(
    live: Seq<ItemView>,
    f: FilterView,
    user: Seq<char>,
    k: int,
)
    requires
        f.user_id == Some(user),
        0 <= k < recall_result(live, f).len(),
    ensures
        recall_result(live, f)[k].user_id == user,
{
    let found = recall_result(live, f)[k];
    assert(recall_result(live, f).contains(found));
    lemma_recall_members(live, f, found);
}

/// Filter conjunction. What a query returns are live records that pass each
/// predicate of the filter; without a limit it returns every such record.
pub proof fn law_recall_is_the_conjunction(live: Seq<ItemView>, f: FilterView, m: ItemView)
    ensures
        recall_result(live, f).contains(m) ==> live.contains(m) && user_ok(m, f) && session_ok(
            m,
            f,
        ) && dates_ok(m, f) && importance_ok(m, f) && keywords_ok(m, f),
        f.limit is None && live.contains(m) && user_ok(m, f) && session_ok(m, f) && dates_ok(m, f)
            && importance_ok(m, f) && keywords_ok(m, f) ==> recall_result(live, f).contains(m),
{
    lemma_recall_members(live, f, m);
}

/// Ordering. A query returns its records from the newest to the oldest, and
/// records of one instant in the order in which they were appended: of two
/// records that it returns, the earlier one is newer, or as old and appended
/// earlier.
pub proof fn law_recall_is_newest_first(live: Seq<ItemView>, f: FilterView, a: int, b: int)
    requires
        0 <= a < b < recall_result(live, f).len(),
    ensures
        ({
            let hits = live.filter(matching(f));
            let order = descending_order(age_keys(hits));
            let result = recall_result(live, f);
            &&& 0 <= order[a] < hits.len()
            &&& 0 <= order[b] < hits.len()
            &&& result[a] == hits[order[a]]
            &&& result[b] == hits[order[b]]
            &&& result[a].timestamp > result[b].timestamp || (result[a].timestamp
                == result[b].timestamp && order[a] < order[b])
        }),
{
    let hits = live.filter(matching(f));
    lemma_newest_first_is_ranked(hits);
    lemma_newest_first_contains(hits, hits[0]);
    let order = descending_order(age_keys(hits));
    assert(newest_first(hits)[a] == hits[order[a]]);
    assert(newest_first(hits)[b] == hits[order[b]]);
    assert(age_keys(hits)[order[a]] == hits[order[a]].timestamp);
    assert(age_keys(hits)[order[b]] == hits[order[b]].timestamp);
}

/// Sessions come from the most recently active to the least, and sessions of
/// one instant in the order in which they were formed.
pub proof fn law_sessions_are_most_active_first(sessions: Seq<SessionView>, a: int, b: int)
    requires
        0 <= a < b < sessions.len(),
    ensures
        most_active_first(sessions).len() == sessions.len(),
        ({
            let order = descending_order(activity_keys(sessions));
            let sorted = most_active_first(sessions);
            &&& 0 <= order[a] < sessions.len()
            &&& 0 <= order[b] < sessions.len()
            &&& sorted[a] == sessions[order[a]]
            &&& sorted[b] == sessions[order[b]]
            &&& sorted[a].last_active > sorted[b].last_active || (sorted[a].last_active
                == sorted[b].last_active && order[a] < order[b])
        }),
{
    lemma_descending_order(activity_keys(sessions));
    let order = descending_order(activity_keys(sessions));
    assert(activity_keys(sessions)[order[a]] == sessions[order[a]].last_active);
    assert(activity_keys(sessions)[order[b]] == sessions[order[b]].last_active);
}

/// Recovery. Where the frames of the live records fill the log, as they do
/// in a new store, after a compaction, and after every save that follows
/// either, a store that opens without an index file finds the same index
/// again.
pub proof fn law_lost_index_is_rebuilt(entries: Seq<(Seq<char>, usize)>, log: Seq<u8>)
    requires
        index_matches_log(entries, log),
        tiles(entries, log),
    ensures
        recovered(log, None) == entries,
{
    lemma_scan_finds_tiles(entries, log, 0);
    assert(entries.skip(0) =~= entries);
    if entries.len() == 0 {
        assert(log.len() == 0);
    }
}

/// A session that a search finds is the user's own, under the id that was
/// found, and it counts all the live records that the user has in it, of
/// which there is at least the one that holds a keyword.
pub proof fn law_found_session_is_the_users(
    cache: Seq<SessionView>,
    live: Seq<ItemView>,
    user: Seq<char>,
    keywords: Seq<Seq<char>>,
    k: int,
)
    requires
        0 <= k < distinct(sessions_named(recall_result(live, search_filter(user, keywords)))).len(),
    ensures
        ({
            let ids = distinct(sessions_named(recall_result(live, search_filter(user, keywords))));
            let found = sessions_under(cache, live, user, ids)[k];
            &&& found.id == ids[k]
            &&& found.user_id == user
            &&& found.memory_count == members_of(live, user, ids[k]).len() as usize
            &&& members_of(live, user, ids[k]).len() > 0
            &&& found.created_at == earliest(members_of(live, user, ids[k]))
            &&& found.last_active == latest(members_of(live, user, ids[k]))
        }),
{
    let ids = distinct(sessions_named(recall_result(live, search_filter(user, keywords))));
    let members = members_of(live, user, ids[k]);
    let formed = session_among(user_records(live, user), ids[k]);
    assert(sessions_under(cache, live, user, ids)[k] == named(cache, formed));
    assert(formed == session_view(members, ids[k]));
    assert(ids.contains(ids[k]));
    lemma_hit_is_a_member(live, user, keywords, ids[k]);
    let head = members[0];
    assert(members.contains(head));
    lemma_filter_members(user_records(live, user), in_session(ids[k]), head);
    lemma_recall_members(live, user_filter(user), head);
}

/// The decimal numeral that the index file holds for a number is read back as
/// that number.
pub proof fn law_numeral_is_read_back(n: nat)
    ensures
        decimal(n).len() > 0,
        decimal(n)[0] != '+',
        digits_value(decimal(n)) == Some(n),
        n <= u64::MAX ==> parsed_number(decimal(n)) == Some(n as u64),
    decreases n,
{
    if n < 10 {
        let numeral = decimal(n);
        assert(numeral =~= seq![digit_char(n as int)]);
        assert(numeral.drop_last() =~= Seq::<char>::empty());
        assert(digits_value(numeral.drop_last()) == Some(0nat));
        assert(numeral.last() == digit_char(n as int));
    } else {
        law_numeral_is_read_back(n / 10);
        let front = decimal(n / 10);
        let numeral = decimal(n);
        assert(numeral == front.push(digit_char((n % 10) as int)));
        assert(numeral.drop_last() =~= front);
        assert(numeral[0] == front[0]);
        assert(digit_value(digit_char((n % 10) as int)) == Some((n % 10) as nat));
    }
}

/// The compression phase never leaves more live records than it found.
pub proof fn law_compression_never_grows(
    before: Seq<ItemView>,
    policy: DecayPolicy,
    now: i64,
    after: Seq<ItemView>,
)
    requires
        compresses_to(before, policy, now, after),
    ensures
        after.len() <= before.len(),
{
    let marks = Seq::new(before.len(), |j: int| is_compressed(before, before[j], policy, now));
    lemma_unmarked_is_filter(before, marks, stays(before, policy, now));
    lemma_unmarked_len(before, marks);
    lemma_leaders_are_marked(before, marks, before.len() as int, policy, now);
}

/// Decay monotonicity. A decay run never leaves more live records than it
/// found.
pub proof fn law_decay_never_grows(
    before: Seq<ItemView>,
    policy: DecayPolicy,
    now: i64,
    between: Seq<ItemView>,
    after: Seq<ItemView>,
)
    requires
        decays_through(before, policy, now, between, after),
    ensures
        after.len() <= before.len(),
{
    let kept = after_expiry(before, policy, now);
    before.lemma_filter_len(outlives(policy, now));
    if policy.compression_enabled {
        law_compression_never_grows(kept, policy, now, between);
    }
    lemma_capped_within_cap(between, policy.max_memories_per_user, Seq::empty());
}

/// Cap enforcement. After a decay run no user holds more live records than
/// the policy allows.
pub proof fn law_decay_holds_the_cap(
    before: Seq<ItemView>,
    policy: DecayPolicy,
    now: i64,
    between: Seq<ItemView>,
    after: Seq<ItemView>,
    user: Seq<char>,
)
    requires
        decays_through(before, policy, now, between, after),
    ensures
        count_of_user(after, user) <= policy.max_memories_per_user,
{
    lemma_capped_within_cap(between, policy.max_memories_per_user, user);
}

} // verus!
