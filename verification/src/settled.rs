//! Why a decay run leaves nothing for a second run at the same instant: the
//! live records that it leaves hold nothing that expires, no group that is
//! large enough to be compressed, and no user above the cap.

use crate::cap::{cap_marks, count_of_user, excess, lemma_capped_within_cap};
use crate::compress::{
    compresses_to, compressible, compression, group_of, grouped, is_compressed, joins, leads,
    plans_upto, record_form, stays, CompressedView, GROUP_MINIMUM,
};
use crate::decay::{
    after_expiry, decay_failed, decay_run, decays_through, expires, log_through, outlives,
    summaries_counted, DecayPolicy, DecayStats,
};
use crate::query::{
    lemma_filter_keeps_all, lemma_filter_members, lemma_newest_first_contains, newest_first,
};
use crate::record::{stamped, ItemView};
use crate::session::SessionView;
use crate::storage::{marked, unmarked, users_of};
use crate::text::distinct;
use vstd::prelude::*;

verus! {

/// True when a decay run at the instant `now` finds nothing to do: no record
/// expires, no group of one user and session holds three compressible
/// records where the policy compresses, and no user is above the cap.
pub open spec fn settled(live: Seq<ItemView>, policy: DecayPolicy, now: i64) -> bool {
    &&& forall|k: int| 0 <= k < live.len() ==> !expires(#[trigger] live[k], policy, now)
    &&& policy.compression_enabled ==> forall|user: Seq<char>, session: Seq<char>|
        (#[trigger] live.filter(grouped(user, session, policy, now))).len() < GROUP_MINIMUM
    &&& forall|user: Seq<char>| #[trigger]
        count_of_user(live, user) <= policy.max_memories_per_user
}

/// Selects the compressed records of one user and session.
pub open spec fn plan_for(user: Seq<char>, session: Seq<char>) -> spec_fn(CompressedView) -> bool {
    |c: CompressedView| c.user_id == user && c.session_id == session
}

/// Of two runs of equal length, the one whose elements pass a predicate only
/// where the other's pass theirs has no more elements that pass.
proof fn lemma_filter_len_related<A, B>(
    a: Seq<A>,
    b: Seq<B>,
    p: spec_fn(A) -> bool,
    q: spec_fn(B) -> bool,
)
    requires
        a.len() == b.len(),
        forall|k: int| 0 <= k < a.len() ==> (p(#[trigger] a[k]) ==> q(b[k])),
    ensures
        a.filter(p).len() <= b.filter(q).len(),
    decreases a.len(),
{
    if a.len() == 0 {
        a.lemma_filter_len(p);
    } else {
        let fa = a.drop_last();
        let fb = b.drop_last();
        assert forall|k: int| 0 <= k < fa.len() && p(#[trigger] fa[k]) implies q(fb[k]) by {
            assert(fa[k] == a[k]);
            assert(fb[k] == b[k]);
        }
        lemma_filter_len_related(fa, fb, p, q);
        assert(fa.push(a.last()) =~= a);
        assert(fb.push(b.last()) =~= b);
        fa.lemma_filter_push(a.last(), p);
        fb.lemma_filter_push(b.last(), q);
        assert(p(a[a.len() - 1]) ==> q(b[a.len() - 1]));
    }
}

/// A run of which no element passes a predicate has an empty filtered run.
proof fn lemma_filter_none<T>(s: Seq<T>, p: spec_fn(T) -> bool)
    requires
        forall|k: int| 0 <= k < s.len() ==> !p(#[trigger] s[k]),
    ensures
        s.filter(p).len() == 0,
    decreases s.len(),
{
    if s.len() == 0 {
        s.lemma_filter_len(p);
    } else {
        let front = s.drop_last();
        assert forall|k: int| 0 <= k < front.len() implies !p(#[trigger] front[k]) by {
            assert(front[k] == s[k]);
        }
        lemma_filter_none(front, p);
        assert(front.push(s.last()) =~= s);
        front.lemma_filter_push(s.last(), p);
        assert(!p(s[s.len() - 1]));
    }
}

/// Filtering twice leaves no more than filtering by the second predicate
/// alone.
proof fn lemma_filter_twice_len<T>(s: Seq<T>, p: spec_fn(T) -> bool, q: spec_fn(T) -> bool)
    ensures
        s.filter(p).filter(q).len() <= s.filter(q).len(),
    decreases s.len(),
{
    if s.len() == 0 {
        s.lemma_filter_len(p);
        s.filter(p).lemma_filter_len(q);
    } else {
        let front = s.drop_last();
        lemma_filter_twice_len(front, p, q);
        assert(front.push(s.last()) =~= s);
        front.lemma_filter_push(s.last(), p);
        front.lemma_filter_push(s.last(), q);
        front.filter(p).lemma_filter_push(s.last(), q);
    }
}

/// Taking marked records out leaves no more records that pass a predicate
/// than there were, and only records that were there.
proof fn lemma_unmarked_filter_len<T>(s: Seq<T>, marks: Seq<bool>, q: spec_fn(T) -> bool)
    ensures
        unmarked(s, marks).filter(q).len() <= s.filter(q).len(),
        forall|k: int|
            0 <= k < unmarked(s, marks).len() ==> s.contains(#[trigger] unmarked(s, marks)[k]),
    decreases s.len(),
{
    if s.len() == 0 {
        s.lemma_filter_len(q);
    } else {
        let front = s.drop_last();
        lemma_unmarked_filter_len(front, marks, q);
        assert(front.push(s.last()) =~= s);
        front.lemma_filter_push(s.last(), q);
        unmarked(front, marks).lemma_filter_push(s.last(), q);
        assert forall|k: int| 0 <= k < unmarked(s, marks).len() implies s.contains(
            #[trigger] unmarked(s, marks)[k],
        ) by {
            let x = unmarked(s, marks)[k];
            if k < unmarked(front, marks).len() {
                assert(x == unmarked(front, marks)[k]);
                assert(front.contains(x));
                let j = choose|j: int| 0 <= j < front.len() && front[j] == x;
                assert(s[j] == x);
            } else {
                assert(x == s[s.len() - 1]);
            }
        }
    }
}

/// The compressed record of the group of a compressible record has that
/// record's user and session.
proof fn lemma_plan_key(live: Seq<ItemView>, i: int, policy: DecayPolicy, now: i64)
    requires
        0 <= i < live.len(),
        compressible(live[i], policy, now),
    ensures
        compression(newest_first(group_of(live, live[i], policy, now)), now).user_id
            == live[i].user_id,
        compression(newest_first(group_of(live, live[i], policy, now)), now).session_id
            == live[i].session_id,
{
    let pick = grouped(live[i].user_id, live[i].session_id, policy, now);
    let group = group_of(live, live[i], policy, now);
    assert(pick(live[i]));
    assert(live.contains(live[i]));
    lemma_filter_members(live, pick, live[i]);
    lemma_newest_first_contains(group, live[i]);
    let ordered = newest_first(group);
    assert(ordered.len() > 0);
    assert(ordered.contains(ordered[0]));
    lemma_newest_first_contains(group, ordered[0]);
    lemma_filter_members(live, pick, ordered[0]);
}

/// Every compressed record that the compression phase calls for is made at the
/// instant of the run.
proof fn lemma_plans_are_of_now(live: Seq<ItemView>, n: int, policy: DecayPolicy, now: i64, p: int)
    requires
        0 <= p < plans_upto(live, n, policy, now).len(),
    ensures
        plans_upto(live, n, policy, now)[p].compressed_at == now,
    decreases n,
{
    if n > 0 {
        let before = plans_upto(live, n - 1, policy, now);
        if p < before.len() {
            lemma_plans_are_of_now(live, n - 1, policy, now, p);
        }
    }
}

/// Among the compressed records that the first `n` records call for there is
/// at most one for a user and session, and there is one only where a
/// compressible record of that user and session stands below `n` and its group
/// holds at least three records.
proof fn lemma_one_plan_for_a_group(
    live: Seq<ItemView>,
    n: int,
    policy: DecayPolicy,
    now: i64,
    user: Seq<char>,
    session: Seq<char>,
)
    requires
        0 <= n <= live.len(),
    ensures
        plans_upto(live, n, policy, now).filter(plan_for(user, session)).len() <= 1,
        plans_upto(live, n, policy, now).filter(plan_for(user, session)).len() == 1 ==> (exists|
            i: int,
        |
            0 <= i < n && grouped(user, session, policy, now)(#[trigger] live[i])) && live.filter(
            grouped(user, session, policy, now),
        ).len() >= GROUP_MINIMUM,
    decreases n,
{
    let pick = plan_for(user, session);
    if n <= 0 {
        plans_upto(live, n, policy, now).lemma_filter_len(pick);
    } else {
        lemma_one_plan_for_a_group(live, n - 1, policy, now, user, session);
        let before = plans_upto(live, n - 1, policy, now);
        let last = live[n - 1];
        if leads(live, n - 1, policy, now) && group_of(live, last, policy, now).len()
            >= GROUP_MINIMUM {
            let plan = compression(newest_first(group_of(live, last, policy, now)), now);
            lemma_plan_key(live, n - 1, policy, now);
            before.lemma_filter_push(plan, pick);
            if pick(plan) {
                assert(grouped(user, session, policy, now)(live[n - 1]));
                if before.filter(pick).len() == 1 {
                    let i = choose|i: int|
                        0 <= i < n - 1 && grouped(user, session, policy, now)(#[trigger] live[i]);
                    assert(joins(live, n - 1, i, policy, now));
                    assert(false);
                }
            } else {
                if before.filter(pick).len() == 1 {
                    let i = choose|i: int|
                        0 <= i < n - 1 && grouped(user, session, policy, now)(#[trigger] live[i]);
                    assert(grouped(user, session, policy, now)(live[i]));
                }
            }
        } else {
            if before.filter(pick).len() == 1 {
                let i = choose|i: int|
                    0 <= i < n - 1 && grouped(user, session, policy, now)(#[trigger] live[i]);
                assert(grouped(user, session, policy, now)(live[i]));
            }
        }
    }
}

/// After the compression phase no user and session has three compressible
/// records left.
proof fn lemma_groups_are_small_after_compression(
    before: Seq<ItemView>,
    policy: DecayPolicy,
    now: i64,
    after: Seq<ItemView>,
    user: Seq<char>,
    session: Seq<char>,
)
    requires
        compresses_to(before, policy, now, after),
    ensures
        after.filter(grouped(user, session, policy, now)).len() < GROUP_MINIMUM,
{
    let pick = grouped(user, session, policy, now);
    let keep = stays(before, policy, now);
    let survivors = before.filter(keep);
    let plans = plans_upto(before, before.len() as int, policy, now);
    let fresh = after.skip(survivors.len() as int);
    let group = before.filter(pick);
    assert(after =~= survivors + fresh);
    Seq::filter_distributes_over_add(survivors, fresh, pick);
    lemma_one_plan_for_a_group(before, before.len() as int, policy, now, user, session);
    assert forall|k: int| 0 <= k < fresh.len() && pick(#[trigger] fresh[k]) implies plan_for(
        user,
        session,
    )(plans[k]) by {
        assert(fresh[k] == after[survivors.len() + k]);
    }
    lemma_filter_len_related(fresh, plans, pick, plan_for(user, session));
    if group.len() >= GROUP_MINIMUM {
        assert forall|k: int| 0 <= k < survivors.len() implies !pick(#[trigger] survivors[k]) by {
            let x = survivors[k];
            assert(survivors.contains(x));
            lemma_filter_members(before, keep, x);
            if pick(x) {
                assert(group_of(before, x, policy, now) == group);
                assert(is_compressed(before, x, policy, now));
            }
        }
        lemma_filter_none(survivors, pick);
    } else {
        lemma_filter_twice_len(before, keep, pick);
    }
}

/// Where no group holds three records, no compressed record is called for and
/// every record stays.
proof fn lemma_small_groups_stay(live: Seq<ItemView>, n: int, policy: DecayPolicy, now: i64)
    requires
        0 <= n <= live.len(),
        forall|user: Seq<char>, session: Seq<char>|
            (#[trigger] live.filter(grouped(user, session, policy, now))).len() < GROUP_MINIMUM,
    ensures
        plans_upto(live, n, policy, now).len() == 0,
        forall|k: int| 0 <= k < live.len() ==> stays(live, policy, now)(#[trigger] live[k]),
    decreases n,
{
    if n > 0 {
        lemma_small_groups_stay(live, n - 1, policy, now);
        assert(group_of(live, live[n - 1], policy, now) == live.filter(
            grouped(live[n - 1].user_id, live[n - 1].session_id, policy, now),
        ));
    }
    assert forall|k: int| 0 <= k < live.len() implies stays(live, policy, now)(
        #[trigger] live[k],
    ) by {
        assert(group_of(live, live[k], policy, now) == live.filter(
            grouped(live[k].user_id, live[k].session_id, policy, now),
        ));
    }
}

/// Where no user is above the cap, the cap phase marks nothing.
proof fn lemma_cap_marks_idle(live: Seq<ItemView>, users: Seq<Seq<char>>, cap: usize)
    requires
        forall|user: Seq<char>| #[trigger] count_of_user(live, user) <= cap,
    ensures
        cap_marks(live, users, cap) == Seq::new(live.len(), |i: int| false),
    decreases users.len(),
{
    if users.len() > 0 {
        lemma_cap_marks_idle(live, users.drop_last(), cap);
        assert(count_of_user(live, users.last()) <= cap);
        assert(excess(live, users.last(), cap) == 0);
    }
}

/// Where nothing is marked, everything stays.
proof fn lemma_unmarked_none<T>(s: Seq<T>, marks: Seq<bool>)
    requires
        forall|i: int| 0 <= i < s.len() ==> !marked(marks, i),
    ensures
        unmarked(s, marks) == s,
    decreases s.len(),
{
    if s.len() > 0 {
        lemma_unmarked_none(s.drop_last(), marks);
        assert(s.drop_last().push(s.last()) =~= s);
    }
}

/// A decay run leaves the live records settled.
pub proof fn law_decay_settles(
    before: Seq<ItemView>,
    policy: DecayPolicy,
    now: i64,
    between: Seq<ItemView>,
    after: Seq<ItemView>,
)
    requires
        decays_through(before, policy, now, between, after),
    ensures
        settled(after, policy, now),
{
    let kept = after_expiry(before, policy, now);
    let cap = policy.max_memories_per_user;
    let marks = cap_marks(between, distinct(users_of(between)), cap);
    assert forall|k: int| 0 <= k < between.len() implies !expires(
        #[trigger] between[k],
        policy,
        now,
    ) by {
        let x = between[k];
        if policy.compression_enabled {
            let survivors = kept.filter(stays(kept, policy, now));
            if k < survivors.len() {
                assert(between.take(survivors.len() as int)[k] == x);
                assert(survivors.contains(x));
                lemma_filter_members(kept, stays(kept, policy, now), x);
                lemma_filter_members(before, outlives(policy, now), x);
            } else {
                let plans = plans_upto(kept, kept.len() as int, policy, now);
                let p = k - survivors.len();
                assert(between[survivors.len() + p] == stamped(
                    record_form(plans[p]),
                    between[survivors.len() + p].id,
                ));
                lemma_plans_are_of_now(kept, kept.len() as int, policy, now, p);
            }
        } else {
            assert(kept[k] == x);
            assert(kept.contains(x));
            lemma_filter_members(before, outlives(policy, now), x);
        }
    }
    lemma_unmarked_filter_len(between, marks, outlives(policy, now));
    assert forall|k: int| 0 <= k < after.len() implies !expires(
        #[trigger] after[k],
        policy,
        now,
    ) by {
        assert(between.contains(after[k]));
    }
    if policy.compression_enabled {
        assert forall|user: Seq<char>, session: Seq<char>|
            (#[trigger] after.filter(grouped(user, session, policy, now))).len()
                < GROUP_MINIMUM by {
            lemma_groups_are_small_after_compression(kept, policy, now, between, user, session);
            lemma_unmarked_filter_len(between, marks, grouped(user, session, policy, now));
        }
    }
    assert forall|user: Seq<char>| #[trigger] count_of_user(after, user) <= cap by {
        lemma_capped_within_cap(between, cap, user);
    }
}

/// A decay run on settled records changes nothing, and calls for no
/// compressed record.
pub proof fn law_settled_records_stay(
    live: Seq<ItemView>,
    policy: DecayPolicy,
    now: i64,
    between: Seq<ItemView>,
    after: Seq<ItemView>,
)
    requires
        settled(live, policy, now),
        decays_through(live, policy, now, between, after),
    ensures
        after_expiry(live, policy, now) == live,
        policy.compression_enabled ==> live.filter(stays(live, policy, now)) == live,
        between == live,
        after == live,
{
    let cap = policy.max_memories_per_user;
    lemma_filter_keeps_all(live, outlives(policy, now));
    if policy.compression_enabled {
        lemma_small_groups_stay(live, live.len() as int, policy, now);
        lemma_filter_keeps_all(live, stays(live, policy, now));
        assert(between =~= between.take(live.len() as int));
    }
    lemma_cap_marks_idle(live, distinct(users_of(live)), cap);
    lemma_unmarked_none(live, cap_marks(live, distinct(users_of(live)), cap));
}

/// A decay run on settled records cannot fail: it calls for no compressed
/// record, so that the store has nothing to refuse.
pub proof fn law_settled_run_succeeds(
    live: Seq<ItemView>,
    policy: DecayPolicy,
    now: i64,
    after: Seq<ItemView>,
    log_before: Seq<u8>,
    log_after: Seq<u8>,
)
    requires
        settled(live, policy, now),
    ensures
        !decay_failed(live, policy, now, after, log_before, log_after),
{
    lemma_filter_keeps_all(live, outlives(policy, now));
    if policy.compression_enabled {
        lemma_small_groups_stay(live, live.len() as int, policy, now);
    }
}

/// Idempotence. Of two decay runs at one instant and under one policy, the
/// second cannot fail, expires nothing and compresses nothing, and leaves the
/// live records and the log as the first left them.
pub proof fn law_second_run_finds_nothing(
    before: Seq<ItemView>,
    policy: DecayPolicy,
    now: i64,
    first: Seq<ItemView>,
    first_stats: DecayStats,
    second: Seq<ItemView>,
    second_stats: DecayStats,
    cache: Seq<SessionView>,
    log_before: Seq<u8>,
    first_log: Seq<u8>,
    second_log: Seq<u8>,
)
    requires
        decay_run(before, policy, now, first, first_stats, cache, log_before, first_log),
    ensures
        !decay_failed(first, policy, now, second, first_log, second_log),
        decay_run(first, policy, now, second, second_stats, cache, first_log, second_log) ==> {
            &&& second == first
            &&& second_log == first_log
            &&& second_stats.memories_expired == 0
            &&& second_stats.memories_compressed == 0
            &&& second_stats.total_memories_before == first_stats.total_memories_after
            &&& second_stats.total_memories_after == first_stats.total_memories_after
        },
{
    let between = choose|between: Seq<ItemView>| #[trigger]
        decays_through(before, policy, now, between, first);
    law_decay_settles(before, policy, now, between, first);
    law_settled_run_succeeds(first, policy, now, second, first_log, second_log);
    if decay_run(first, policy, now, second, second_stats, cache, first_log, second_log) {
        let again = choose|again: Seq<ItemView>| #[trigger]
            decays_through(first, policy, now, again, second) && second_stats.memories_expired
                == (first.len() - after_expiry(first, policy, now).len()) + (again.len()
                - second.len()) && summaries_counted(again, policy, now, second_stats, cache)
                && log_through(first, policy, now, again, first_log, second_log);
        law_settled_records_stay(first, policy, now, again, second);
        assert(first.skip(first.len() as int) =~= Seq::<ItemView>::empty());
        assert(second_log =~= first_log);
    }
}

} // verus!
