//! The cap phase of a decay run: no user keeps more live records than the
//! policy allows. Of a user with too many, the records of least importance go,
//! the oldest first among equals.

use crate::decay::DecayPolicy;
use crate::query::lemma_drop_last_contains;
use crate::record::{of_user, views, ItemView, MemoryItem};
use crate::storage::{lemma_unmarked_len, marked, unmarked, users_of, MemoryStorage};
use crate::text::{
    distinct, is_tally, lemma_distinct_contains, lemma_distinct_no_duplicates, occurrences,
    same_text, str_eq,
};
use vstd::prelude::*;
use vstd::string::*;

verus! {

/// The number of records of one user.
pub open spec fn count_of_user(live: Seq<ItemView>, user: Seq<char>) -> nat {
    live.filter(of_user(user)).len()
}

/// True when `a` goes before `b` where a user is held to the cap: `a` is of
/// less importance or, at equal importance, older.
pub open spec fn ranks_below(a: ItemView, b: ItemView) -> bool {
    a.importance < b.importance || (a.importance == b.importance && a.timestamp < b.timestamp)
}

/// Position of the user's unmarked record that goes first among the first `n`
/// records, or -1 when the user has no unmarked record there. Of two records
/// of one rank the earlier one goes first.
pub open spec fn lowest_unmarked(
    live: Seq<ItemView>,
    marks: Seq<bool>,
    user: Seq<char>,
    n: int,
) -> int
    decreases n,
{
    if n <= 0 {
        -1
    } else {
        let best = lowest_unmarked(live, marks, user, n - 1);
        if live[n - 1].user_id != user || marks[n - 1] {
            best
        } else if best < 0 || ranks_below(live[n - 1], live[best]) {
            n - 1
        } else {
            best
        }
    }
}

/// The marks after one more record of the user has been marked: the one that
/// goes first among the unmarked.
pub open spec fn evict_one(live: Seq<ItemView>, marks: Seq<bool>, user: Seq<char>) -> Seq<bool> {
    let at = lowest_unmarked(live, marks, user, live.len() as int);
    if 0 <= at < marks.len() {
        marks.update(at, true)
    } else {
        marks
    }
}

/// The marks after `k` records of the user have been marked, one at a time.
pub open spec fn evict(live: Seq<ItemView>, marks: Seq<bool>, user: Seq<char>, k: nat) -> Seq<
    bool,
>
    decreases k,
{
    if k == 0 {
        marks
    } else {
        evict_one(live, evict(live, marks, user, (k - 1) as nat), user)
    }
}

/// By how many records a user exceeds the cap.
pub open spec fn excess(live: Seq<ItemView>, user: Seq<char>, cap: usize) -> nat {
    let count = count_of_user(live, user);
    if count > cap {
        (count - cap) as nat
    } else {
        0
    }
}

/// The marks that hold each of the users to the cap, the users taken in order.
pub open spec fn cap_marks(live: Seq<ItemView>, users: Seq<Seq<char>>, cap: usize) -> Seq<bool>
    decreases users.len(),
{
    if users.len() == 0 {
        Seq::new(live.len(), |i: int| false)
    } else {
        evict(
            live,
            cap_marks(live, users.drop_last(), cap),
            users.last(),
            excess(live, users.last(), cap),
        )
    }
}

/// The live records after every user has been held to the cap: of a user with
/// more records than the cap allows, the records of least importance go, and
/// among those of equal importance the oldest.
pub open spec fn capped(live: Seq<ItemView>, cap: usize) -> Seq<ItemView> {
    unmarked(live, cap_marks(live, distinct(users_of(live)), cap))
}

/// Decides [`ranks_below`].
pub fn goes_before(a: &MemoryItem, b: &MemoryItem) -> (lower: bool)
    ensures
        lower == ranks_below(a@, b@),
{
    a.importance < b.importance || (a.importance == b.importance && a.timestamp < b.timestamp)
}

/// Finds the user's unmarked record that goes first, if the user has one.
fn find_lowest(items: &Vec<MemoryItem>, marks: &Vec<bool>, user: &str) -> (at: Option<usize>)
    requires
        marks.len() == items.len(),
    ensures
        match at {
            Some(p) => p == lowest_unmarked(views(items@), marks@, user@, items.len() as int)
                && p < items.len(),
            None => lowest_unmarked(views(items@), marks@, user@, items.len() as int) == -1,
        },
{
    let ghost live = views(items@);
    let mut best: Option<usize> = None;
    let mut i: usize = 0;
    while i < items.len()
        invariant
            i <= items.len(),
            marks.len() == items.len(),
            live == views(items@),
            match best {
                Some(p) => p == lowest_unmarked(live, marks@, user@, i as int) && p < i,
                None => lowest_unmarked(live, marks@, user@, i as int) == -1,
            },
        decreases items.len() - i,
    {
        assert(live[i as int] == items[i as int]@);
        if str_eq(items[i].user_id.as_str(), user) && !marks[i] {
            match best {
                None => {
                    best = Some(i);
                },
                Some(p) => {
                    assert(live[p as int] == items[p as int]@);
                    if goes_before(&items[i], &items[p]) {
                        best = Some(i);
                    }
                },
            }
        }
        i += 1;
    }
    best
}

/// The number of the user's unmarked records among the first `n` records.
pub open spec fn kept_count(live: Seq<ItemView>, marks: Seq<bool>, user: Seq<char>, n: int) -> nat
    decreases n,
{
    if n <= 0 {
        0
    } else {
        kept_count(live, marks, user, n - 1) + if live[n - 1].user_id == user && !marked(
            marks,
            n - 1,
        ) {
            1nat
        } else {
            0nat
        }
    }
}

/// A user's records are as many as the user is named among the records' users.
pub proof fn lemma_user_count(live: Seq<ItemView>, user: Seq<char>)
    ensures
        occurrences(users_of(live), user) == count_of_user(live, user),
    decreases live.len(),
{
    if live.len() == 0 {
        live.lemma_filter_len(of_user(user));
        users_of(live).lemma_filter_len(same_text(user));
    } else {
        let front = live.drop_last();
        lemma_user_count(front, user);
        assert(front.push(live.last()) =~= live);
        front.lemma_filter_push(live.last(), of_user(user));
        assert(users_of(front).push(live.last().user_id) =~= users_of(live));
        users_of(front).lemma_filter_push(live.last().user_id, same_text(user));
    }
}

/// What is left of a user's records after the marked ones went is what
/// [`kept_count`] counts.
pub proof fn lemma_kept_count(live: Seq<ItemView>, marks: Seq<bool>, user: Seq<char>)
    ensures
        count_of_user(unmarked(live, marks), user) == kept_count(
            live,
            marks,
            user,
            live.len() as int,
        ),
    decreases live.len(),
{
    if live.len() == 0 {
        live.lemma_filter_len(of_user(user));
    } else {
        let front = live.drop_last();
        lemma_kept_count(front, marks, user);
        lemma_kept_count_prefix(live, front, marks, user, front.len() as int);
        unmarked(front, marks).lemma_filter_push(live.last(), of_user(user));
    }
}

/// [`kept_count`] looks only at the records below `n`.
pub proof fn lemma_kept_count_prefix(
    a: Seq<ItemView>,
    b: Seq<ItemView>,
    marks: Seq<bool>,
    user: Seq<char>,
    n: int,
)
    requires
        n <= a.len(),
        n <= b.len(),
        forall|i: int| 0 <= i < n ==> a[i] == b[i],
    ensures
        kept_count(a, marks, user, n) == kept_count(b, marks, user, n),
    decreases n,
{
    if n > 0 {
        lemma_kept_count_prefix(a, b, marks, user, n - 1);
    }
}

/// Without marks every record of the user is kept.
pub proof fn lemma_kept_count_unmarked(live: Seq<ItemView>, user: Seq<char>, n: int)
    requires
        0 <= n <= live.len(),
    ensures
        kept_count(live, Seq::new(live.len(), |i: int| false), user, n) == count_of_user(
            live.take(n),
            user,
        ),
    decreases n,
{
    if n == 0 {
        live.take(0).lemma_filter_len(of_user(user));
    } else {
        lemma_kept_count_unmarked(live, user, n - 1);
        assert(live.take(n) =~= live.take(n - 1).push(live[n - 1]));
        live.take(n - 1).lemma_filter_push(live[n - 1], of_user(user));
    }
}

/// One more mark takes one of the user's kept records when it falls on one,
/// and none otherwise.
pub proof fn lemma_kept_count_update(
    live: Seq<ItemView>,
    marks: Seq<bool>,
    user: Seq<char>,
    at: int,
    n: int,
)
    requires
        0 <= at < marks.len(),
        0 <= n <= live.len(),
    ensures
        kept_count(live, marks.update(at, true), user, n) + if at < n && live[at].user_id == user
            && !marks[at] {
            1nat
        } else {
            0nat
        } == kept_count(live, marks, user, n),
    decreases n,
{
    if n > 0 {
        lemma_kept_count_update(live, marks, user, at, n - 1);
    }
}

/// What [`lowest_unmarked`] finds is an unmarked record of the user, and it
/// finds one whenever the user has one.
pub proof fn lemma_lowest_unmarked(live: Seq<ItemView>, marks: Seq<bool>, user: Seq<char>, n: int)
    requires
        0 <= n <= live.len(),
        marks.len() == live.len(),
    ensures
        ({
            let at = lowest_unmarked(live, marks, user, n);
            &&& -1 <= at < n
            &&& at >= 0 ==> live[at].user_id == user && !marks[at]
            &&& at == -1 ==> kept_count(live, marks, user, n) == 0
        }),
    decreases n,
{
    if n > 0 {
        lemma_lowest_unmarked(live, marks, user, n - 1);
    }
}

/// Marking `k` records of a user takes `k` of the user's kept records, as long
/// as the user has that many, and none of any other user.
pub proof fn lemma_evict(
    live: Seq<ItemView>,
    marks: Seq<bool>,
    user: Seq<char>,
    k: nat,
    other: Seq<char>,
)
    requires
        marks.len() == live.len(),
        k <= kept_count(live, marks, user, live.len() as int),
    ensures
        evict(live, marks, user, k).len() == live.len(),
        kept_count(live, evict(live, marks, user, k), user, live.len() as int) + k == kept_count(
            live,
            marks,
            user,
            live.len() as int,
        ),
        other != user ==> kept_count(live, evict(live, marks, user, k), other, live.len() as int)
            == kept_count(live, marks, other, live.len() as int),
    decreases k,
{
    if k > 0 {
        lemma_evict(live, marks, user, (k - 1) as nat, other);
        let before = evict(live, marks, user, (k - 1) as nat);
        let n = live.len() as int;
        lemma_lowest_unmarked(live, before, user, n);
        let at = lowest_unmarked(live, before, user, n);
        assert(at >= 0);
        lemma_kept_count_update(live, before, user, at, n);
        lemma_kept_count_update(live, before, other, at, n);
    }
}

/// After the users of a list have been held to the cap, each of them keeps at
/// most as many records as the cap allows, and every other user keeps all.
pub proof fn lemma_cap_marks(
    live: Seq<ItemView>,
    users: Seq<Seq<char>>,
    cap: usize,
    user: Seq<char>,
)
    requires
        users.no_duplicates(),
    ensures
        cap_marks(live, users, cap).len() == live.len(),
        users.contains(user) ==> kept_count(
            live,
            cap_marks(live, users, cap),
            user,
            live.len() as int,
        ) <= cap,
        !users.contains(user) ==> kept_count(
            live,
            cap_marks(live, users, cap),
            user,
            live.len() as int,
        ) == count_of_user(live, user),
        kept_count(live, cap_marks(live, users, cap), user, live.len() as int) <= count_of_user(
            live,
            user,
        ),
    decreases users.len(),
{
    let n = live.len() as int;
    if users.len() == 0 {
        lemma_kept_count_unmarked(live, user, n);
        assert(live.take(n) =~= live);
    } else {
        let front = users.drop_last();
        let last = users.last();
        let before = cap_marks(live, front, cap);
        assert(front.no_duplicates());
        lemma_cap_marks(live, front, cap, user);
        lemma_cap_marks(live, front, cap, last);
        assert(!front.contains(last)) by {
            if front.contains(last) {
                let k = choose|k: int| 0 <= k < front.len() && front[k] == last;
                assert(users[k] == users[users.len() - 1]);
            }
        }
        let k = excess(live, last, cap);
        lemma_evict(live, before, last, k, user);
        lemma_drop_last_contains(users, user);
    }
}

/// After the cap phase no user holds more records than the cap allows.
pub proof fn lemma_capped_within_cap(live: Seq<ItemView>, cap: usize, user: Seq<char>)
    ensures
        count_of_user(capped(live, cap), user) <= cap,
        count_of_user(capped(live, cap), user) <= count_of_user(live, user),
        capped(live, cap).len() <= live.len(),
{
    let users = distinct(users_of(live));
    lemma_distinct_no_duplicates(users_of(live));
    lemma_cap_marks(live, users, cap, user);
    let marks = cap_marks(live, users, cap);
    lemma_kept_count(live, marks, user);
    lemma_unmarked_len(live, marks);
    if !users.contains(user) {
        lemma_distinct_contains(users_of(live), user);
        lemma_user_count(live, user);
        users_of(live).lemma_all_neg_filter_empty(same_text(user));
    }
}

/// The cap phase: of each user with more live records than the policy allows,
/// tombstones the records of least importance, the oldest first among equals,
/// until the user is within the cap. Returns the number of records that went.
pub fn enforce_memory_limits(storage: &mut MemoryStorage, policy: &DecayPolicy) -> (removed:
    usize)
    ensures
        final(storage).live() == capped(old(storage).live(), policy.max_memories_per_user),
        final(storage).log_view() == old(storage).log_view(),
        final(storage).storage_path_view() == old(storage).storage_path_view(),
        final(storage).index_path_view() == old(storage).index_path_view(),
        removed + final(storage).live().len() == old(storage).live().len(),
{
    let items = storage.load_live();
    let stats = storage.get_stats();
    let cap = policy.max_memories_per_user;
    let ghost live = storage.live();
    let ghost users = distinct(users_of(live));
    let mut marks: Vec<bool> = Vec::new();
    let mut i: usize = 0;
    while i < items.len()
        invariant
            i <= items.len(),
            marks.len() == i,
            forall|j: int| 0 <= j < i ==> !marks[j],
        decreases items.len() - i,
    {
        marks.push(false);
        i += 1;
    }
    assert(marks@ =~= cap_marks(live, users.take(0), cap));
    let mut u: usize = 0;
    while u < stats.len()
        invariant
            u <= stats.len(),
            views(items@) == live,
            users == distinct(users_of(live)),
            is_tally(stats.deep_view(), users_of(live)),
            marks.len() == items.len(),
            marks@ == cap_marks(live, users.take(u as int), cap),
            cap == policy.max_memories_per_user,
        decreases stats.len() - u,
    {
        let user = stats[u].0.as_str();
        let count = stats[u].1;
        let ghost base = marks@;
        proof {
            assert(stats.deep_view()[u as int] == (stats[u as int].0@, stats[u as int].1));
            assert(users[u as int] == user@);
            lemma_user_count(live, user@);
            assert(users.take(u + 1).drop_last() =~= users.take(u as int));
            assert(users.take(u + 1).last() == user@);
        }
        if count > cap {
            let over = count - cap;
            let mut k: usize = 0;
            while k < over
                invariant
                    k <= over,
                    over == excess(live, user@, cap),
                    views(items@) == live,
                    marks.len() == items.len(),
                    marks@ == evict(live, base, user@, k as nat),
                decreases over - k,
            {
                match find_lowest(&items, &marks, user) {
                    Some(at) => {
                        marks.set(at, true);
                    },
                    None => {},
                }
                k += 1;
            }
        }
        u += 1;
    }
    assert(users.take(u as int) =~= users);
    storage.tombstone_marked(&marks)
}

} // verus!
