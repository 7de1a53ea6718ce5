//! The query engine: which records a filter accepts, and the order in which
//! they are handed out.

use crate::rank::{
    arranged, descending_order, falls_along, insert_descending, is_permutation,
    lemma_descending_order,
};
use crate::record::{views, FilterView, ItemView, MemoryItem, QueryFilter};
use crate::text::{contains_text, is_substring, lowercase_of, to_lowercase};
use vstd::prelude::*;
use vstd::string::*;

verus! {

/// True when `content` holds `keyword`, whatever the case of the letters.
pub open spec fn mentions(content: Seq<char>, keyword: Seq<char>) -> bool {
    is_substring(lowercase_of(keyword), lowercase_of(content))
}

/// True when `content` holds at least one of the keywords.
pub open spec fn mentions_any(content: Seq<char>, keywords: Seq<Seq<char>>) -> bool {
    exists|k: int| 0 <= k < keywords.len() && mentions(content, #[trigger] keywords[k])
}

/// The user predicate: absent, or the record's user.
pub open spec fn user_ok(m: ItemView, f: FilterView) -> bool {
    f.user_id matches Some(u) ==> m.user_id == u
}

/// The session predicate: absent, or the record's session.
pub open spec fn session_ok(m: ItemView, f: FilterView) -> bool {
    f.session_id matches Some(s) ==> m.session_id == s
}

/// The date predicates: the record's instant within the bounds that are
/// present, both inclusive.
pub open spec fn dates_ok(m: ItemView, f: FilterView) -> bool {
    &&& f.date_from matches Some(from) ==> m.timestamp >= from
    &&& f.date_to matches Some(to) ==> m.timestamp <= to
}

/// The importance predicate: absent, or a floor on the record's importance.
pub open spec fn importance_ok(m: ItemView, f: FilterView) -> bool {
    f.min_importance matches Some(floor) ==> m.importance >= floor
}

/// The keyword predicate: absent, or a list of which the content holds one.
pub open spec fn keywords_ok(m: ItemView, f: FilterView) -> bool {
    f.keywords matches Some(ks) ==> mentions_any(m.content, ks)
}

/// True when the record passes every predicate that the filter holds.
pub open spec fn passes(m: ItemView, f: FilterView) -> bool {
    &&& user_ok(m, f)
    &&& session_ok(m, f)
    &&& dates_ok(m, f)
    &&& importance_ok(m, f)
    &&& keywords_ok(m, f)
}

/// The filter as a predicate on records.
pub open spec fn matching(f: FilterView) -> spec_fn(ItemView) -> bool {
    |m: ItemView| passes(m, f)
}

/// Puts `m` behind the last record of `sorted` that is at least as new.
pub open spec fn insert_newest_first(sorted: Seq<ItemView>, m: ItemView) -> Seq<ItemView>
    decreases sorted.len(),
{
    if sorted.len() == 0 {
        seq![m]
    } else if sorted.last().timestamp >= m.timestamp {
        sorted.push(m)
    } else {
        insert_newest_first(sorted.drop_last(), m).push(sorted.last())
    }
}

/// The records ordered from newest to oldest; records of one instant keep the
/// order in which they came.
pub open spec fn newest_first(s: Seq<ItemView>) -> Seq<ItemView>
    decreases s.len(),
{
    if s.len() == 0 {
        s
    } else {
        insert_newest_first(newest_first(s.drop_last()), s.last())
    }
}

/// At most the first `limit` records, or all of them without a limit.
pub open spec fn limited(s: Seq<ItemView>, limit: Option<usize>) -> Seq<ItemView> {
    match limit {
        Some(n) => if n < s.len() {
            s.take(n as int)
        } else {
            s
        },
        None => s,
    }
}

/// What a query returns from the live records: those that the filter accepts,
/// newest first, cut at the filter's limit.
pub open spec fn recall_result(live: Seq<ItemView>, f: FilterView) -> Seq<ItemView> {
    limited(newest_first(live.filter(matching(f))), f.limit)
}

/// The keys by which records are ordered: their instants.
pub open spec fn age_keys(s: Seq<ItemView>) -> Seq<i128> {
    s.map_values(|m: ItemView| m.timestamp as i128)
}

/// Inserting a record among ordered records is inserting its position among
/// their positions.
proof fn lemma_insert_is_ranked(s: Seq<ItemView>, order: Seq<int>)
    requires
        s.len() > 0,
        forall|k: int| 0 <= k < order.len() ==> 0 <= #[trigger] order[k] < s.len() - 1,
    ensures
        insert_newest_first(arranged(s.drop_last(), order), s.last()) == arranged(
            s,
            insert_descending(order, age_keys(s), s.len() - 1),
        ),
    decreases order.len(),
{
    let front = s.drop_last();
    let keys = age_keys(s);
    let at = s.len() - 1;
    if order.len() == 0 {
        assert(arranged(s, seq![at]) =~= seq![s.last()]);
        assert(arranged(front, order) =~= Seq::<ItemView>::empty());
    } else {
        let last = order.last();
        assert(arranged(front, order).last() == s[last]);
        if keys[last] >= keys[at] {
            assert(arranged(front, order).push(s.last()) =~= arranged(s, order.push(at)));
        } else {
            let rest = order.drop_last();
            assert forall|k: int| 0 <= k < rest.len() implies 0 <= #[trigger] rest[k] < s.len()
                - 1 by {
                assert(rest[k] == order[k]);
            }
            lemma_insert_is_ranked(s, rest);
            assert(arranged(front, order).drop_last() =~= arranged(front, rest));
            let placed = insert_descending(rest, keys, at);
            assert(arranged(s, placed).push(s[last]) =~= arranged(s, placed.push(last)));
        }
    }
}

/// Ordering newest first arranges the records by the descending order of
/// their instants, which holds every position once.
pub proof fn lemma_newest_first_is_ranked(s: Seq<ItemView>)
    ensures
        newest_first(s) == arranged(s, descending_order(age_keys(s))),
        is_permutation(descending_order(age_keys(s)), s.len() as int),
        falls_along(age_keys(s), descending_order(age_keys(s))),
    decreases s.len(),
{
    lemma_descending_order(age_keys(s));
    if s.len() == 0 {
        assert(arranged(s, descending_order(age_keys(s))) =~= s);
    } else {
        let front = s.drop_last();
        lemma_newest_first_is_ranked(front);
        assert(age_keys(s).drop_last() =~= age_keys(front));
        let order = descending_order(age_keys(front));
        lemma_insert_is_ranked(s, order);
    }
}

/// A run that grew by one element holds what it held before, and that element.
pub proof fn lemma_push_contains<T>(s: Seq<T>, a: T, x: T)
    ensures
        s.push(a).contains(x) <==> s.contains(x) || x == a,
{
    if s.contains(x) {
        let k = choose|k: int| 0 <= k < s.len() && s[k] == x;
        assert(s.push(a)[k] == x);
    }
    if x == a {
        assert(s.push(a)[s.len() as int] == x);
    }
    if s.push(a).contains(x) {
        let k = choose|k: int| 0 <= k < s.push(a).len() && s.push(a)[k] == x;
        if k < s.len() {
            assert(s[k] == x);
        }
    }
}

/// A run without its last element holds all it held but, at most, that
/// element.
pub proof fn lemma_drop_last_contains<T>(s: Seq<T>, x: T)
    requires
        s.len() > 0,
    ensures
        s.contains(x) <==> s.drop_last().contains(x) || x == s.last(),
{
    assert(s.drop_last().push(s.last()) =~= s);
    lemma_push_contains(s.drop_last(), s.last(), x);
}

/// Insertion adds one record and loses none.
pub proof fn lemma_insert_contains(sorted: Seq<ItemView>, m: ItemView, x: ItemView)
    ensures
        insert_newest_first(sorted, m).len() == sorted.len() + 1,
        insert_newest_first(sorted, m).contains(x) <==> sorted.contains(x) || x == m,
    decreases sorted.len(),
{
    if sorted.len() == 0 {
        lemma_push_contains(sorted, m, x);
        assert(sorted.push(m) =~= seq![m]);
    } else if sorted.last().timestamp >= m.timestamp {
        lemma_push_contains(sorted, m, x);
    } else {
        lemma_insert_contains(sorted.drop_last(), m, x);
        lemma_push_contains(insert_newest_first(sorted.drop_last(), m), sorted.last(), x);
        lemma_drop_last_contains(sorted, x);
    }
}

/// Ordering keeps every record and adds none.
pub proof fn lemma_newest_first_contains(s: Seq<ItemView>, x: ItemView)
    ensures
        newest_first(s).len() == s.len(),
        newest_first(s).contains(x) <==> s.contains(x),
    decreases s.len(),
{
    if s.len() > 0 {
        lemma_newest_first_contains(s.drop_last(), x);
        lemma_insert_contains(newest_first(s.drop_last()), s.last(), x);
        lemma_drop_last_contains(s, x);
    }
}

/// A filtered run holds exactly the elements that pass the predicate.
pub proof fn lemma_filter_members<T>(s: Seq<T>, pred: spec_fn(T) -> bool, x: T)
    ensures
        s.filter(pred).contains(x) <==> s.contains(x) && pred(x),
        s.filter(pred).len() <= s.len(),
    decreases s.len(),
{
    s.lemma_filter_len(pred);
    if s.len() == 0 {
        assert(s.filter(pred) =~= s);
    } else {
        let front = s.drop_last();
        lemma_filter_members(front, pred, x);
        assert(front.push(s.last()) =~= s);
        front.lemma_filter_push(s.last(), pred);
        lemma_push_contains(front, s.last(), x);
        lemma_push_contains(front.filter(pred), s.last(), x);
    }
}

/// A run whose elements all pass a predicate is its own filtered run.
pub proof fn lemma_filter_keeps_all<T>(s: Seq<T>, pred: spec_fn(T) -> bool)
    requires
        forall|i: int| 0 <= i < s.len() ==> pred(#[trigger] s[i]),
    ensures
        s.filter(pred) == s,
    decreases s.len(),
{
    if s.len() == 0 {
        s.lemma_filter_len(pred);
        assert(s.filter(pred) =~= s);
    } else {
        let front = s.drop_last();
        assert forall|i: int| 0 <= i < front.len() implies pred(#[trigger] front[i]) by {
            assert(front[i] == s[i]);
        }
        lemma_filter_keeps_all(front, pred);
        assert(front.push(s.last()) =~= s);
        front.lemma_filter_push(s.last(), pred);
        assert(pred(s[s.len() - 1]));
    }
}

/// Filtering by a predicate first changes nothing where every element that
/// passes the second predicate passes the first.
pub proof fn lemma_filter_absorbs<T>(s: Seq<T>, p: spec_fn(T) -> bool, q: spec_fn(T) -> bool)
    requires
        forall|x: T| #[trigger] q(x) ==> p(x),
    ensures
        s.filter(p).filter(q) == s.filter(q),
    decreases s.len(),
{
    if s.len() == 0 {
        s.lemma_filter_len(p);
        assert(s.filter(p) =~= s);
    } else {
        let front = s.drop_last();
        lemma_filter_absorbs(front, p, q);
        assert(front.push(s.last()) =~= s);
        front.lemma_filter_push(s.last(), p);
        front.lemma_filter_push(s.last(), q);
        front.filter(p).lemma_filter_push(s.last(), q);
    }
}

/// Every record that a query returns is live and passes the filter; without a
/// limit, every live record that passes the filter is returned.
pub proof fn lemma_recall_members(live: Seq<ItemView>, f: FilterView, x: ItemView)
    ensures
        recall_result(live, f).contains(x) ==> live.contains(x) && passes(x, f),
        f.limit is None ==> (recall_result(live, f).contains(x) <==> live.contains(x) && passes(
            x,
            f,
        )),
        recall_result(live, f).len() <= live.len(),
{
    let hits = live.filter(matching(f));
    lemma_filter_members(live, matching(f), x);
    lemma_newest_first_contains(hits, x);
    let sorted = newest_first(hits);
    let cut = recall_result(live, f);
    if cut.contains(x) {
        let k = choose|k: int| 0 <= k < cut.len() && cut[k] == x;
        assert(sorted[k] == x);
    }
}

/// Decides whether the content holds one of the keywords.
pub fn holds_keyword(content: &str, keywords: &Vec<String>) -> (found: bool)
    ensures
        found == mentions_any(content@, keywords.deep_view()),
{
    let content_lower = to_lowercase(content);
    let mut k: usize = 0;
    while k < keywords.len()
        invariant
            k <= keywords.len(),
            content_lower@ == lowercase_of(content@),
            forall|j: int| 0 <= j < k ==> !mentions(content@, #[trigger] keywords.deep_view()[j]),
        decreases keywords.len() - k,
    {
        let keyword_lower = to_lowercase(keywords[k].as_str());
        assert(keywords.deep_view()[k as int] == keywords[k as int]@);
        if contains_text(content_lower.as_str(), keyword_lower.as_str()) {
            assert(mentions(content@, keywords.deep_view()[k as int]));
            return true;
        }
        k += 1;
    }
    false
}

/// Decides whether a record passes a filter.
pub fn matches_filter(memory: &MemoryItem, filter: &QueryFilter) -> (ok: bool)
    ensures
        ok == passes(memory@, filter@),
{
    if let Some(user_id) = &filter.user_id {
        if !(memory.user_id == *user_id) {
            return false;
        }
    }
    if let Some(session_id) = &filter.session_id {
        if !(memory.session_id == *session_id) {
            return false;
        }
    }
    if let Some(date_from) = filter.date_from {
        if memory.timestamp < date_from {
            return false;
        }
    }
    if let Some(date_to) = filter.date_to {
        if memory.timestamp > date_to {
            return false;
        }
    }
    if let Some(min_importance) = filter.min_importance {
        if memory.importance < min_importance {
            return false;
        }
    }
    if let Some(keywords) = &filter.keywords {
        if !holds_keyword(memory.content.as_str(), keywords) {
            return false;
        }
    }
    true
}

/// Inserting behind a prefix and keeping the rest is inserting into the whole,
/// as long as the rest is older than the new record.
proof fn lemma_insert_splits(s: Seq<ItemView>, m: ItemView, pos: int)
    requires
        0 <= pos <= s.len(),
        forall|j: int| pos <= j < s.len() ==> (#[trigger] s[j]).timestamp < m.timestamp,
    ensures
        insert_newest_first(s, m) == insert_newest_first(s.take(pos), m) + s.skip(pos),
    decreases s.len() - pos,
{
    if pos == s.len() {
        assert(s.take(pos) =~= s);
        assert(insert_newest_first(s, m) + s.skip(pos) =~= insert_newest_first(s, m));
    } else {
        lemma_insert_splits(s.drop_last(), m, pos);
        assert(s.drop_last().take(pos) =~= s.take(pos));
        assert(s.drop_last().skip(pos).push(s.last()) =~= s.skip(pos));
        assert((insert_newest_first(s.take(pos), m) + s.drop_last().skip(pos)).push(s.last())
            =~= insert_newest_first(s.take(pos), m) + s.skip(pos));
    }
}

/// Orders records from newest to oldest, keeping records of one instant in the
/// order in which they came.
pub fn sort_newest_first(items: Vec<MemoryItem>) -> (sorted: Vec<MemoryItem>)
    ensures
        views(sorted@) == newest_first(views(items@)),
{
    let ghost all = views(items@);
    let mut sorted: Vec<MemoryItem> = Vec::new();
    for item in it: items
        invariant
            views(it.seq()) == all,
            views(sorted@) == newest_first(all.take(it.index() as int)),
    {
        let ghost done = it.index() as int;
        let ghost before = views(sorted@);
        let mut pos: usize = sorted.len();
        while pos > 0 && sorted[pos - 1].timestamp < item.timestamp
            invariant
                pos <= sorted.len(),
                before == views(sorted@),
                forall|j: int|
                    pos <= j < before.len() ==> (#[trigger] before[j]).timestamp
                        < item@.timestamp,
            decreases pos,
        {
            pos -= 1;
        }
        proof {
            lemma_insert_splits(before, item@, pos as int);
            let head = before.take(pos as int);
            if pos > 0 {
                assert(head.last() == before[pos - 1]);
            }
            assert(insert_newest_first(head, item@) == head.push(item@));
            assert(all[done] == item@);
            assert(all.take(done + 1).drop_last() =~= all.take(done));
            assert(all.take(done + 1).last() == item@);
        }
        sorted.insert(pos, item);
        proof {
            assert(views(sorted@) =~= before.take(pos as int).push(item@) + before.skip(
                pos as int,
            ));
        }
    }
    assert(all.take(all.len() as int) =~= all);
    sorted
}

/// Cuts a list of records at a filter's limit.
pub fn apply_limit(items: Vec<MemoryItem>, limit: Option<usize>) -> (cut: Vec<MemoryItem>)
    ensures
        views(cut@) == limited(views(items@), limit),
{
    let mut cut = items;
    if let Some(n) = limit {
        if n < cut.len() {
            cut.truncate(n);
            assert(views(cut@) =~= views(items@).take(n as int));
        }
    }
    cut
}

/// Evaluates a filter over records that are given in append order.
pub fn select(items: Vec<MemoryItem>, filter: &QueryFilter) -> (hits: Vec<MemoryItem>)
    ensures
        views(hits@) == recall_result(views(items@), filter@),
{
    let ghost all = views(items@);
    let mut kept: Vec<MemoryItem> = Vec::new();
    for item in it: items
        invariant
            views(it.seq()) == all,
            views(kept@) == all.take(it.index() as int).filter(matching(filter@)),
    {
        let ghost done = it.index() as int;
        proof {
            assert(all[done] == item@);
            assert(all.take(done + 1) =~= all.take(done).push(item@));
            all.take(done).lemma_filter_push(item@, matching(filter@));
        }
        let ghost before = views(kept@);
        if matches_filter(&item, filter) {
            kept.push(item);
            assert(views(kept@) =~= before.push(item@));
        }
    }
    assert(all.take(all.len() as int) =~= all);
    apply_limit(sort_newest_first(kept), filter.limit)
}

} // verus!
