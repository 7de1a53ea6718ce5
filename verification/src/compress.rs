//! The compression phase of a decay run: every group of at least three old
//! records of little importance, of one user and session, gives way to one
//! compressed record.

use crate::codec::{encoded_record, frame_of};
use crate::decay::DecayPolicy;
use crate::ids::ID_LENGTH;
use crate::query::{
    lemma_filter_members, lemma_newest_first_contains, newest_first, sort_newest_first,
};
use crate::record::{stamped, valid_record, views, ItemView, MemoryItem, StoreError};
use crate::storage::{
    lemma_unmarked_is_filter, lemma_unmarked_len, marked_below, refused, unmarked, MemoryStorage,
};
use crate::summary::{
    earliest, excerpt, excerpt_of, extract_key_points, join_texts, joined, key_topics, latest,
    mean_importance, mean_of, time_span,
};
use crate::text::{decimal, decimal_text};
use crate::time::MILLIS_PER_HOUR;
use vstd::prelude::*;
use vstd::string::*;

verus! {

/// A record that stands for a group of records which it replaced.
#[derive(Debug)]
pub struct CompressedMemory {
    pub original_ids: Vec<String>,
    pub user_id: String,
    pub session_id: String,
    pub summary: String,
    pub key_points: Vec<String>,
    /// Instants of the oldest and of the newest original.
    pub date_range: (i64, i64),
    pub original_count: usize,
    /// Mean importance of the originals, in millionths.
    pub combined_importance: i32,
    pub compressed_at: i64,
}

/// The mathematical content of a [`CompressedMemory`].
pub struct CompressedView {
    pub original_ids: Seq<Seq<char>>,
    pub user_id: Seq<char>,
    pub session_id: Seq<char>,
    pub summary: Seq<char>,
    pub key_points: Seq<Seq<char>>,
    pub date_range: (i64, i64),
    pub original_count: usize,
    pub combined_importance: i32,
    pub compressed_at: i64,
}

impl View for CompressedMemory {
    type V = CompressedView;

    open spec fn view(&self) -> CompressedView {
        CompressedView {
            original_ids: self.original_ids.deep_view(),
            user_id: self.user_id@,
            session_id: self.session_id@,
            summary: self.summary@,
            key_points: self.key_points.deep_view(),
            date_range: self.date_range,
            original_count: self.original_count,
            combined_importance: self.combined_importance,
            compressed_at: self.compressed_at,
        }
    }
}

/// The views of a run of compressed records, in order.
pub open spec fn compressed_views(plans: Seq<CompressedMemory>) -> Seq<CompressedView> {
    plans.map_values(|c: CompressedMemory| c@)
}

/// How many characters of the joined contents a compressed record shows.
pub const SUMMARY_LIMIT: usize = 200;

/// How many originals a group needs to be compressed.
pub const GROUP_MINIMUM: usize = 3;

/// The ids of the records, in order.
pub open spec fn ids_of(members: Seq<ItemView>) -> Seq<Seq<char>> {
    members.map_values(|m: ItemView| m.id)
}

/// The contents of the records, in order.
pub open spec fn contents_of(members: Seq<ItemView>) -> Seq<Seq<char>> {
    members.map_values(|m: ItemView| m.content)
}

/// What stands behind a summary that was cut: how many more records there are
/// than the first.
pub open spec fn cut_mark(count: nat) -> Seq<char> {
    "... [+"@ + decimal((count - 1) as nat) + " more memories]"@
}

/// The summary of a group: the contents joined by bars, cut after two hundred
/// characters.
pub open spec fn group_summary(members: Seq<ItemView>) -> Seq<char> {
    excerpt(joined(contents_of(members), " | "@), SUMMARY_LIMIT as nat, cut_mark(members.len()))
}

/// The compressed record that replaces a non-empty group at the instant `now`.
pub open spec fn compression(members: Seq<ItemView>, now: i64) -> CompressedView {
    CompressedView {
        original_ids: ids_of(members),
        user_id: members[0].user_id,
        session_id: members[0].session_id,
        summary: group_summary(members),
        key_points: key_topics(members),
        date_range: (earliest(members), latest(members)),
        original_count: members.len() as usize,
        combined_importance: mean_importance(members) as i32,
        compressed_at: now,
    }
}

/// The ordinary record as which a compressed record is appended, before the
/// store gives it an id: the summary as content, the instant of compression as
/// timestamp, no TTL, and what else it knows as metadata.
pub open spec fn record_form(c: CompressedView) -> ItemView {
    ItemView {
        id: Seq::empty(),
        user_id: c.user_id,
        session_id: c.session_id,
        content: c.summary,
        metadata: seq![
            ("compressed"@, "true"@),
            ("original_count"@, decimal(c.original_count as nat)),
            ("original_ids"@, joined(c.original_ids, ","@)),
            ("key_points"@, joined(c.key_points, ","@)),
        ],
        timestamp: c.compressed_at,
        ttl_hours: None,
        importance: c.combined_importance,
    }
}

/// Builds the compressed record of a group, whose records are given newest
/// first. There is none for an empty group.
pub fn create_compressed_memory(memories: &Vec<MemoryItem>, now: i64) -> (res: Result<
    CompressedMemory,
    StoreError,
>)
    ensures
        match res {
            Ok(c) => memories.len() > 0 && c@ == compression(views(memories@), now),
            Err(e) => memories.len() == 0 && e == StoreError::NotFound,
        },
{
    if memories.len() == 0 {
        return Err(StoreError::NotFound);
    }
    let ghost members = views(memories@);
    assert(members[0] == memories[0]@);
    let mut original_ids: Vec<String> = Vec::new();
    let mut contents: Vec<String> = Vec::new();
    let mut i: usize = 0;
    while i < memories.len()
        invariant
            i <= memories.len(),
            members == views(memories@),
            original_ids.len() == i,
            contents.len() == i,
            forall|j: int| 0 <= j < i ==> (#[trigger] original_ids[j])@ == members[j].id,
            forall|j: int| 0 <= j < i ==> (#[trigger] contents[j])@ == members[j].content,
        decreases memories.len() - i,
    {
        assert(members[i as int] == memories[i as int]@);
        original_ids.push(memories[i].id.clone());
        contents.push(memories[i].content.clone());
        i += 1;
    }
    assert(original_ids.deep_view() =~= ids_of(members));
    assert(contents.deep_view() =~= contents_of(members));
    let combined = join_texts(&contents, " | ");
    let mut mark = String::from_str("... [+");
    mark.append(decimal_text((memories.len() - 1) as u64).as_str());
    mark.append(" more memories]");
    assert(mark@ =~= cut_mark(members.len()));
    Ok(
        CompressedMemory {
            original_ids,
            user_id: memories[0].user_id.clone(),
            session_id: memories[0].session_id.clone(),
            summary: excerpt_of(combined.as_str(), SUMMARY_LIMIT, mark.as_str()),
            key_points: extract_key_points(memories),
            date_range: time_span(memories),
            original_count: memories.len(),
            combined_importance: mean_of(memories),
            compressed_at: now,
        },
    )
}

impl CompressedMemory {
    /// The ordinary record as which this compressed record is appended.
    pub fn to_record(&self) -> (record: MemoryItem)
        ensures
            record@ == record_form(self@),
    {
        let mut metadata: Vec<(String, String)> = Vec::new();
        metadata.push((String::from_str("compressed"), String::from_str("true")));
        metadata.push(
            (String::from_str("original_count"), decimal_text(self.original_count as u64)),
        );
        metadata.push((String::from_str("original_ids"), join_texts(&self.original_ids, ",")));
        metadata.push((String::from_str("key_points"), join_texts(&self.key_points, ",")));
        assert(metadata.deep_view() =~= record_form(self@).metadata);
        MemoryItem {
            id: String::new(),
            user_id: self.user_id.clone(),
            session_id: self.session_id.clone(),
            content: self.summary.clone(),
            metadata,
            timestamp: self.compressed_at,
            ttl_hours: None,
            importance: self.combined_importance,
        }
    }
}

/// True when the record is old and of little importance: at least half the
/// policy's maximal age old, and below the threshold.
pub open spec fn compressible(m: ItemView, policy: DecayPolicy, now: i64) -> bool {
    &&& m.timestamp <= now - (policy.max_age_hours / 2) * (MILLIS_PER_HOUR as int)
    &&& m.importance < policy.importance_threshold
}

/// Decides [`compressible`].
pub fn is_compressible(memory: &MemoryItem, policy: &DecayPolicy, now: i64) -> (aged: bool)
    ensures
        aged == compressible(memory@, *policy, now),
{
    let half: i128 = (policy.max_age_hours / 2) as i128;
    let cutoff: i128 = now as i128 - half * 3_600_000;
    (memory.timestamp as i128) <= cutoff && memory.importance < policy.importance_threshold
}

/// Selects the compressible records of one user in one session.
pub open spec fn grouped(
    user: Seq<char>,
    session: Seq<char>,
    policy: DecayPolicy,
    now: i64,
) -> spec_fn(ItemView) -> bool {
    |m: ItemView| compressible(m, policy, now) && m.user_id == user && m.session_id == session
}

/// The group to which a record belongs if it is compressible: the
/// compressible records of its user and session.
pub open spec fn group_of(live: Seq<ItemView>, m: ItemView, policy: DecayPolicy, now: i64) -> Seq<
    ItemView,
> {
    live.filter(grouped(m.user_id, m.session_id, policy, now))
}

/// True when the compression phase tombstones the record: it is compressible
/// and its group has at least three records.
pub open spec fn is_compressed(
    live: Seq<ItemView>,
    m: ItemView,
    policy: DecayPolicy,
    now: i64,
) -> bool {
    compressible(m, policy, now) && group_of(live, m, policy, now).len() >= GROUP_MINIMUM
}

/// Selects the records that the compression phase leaves.
pub open spec fn stays(live: Seq<ItemView>, policy: DecayPolicy, now: i64) -> spec_fn(
    ItemView,
) -> bool {
    |m: ItemView| !is_compressed(live, m, policy, now)
}

/// True when the record at `j` belongs to the group of the record at `i`.
pub open spec fn joins(live: Seq<ItemView>, i: int, j: int, policy: DecayPolicy, now: i64) -> bool {
    grouped(live[i].user_id, live[i].session_id, policy, now)(live[j])
}

/// True when the record at `i` is the first of its group.
pub open spec fn leads(live: Seq<ItemView>, i: int, policy: DecayPolicy, now: i64) -> bool {
    &&& compressible(live[i], policy, now)
    &&& forall|j: int| 0 <= j < i ==> !#[trigger] joins(live, i, j, policy, now)
}

/// True when a record of the group of the record at `j` stands below `n`.
pub open spec fn met(live: Seq<ItemView>, j: int, n: int, policy: DecayPolicy, now: i64) -> bool {
    exists|i: int| 0 <= i < n && #[trigger] joins(live, j, i, policy, now)
}

/// True when the mark at `j` is as it has to be once the first `n` records have
/// been looked at: set exactly when the record is to be compressed and a record
/// of its group has been seen.
pub open spec fn mark_settled(
    live: Seq<ItemView>,
    marks: Seq<bool>,
    j: int,
    n: int,
    policy: DecayPolicy,
    now: i64,
) -> bool {
    marks[j] == (is_compressed(live, live[j], policy, now) && met(live, j, n, policy, now))
}

/// The compressed records that the groups among the first `n` records call
/// for: one for each group of at least three records, in the order of the
/// groups' first records, each built from its group taken newest first.
pub open spec fn plans_upto(live: Seq<ItemView>, n: int, policy: DecayPolicy, now: i64) -> Seq<
    CompressedView,
>
    decreases n,
{
    if n <= 0 {
        Seq::empty()
    } else {
        let before = plans_upto(live, n - 1, policy, now);
        if leads(live, n - 1, policy, now) && group_of(live, live[n - 1], policy, now).len()
            >= GROUP_MINIMUM {
            before.push(compression(newest_first(group_of(live, live[n - 1], policy, now)), now))
        } else {
            before
        }
    }
}

/// What the compression phase makes of the live records `before`: the records
/// of every group of at least three are gone, the others stand as they stood,
/// and behind them stands one compressed record for each such group, under an
/// id of its own.
pub open spec fn compresses_to(
    before: Seq<ItemView>,
    policy: DecayPolicy,
    now: i64,
    after: Seq<ItemView>,
) -> bool {
    let survivors = before.filter(stays(before, policy, now));
    let plans = plans_upto(before, before.len() as int, policy, now);
    &&& after.len() == survivors.len() + plans.len()
    &&& after.take(survivors.len() as int) == survivors
    &&& forall|k: int|
        0 <= k < plans.len() ==> (#[trigger] after[survivors.len() + k]).id.len() > 0 && after[
            survivors.len() + k
        ] == stamped(record_form(plans[k]), after[survivors.len() + k].id)
}

/// The frames of the records, one behind the other, as the store appends them.
pub open spec fn frames_of(records: Seq<ItemView>) -> Seq<u8>
    decreases records.len(),
{
    if records.len() == 0 {
        Seq::empty()
    } else {
        frames_of(records.drop_last()) + frame_of(encoded_record(records.last())->0)
    }
}

/// How the compression phase ends where a compressed record cannot be saved:
/// some compressed record was called for; those before the one that was
/// refused stand behind the live records, which are all still there; and the
/// store refused the next one under the id that was generated for it.
pub open spec fn compression_failed(
    before: Seq<ItemView>,
    policy: DecayPolicy,
    now: i64,
    after: Seq<ItemView>,
    log_len: int,
) -> bool {
    let plans = plans_upto(before, before.len() as int, policy, now);
    let done = after.len() - before.len();
    &&& 0 <= done < plans.len()
    &&& after.take(before.len() as int) == before
    &&& forall|k: int|
        0 <= k < done ==> (#[trigger] after[before.len() + k]).id.len() > 0 && after[before.len()
            + k] == stamped(record_form(plans[k]), after[before.len() + k].id)
    &&& exists|id: Seq<char>|
        id.len() == ID_LENGTH && #[trigger] refused(after, log_len, record_form(plans[done]), id)
}

/// Tells whether the record at `i` is the first compressible record of its
/// user and session.
fn is_first_of_group(items: &Vec<MemoryItem>, aged: &Vec<bool>, i: usize) -> (first: bool)
    requires
        i < items.len(),
        aged.len() == items.len(),
    ensures
        first == (forall|j: int|
            0 <= j < i ==> !(aged[j] && (#[trigger] items[j])@.user_id == items[i as int]@.user_id
                && items[j]@.session_id == items[i as int]@.session_id)),
{
    let mut j: usize = 0;
    while j < i
        invariant
            j <= i,
            i < items.len(),
            aged.len() == items.len(),
            forall|k: int|
                0 <= k < j ==> !(aged[k] && (#[trigger] items[k])@.user_id
                    == items[i as int]@.user_id && items[k]@.session_id
                    == items[i as int]@.session_id),
        decreases i - j,
    {
        if aged[j] && items[j].user_id == items[i].user_id && items[j].session_id
            == items[i].session_id {
            return false;
        }
        j += 1;
    }
    true
}

/// Copies the compressible records of the user and session of the record at
/// `i`, and marks them.
fn take_group(items: &Vec<MemoryItem>, aged: &Vec<bool>, i: usize, policy: &DecayPolicy, now: i64)
    -> (members: Vec<MemoryItem>)
    requires
        i < items.len(),
        aged.len() == items.len(),
        forall|j: int|
            0 <= j < items.len() ==> aged[j] == compressible((#[trigger] items[j])@, *policy, now),
    ensures
        views(members@) == group_of(views(items@), items[i as int]@, *policy, now),
{
    let ghost live = views(items@);
    let ghost pick = grouped(items[i as int]@.user_id, items[i as int]@.session_id, *policy, now);
    let mut members: Vec<MemoryItem> = Vec::new();
    let mut j: usize = 0;
    proof {
        live.take(0).lemma_filter_len(pick);
        assert(views(members@) =~= live.take(0).filter(pick));
    }
    while j < items.len()
        invariant
            j <= items.len(),
            i < items.len(),
            aged.len() == items.len(),
            live == views(items@),
            pick == grouped(items[i as int]@.user_id, items[i as int]@.session_id, *policy, now),
            forall|k: int|
                0 <= k < items.len() ==> aged[k] == compressible(
                    (#[trigger] items[k])@,
                    *policy,
                    now,
                ),
            views(members@) == live.take(j as int).filter(pick),
        decreases items.len() - j,
    {
        let ghost before = views(members@);
        proof {
            assert(live[j as int] == items[j as int]@);
            assert(live.take(j + 1) =~= live.take(j as int).push(live[j as int]));
            live.take(j as int).lemma_filter_push(live[j as int], pick);
        }
        if aged[j] && items[j].user_id == items[i].user_id && items[j].session_id
            == items[i].session_id {
            members.push(items[j].duplicate());
            assert(views(members@) =~= before.push(live[j as int]));
        }
        j += 1;
    }
    assert(live.take(j as int) =~= live);
    members
}

/// Marks the compressible records of the user and session of the record at
/// `i`.
fn mark_group(items: &Vec<MemoryItem>, aged: &Vec<bool>, i: usize, marks: &mut Vec<bool>)
    requires
        i < items.len(),
        aged.len() == items.len(),
        old(marks).len() == items.len(),
    ensures
        final(marks).len() == items.len(),
        forall|j: int|
            0 <= j < items.len() ==> final(marks)[j] == (old(marks)[j] || (aged[j] && (
            #[trigger] items[j])@.user_id == items[i as int]@.user_id && items[j]@.session_id
                == items[i as int]@.session_id)),
{
    let ghost start = marks@;
    let mut j: usize = 0;
    while j < items.len()
        invariant
            j <= items.len(),
            i < items.len(),
            aged.len() == items.len(),
            marks.len() == items.len(),
            start.len() == items.len(),
            forall|k: int| j <= k < items.len() ==> marks[k] == start[k],
            forall|k: int|
                0 <= k < j ==> marks[k] == (start[k] || (aged[k] && (#[trigger] items[k])@.user_id
                    == items[i as int]@.user_id && items[k]@.session_id
                    == items[i as int]@.session_id)),
        decreases items.len() - j,
    {
        if aged[j] && items[j].user_id == items[i].user_id && items[j].session_id
            == items[i].session_id {
            marks.set(j, true);
        }
        j += 1;
    }
}

/// There are no more groups to compress than records that are marked for
/// compression, for the first record of each such group is marked.
pub proof fn lemma_leaders_are_marked(
    live: Seq<ItemView>,
    marks: Seq<bool>,
    n: int,
    policy: DecayPolicy,
    now: i64,
)
    requires
        0 <= n <= live.len(),
        marks.len() == live.len(),
        forall|j: int|
            0 <= j < live.len() ==> marks[j] == is_compressed(
                live,
                #[trigger] live[j],
                policy,
                now,
            ),
    ensures
        plans_upto(live, n, policy, now).len() <= marked_below(marks, n),
    decreases n,
{
    if n > 0 {
        lemma_leaders_are_marked(live, marks, n - 1, policy, now);
    }
}

/// Marks that stop short of a run's end leave the end in its place.
pub proof fn lemma_unmarked_tail<T>(a: Seq<T>, b: Seq<T>, marks: Seq<bool>)
    requires
        marks.len() <= a.len(),
    ensures
        unmarked(a + b, marks) == unmarked(a, marks) + b,
    decreases b.len(),
{
    if b.len() == 0 {
        assert(a + b =~= a);
        assert(unmarked(a, marks) + b =~= unmarked(a, marks));
    } else {
        lemma_unmarked_tail(a, b.drop_last(), marks);
        assert((a + b).drop_last() =~= a + b.drop_last());
        assert((unmarked(a, marks) + b.drop_last()).push(b.last()) =~= unmarked(a, marks) + b);
    }
}

/// The compression phase: replaces every group of at least three old records
/// of little importance, of one user and session, by one compressed record,
/// and returns the number of records replaced. The compressed records are
/// appended first and the originals tombstoned last, so that a record that
/// cannot be written ends the phase with every original still live. The phase
/// fails only where the store refuses a compressed record; where no group
/// calls for one, it succeeds and changes nothing.
pub fn compress_old_memories(storage: &mut MemoryStorage, policy: &DecayPolicy, now: i64) -> (res:
    Result<usize, StoreError>)
    ensures
        final(storage).storage_path_view() == old(storage).storage_path_view(),
        final(storage).index_path_view() == old(storage).index_path_view(),
        match res {
            Ok(replaced) => {
                let survivors = old(storage).live().filter(
                    stays(old(storage).live(), *policy, now),
                );
                &&& compresses_to(old(storage).live(), *policy, now, final(storage).live())
                &&& replaced + survivors.len() == old(storage).live().len()
                &&& plans_upto(
                    old(storage).live(),
                    old(storage).live().len() as int,
                    *policy,
                    now,
                ).len() <= replaced
                &&& final(storage).log_view() == old(storage).log_view() + frames_of(
                    final(storage).live().skip(survivors.len() as int),
                )
            },
            Err(e) => {
                &&& e == StoreError::StoreIO
                &&& compression_failed(
                    old(storage).live(),
                    *policy,
                    now,
                    final(storage).live(),
                    final(storage).log_view().len() as int,
                )
                &&& final(storage).log_view() == old(storage).log_view() + frames_of(
                    final(storage).live().skip(old(storage).live().len() as int),
                )
            },
        },
{
    let items = storage.load_live();
    let ghost live = storage.live();
    let n = items.len();
    let mut aged: Vec<bool> = Vec::new();
    let mut marks: Vec<bool> = Vec::new();
    let mut i: usize = 0;
    while i < n
        invariant
            i <= n,
            n == items.len(),
            views(items@) == live,
            aged.len() == i,
            marks.len() == i,
            forall|j: int| 0 <= j < i ==> aged[j] == compressible(#[trigger] live[j], *policy, now),
            forall|j: int| 0 <= j < i ==> !marks[j],
        decreases n - i,
    {
        assert(live[i as int] == items[i as int]@);
        aged.push(is_compressible(&items[i], policy, now));
        marks.push(false);
        i += 1;
    }
    let mut plans: Vec<CompressedMemory> = Vec::new();
    assert(compressed_views(plans@) =~= plans_upto(live, 0, *policy, now));
    i = 0;
    while i < n
        invariant
            i <= n,
            n == items.len(),
            views(items@) == live,
            aged.len() == n,
            marks.len() == n,
            forall|j: int| 0 <= j < n ==> aged[j] == compressible(#[trigger] live[j], *policy, now),
            forall|j: int|
                0 <= j < n ==> valid_record(#[trigger] items[j]@),
            forall|j: int|
                0 <= j < n ==> #[trigger] mark_settled(live, marks@, j, i as int, *policy, now),
            compressed_views(plans@) == plans_upto(live, i as int, *policy, now),
            forall|k: int|
                0 <= k < plans.len() ==> (#[trigger] plans[k])@.user_id.len() > 0,
        decreases n - i,
    {
        let ghost before = marks@;
        let ghost planned = compressed_views(plans@);
        proof {
            assert forall|j: int| 0 <= j < n implies live[j] == #[trigger] items[j]@ by {}
        }
        if aged[i] {
            let first = is_first_of_group(&items, &aged, i);
            proof {
                assert(first == leads(live, i as int, *policy, now)) by {
                    if first {
                        assert forall|j: int| 0 <= j < i implies !#[trigger] joins(
                            live,
                            i as int,
                            j,
                            *policy,
                            now,
                        ) by {
                            assert(live[j] == items[j]@);
                        }
                    } else {
                        let j = choose|j: int|
                            0 <= j < i && (aged[j] && (#[trigger] items[j])@.user_id
                                == items[i as int]@.user_id && items[j]@.session_id
                                == items[i as int]@.session_id);
                        assert(live[j] == items[j]@);
                        assert(joins(live, i as int, j, *policy, now));
                    }
                }
            }
            if first {
                let members = take_group(&items, &aged, i, policy, now);
                if members.len() >= GROUP_MINIMUM {
                    mark_group(&items, &aged, i, &mut marks);
                    let group = sort_newest_first(members);
                    match create_compressed_memory(&group, now) {
                        Ok(plan) => {
                            proof {
                                let ordered = views(group@);
                                lemma_newest_first_contains(
                                    group_of(live, live[i as int], *policy, now),
                                    ordered[0],
                                );
                                assert(ordered.contains(ordered[0]));
                                lemma_filter_members(
                                    live,
                                    grouped(
                                        live[i as int].user_id,
                                        live[i as int].session_id,
                                        *policy,
                                        now,
                                    ),
                                    ordered[0],
                                );
                                assert(ordered[0].user_id == live[i as int].user_id);
                            }
                            plans.push(plan);
                            assert(compressed_views(plans@) =~= planned.push(plan@));
                        },
                        Err(_) => {
                            assert(false);
                        },
                    }
                }
            }
        }
        i += 1;
        proof {
            let last = i - 1;
            assert forall|j: int| 0 <= j < n implies #[trigger] mark_settled(
                live,
                marks@,
                j,
                i as int,
                *policy,
                now,
            ) by {
                let was = met(live, j, last, *policy, now);
                assert(mark_settled(live, before, j, last, *policy, now));
                let new_member = joins(live, j, last, *policy, now);
                assert(live[j] == items[j]@);
                assert(live[last] == items[last]@);
                assert(before[j] == (is_compressed(live, live[j], *policy, now) && was));
                assert(met(live, j, i as int, *policy, now) == (was || new_member)) by {
                    if was {
                        let w = choose|w: int| 0 <= w < last && #[trigger] joins(
                            live,
                            j,
                            w,
                            *policy,
                            now,
                        );
                        assert(joins(live, j, w, *policy, now));
                    }
                    if met(live, j, i as int, *policy, now) {
                        let w = choose|w: int| 0 <= w < i && #[trigger] joins(
                            live,
                            j,
                            w,
                            *policy,
                            now,
                        );
                        if w < last {
                            assert(joins(live, j, w, *policy, now));
                        }
                    }
                }
                if !compressible(live[j], *policy, now) {
                    assert(marks[j] == before[j]);
                } else if new_member {
                    if !leads(live, last, *policy, now) {
                        let w = choose|w: int| 0 <= w < last && #[trigger] joins(
                            live,
                            last,
                            w,
                            *policy,
                            now,
                        );
                        assert(joins(live, j, w, *policy, now));
                        assert(was);
                        assert(marks[j] == before[j]);
                    } else if group_of(live, live[last], *policy, now).len() >= GROUP_MINIMUM {
                        assert(group_of(live, live[j], *policy, now) == group_of(
                            live,
                            live[last],
                            *policy,
                            now,
                        ));
                        assert(marks[j]);
                    } else {
                        assert(group_of(live, live[j], *policy, now) == group_of(
                            live,
                            live[last],
                            *policy,
                            now,
                        ));
                        assert(marks[j] == before[j]);
                    }
                } else {
                    assert(marks[j] == before[j]);
                }
            }
        }
    }
    proof {
        assert forall|j: int| 0 <= j < n implies marks[j] == !stays(live, *policy, now)(
            #[trigger] live[j],
        ) by {
            assert(mark_settled(live, marks@, j, n as int, *policy, now));
            if is_compressed(live, live[j], *policy, now) {
                assert(joins(live, j, j, *policy, now));
            }
        }
        lemma_unmarked_is_filter(live, marks@, stays(live, *policy, now));
        lemma_leaders_are_marked(live, marks@, n as int, *policy, now);
    }
    let ghost targets = compressed_views(plans@);
    let mut k: usize = 0;
    proof {
        assert(storage.live().skip(live.len() as int) =~= Seq::<ItemView>::empty());
        assert(storage.log_view() =~= old(storage).log_view() + frames_of(
            storage.live().skip(live.len() as int),
        ));
    }
    while k < plans.len()
        invariant
            k <= plans.len(),
            targets == compressed_views(plans@),
            live == old(storage).live(),
            forall|p: int| 0 <= p < plans.len() ==> (#[trigger] plans[p])@.user_id.len() > 0,
            storage.storage_path_view() == old(storage).storage_path_view(),
            storage.index_path_view() == old(storage).index_path_view(),
            storage.live().len() == live.len() + k,
            storage.live().take(live.len() as int) == live,
            targets == plans_upto(live, live.len() as int, *policy, now),
            storage.log_view() == old(storage).log_view() + frames_of(
                storage.live().skip(live.len() as int),
            ),
            forall|p: int|
                0 <= p < k ==> (#[trigger] storage.live()[live.len() + p]).id.len() > 0
                    && storage.live()[live.len() + p] == stamped(
                    record_form(targets[p]),
                    storage.live()[live.len() + p].id,
                ),
        decreases plans.len() - k,
    {
        let record = plans[k].to_record();
        let ghost held = storage.live();
        let ghost held_log = storage.log_view();
        assert(targets[k as int] == plans[k as int]@);
        assert(record@ == record_form(targets[k as int]));
        match storage.save(record) {
            Ok(_) => {
                proof {
                    let grown = storage.live();
                    assert(grown.take(live.len() as int) =~= held.take(live.len() as int));
                    assert(grown.skip(live.len() as int).drop_last() =~= held.skip(
                        live.len() as int,
                    ));
                    assert(grown.skip(live.len() as int).last() == grown[grown.len() - 1]);
                    assert(storage.log_view() == held_log + frame_of(
                        encoded_record(grown[grown.len() - 1])->0,
                    ));
                    assert(storage.log_view() =~= old(storage).log_view() + frames_of(
                        grown.skip(live.len() as int),
                    ));
                    assert forall|p: int| 0 <= p < k + 1 implies (#[trigger] grown[live.len()
                        + p]).id.len() > 0 && grown[live.len() + p] == stamped(
                        record_form(targets[p]),
                        grown[live.len() + p].id,
                    ) by {
                        if p < k {
                            assert(grown[live.len() + p] == held[live.len() + p]);
                        }
                    }
                }
            },
            Err(_) => {
                proof {
                    assert(storage.live() == held);
                    assert(compression_failed(
                        live,
                        *policy,
                        now,
                        held,
                        storage.log_view().len() as int,
                    ));
                }
                return Err(StoreError::StoreIO);
            },
        }
        k += 1;
    }
    let ghost grown = storage.live();
    let ghost fresh = grown.skip(live.len() as int);
    let replaced = storage.tombstone_marked(&marks);
    proof {
        assert(grown =~= live + fresh);
        lemma_unmarked_tail(live, fresh, marks@);
        lemma_unmarked_len(live, marks@);
        lemma_marked_below_prefix(marks@, live.len() as int, grown.len() as int);
        let survivors = live.filter(stays(live, *policy, now));
        let after = storage.live();
        assert(after == survivors + fresh);
        assert(after.take(survivors.len() as int) =~= survivors);
        assert(after.skip(survivors.len() as int) =~= fresh);
        assert forall|p: int| 0 <= p < targets.len() implies (#[trigger] after[survivors.len()
            + p]).id.len() > 0 && after[survivors.len() + p] == stamped(
            record_form(targets[p]),
            after[survivors.len() + p].id,
        ) by {
            assert(after[survivors.len() + p] == fresh[p]);
            assert(fresh[p] == grown[live.len() + p]);
        }
    }
    Ok(replaced)
}

/// No mark stands beyond the end of the marks.
proof fn lemma_marked_below_prefix(marks: Seq<bool>, n: int, m: int)
    requires
        marks.len() <= n <= m,
    ensures
        marked_below(marks, m) == marked_below(marks, n),
    decreases m - n,
{
    if n < m {
        lemma_marked_below_prefix(marks, n, m - 1);
    }
}

} // verus!
