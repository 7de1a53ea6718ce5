//! The session view: a user's live records grouped by session, with the
//! aggregates and the summary that are derived from each group.

use crate::ids::fresh_id;
use crate::query::{lemma_filter_members, lemma_recall_members, recall_result};
use crate::rank::{arranged, descending_order, order_descending};
use crate::record::{
    copy_pairs, lookup, metadata_value, views, FilterView, ItemView, MemoryItem, QueryFilter,
    StoreError,
};
use crate::storage::{lemma_unmarked_is_filter, MemoryStorage};
use crate::summary::{
    earliest, excerpt, excerpt_of, extract_key_points, join_texts, joined, key_topics, latest,
    mean_importance, mean_of, time_span,
};
use crate::text::{
    decimal, decimal_text, distinct, is_tally, lemma_distinct_contains, lemma_distinct_push,
    push_distinct, split_fields, split_on, str_eq, tally_texts, trim_text, trimmed,
};
use crate::time::{age_days, current_millis, days_between};
use vstd::prelude::*;
use vstd::string::*;

verus! {

/// A user's records of one session, seen as a whole.
#[derive(Clone, Debug)]
pub struct Session {
    pub id: String,
    pub user_id: String,
    pub name: Option<String>,
    /// Instant of the oldest record.
    pub created_at: i64,
    /// Instant of the newest record.
    pub last_active: i64,
    pub memory_count: usize,
    pub tags: Vec<String>,
    pub metadata: Vec<(String, String)>,
}

/// The mathematical content of a [`Session`].
pub struct SessionView {
    pub id: Seq<char>,
    pub user_id: Seq<char>,
    pub name: Option<Seq<char>>,
    pub created_at: i64,
    pub last_active: i64,
    pub memory_count: usize,
    pub tags: Seq<Seq<char>>,
    pub metadata: Seq<(Seq<char>, Seq<char>)>,
}

impl View for Session {
    type V = SessionView;

    open spec fn view(&self) -> SessionView {
        SessionView {
            id: self.id@,
            user_id: self.user_id@,
            name: match self.name {
                Some(n) => Some(n@),
                None => None,
            },
            created_at: self.created_at,
            last_active: self.last_active,
            memory_count: self.memory_count,
            tags: self.tags.deep_view(),
            metadata: self.metadata.deep_view(),
        }
    }
}

/// The views of a run of sessions, in order.
pub open spec fn session_views(sessions: Seq<Session>) -> Seq<SessionView> {
    sessions.map_values(|s: Session| s@)
}

/// Selects the records of one session.
pub open spec fn in_session(session_id: Seq<char>) -> spec_fn(ItemView) -> bool {
    |m: ItemView| m.session_id == session_id
}

/// The session ids of a run of records, in order.
pub open spec fn sessions_named(records: Seq<ItemView>) -> Seq<Seq<char>> {
    records.map_values(|m: ItemView| m.session_id)
}

/// The tags that a record names: the comma-separated pieces of its metadata
/// value `tags`, each trimmed.
pub open spec fn tag_list(m: ItemView) -> Seq<Seq<char>> {
    match lookup(m.metadata, "tags"@) {
        Some(value) => split_fields(value, ',').map_values(|f: Seq<char>| trimmed(f)),
        None => Seq::empty(),
    }
}

/// The tags that the records name, record after record.
pub open spec fn all_tags(members: Seq<ItemView>) -> Seq<Seq<char>>
    decreases members.len(),
{
    if members.len() == 0 {
        Seq::empty()
    } else {
        all_tags(members.drop_last()) + tag_list(members.last())
    }
}

/// The session that a non-empty run of records forms.
pub open spec fn session_view(members: Seq<ItemView>, session_id: Seq<char>) -> SessionView {
    SessionView {
        id: session_id,
        user_id: members[0].user_id,
        name: None,
        created_at: earliest(members),
        last_active: latest(members),
        memory_count: members.len() as usize,
        tags: distinct(all_tags(members)),
        metadata: Seq::empty(),
    }
}

/// The session with the given id among the records.
pub open spec fn session_among(records: Seq<ItemView>, session_id: Seq<char>) -> SessionView {
    session_view(records.filter(in_session(session_id)), session_id)
}

/// The sessions that the records form, in the order in which the sessions first
/// appear among them.
pub open spec fn sessions_of(records: Seq<ItemView>) -> Seq<SessionView> {
    distinct(sessions_named(records)).map_values(
        |session_id: Seq<char>| session_among(records, session_id),
    )
}

/// The keys by which sessions are ordered: the instants of last activity.
pub open spec fn activity_keys(sessions: Seq<SessionView>) -> Seq<i128> {
    sessions.map_values(|s: SessionView| s.last_active as i128)
}

/// The sessions from the most recently active to the least; sessions of one
/// instant keep their order.
pub open spec fn most_active_first(sessions: Seq<SessionView>) -> Seq<SessionView> {
    arranged(sessions, descending_order(activity_keys(sessions)))
}

/// The tags that one record names.
pub fn record_tags(memory: &MemoryItem) -> (tags: Vec<String>)
    ensures
        tags.deep_view() == tag_list(memory@),
{
    match metadata_value(&memory.metadata, "tags") {
        None => {
            let tags: Vec<String> = Vec::new();
            assert(tags.deep_view() =~= Seq::<Seq<char>>::empty());
            tags
        },
        Some(value) => {
            let fields = split_on(value.as_str(), ',');
            let ghost pieces = split_fields(value@, ',');
            let mut tags: Vec<String> = Vec::new();
            let mut i: usize = 0;
            while i < fields.len()
                invariant
                    i <= fields.len(),
                    fields.deep_view() == pieces,
                    tags.len() == i,
                    forall|j: int| 0 <= j < i ==> (#[trigger] tags[j])@ == trimmed(pieces[j]),
                decreases fields.len() - i,
            {
                assert(pieces[i as int] == fields[i as int]@);
                tags.push(trim_text(fields[i].as_str()));
                i += 1;
            }
            assert(tags.deep_view() =~= pieces.map_values(|f: Seq<char>| trimmed(f)));
            tags
        },
    }
}

/// A copy of a list of texts.
pub fn copy_texts(texts: &Vec<String>) -> (copy: Vec<String>)
    ensures
        copy.deep_view() == texts.deep_view(),
{
    let mut copy: Vec<String> = Vec::new();
    let mut i: usize = 0;
    while i < texts.len()
        invariant
            i <= texts.len(),
            copy.len() == i,
            forall|j: int| 0 <= j < i ==> (#[trigger] copy[j])@ == texts[j]@,
        decreases texts.len() - i,
    {
        copy.push(texts[i].clone());
        i += 1;
    }
    assert(copy.deep_view() =~= texts.deep_view());
    copy
}

impl Session {
    /// A copy of the session, field for field.
    pub fn duplicate(&self) -> (copy: Session)
        ensures
            copy@ == self@,
    {
        Session {
            id: self.id.clone(),
            user_id: self.user_id.clone(),
            name: match &self.name {
                Some(n) => Some(n.clone()),
                None => None,
            },
            created_at: self.created_at,
            last_active: self.last_active,
            memory_count: self.memory_count,
            tags: copy_texts(&self.tags),
            metadata: copy_pairs(&self.metadata),
        }
    }
}

/// One more record at the end of a run moves its oldest and newest instants
/// only as far as the record's own instant.
pub proof fn lemma_span_push(members: Seq<ItemView>, m: ItemView)
    ensures
        earliest(members.push(m)) == if members.len() == 0 || m.timestamp < earliest(members) {
            m.timestamp
        } else {
            earliest(members)
        },
        latest(members.push(m)) == if members.len() == 0 || m.timestamp > latest(members) {
            m.timestamp
        } else {
            latest(members)
        },
        all_tags(members.push(m)) == all_tags(members) + tag_list(m),
{
    assert(members.push(m).drop_last() =~= members);
}

/// Forms the session with the given id from records, or `None` when no record
/// belongs to it.
pub fn aggregate_session(memories: &Vec<MemoryItem>, session_id: &str) -> (session: Option<
    Session,
>)
    ensures
        match session {
            Some(s) => views(memories@).filter(in_session(session_id@)).len() > 0 && s@
                == session_among(views(memories@), session_id@),
            None => views(memories@).filter(in_session(session_id@)).len() == 0,
        },
{
    let ghost all = views(memories@);
    let ghost pick = in_session(session_id@);
    let mut user_id = String::new();
    let mut created_at: i64 = 0;
    let mut last_active: i64 = 0;
    let mut memory_count: usize = 0;
    let mut tags: Vec<String> = Vec::new();
    let mut i: usize = 0;
    proof {
        all.take(0).lemma_filter_len(pick);
        assert(tags.deep_view() =~= distinct(all_tags(all.take(0).filter(pick))));
    }
    while i < memories.len()
        invariant
            i <= memories.len(),
            all == views(memories@),
            pick == in_session(session_id@),
            memory_count == all.take(i as int).filter(pick).len(),
            memory_count <= i,
            memory_count > 0 ==> user_id@ == all.take(i as int).filter(pick)[0].user_id,
            created_at == earliest(all.take(i as int).filter(pick)),
            last_active == latest(all.take(i as int).filter(pick)),
            tags.deep_view() == distinct(all_tags(all.take(i as int).filter(pick))),
        decreases memories.len() - i,
    {
        let memory = &memories[i];
        let ghost members = all.take(i as int).filter(pick);
        proof {
            assert(all[i as int] == memory@);
            assert(all.take(i + 1) =~= all.take(i as int).push(memory@));
            all.take(i as int).lemma_filter_push(memory@, pick);
            lemma_span_push(members, memory@);
        }
        if str_eq(memory.session_id.as_str(), session_id) {
            if memory_count == 0 {
                user_id = memory.user_id.clone();
                created_at = memory.timestamp;
                last_active = memory.timestamp;
            } else {
                if memory.timestamp < created_at {
                    created_at = memory.timestamp;
                }
                if memory.timestamp > last_active {
                    last_active = memory.timestamp;
                }
            }
            memory_count += 1;
            let more = record_tags(memory);
            let ghost base = all_tags(members);
            let ghost extra = more.deep_view();
            let mut j: usize = 0;
            assert(base + extra.take(0) =~= base);
            while j < more.len()
                invariant
                    j <= more.len(),
                    extra == more.deep_view(),
                    tags.deep_view() == distinct(base + extra.take(j as int)),
                decreases more.len() - j,
            {
                proof {
                    assert(extra[j as int] == more[j as int]@);
                    assert(base + extra.take(j + 1) =~= (base + extra.take(j as int)).push(
                        extra[j as int],
                    ));
                    lemma_distinct_push(base + extra.take(j as int), extra[j as int]);
                }
                push_distinct(&mut tags, more[j].clone());
                j += 1;
            }
            assert(extra.take(j as int) =~= extra);
        }
        i += 1;
    }
    assert(all.take(i as int) =~= all);
    if memory_count == 0 {
        None
    } else {
        let metadata: Vec<(String, String)> = Vec::new();
        assert(metadata.deep_view() =~= Seq::<(Seq<char>, Seq<char>)>::empty());
        Some(
            Session {
                id: String::from_str(session_id),
                user_id,
                name: None,
                created_at,
                last_active,
                memory_count,
                tags,
                metadata,
            },
        )
    }
}

/// The session ids of the records, each once, in the order of first
/// appearance.
pub fn distinct_sessions(memories: &Vec<MemoryItem>) -> (ids: Vec<String>)
    ensures
        ids.deep_view() == distinct(sessions_named(views(memories@))),
{
    let ghost names = sessions_named(views(memories@));
    let mut ids: Vec<String> = Vec::new();
    let mut i: usize = 0;
    assert(ids.deep_view() =~= distinct(names.take(0)));
    while i < memories.len()
        invariant
            i <= memories.len(),
            names == sessions_named(views(memories@)),
            ids.deep_view() == distinct(names.take(i as int)),
        decreases memories.len() - i,
    {
        proof {
            assert(names[i as int] == memories[i as int]@.session_id);
            assert(names.take(i + 1) =~= names.take(i as int).push(names[i as int]));
            lemma_distinct_push(names.take(i as int), names[i as int]);
        }
        push_distinct(&mut ids, memories[i].session_id.clone());
        i += 1;
    }
    assert(names.take(i as int) =~= names);
    ids
}

/// Groups records into sessions, in the order in which the sessions first
/// appear among the records.
pub fn build_sessions(memories: &Vec<MemoryItem>) -> (sessions: Vec<Session>)
    ensures
        session_views(sessions@) == sessions_of(views(memories@)),
{
    let ids = distinct_sessions(memories);
    let ghost all = views(memories@);
    let ghost names = distinct(sessions_named(all));
    let mut sessions: Vec<Session> = Vec::new();
    let mut i: usize = 0;
    while i < ids.len()
        invariant
            i <= ids.len(),
            all == views(memories@),
            ids.deep_view() == names,
            names == distinct(sessions_named(all)),
            sessions.len() == i,
            forall|j: int| 0 <= j < i ==> (#[trigger] sessions[j])@ == session_among(all, names[j]),
        decreases ids.len() - i,
    {
        assert(names[i as int] == ids[i as int]@);
        match aggregate_session(memories, ids[i].as_str()) {
            Some(session) => {
                sessions.push(session);
            },
            None => {
                proof {
                    lemma_named_session_has_member(all, names[i as int]);
                    assert(false);
                }
            },
        }
        i += 1;
    }
    assert(session_views(sessions@) =~= sessions_of(all));
    sessions
}

/// A session id that is named among the records has a record.
pub proof fn lemma_named_session_has_member(records: Seq<ItemView>, session_id: Seq<char>)
    requires
        distinct(sessions_named(records)).contains(session_id),
    ensures
        records.filter(in_session(session_id)).len() > 0,
{
    lemma_distinct_contains(sessions_named(records), session_id);
    let k = choose|k: int|
        0 <= k < sessions_named(records).len() && sessions_named(records)[k] == session_id;
    assert(in_session(session_id)(records[k]));
    records.lemma_filter_contains(in_session(session_id), k);
}

/// Orders sessions from the most recently active to the least.
pub fn sort_by_activity(sessions: Vec<Session>) -> (sorted: Vec<Session>)
    ensures
        session_views(sorted@) == most_active_first(session_views(sessions@)),
{
    let ghost all = session_views(sessions@);
    let mut keys: Vec<i128> = Vec::new();
    let mut i: usize = 0;
    while i < sessions.len()
        invariant
            i <= sessions.len(),
            all == session_views(sessions@),
            keys.len() == i,
            forall|j: int| 0 <= j < i ==> (#[trigger] keys[j]) == all[j].last_active as i128,
        decreases sessions.len() - i,
    {
        keys.push(sessions[i].last_active as i128);
        i += 1;
    }
    assert(keys@ =~= activity_keys(all));
    let order = order_descending(&keys);
    let ghost positions = descending_order(keys@);
    let mut sorted: Vec<Session> = Vec::new();
    let mut k: usize = 0;
    while k < order.len()
        invariant
            k <= order.len(),
            all == session_views(sessions@),
            order.len() == keys.len(),
            keys.len() == sessions.len(),
            order@.map_values(|p: usize| p as int) == positions,
            forall|j: int| 0 <= j < order.len() ==> (#[trigger] order[j]) < keys.len(),
            sorted.len() == k,
            forall|j: int| 0 <= j < k ==> (#[trigger] sorted[j])@ == all[positions[j]],
        decreases order.len() - k,
    {
        assert(positions[k as int] == order[k as int] as int);
        sorted.push(sessions[order[k]].duplicate());
        k += 1;
    }
    assert(session_views(sorted@) =~= arranged(all, positions));
    sorted
}

/// What a session's records say when taken together.
#[derive(Debug)]
pub struct SessionSummary {
    pub session_id: String,
    pub user_id: String,
    pub summary_text: String,
    pub key_topics: Vec<String>,
    pub memory_count: usize,
    /// Instants of the oldest and of the newest record.
    pub date_range: (i64, i64),
    /// Mean importance of the records, in millionths.
    pub importance_score: i32,
}

/// The mathematical content of a [`SessionSummary`].
pub struct SummaryView {
    pub session_id: Seq<char>,
    pub user_id: Seq<char>,
    pub summary_text: Seq<char>,
    pub key_topics: Seq<Seq<char>>,
    pub memory_count: usize,
    pub date_range: (i64, i64),
    pub importance_score: i32,
}

impl View for SessionSummary {
    type V = SummaryView;

    open spec fn view(&self) -> SummaryView {
        SummaryView {
            session_id: self.session_id@,
            user_id: self.user_id@,
            summary_text: self.summary_text@,
            key_topics: self.key_topics.deep_view(),
            memory_count: self.memory_count,
            date_range: self.date_range,
            importance_score: self.importance_score,
        }
    }
}

/// How many characters of the most recent record a summary quotes.
pub const QUOTE_LIMIT: usize = 100;

/// The days that the records span, as a summary words them; nothing for fewer
/// than two records.
pub open spec fn span_text(members: Seq<ItemView>) -> Seq<char> {
    if members.len() > 1 {
        " over "@ + decimal(
            age_days(latest(members) as int, earliest(members) as int) as nat,
        ) + " days"@
    } else {
        Seq::empty()
    }
}

/// The topics, as a summary words them; nothing without topics.
pub open spec fn topics_text(topics: Seq<Seq<char>>) -> Seq<char> {
    if topics.len() > 0 {
        " Key topics: "@ + joined(topics, ", "@) + "."@
    } else {
        Seq::empty()
    }
}

/// The quoted start of the first record's content; nothing without records.
pub open spec fn quote_text(members: Seq<ItemView>) -> Seq<char> {
    if members.len() > 0 {
        excerpt(members[0].content, QUOTE_LIMIT as nat, "..."@)
    } else {
        Seq::empty()
    }
}

/// The text of a summary: the number of records, the days they span, the
/// topics, and the start of the first record, which is the most recent one
/// when the records come newest first.
pub open spec fn simple_summary(members: Seq<ItemView>, topics: Seq<Seq<char>>) -> Seq<char> {
    "Session contains "@ + decimal(members.len()) + " memories"@ + span_text(members) + "."@
        + topics_text(topics) + " Most recent: \""@ + quote_text(members) + "\""@
}

/// The summary of a non-empty run of records.
pub open spec fn summary_view(members: Seq<ItemView>, session_id: Seq<char>) -> SummaryView {
    SummaryView {
        session_id,
        user_id: members[0].user_id,
        summary_text: simple_summary(members, key_topics(members)),
        key_topics: key_topics(members),
        memory_count: members.len() as usize,
        date_range: (earliest(members), latest(members)),
        importance_score: mean_importance(members) as i32,
    }
}

/// Writes the text of a summary.
pub fn create_simple_summary(memories: &Vec<MemoryItem>, key_topics: &Vec<String>) -> (text:
    String)
    ensures
        text@ == simple_summary(views(memories@), key_topics.deep_view()),
{
    let ghost members = views(memories@);
    let mut text = String::from_str("Session contains ");
    text.append(decimal_text(memories.len() as u64).as_str());
    text.append(" memories");
    if memories.len() > 1 {
        let span = time_span(memories);
        let days = days_between(span.1, span.0);
        text.append(" over ");
        text.append(decimal_text(days as u64).as_str());
        text.append(" days");
        assert(text@ =~= "Session contains "@ + decimal(members.len()) + " memories"@ + span_text(
            members,
        ));
    } else {
        assert(text@ =~= "Session contains "@ + decimal(members.len()) + " memories"@ + span_text(
            members,
        ));
    }
    text.append(".");
    let ghost head = text@;
    if key_topics.len() > 0 {
        text.append(" Key topics: ");
        text.append(join_texts(key_topics, ", ").as_str());
        text.append(".");
        assert(text@ =~= head + topics_text(key_topics.deep_view()));
    } else {
        assert(text@ =~= head + topics_text(key_topics.deep_view()));
    }
    text.append(" Most recent: \"");
    if memories.len() > 0 {
        assert(members[0] == memories[0]@);
        text.append(excerpt_of(memories[0].content.as_str(), QUOTE_LIMIT, "...").as_str());
    }
    let ghost quoted = text@;
    text.append("\"");
    assert(quoted =~= head + topics_text(key_topics.deep_view()) + " Most recent: \""@
        + quote_text(members));
    text
}

/// Summarises the records of a session, given newest first. Without records
/// there is nothing to summarise.
pub fn summarize(memories: &Vec<MemoryItem>, session_id: &str) -> (res: Result<
    SessionSummary,
    StoreError,
>)
    ensures
        match res {
            Ok(summary) => memories.len() > 0 && summary@ == summary_view(
                views(memories@),
                session_id@,
            ),
            Err(e) => memories.len() == 0 && e == StoreError::NotFound,
        },
{
    if memories.len() == 0 {
        return Err(StoreError::NotFound);
    }
    assert(views(memories@)[0] == memories[0]@);
    let key_topics = extract_key_points(memories);
    let summary_text = create_simple_summary(memories, &key_topics);
    Ok(
        SessionSummary {
            session_id: String::from_str(session_id),
            user_id: memories[0].user_id.clone(),
            summary_text,
            key_topics,
            memory_count: memories.len(),
            date_range: time_span(memories),
            importance_score: mean_of(memories),
        },
    )
}

/// The filter that accepts the records of one user.
pub open spec fn user_filter(user_id: Seq<char>) -> FilterView {
    FilterView {
        user_id: Some(user_id),
        session_id: None,
        keywords: None,
        date_from: None,
        date_to: None,
        limit: None,
        min_importance: None,
    }
}

/// The filter that accepts the records of one session, whoever the user.
pub open spec fn session_filter(session_id: Seq<char>) -> FilterView {
    FilterView {
        user_id: None,
        session_id: Some(session_id),
        keywords: None,
        date_from: None,
        date_to: None,
        limit: None,
        min_importance: None,
    }
}

/// The filter that accepts the records of one user that hold a keyword.
pub open spec fn search_filter(user_id: Seq<char>, keywords: Seq<Seq<char>>) -> FilterView {
    FilterView {
        user_id: Some(user_id),
        session_id: None,
        keywords: Some(keywords),
        date_from: None,
        date_to: None,
        limit: None,
        min_importance: None,
    }
}

/// Position of the first session with the given id, or the length of the list
/// when no session has it.
pub open spec fn position_of(cache: Seq<SessionView>, id: Seq<char>) -> int
    decreases cache.len(),
{
    if cache.len() == 0 {
        0
    } else if cache[0].id == id {
        0
    } else {
        1 + position_of(cache.skip(1), id)
    }
}

/// The list with the session put in the place of the first session of the same
/// id, or at the end when the list has no such session.
pub open spec fn upsert(cache: Seq<SessionView>, session: SessionView) -> Seq<SessionView> {
    let at = position_of(cache, session.id);
    if 0 <= at < cache.len() {
        cache.update(at, session)
    } else {
        cache.push(session)
    }
}

/// The list without the first session of the given id.
pub open spec fn without(cache: Seq<SessionView>, id: Seq<char>) -> Seq<SessionView> {
    let at = position_of(cache, id);
    if 0 <= at < cache.len() {
        cache.remove(at)
    } else {
        cache
    }
}

/// The session that is remembered under an id, if there is one.
pub open spec fn remembered(cache: Seq<SessionView>, session_id: Seq<char>) -> Option<
    SessionView,
> {
    let at = position_of(cache, session_id);
    if 0 <= at < cache.len() {
        Some(cache[at])
    } else {
        None
    }
}

/// A session that was formed from live records, under the name and with the
/// metadata that are remembered for its id. Nothing else of what is
/// remembered goes into it.
pub open spec fn named(cache: Seq<SessionView>, formed: SessionView) -> SessionView {
    match remembered(cache, formed.id) {
        Some(entry) => SessionView { name: entry.name, metadata: entry.metadata, ..formed },
        None => formed,
    }
}

/// Each of the sessions under its remembered name.
pub open spec fn named_all(cache: Seq<SessionView>, formed: Seq<SessionView>) -> Seq<
    SessionView,
> {
    formed.map_values(|s: SessionView| named(cache, s))
}

/// The live records of a user, newest first.
pub open spec fn user_records(live: Seq<ItemView>, user_id: Seq<char>) -> Seq<ItemView> {
    recall_result(live, user_filter(user_id))
}

/// The live records of a user in a session, newest first.
pub open spec fn members_of(live: Seq<ItemView>, user_id: Seq<char>, session_id: Seq<char>) -> Seq<
    ItemView,
> {
    user_records(live, user_id).filter(in_session(session_id))
}

/// The user to whom a session belongs: the one who opened it, if it is
/// remembered, else the user of the newest live record that names the session.
pub open spec fn owner_of(
    cache: Seq<SessionView>,
    live: Seq<ItemView>,
    session_id: Seq<char>,
) -> Option<Seq<char>> {
    match remembered(cache, session_id) {
        Some(entry) => Some(entry.user_id),
        None => {
            let naming = recall_result(live, session_filter(session_id));
            if naming.len() > 0 {
                Some(naming[0].user_id)
            } else {
                None
            }
        },
    }
}

/// A remembered session that holds no live record.
pub open spec fn idle(entry: SessionView) -> SessionView {
    SessionView { memory_count: 0, ..entry }
}

/// A session as it stands now: formed from the live records that its user
/// has in it, under its remembered name; or, where the user has no live
/// record in it, as it is remembered, without records; or nothing, where it
/// is neither remembered nor named by a live record.
pub open spec fn session_now(
    cache: Seq<SessionView>,
    live: Seq<ItemView>,
    session_id: Seq<char>,
) -> Option<SessionView> {
    match owner_of(cache, live, session_id) {
        None => None,
        Some(user) => if members_of(live, user, session_id).len() > 0 {
            Some(named(cache, session_among(user_records(live, user), session_id)))
        } else {
            match remembered(cache, session_id) {
                Some(entry) => Some(idle(entry)),
                None => None,
            }
        },
    }
}

/// The sessions of a user that are named by the ids, each formed from all
/// live records that the user has in it.
pub open spec fn sessions_under(
    cache: Seq<SessionView>,
    live: Seq<ItemView>,
    user_id: Seq<char>,
    ids: Seq<Seq<char>>,
) -> Seq<SessionView> {
    ids.map_values(
        |session_id: Seq<char>|
            named(cache, session_among(user_records(live, user_id), session_id)),
    )
}

/// What summarising a user's session gives: the summary of the live records
/// that the user has in it, or `NotFound` where there is none.
pub open spec fn summary_now(
    live: Seq<ItemView>,
    user_id: Seq<char>,
    session_id: Seq<char>,
    res: Result<SessionSummary, StoreError>,
) -> bool {
    let members = members_of(live, user_id, session_id);
    match res {
        Ok(summary) => members.len() > 0 && summary@ == summary_view(members, session_id),
        Err(e) => members.len() == 0 && e == StoreError::NotFound,
    }
}

/// The text that an optional string holds.
pub open spec fn name_view(name: Option<String>) -> Option<Seq<char>> {
    match name {
        Some(n) => Some(n@),
        None => None,
    }
}

/// The texts that an optional list holds.
pub open spec fn tags_view(tags: Option<Vec<String>>) -> Option<Seq<Seq<char>>> {
    match tags {
        Some(t) => Some(t.deep_view()),
        None => None,
    }
}

/// The session as it stands after an update at the instant `now`.
pub open spec fn updated(
    session: SessionView,
    name: Option<Seq<char>>,
    tags: Option<Seq<Seq<char>>>,
    now: i64,
) -> SessionView {
    SessionView {
        name: match name {
            Some(n) => Some(n),
            None => session.name,
        },
        tags: match tags {
            Some(t) => t,
            None => session.tags,
        },
        last_active: now,
        ..session
    }
}

/// A session that was opened at `now` and holds no records yet.
pub open spec fn opened(
    id: Seq<char>,
    user_id: Seq<char>,
    name: Option<Seq<char>>,
    now: i64,
) -> SessionView {
    SessionView {
        id,
        user_id,
        name,
        created_at: now,
        last_active: now,
        memory_count: 0,
        tags: Seq::empty(),
        metadata: Seq::empty(),
    }
}

/// Selects the records outside a user's session.
pub open spec fn outside_session(user_id: Seq<char>, session_id: Seq<char>) -> spec_fn(
    ItemView,
) -> bool {
    |m: ItemView| !(m.user_id == user_id && m.session_id == session_id)
}

/// The live records after a session has been deleted: those outside the
/// session of its user, or all where the session belongs to nobody.
pub open spec fn after_deletion(
    cache: Seq<SessionView>,
    live: Seq<ItemView>,
    session_id: Seq<char>,
) -> Seq<ItemView> {
    match owner_of(cache, live, session_id) {
        Some(user) => live.filter(outside_session(user, session_id)),
        None => live,
    }
}

/// The records of one session among records, in their order.
pub fn session_records(items: Vec<MemoryItem>, session_id: &str) -> (members: Vec<MemoryItem>)
    ensures
        views(members@) == views(items@).filter(in_session(session_id@)),
{
    let ghost all = views(items@);
    let ghost pick = in_session(session_id@);
    let mut members: Vec<MemoryItem> = Vec::new();
    proof {
        all.take(0).lemma_filter_len(pick);
        assert(views(members@) =~= all.take(0).filter(pick));
    }
    for item in it: items
        invariant
            views(it.seq()) == all,
            pick == in_session(session_id@),
            views(members@) == all.take(it.index() as int).filter(pick),
    {
        let ghost done = it.index() as int;
        let ghost before = views(members@);
        proof {
            assert(all[done] == item@);
            assert(all.take(done + 1) =~= all.take(done).push(item@));
            all.take(done).lemma_filter_push(item@, pick);
        }
        if str_eq(item.session_id.as_str(), session_id) {
            members.push(item);
            assert(views(members@) =~= before.push(all[done]));
        }
    }
    assert(all.take(all.len() as int) =~= all);
    members
}

/// A record that a search returns is among the records of the user, so that
/// its session holds a record of the user.
pub proof fn lemma_hit_is_a_member(
    live: Seq<ItemView>,
    user_id: Seq<char>,
    keywords: Seq<Seq<char>>,
    session_id: Seq<char>,
)
    requires
        distinct(sessions_named(recall_result(live, search_filter(user_id, keywords)))).contains(
            session_id,
        ),
    ensures
        members_of(live, user_id, session_id).len() > 0,
{
    let hits = recall_result(live, search_filter(user_id, keywords));
    lemma_distinct_contains(sessions_named(hits), session_id);
    let k = choose|k: int|
        0 <= k < sessions_named(hits).len() && sessions_named(hits)[k] == session_id;
    let hit = hits[k];
    assert(hits.contains(hit));
    lemma_recall_members(live, search_filter(user_id, keywords), hit);
    lemma_recall_members(live, user_filter(user_id), hit);
    let records = user_records(live, user_id);
    assert(records.contains(hit));
    assert(in_session(session_id)(hit));
    lemma_filter_members(records, in_session(session_id), hit);
}

/// The users of a list of sessions, in order.
pub open spec fn session_users(cache: Seq<SessionView>) -> Seq<Seq<char>> {
    cache.map_values(|s: SessionView| s.user_id)
}

/// The view of sessions. A session is formed anew from the live records each
/// time it is asked for. The manager remembers only what the records do not
/// hold: which sessions were opened, by whom and under which name.
pub struct SessionManager {
    sessions_cache: Vec<Session>,
}

impl SessionManager {
    /// The remembered sessions, in the order in which they were first
    /// remembered.
    pub closed spec fn cached(&self) -> Seq<SessionView> {
        session_views(self.sessions_cache@)
    }

    /// A manager that remembers no session.
    pub fn new() -> (manager: Self)
        ensures
            manager.cached() == Seq::<SessionView>::empty(),
    {
        let manager = SessionManager { sessions_cache: Vec::new() };
        assert(manager.cached() =~= Seq::<SessionView>::empty());
        manager
    }

    /// Finds the first remembered session with the given id.
    fn find(&self, id: &str) -> (at: usize)
        ensures
            at == position_of(self.cached(), id@),
            at <= self.cached().len(),
            self.cached().len() == self.sessions_cache.len(),
    {
        let ghost cache = self.cached();
        let mut at: usize = 0;
        assert(cache.skip(0) =~= cache);
        while at < self.sessions_cache.len()
            invariant
                at <= self.sessions_cache.len(),
                cache == self.cached(),
                cache.len() == self.sessions_cache.len(),
                position_of(cache, id@) == at + position_of(cache.skip(at as int), id@),
            decreases self.sessions_cache.len() - at,
        {
            assert(cache.skip(at as int)[0] == self.sessions_cache[at as int]@);
            assert(cache.skip(at as int).skip(1) =~= cache.skip(at + 1));
            if str_eq(self.sessions_cache[at].id.as_str(), id) {
                return at;
            }
            at += 1;
        }
        at
    }

    /// Remembers a session, in the place of the one with the same id if there
    /// is one.
    fn remember(&mut self, session: Session)
        ensures
            final(self).cached() == upsert(old(self).cached(), session@),
    {
        let at = self.find(session.id.as_str());
        let ghost before = self.cached();
        if at < self.sessions_cache.len() {
            self.sessions_cache.set(at, session);
            assert(self.cached() =~= before.update(at as int, session@));
        } else {
            self.sessions_cache.push(session);
            assert(self.cached() =~= before.push(session@));
        }
    }

    /// Remembers a session that was opened at `now` under the given id.
    pub fn register_session(
        &mut self,
        id: &str,
        user_id: &str,
        session_name: Option<String>,
        now: i64,
    )
        ensures
            final(self).cached() == upsert(
                old(self).cached(),
                opened(id@, user_id@, name_view(session_name), now),
            ),
    {
        let tags: Vec<String> = Vec::new();
        let metadata: Vec<(String, String)> = Vec::new();
        assert(tags.deep_view() =~= Seq::<Seq<char>>::empty());
        assert(metadata.deep_view() =~= Seq::<(Seq<char>, Seq<char>)>::empty());
        self.remember(
            Session {
                id: String::from_str(id),
                user_id: String::from_str(user_id),
                name: session_name,
                created_at: now,
                last_active: now,
                memory_count: 0,
                tags,
                metadata,
            },
        );
    }

    /// Opens a session for a user, under a fresh id and at the present
    /// instant, and returns the id.
    pub fn create_session(&mut self, user_id: &str, session_name: Option<String>) -> (id:
        String)
        ensures
            id@.len() > 0,
            exists|now: i64|
                final(self).cached() == upsert(
                    old(self).cached(),
                    #[trigger] opened(id@, user_id@, name_view(session_name), now),
                ),
    {
        let id = fresh_id();
        let now = current_millis();
        self.register_session(id.as_str(), user_id, session_name, now);
        id
    }

    /// Puts a session that was formed from live records under its remembered
    /// name.
    fn name_session(&self, session: Session) -> (known: Session)
        ensures
            known@ == named(self.cached(), session@),
    {
        let at = self.find(session.id.as_str());
        if at < self.sessions_cache.len() {
            assert(self.cached()[at as int] == self.sessions_cache[at as int]@);
            Session {
                id: session.id,
                user_id: session.user_id,
                name: match &self.sessions_cache[at].name {
                    Some(n) => Some(n.clone()),
                    None => None,
                },
                created_at: session.created_at,
                last_active: session.last_active,
                memory_count: session.memory_count,
                tags: session.tags,
                metadata: copy_pairs(&self.sessions_cache[at].metadata),
            }
        } else {
            session
        }
    }

    /// The user to whom a session belongs: the one who opened it, else the
    /// user of the newest live record that names it.
    pub fn session_owner(&self, storage: &MemoryStorage, session_id: &str) -> (owner: Option<
        String,
    >)
        ensures
            match owner {
                Some(user) => owner_of(self.cached(), storage.live(), session_id@) == Some(user@),
                None => owner_of(self.cached(), storage.live(), session_id@) is None,
            },
    {
        let at = self.find(session_id);
        if at < self.sessions_cache.len() {
            assert(self.cached()[at as int] == self.sessions_cache[at as int]@);
            return Some(self.sessions_cache[at].user_id.clone());
        }
        let filter = QueryFilter {
            user_id: None,
            session_id: Some(String::from_str(session_id)),
            keywords: None,
            date_from: None,
            date_to: None,
            limit: None,
            min_importance: None,
        };
        assert(filter@ == session_filter(session_id@));
        let naming = storage.recall(filter);
        if naming.len() > 0 {
            assert(views(naming@)[0] == naming[0]@);
            Some(naming[0].user_id.clone())
        } else {
            None
        }
    }

    /// Reads the live records of a user, newest first.
    fn records_of_user(storage: &MemoryStorage, user_id: &str) -> (records: Vec<MemoryItem>)
        ensures
            views(records@) == user_records(storage.live(), user_id@),
    {
        let filter = QueryFilter {
            user_id: Some(String::from_str(user_id)),
            session_id: None,
            keywords: None,
            date_from: None,
            date_to: None,
            limit: None,
            min_importance: None,
        };
        assert(filter@ == user_filter(user_id@));
        storage.recall(filter)
    }

    /// The sessions of a user, formed from the user's live records, the most
    /// recently active first, each under its remembered name. What is
    /// remembered stays as it is.
    pub fn get_user_sessions(&mut self, storage: &MemoryStorage, user_id: &str) -> (sessions:
        Vec<Session>)
        ensures
            session_views(sessions@) == most_active_first(
                named_all(old(self).cached(), sessions_of(user_records(storage.live(), user_id@))),
            ),
            final(self).cached() == old(self).cached(),
    {
        let memories = Self::records_of_user(storage, user_id);
        let formed = build_sessions(&memories);
        let ghost found = session_views(formed@);
        let mut known: Vec<Session> = Vec::new();
        for session in it: formed
            invariant
                session_views(it.seq()) == found,
                known.len() == it.index(),
                forall|j: int|
                    0 <= j < known.len() ==> (#[trigger] known[j])@ == named(
                        self.cached(),
                        found[j],
                    ),
        {
            assert(found[it.index() as int] == session@);
            known.push(self.name_session(session));
        }
        assert(session_views(known@) =~= named_all(self.cached(), found));
        sort_by_activity(known)
    }

    /// One session as it stands now: formed from the live records that its
    /// user has in it, under its remembered name, or, without such records,
    /// as it is remembered. What is remembered stays as it is.
    pub fn get_session(&mut self, storage: &MemoryStorage, session_id: &str) -> (session:
        Option<Session>)
        ensures
            match session {
                Some(s) => Some(s@),
                None => None,
            } == session_now(old(self).cached(), storage.live(), session_id@),
            final(self).cached() == old(self).cached(),
    {
        let owner = match self.session_owner(storage, session_id) {
            Some(user) => user,
            None => {
                return None;
            },
        };
        let memories = Self::records_of_user(storage, owner.as_str());
        match aggregate_session(&memories, session_id) {
            Some(formed) => Some(self.name_session(formed)),
            None => {
                let at = self.find(session_id);
                if at < self.sessions_cache.len() {
                    assert(self.cached()[at as int] == self.sessions_cache[at as int]@);
                    let mut entry = self.sessions_cache[at].duplicate();
                    entry.memory_count = 0;
                    Some(entry)
                } else {
                    None
                }
            },
        }
    }

    /// Renames or retags a remembered session and marks it active at `now`.
    pub fn update_session_at(
        &mut self,
        session_id: &str,
        name: Option<String>,
        tags: Option<Vec<String>>,
        now: i64,
    ) -> (res: Result<(), StoreError>)
        ensures
            match res {
                Ok(_) => {
                    let at = position_of(old(self).cached(), session_id@);
                    &&& 0 <= at < old(self).cached().len()
                    &&& final(self).cached() == old(self).cached().update(
                        at,
                        updated(old(self).cached()[at], name_view(name), tags_view(tags), now),
                    )
                },
                Err(e) => {
                    &&& e == StoreError::NotFound
                    &&& position_of(old(self).cached(), session_id@) == old(self).cached().len()
                    &&& final(self).cached() == old(self).cached()
                },
            },
    {
        let at = self.find(session_id);
        if at >= self.sessions_cache.len() {
            return Err(StoreError::NotFound);
        }
        let ghost before = self.cached();
        let mut session = self.sessions_cache.remove(at);
        assert(session@ == before[at as int]);
        if let Some(n) = name {
            session.name = Some(n);
        }
        if let Some(t) = tags {
            session.tags = t;
        }
        session.last_active = now;
        self.sessions_cache.insert(at, session);
        assert(self.cached() =~= before.update(at as int, session@));
        Ok(())
    }

    /// Renames or retags a remembered session and marks it active at the
    /// present instant. A session that is not remembered is not found.
    pub fn update_session(
        &mut self,
        session_id: &str,
        name: Option<String>,
        tags: Option<Vec<String>>,
    ) -> (res: Result<(), StoreError>)
        ensures
            match res {
                Ok(_) => {
                    let at = position_of(old(self).cached(), session_id@);
                    &&& 0 <= at < old(self).cached().len()
                    &&& exists|now: i64|
                        final(self).cached() == old(self).cached().update(
                            at,
                            #[trigger] updated(
                                old(self).cached()[at],
                                name_view(name),
                                tags_view(tags),
                                now,
                            ),
                        )
                },
                Err(e) => {
                    &&& e == StoreError::NotFound
                    &&& position_of(old(self).cached(), session_id@) == old(self).cached().len()
                    &&& final(self).cached() == old(self).cached()
                },
            },
    {
        let now = current_millis();
        self.update_session_at(session_id, name, tags, now)
    }

    /// Forgets a session and tombstones the live records that its user has in
    /// it. Returns the number of records that went.
    pub fn delete_session(&mut self, storage: &mut MemoryStorage, session_id: &str) -> (gone:
        usize)
        ensures
            final(storage).live() == after_deletion(
                old(self).cached(),
                old(storage).live(),
                session_id@,
            ),
            final(storage).log_view() == old(storage).log_view(),
            final(storage).storage_path_view() == old(storage).storage_path_view(),
            final(storage).index_path_view() == old(storage).index_path_view(),
            gone + final(storage).live().len() == old(storage).live().len(),
            final(self).cached() == without(old(self).cached(), session_id@),
    {
        let owner = self.session_owner(storage, session_id);
        let mut gone: usize = 0;
        if let Some(user) = owner {
            let items = storage.load_live();
            let ghost live = storage.live();
            let ghost keep = outside_session(user@, session_id@);
            let mut marks: Vec<bool> = Vec::new();
            let mut i: usize = 0;
            while i < items.len()
                invariant
                    i <= items.len(),
                    views(items@) == live,
                    keep == outside_session(user@, session_id@),
                    marks.len() == i,
                    forall|j: int| 0 <= j < i ==> marks[j] == !keep(#[trigger] live[j]),
                decreases items.len() - i,
            {
                assert(live[i as int] == items[i as int]@);
                marks.push(
                    items[i].user_id == user && str_eq(items[i].session_id.as_str(), session_id),
                );
                i += 1;
            }
            proof {
                lemma_unmarked_is_filter(live, marks@, keep);
            }
            gone = storage.tombstone_marked(&marks);
        }
        let at = self.find(session_id);
        if at < self.sessions_cache.len() {
            let ghost before = self.cached();
            self.sessions_cache.remove(at);
            assert(self.cached() =~= before.remove(at as int));
        }
        gone
    }

    /// Summarises the live records that a user has in a session. A session
    /// in which the user has no live record is not found.
    pub fn generate_user_session_summary(
        &mut self,
        storage: &MemoryStorage,
        user_id: &str,
        session_id: &str,
    ) -> (res: Result<SessionSummary, StoreError>)
        ensures
            final(self).cached() == old(self).cached(),
            summary_now(storage.live(), user_id@, session_id@, res),
    {
        let memories = Self::records_of_user(storage, user_id);
        let members = session_records(memories, session_id);
        summarize(&members, session_id)
    }

    /// Summarises a session: the live records that its user has in it. A
    /// session that belongs to nobody, or in which its user has no live
    /// record, is not found.
    pub fn generate_session_summary(&mut self, storage: &MemoryStorage, session_id: &str) -> (res:
        Result<SessionSummary, StoreError>)
        ensures
            final(self).cached() == old(self).cached(),
            match owner_of(old(self).cached(), storage.live(), session_id@) {
                Some(user) => summary_now(storage.live(), user, session_id@, res),
                None => res matches Err(e) && e == StoreError::NotFound,
            },
    {
        match self.session_owner(storage, session_id) {
            Some(user) => self.generate_user_session_summary(storage, user.as_str(), session_id),
            None => Err(StoreError::NotFound),
        }
    }

    /// The number of remembered sessions of each user, the users in the order
    /// in which they were first remembered, and behind them the number of all
    /// remembered sessions under the name `total_sessions`. A session is
    /// remembered from when it is opened until it is deleted.
    pub fn get_session_stats(&self) -> (stats: Vec<(String, usize)>)
        ensures
            stats.len() > 0,
            is_tally(stats.deep_view().drop_last(), session_users(self.cached())),
            stats.deep_view().last() == ("total_sessions"@, self.cached().len() as usize),
    {
        let mut users: Vec<String> = Vec::new();
        let mut i: usize = 0;
        while i < self.sessions_cache.len()
            invariant
                i <= self.sessions_cache.len(),
                users.len() == i,
                forall|j: int|
                    0 <= j < i ==> (#[trigger] users[j])@ == self.sessions_cache[j].user_id@,
            decreases self.sessions_cache.len() - i,
        {
            users.push(self.sessions_cache[i].user_id.clone());
            i += 1;
        }
        assert(users.deep_view() =~= session_users(self.cached()));
        let mut stats = tally_texts(&users);
        let ghost counted = stats.deep_view();
        stats.push((String::from_str("total_sessions"), self.sessions_cache.len()));
        assert(stats.deep_view().drop_last() =~= counted);
        stats
    }

    /// The sessions in which a user's live records hold one of the keywords,
    /// the most recently active first. Each session is formed from all the
    /// live records that the user has in it, not only from those that hold a
    /// keyword, and stands under its remembered name. What is remembered
    /// stays as it is.
    pub fn search_sessions(
        &mut self,
        storage: &MemoryStorage,
        user_id: &str,
        keywords: Vec<String>,
    ) -> (sessions: Vec<Session>)
        ensures
            session_views(sessions@) == most_active_first(
                sessions_under(
                    old(self).cached(),
                    storage.live(),
                    user_id@,
                    distinct(
                        sessions_named(
                            recall_result(
                                storage.live(),
                                search_filter(user_id@, keywords.deep_view()),
                            ),
                        ),
                    ),
                ),
            ),
            final(self).cached() == old(self).cached(),
    {
        let ghost wanted = keywords.deep_view();
        let ghost live = storage.live();
        let filter = QueryFilter {
            user_id: Some(String::from_str(user_id)),
            session_id: None,
            keywords: Some(keywords),
            date_from: None,
            date_to: None,
            limit: None,
            min_importance: None,
        };
        assert(filter@ == search_filter(user_id@, wanted));
        let hits = storage.recall(filter);
        let ids = distinct_sessions(&hits);
        let memories = Self::records_of_user(storage, user_id);
        let ghost names = ids.deep_view();
        let mut matching: Vec<Session> = Vec::new();
        let mut i: usize = 0;
        while i < ids.len()
            invariant
                i <= ids.len(),
                live == storage.live(),
                names == ids.deep_view(),
                names == distinct(
                    sessions_named(recall_result(live, search_filter(user_id@, wanted))),
                ),
                views(memories@) == user_records(live, user_id@),
                matching.len() == i,
                forall|j: int|
                    0 <= j < i ==> (#[trigger] matching[j])@ == named(
                        self.cached(),
                        session_among(user_records(live, user_id@), names[j]),
                    ),
            decreases ids.len() - i,
        {
            assert(names[i as int] == ids[i as int]@);
            match aggregate_session(&memories, ids[i].as_str()) {
                Some(formed) => {
                    matching.push(self.name_session(formed));
                },
                None => {
                    proof {
                        assert(names.contains(names[i as int]));
                        lemma_hit_is_a_member(live, user_id@, wanted, names[i as int]);
                        assert(false);
                    }
                },
            }
            i += 1;
        }
        assert(session_views(matching@) =~= sessions_under(
            self.cached(),
            live,
            user_id@,
            names,
        ));
        sort_by_activity(matching)
    }
}

} // verus!
