//! The stored record and the filter that selects records.

use crate::text::str_eq;
use vstd::prelude::*;
use vstd::string::*;

verus! {

/// The importance that stands for 1.0. Importance is counted in millionths, so
/// that 0.3 is written 300_000.
pub const IMPORTANCE_ONE: i32 = 1_000_000;

/// What can go wrong in the store and the engines built on it.
#[derive(Clone, Copy, Debug, PartialEq, Eq, Structural)]
pub enum StoreError {
    /// A record was offered without a user.
    EmptyUser,
    /// The record could not be written.
    StoreIO,
    /// No well-formed record starts at the requested place.
    CorruptRecord,
    /// Nothing is stored for the requested session.
    NotFound,
}

/// One stored fact. Once appended its fields never change.
#[derive(Clone, Debug)]
pub struct MemoryItem {
    pub id: String,
    pub user_id: String,
    pub session_id: String,
    pub content: String,
    /// Key and value pairs; a key is looked up at its first occurrence.
    pub metadata: Vec<(String, String)>,
    /// Creation instant, in milliseconds since the Unix epoch.
    pub timestamp: i64,
    pub ttl_hours: Option<u32>,
    /// In millionths; stored records hold a value from 0 to [`IMPORTANCE_ONE`].
    pub importance: i32,
}

/// The mathematical content of a [`MemoryItem`].
pub struct ItemView {
    pub id: Seq<char>,
    pub user_id: Seq<char>,
    pub session_id: Seq<char>,
    pub content: Seq<char>,
    pub metadata: Seq<(Seq<char>, Seq<char>)>,
    pub timestamp: i64,
    pub ttl_hours: Option<u32>,
    pub importance: i32,
}

impl View for MemoryItem {
    type V = ItemView;

    open spec fn view(&self) -> ItemView {
        ItemView {
            id: self.id@,
            user_id: self.user_id@,
            session_id: self.session_id@,
            content: self.content@,
            metadata: self.metadata.deep_view(),
            timestamp: self.timestamp,
            ttl_hours: self.ttl_hours,
            importance: self.importance,
        }
    }
}

/// The views of a run of records, in order.
pub open spec fn views(items: Seq<MemoryItem>) -> Seq<ItemView> {
    items.map_values(|m: MemoryItem| m@)
}

/// Selects the records of one user.
pub open spec fn of_user(user: Seq<char>) -> spec_fn(ItemView) -> bool {
    |m: ItemView| m.user_id == user
}

/// An importance forced into the range from 0 to [`IMPORTANCE_ONE`].
pub open spec fn clamped(importance: i32) -> i32 {
    if importance < 0 {
        0
    } else if importance > IMPORTANCE_ONE {
        IMPORTANCE_ONE
    } else {
        importance
    }
}

/// A record as the store writes it: under the given id, its importance clamped.
pub open spec fn stamped(m: ItemView, id: Seq<char>) -> ItemView {
    ItemView { id, importance: clamped(m.importance), ..m }
}

/// What the store demands of a record it holds: a user, and an importance in
/// range.
pub open spec fn valid_record(m: ItemView) -> bool {
    &&& m.user_id.len() > 0
    &&& 0 <= m.importance <= IMPORTANCE_ONE
}

/// The value that a list of pairs holds for a key, at the key's first
/// occurrence.
pub open spec fn lookup(pairs: Seq<(Seq<char>, Seq<char>)>, key: Seq<char>) -> Option<Seq<char>>
    decreases pairs.len(),
{
    if pairs.len() == 0 {
        None
    } else if pairs[0].0 == key {
        Some(pairs[0].1)
    } else {
        lookup(pairs.skip(1), key)
    }
}

/// Computes [`lookup`].
pub fn metadata_value(pairs: &Vec<(String, String)>, key: &str) -> (value: Option<String>)
    ensures
        match value {
            Some(v) => lookup(pairs.deep_view(), key@) == Some(v@),
            None => lookup(pairs.deep_view(), key@) is None,
        },
{
    let ghost all = pairs.deep_view();
    let mut i: usize = 0;
    assert(all.skip(0) =~= all);
    while i < pairs.len()
        invariant
            i <= pairs.len(),
            all == pairs.deep_view(),
            lookup(all, key@) == lookup(all.skip(i as int), key@),
        decreases pairs.len() - i,
    {
        assert(all.skip(i as int)[0] == all[i as int]);
        assert(all[i as int] == (pairs[i as int].0@, pairs[i as int].1@));
        assert(all.skip(i as int).skip(1) =~= all.skip(i + 1));
        if str_eq(pairs[i].0.as_str(), key) {
            return Some(pairs[i].1.clone());
        }
        i += 1;
    }
    None
}

/// Computes [`clamped`].
pub fn clamp_importance(importance: i32) -> (c: i32)
    ensures
        c == clamped(importance),
{
    if importance < 0 {
        0
    } else if importance > IMPORTANCE_ONE {
        IMPORTANCE_ONE
    } else {
        importance
    }
}

/// Copies a list of key and value pairs.
pub fn copy_pairs(pairs: &Vec<(String, String)>) -> (copy: Vec<(String, String)>)
    ensures
        copy.deep_view() == pairs.deep_view(),
{
    let mut copy: Vec<(String, String)> = Vec::new();
    let mut i: usize = 0;
    while i < pairs.len()
        invariant
            i <= pairs.len(),
            copy.len() == i,
            forall|j: int| 0 <= j < i ==> copy[j].0@ == pairs[j].0@ && copy[j].1@ == pairs[j].1@,
        decreases pairs.len() - i,
    {
        copy.push((pairs[i].0.clone(), pairs[i].1.clone()));
        i += 1;
    }
    assert(copy.deep_view() =~= pairs.deep_view());
    copy
}

/// Tells whether two lists of pairs hold the same texts in the same order.
pub fn same_pairs(a: &Vec<(String, String)>, b: &Vec<(String, String)>) -> (same: bool)
    ensures
        same == (a.deep_view() == b.deep_view()),
{
    if a.len() != b.len() {
        assert(a.deep_view().len() != b.deep_view().len());
        return false;
    }
    let mut i: usize = 0;
    while i < a.len()
        invariant
            i <= a.len(),
            a.len() == b.len(),
            forall|j: int| 0 <= j < i ==> a[j].0@ == b[j].0@ && a[j].1@ == b[j].1@,
        decreases a.len() - i,
    {
        if !(a[i].0 == b[i].0 && a[i].1 == b[i].1) {
            assert(a.deep_view()[i as int] != b.deep_view()[i as int]);
            return false;
        }
        i += 1;
    }
    assert(a.deep_view() =~= b.deep_view());
    true
}

impl MemoryItem {
    /// A copy of the record, field for field.
    pub fn duplicate(&self) -> (copy: MemoryItem)
        ensures
            copy@ == self@,
    {
        MemoryItem {
            id: self.id.clone(),
            user_id: self.user_id.clone(),
            session_id: self.session_id.clone(),
            content: self.content.clone(),
            metadata: copy_pairs(&self.metadata),
            timestamp: self.timestamp,
            ttl_hours: self.ttl_hours,
            importance: self.importance,
        }
    }

    /// Tells whether two records hold the same values.
    pub fn same_as(&self, other: &MemoryItem) -> (same: bool)
        ensures
            same == (self@ == other@),
    {
        let ttl_same = match (self.ttl_hours, other.ttl_hours) {
            (Some(a), Some(b)) => a == b,
            (None, None) => true,
            _ => false,
        };
        self.id == other.id && self.user_id == other.user_id && self.session_id
            == other.session_id && self.content == other.content && same_pairs(
            &self.metadata,
            &other.metadata,
        ) && self.timestamp == other.timestamp && ttl_same && self.importance == other.importance
    }
}

/// A conjunction of optional predicates on records. A predicate that is `None`
/// accepts every record.
#[derive(Clone, Debug)]
pub struct QueryFilter {
    pub user_id: Option<String>,
    pub session_id: Option<String>,
    /// A record passes when its content holds at least one of these, whatever
    /// the case of the letters.
    pub keywords: Option<Vec<String>>,
    pub date_from: Option<i64>,
    pub date_to: Option<i64>,
    pub limit: Option<usize>,
    pub min_importance: Option<i32>,
}

/// The mathematical content of a [`QueryFilter`].
pub struct FilterView {
    pub user_id: Option<Seq<char>>,
    pub session_id: Option<Seq<char>>,
    pub keywords: Option<Seq<Seq<char>>>,
    pub date_from: Option<i64>,
    pub date_to: Option<i64>,
    pub limit: Option<usize>,
    pub min_importance: Option<i32>,
}

impl View for QueryFilter {
    type V = FilterView;

    open spec fn view(&self) -> FilterView {
        FilterView {
            user_id: match self.user_id {
                Some(u) => Some(u@),
                None => None,
            },
            session_id: match self.session_id {
                Some(s) => Some(s@),
                None => None,
            },
            keywords: match self.keywords {
                Some(k) => Some(k.deep_view()),
                None => None,
            },
            date_from: self.date_from,
            date_to: self.date_to,
            limit: self.limit,
            min_importance: self.min_importance,
        }
    }
}

impl QueryFilter {
    /// The filter that accepts every record.
    pub fn all() -> (f: QueryFilter)
        ensures
            f@ == (FilterView {
                user_id: None,
                session_id: None,
                keywords: None,
                date_from: None,
                date_to: None,
                limit: None,
                min_importance: None,
            }),
    {
        QueryFilter {
            user_id: None,
            session_id: None,
            keywords: None,
            date_from: None,
            date_to: None,
            limit: None,
            min_importance: None,
        }
    }
}

} // verus!
