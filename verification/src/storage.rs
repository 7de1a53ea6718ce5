//! The record store: an append-only log of framed records and the index of the
//! live ones, in the order in which they were appended.

use crate::codec::{
    decode_record, encode_record, encoded_record, frame_bounds, frame_bytes, frame_end, frame_fits,
    frame_of, lemma_append_keeps_frame, lemma_frame_at_end, lemma_frame_copied, read_record,
    record_at, storable,
};
use crate::ids::{fresh_id, ID_LENGTH};
use crate::index::{
    entry_of, format_index, index_file, index_fits, index_matches_log, lemma_scan_finds_tiles,
    loaded_index, offsets_of, parse_index, scan_log, scanned, tiles,
};
use crate::query::{lemma_filter_absorbs, matching, recall_result, select};
use crate::record::{
    clamp_importance, of_user, stamped, valid_record, views, FilterView, ItemView, MemoryItem,
    QueryFilter, StoreError,
};
use crate::text::{is_tally, str_eq, tally_texts};
use crate::time::{current_millis, elapsed, has_elapsed};
use vstd::slice::slice_subrange;
use vstd::prelude::*;
use vstd::string::*;

verus! {

/// One live record: its user and the offset of its frame in the log.
struct IndexEntry {
    user_id: String,
    offset: usize,
}

/// The records that the entries point at, in the entries' order.
pub open spec fn records_of(entries: Seq<(Seq<char>, usize)>, log: Seq<u8>) -> Seq<ItemView> {
    Seq::new(entries.len(), |i: int| record_at(log, entries[i].1 as int)->0)
}

/// The users of a run of records, in order.
pub open spec fn users_of(items: Seq<ItemView>) -> Seq<Seq<char>> {
    items.map_values(|m: ItemView| m.user_id)
}

/// Position of the first record with the given id, or the length of the run
/// when no record has it.
pub open spec fn first_with_id(items: Seq<ItemView>, id: Seq<char>) -> int
    decreases items.len(),
{
    if items.len() == 0 {
        0
    } else if items[0].id == id {
        0
    } else {
        1 + first_with_id(items.skip(1), id)
    }
}

/// The first record with the given id stands at its position, and no earlier
/// record has that id.
pub proof fn lemma_first_with_id(items: Seq<ItemView>, id: Seq<char>)
    ensures
        0 <= first_with_id(items, id) <= items.len(),
        first_with_id(items, id) < items.len() ==> items[first_with_id(items, id)].id == id,
        forall|j: int| 0 <= j < first_with_id(items, id) ==> (#[trigger] items[j]).id != id,
        id_taken(items, id) <==> first_with_id(items, id) < items.len(),
    decreases items.len(),
{
    if items.len() > 0 && items[0].id != id {
        let rest = items.skip(1);
        lemma_first_with_id(rest, id);
        assert forall|j: int| 0 <= j < first_with_id(items, id) implies (#[trigger] items[j]).id
            != id by {
            if j > 0 {
                assert(rest[j - 1] == items[j]);
            }
        }
        if first_with_id(items, id) < items.len() {
            assert(items[first_with_id(items, id)] == rest[first_with_id(rest, id)]);
        }
        if id_taken(items, id) {
            let k = choose|k: int| 0 <= k < items.len() && (#[trigger] items[k]).id == id;
            assert(rest[k - 1] == items[k]);
        }
    }
}

/// True when a record among `live` has the given id.
pub open spec fn id_taken(live: Seq<ItemView>, id: Seq<char>) -> bool {
    exists|k: int| 0 <= k < live.len() && (#[trigger] live[k]).id == id
}

/// True when the store refuses to save a record under a generated id: a live
/// record has the id already, or the record cannot be written under it and
/// read back.
pub open spec fn refused(
    live: Seq<ItemView>,
    log_len: int,
    memory: ItemView,
    id: Seq<char>,
) -> bool {
    id_taken(live, id) || !storable(stamped(memory, id), log_len)
}

/// True when position `i` carries a mark.
pub open spec fn marked(marks: Seq<bool>, i: int) -> bool {
    0 <= i < marks.len() && marks[i]
}

/// What is left of `s` when the marked positions are taken out. A position
/// without a mark stays.
pub open spec fn unmarked<T>(s: Seq<T>, marks: Seq<bool>) -> Seq<T>
    decreases s.len(),
{
    if s.len() == 0 {
        s
    } else {
        let rest = unmarked(s.drop_last(), marks);
        if marked(marks, s.len() - 1) {
            rest
        } else {
            rest.push(s.last())
        }
    }
}

/// The number of marked positions below `n`.
pub open spec fn marked_below(marks: Seq<bool>, n: int) -> nat
    decreases n,
{
    if n <= 0 {
        0
    } else {
        marked_below(marks, n - 1) + if marked(marks, n - 1) {
            1nat
        } else {
            0nat
        }
    }
}

/// Taking marked positions out of a run leaves as many as were not marked.
pub proof fn lemma_unmarked_len<T>(s: Seq<T>, marks: Seq<bool>)
    ensures
        unmarked(s, marks).len() + marked_below(marks, s.len() as int) == s.len(),
    decreases s.len(),
{
    if s.len() > 0 {
        lemma_unmarked_len(s.drop_last(), marks);
    }
}

/// Marks that follow a predicate take out exactly the records that satisfy it.
pub proof fn lemma_unmarked_is_filter<T>(
    s: Seq<T>,
    marks: Seq<bool>,
    keep: spec_fn(T) -> bool,
)
    requires
        marks.len() == s.len(),
        forall|i: int| 0 <= i < s.len() ==> marks[i] == !keep(#[trigger] s[i]),
    ensures
        unmarked(s, marks) == s.filter(keep),
    decreases s.len(),
{
    if s.len() > 0 {
        let front = s.drop_last();
        let front_marks = marks.drop_last();
        assert forall|i: int| 0 <= i < front.len() implies front_marks[i] == !keep(
            #[trigger] front[i],
        ) by {
            assert(front[i] == s[i]);
        }
        lemma_unmarked_is_filter(front, front_marks, keep);
        assert forall|i: int| 0 <= i < front.len() implies marked(marks, i) == marked(
            front_marks,
            i,
        ) by {}
        lemma_unmarked_ignores_tail(front, marks, front_marks);
        assert(unmarked(front, marks) == front.filter(keep));
        assert(marks[s.len() - 1] == !keep(s[s.len() - 1]));
        assert(marked(marks, s.len() - 1) == !keep(s.last()));
        assert(front.push(s.last()) =~= s);
        front.lemma_filter_push(s.last(), keep);
    } else {
        s.lemma_filter_len(keep);
        assert(s.filter(keep) =~= s);
    }
}

/// Only the marks below the length of the run count.
pub proof fn lemma_unmarked_ignores_tail<T>(s: Seq<T>, a: Seq<bool>, b: Seq<bool>)
    requires
        forall|i: int| 0 <= i < s.len() ==> marked(a, i) == marked(b, i),
    ensures
        unmarked(s, a) == unmarked(s, b),
    decreases s.len(),
{
    if s.len() > 0 {
        lemma_unmarked_ignores_tail(s.drop_last(), a, b);
    }
}

/// The index entries as pairs of user and offset.
spec fn entry_views(index: Seq<IndexEntry>) -> Seq<(Seq<char>, usize)> {
    index.map_values(|e: IndexEntry| (e.user_id@, e.offset))
}

/// True when the record has a TTL and the TTL has run out as of `now`.
pub open spec fn ttl_over(m: ItemView, now: i64) -> bool {
    match m.ttl_hours {
        Some(ttl) => elapsed(now as int, m.timestamp as int, ttl as int),
        None => false,
    }
}

/// Selects the records whose TTL, if they have one, has not run out.
pub open spec fn within_ttl(now: i64) -> spec_fn(ItemView) -> bool {
    |m: ItemView| !ttl_over(m, now)
}

/// The index with which a store opens: the one that the index file holds if it
/// can be read, was written for a log of this length, and fits the log; else
/// the one that a scan of the log finds.
pub open spec fn recovered(log: Seq<u8>, index_text: Option<Seq<char>>) -> Seq<
    (Seq<char>, usize),
> {
    match index_text {
        Some(text) => match loaded_index(text) {
            Some((log_len, entries)) => if log_len == log.len() && index_matches_log(
                entries,
                log,
            ) {
                entries
            } else {
                scanned(log, 0)
            },
            None => scanned(log, 0),
        },
        None => scanned(log, 0),
    }
}

/// The frames of the entries, one behind the other.
pub open spec fn packed_log(entries: Seq<(Seq<char>, usize)>, log: Seq<u8>) -> Seq<u8>
    decreases entries.len(),
{
    if entries.len() == 0 {
        Seq::empty()
    } else {
        packed_log(entries.drop_last(), log) + log.subrange(
            entries.last().1 as int,
            frame_end(log, entries.last().1 as int),
        )
    }
}

/// The entries as they point into the packed log.
pub open spec fn packed_entries(entries: Seq<(Seq<char>, usize)>, log: Seq<u8>) -> Seq<
    (Seq<char>, usize),
>
    decreases entries.len(),
{
    if entries.len() == 0 {
        Seq::empty()
    } else {
        packed_entries(entries.drop_last(), log).push(
            (entries.last().0, packed_log(entries.drop_last(), log).len() as usize),
        )
    }
}

/// What a save does. A record is saved under its own id, or, where it has
/// none, under a generated id of [`ID_LENGTH`] characters that no live record
/// has. On success the log grows by the record's frame, and the index and the
/// live records by the record, stamped with the id and its importance clamped.
/// A record without a user is refused, and so is one that cannot be written
/// and read back; a refusal leaves the store as it was.
pub open spec fn saved(
    before: MemoryStorage,
    memory: ItemView,
    res: Result<String, StoreError>,
    after: MemoryStorage,
) -> bool {
    let log_len = before.log_view().len() as int;
    &&& after.storage_path_view() == before.storage_path_view()
    &&& after.index_path_view() == before.index_path_view()
    &&& match res {
        Ok(id) => {
            let stored = stamped(memory, id@);
            &&& memory.user_id.len() > 0
            &&& id@.len() > 0
            &&& memory.id.len() > 0 ==> id@ == memory.id
            &&& memory.id.len() == 0 ==> id@.len() == ID_LENGTH && !id_taken(before.live(), id@)
            &&& storable(stored, log_len)
            &&& after.log_view() == before.log_view() + frame_of(encoded_record(stored)->0)
            &&& after.entries() == before.entries().push((memory.user_id, log_len as usize))
            &&& after.live() == before.live().push(stored)
            &&& tiles(before.entries(), before.log_view()) ==> tiles(
                after.entries(),
                after.log_view(),
            )
        },
        Err(e) => {
            &&& after.log_view() == before.log_view()
            &&& after.entries() == before.entries()
            &&& after.live() == before.live()
            &&& e == if memory.user_id.len() == 0 {
                StoreError::EmptyUser
            } else {
                StoreError::StoreIO
            }
            &&& memory.user_id.len() > 0 && memory.id.len() > 0 ==> !storable(
                stamped(memory, memory.id),
                log_len,
            )
            &&& memory.user_id.len() > 0 && memory.id.len() == 0 ==> exists|id: Seq<char>|
                id.len() == ID_LENGTH && #[trigger] refused(before.live(), log_len, memory, id)
        },
    }
}

/// The store. It owns the image of the log and the index of its live records.
/// Every indexed offset holds a valid record of the user that the index names,
/// and the index lists the records in the order in which they were appended.
pub struct MemoryStorage {
    storage_path: String,
    index_path: String,
    log: Vec<u8>,
    index: Vec<IndexEntry>,
}

impl MemoryStorage {
    /// The bytes of the log.
    pub closed spec fn log_view(&self) -> Seq<u8> {
        self.log@
    }

    /// The index: user and offset of each live record, in append order.
    pub closed spec fn entries(&self) -> Seq<(Seq<char>, usize)> {
        entry_views(self.index@)
    }

    /// Where the log is kept.
    pub closed spec fn storage_path_view(&self) -> Seq<char> {
        self.storage_path@
    }

    /// Where the index is kept.
    pub closed spec fn index_path_view(&self) -> Seq<char> {
        self.index_path@
    }

    /// The validity that every store keeps at all times.
    #[verifier::type_invariant]
    pub open spec fn inv(&self) -> bool {
        index_matches_log(self.entries(), self.log_view())
    }

    /// The live records, in append order.
    pub open spec fn live(&self) -> Seq<ItemView> {
        records_of(self.entries(), self.log_view())
    }

    /// A store without paths or records. It stands in for a store while a
    /// method takes that store apart to rebuild it.
    fn blank() -> (store: Self)
        ensures
            store.storage_path_view() == Seq::<char>::empty(),
            store.index_path_view() == Seq::<char>::empty(),
            store.log_view() == Seq::<u8>::empty(),
            store.entries() == Seq::<(Seq<char>, usize)>::empty(),
            store.live() == Seq::<ItemView>::empty(),
    {
        let store = MemoryStorage {
            storage_path: String::new(),
            index_path: String::new(),
            log: Vec::new(),
            index: Vec::new(),
        };
        assert(store.log_view() =~= Seq::<u8>::empty());
        assert(store.entries() =~= Seq::<(Seq<char>, usize)>::empty());
        assert(store.live() =~= Seq::<ItemView>::empty());
        store
    }

    /// An empty store whose log and index are to be kept in `storage_dir`.
    pub fn new(storage_dir: &str) -> (store: Self)
        ensures
            store.log_view() == Seq::<u8>::empty(),
            store.entries() == Seq::<(Seq<char>, usize)>::empty(),
            store.live() == Seq::<ItemView>::empty(),
            tiles(store.entries(), store.log_view()),
            store.storage_path_view() == storage_dir@ + "/memories.bin"@,
            store.index_path_view() == storage_dir@ + "/index"@,
    {
        let store = MemoryStorage {
            storage_path: String::from_str(storage_dir).concat("/memories.bin"),
            index_path: String::from_str(storage_dir).concat("/index"),
            log: Vec::new(),
            index: Vec::new(),
        };
        assert(store.log_view() =~= Seq::<u8>::empty());
        assert(store.entries() =~= Seq::<(Seq<char>, usize)>::empty());
        assert(store.live() =~= Seq::<ItemView>::empty());
        store
    }

    /// Opens a store on what its directory holds: the bytes of the log and, if
    /// there is one, the text of the index file. The index file is used if it
    /// can be read, was written for a log of this length, and fits the log;
    /// else the index is rebuilt from the log.
    pub fn open(storage_dir: &str, log: Vec<u8>, index_text: Option<&str>) -> (store: Self)
        ensures
            store.log_view() == log@,
            store.entries() == recovered(
                log@,
                match index_text {
                    Some(text) => Some(text@),
                    None => None,
                },
            ),
            store.storage_path_view() == storage_dir@ + "/memories.bin"@,
            store.index_path_view() == storage_dir@ + "/index"@,
    {
        let loaded = match index_text {
            Some(text) => parse_index(text),
            None => None,
        };
        let entries = match loaded {
            Some((log_len, found)) => {
                if log_len == log.len() && index_fits(&found, log.as_slice()) {
                    found
                } else {
                    scan_log(log.as_slice())
                }
            },
            None => scan_log(log.as_slice()),
        };
        let ghost wanted = entries.deep_view();
        let mut index: Vec<IndexEntry> = Vec::new();
        assert(entries@.map_values(|e: (String, usize)| (e.0@, e.1)) =~= wanted);
        for entry in it: entries
            invariant
                it.seq().map_values(|e: (String, usize)| (e.0@, e.1)) == wanted,
                index.len() == it.index(),
                forall|k: int|
                    0 <= k < index.len() ==> (#[trigger] entry_views(index@)[k]) == wanted[k],
        {
            let ghost done = it.index() as int;
            let ghost before = entry_views(index@);
            assert(wanted[done] == (entry.0@, entry.1));
            index.push(IndexEntry { user_id: entry.0, offset: entry.1 });
            assert(entry_views(index@) =~= before.push(wanted[done]));
        }
        assert(entry_views(index@) =~= wanted);
        MemoryStorage {
            storage_path: String::from_str(storage_dir).concat("/memories.bin"),
            index_path: String::from_str(storage_dir).concat("/index"),
            log,
            index,
        }
    }

    /// The text of the index file as it is to stand on disk.
    pub fn index_text(&self) -> (text: String)
        ensures
            text@ == index_file(self.entries(), self.log_view().len() as usize),
    {
        let mut entries: Vec<(String, usize)> = Vec::new();
        let mut i: usize = 0;
        while i < self.index.len()
            invariant
                i <= self.index.len(),
                entries.len() == i,
                forall|k: int|
                    0 <= k < i ==> (#[trigger] entries.deep_view()[k]) == self.entries()[k],
            decreases self.index.len() - i,
        {
            let ghost before = entries.deep_view();
            entries.push((self.index[i].user_id.clone(), self.index[i].offset));
            assert(entries.deep_view() =~= before.push(self.entries()[i as int]));
            i += 1;
        }
        assert(entries.deep_view() =~= self.entries());
        format_index(&entries, self.log.len())
    }

    /// Rewrites the log so that it holds the frames of the live records and
    /// nothing else, one behind the other in append order, and points the
    /// index at their new places. Returns the number of bytes that the log
    /// lost.
    pub fn compact(&mut self) -> (reclaimed: usize)
        ensures
            final(self).storage_path_view() == old(self).storage_path_view(),
            final(self).index_path_view() == old(self).index_path_view(),
            final(self).live() == old(self).live(),
            final(self).log_view() == packed_log(old(self).entries(), old(self).log_view()),
            final(self).entries() == packed_entries(old(self).entries(), old(self).log_view()),
            reclaimed + final(self).log_view().len() == old(self).log_view().len(),
            tiles(final(self).entries(), final(self).log_view()),
            scanned(final(self).log_view(), 0) == final(self).entries(),
    {
        proof {
            use_type_invariant(&*self);
        }
        let ghost live = self.live();
        let ghost entries = self.entries();
        let mut taken = MemoryStorage::blank();
        core::mem::swap(self, &mut taken);
        let MemoryStorage { storage_path, index_path, log, index } = taken;
        let mut packed: Vec<u8> = Vec::new();
        let mut moved: Vec<IndexEntry> = Vec::new();
        let total = index.len();
        proof {
            assert(packed@ =~= packed_log(entries.take(0), log@));
            assert(entry_views(moved@) =~= packed_entries(entries.take(0), log@));
            assert(records_of(entry_views(moved@), packed@) =~= live.take(0));
        }
        for entry in it: index
            invariant
                it.seq().len() == total,
                entry_views(it.seq()) == entries,
                index_matches_log(entries, log@),
                live == records_of(entries, log@),
                packed@ == packed_log(entries.take(it.index() as int), log@),
                entry_views(moved@) == packed_entries(entries.take(it.index() as int), log@),
                index_matches_log(entry_views(moved@), packed@),
                records_of(entry_views(moved@), packed@) == live.take(it.index() as int),
                tiles(entry_views(moved@), packed@),
                moved.len() == it.index(),
                it.index() == 0 ==> packed.len() == 0,
                it.index() > 0 ==> packed.len() <= frame_end(
                    log@,
                    entries[it.index() - 1].1 as int,
                ),
        {
            let ghost done = it.index() as int;
            let ghost held = packed@;
            let ghost placed = entry_views(moved@);
            proof {
                assert(entry_views(it.seq())[done] == (entry.user_id@, entry.offset));
                assert(entries[done] == (entry.user_id@, entry.offset));
                assert(entries.take(done + 1).drop_last() =~= entries.take(done));
                assert(entries.take(done + 1).last() == entries[done]);
                if done > 0 {
                    assert(frame_end(log@, entries[done - 1].1 as int) <= entries[done].1);
                }
            }
            match frame_bounds(log.as_slice(), entry.offset) {
                Some((_, end)) => {
                    let at = packed.len();
                    packed.extend_from_slice(slice_subrange(log.as_slice(), entry.offset, end));
                    moved.push(IndexEntry { user_id: entry.user_id, offset: at });
                    proof {
                        let frame = log@.subrange(entry.offset as int, end as int);
                        let now_placed = entry_views(moved@);
                        assert(packed@ == held + frame);
                        lemma_frame_copied(log@, entry.offset as int, held);
                        assert(now_placed =~= placed.push((entry.user_id@, at)));
                        assert forall|k: int| 0 <= k < placed.len() implies record_at(
                            packed@,
                            (#[trigger] placed[k]).1 as int,
                        ) == record_at(held, placed[k].1 as int) && frame_end(
                            packed@,
                            placed[k].1 as int,
                        ) == frame_end(held, placed[k].1 as int) by {
                            lemma_append_keeps_frame(held, frame, placed[k].1 as int);
                        }
                        assert(index_matches_log(now_placed, packed@));
                        assert forall|k: int| 0 <= k < now_placed.len() implies frame_end(
                            packed@,
                            (#[trigger] now_placed[k]).1 as int,
                        ) == if k + 1 < now_placed.len() {
                            now_placed[k + 1].1 as int
                        } else {
                            packed@.len() as int
                        } by {
                            if k < placed.len() {
                                assert(now_placed[k] == placed[k]);
                                if k + 1 < placed.len() {
                                    assert(now_placed[k + 1] == placed[k + 1]);
                                }
                            }
                        }
                        assert(records_of(now_placed, packed@) =~= records_of(placed, held).push(
                            live[done],
                        ));
                        assert(live.take(done + 1) =~= live.take(done).push(live[done]));
                    }
                },
                None => {
                    assert(false);
                },
            }
        }
        proof {
            assert(entries.take(entries.len() as int) =~= entries);
            assert(live.take(live.len() as int) =~= live);
            if total > 0 {
                assert(frame_fits(log@, entries[total - 1].1 as int));
            }
            lemma_scan_finds_tiles(entry_views(moved@), packed@, 0);
            assert(entry_views(moved@).skip(0) =~= entry_views(moved@));
        }
        let reclaimed = log.len() - packed.len();
        *self = MemoryStorage { storage_path, index_path, log: packed, index: moved };
        reclaimed
    }

    /// The path of the log file.
    pub fn storage_path(&self) -> (path: &str)
        ensures
            path@ == self.storage_path_view(),
    {
        self.storage_path.as_str()
    }

    /// The path of the index file.
    pub fn index_path(&self) -> (path: &str)
        ensures
            path@ == self.index_path_view(),
    {
        self.index_path.as_str()
    }

    /// The bytes of the log, as they are to stand on disk.
    pub fn log_bytes(&self) -> (bytes: &[u8])
        ensures
            bytes@ == self.log_view(),
    {
        self.log.as_slice()
    }

    /// The number of live records.
    pub fn live_count(&self) -> (n: usize)
        ensures
            n == self.live().len(),
    {
        self.index.len()
    }

    /// Appends a record as it stands. The record is written only if it can be
    /// read back unchanged.
    fn append(&mut self, record: &MemoryItem) -> (res: Result<usize, StoreError>)
        requires
            valid_record(record@),
        ensures
            final(self).storage_path_view() == old(self).storage_path_view(),
            final(self).index_path_view() == old(self).index_path_view(),
            match res {
                Ok(at) => {
                    &&& storable(record@, old(self).log_view().len() as int)
                    &&& at == old(self).log_view().len()
                    &&& final(self).log_view() == old(self).log_view() + frame_of(
                        encoded_record(record@)->0,
                    )
                    &&& final(self).entries() == old(self).entries().push((record@.user_id, at))
                    &&& final(self).live() == old(self).live().push(record@)
                    &&& tiles(old(self).entries(), old(self).log_view()) ==> tiles(
                        final(self).entries(),
                        final(self).log_view(),
                    )
                },
                Err(e) => {
                    &&& e == StoreError::StoreIO
                    &&& !storable(record@, old(self).log_view().len() as int)
                    &&& final(self).log_view() == old(self).log_view()
                    &&& final(self).entries() == old(self).entries()
                },
            },
    {
        proof {
            use_type_invariant(&*self);
        }
        let payload = match encode_record(record) {
            Ok(bytes) => bytes,
            Err(_) => {
                return Err(StoreError::StoreIO);
            },
        };
        match decode_record(payload.as_slice()) {
            Ok(back) => {
                if !back.same_as(record) {
                    return Err(StoreError::StoreIO);
                }
            },
            Err(_) => {
                return Err(StoreError::StoreIO);
            },
        }
        let at = self.log.len();
        if payload.len() > usize::MAX - 4 || at > usize::MAX - 4 - payload.len() {
            return Err(StoreError::StoreIO);
        }
        let frame = match frame_bytes(&payload) {
            Some(bytes) => bytes,
            None => {
                return Err(StoreError::StoreIO);
            },
        };
        let mut taken = MemoryStorage::blank();
        core::mem::swap(self, &mut taken);
        let MemoryStorage { storage_path, index_path, mut log, mut index } = taken;
        let ghost old_log = log@;
        let ghost old_entries = entry_views(index@);
        log.extend_from_slice(frame.as_slice());
        index.push(IndexEntry { user_id: record.user_id.clone(), offset: at });
        let ghost new_entries = entry_views(index@);
        proof {
            lemma_frame_at_end(old_log, payload@);
            assert(log@ == old_log + frame_of(payload@));
            assert(new_entries =~= old_entries.push((record@.user_id, at)));
            assert forall|i: int| 0 <= i < old_entries.len() implies record_at(
                log@,
                (#[trigger] old_entries[i]).1 as int,
            ) == record_at(old_log, old_entries[i].1 as int) && frame_end(
                log@,
                old_entries[i].1 as int,
            ) == frame_end(old_log, old_entries[i].1 as int) && frame_end(
                old_log,
                old_entries[i].1 as int,
            ) <= at by {
                lemma_append_keeps_frame(old_log, frame_of(payload@), old_entries[i].1 as int);
            }
            assert(record_at(log@, at as int) == Some(record@));
            assert(index_matches_log(new_entries, log@));
            if tiles(old_entries, old_log) {
                assert forall|k: int| 0 <= k < new_entries.len() implies frame_end(
                    log@,
                    (#[trigger] new_entries[k]).1 as int,
                ) == if k + 1 < new_entries.len() {
                    new_entries[k + 1].1 as int
                } else {
                    log@.len() as int
                } by {
                    if k < old_entries.len() {
                        assert(new_entries[k] == old_entries[k]);
                        if k + 1 < old_entries.len() {
                            assert(new_entries[k + 1] == old_entries[k + 1]);
                        }
                    }
                }
            }
            assert(records_of(new_entries, log@) =~= records_of(old_entries, old_log).push(
                record@,
            ));
        }
        *self = MemoryStorage { storage_path, index_path, log, index };
        Ok(at)
    }

    /// Stores a record and returns its id. A record without an id is given a
    /// fresh one; the importance is clamped into its range. A record without a
    /// user is refused, and so is one that cannot be written and read back.
    pub fn save(&mut self, memory: MemoryItem) -> (res: Result<String, StoreError>)
        ensures
            saved(*old(self), memory@, res, *final(self)),
    {
        if memory.user_id.as_str().is_empty() {
            return Err(StoreError::EmptyUser);
        }
        let ghost live = self.live();
        let id = if memory.id.as_str().is_empty() {
            let made = fresh_id();
            proof {
                lemma_first_with_id(live, made@);
            }
            if self.find_id(made.as_str()) < self.index.len() {
                assert(refused(live, self.log_view().len() as int, memory@, made@));
                return Err(StoreError::StoreIO);
            }
            made
        } else {
            memory.id.clone()
        };
        let record = MemoryItem {
            id: id.clone(),
            user_id: memory.user_id,
            session_id: memory.session_id,
            content: memory.content,
            metadata: memory.metadata,
            timestamp: memory.timestamp,
            ttl_hours: memory.ttl_hours,
            importance: clamp_importance(memory.importance),
        };
        assert(record@ == stamped(memory@, id@));
        match self.append(&record) {
            Ok(_) => Ok(id),
            Err(e) => {
                assert(refused(live, self.log_view().len() as int, memory@, id@));
                Err(e)
            },
        }
    }

    /// Finds the first live record with the given id: its position among the
    /// live records, or their number when no live record has the id.
    pub fn find_id(&self, id: &str) -> (at: usize)
        ensures
            at == first_with_id(self.live(), id@),
            at <= self.live().len(),
            self.live().len() == self.entries().len(),
    {
        proof {
            use_type_invariant(self);
        }
        let ghost live = self.live();
        let ghost entries = self.entries();
        let mut at: usize = 0;
        assert(live.skip(0) =~= live);
        while at < self.index.len()
            invariant
                at <= self.index.len(),
                live == self.live(),
                entries == self.entries(),
                entries.len() == self.index.len(),
                index_matches_log(entries, self.log_view()),
                first_with_id(live, id@) == at + first_with_id(live.skip(at as int), id@),
            decreases self.index.len() - at,
        {
            assert(entries[at as int].1 == self.index[at as int].offset);
            assert(live.skip(at as int)[0] == live[at as int]);
            assert(live.skip(at as int).skip(1) =~= live.skip(at + 1));
            match read_record(self.log.as_slice(), self.index[at].offset) {
                Ok(item) => {
                    if str_eq(item.id.as_str(), id) {
                        return at;
                    }
                },
                Err(_) => {
                    assert(false);
                },
            }
            at += 1;
        }
        at
    }

    /// Reads the record whose frame starts at `offset`, live or not.
    pub fn read_at(&self, offset: usize) -> (res: Result<MemoryItem, StoreError>)
        ensures
            match res {
                Ok(item) => record_at(self.log_view(), offset as int) == Some(item@),
                Err(e) => e == StoreError::CorruptRecord && record_at(
                    self.log_view(),
                    offset as int,
                ) is None,
            },
    {
        read_record(self.log.as_slice(), offset)
    }

    /// The offsets of a user's live records, in append order.
    pub fn recall_offsets(&self, user_id: &str) -> (offsets: Vec<usize>)
        ensures
            offsets@ == offsets_of(self.entries(), user_id@),
    {
        let mut offsets: Vec<usize> = Vec::new();
        let mut i: usize = 0;
        let ghost entries = self.entries();
        while i < self.index.len()
            invariant
                i <= self.index.len(),
                entries == self.entries(),
                entries.len() == self.index.len(),
                offsets@ == offsets_of(entries.take(i as int), user_id@),
            decreases self.index.len() - i,
        {
            proof {
                let e = entries[i as int];
                assert(entries.take(i + 1) =~= entries.take(i as int).push(e));
                entries.take(i as int).lemma_filter_push(e, entry_of(user_id@));
                let hits = entries.take(i as int).filter(entry_of(user_id@));
                assert(hits.push(e).map_values(|e: (Seq<char>, usize)| e.1) =~= hits.map_values(
                    |e: (Seq<char>, usize)| e.1,
                ).push(e.1));
            }
            if str_eq(self.index[i].user_id.as_str(), user_id) {
                offsets.push(self.index[i].offset);
            }
            i += 1;
        }
        assert(entries.take(i as int) =~= entries);
        offsets
    }

    /// The records that a filter accepts, newest first; records of one instant
    /// come in the order in which they were appended. A limit cuts the list
    /// after sorting.
    pub fn recall(&self, filter: QueryFilter) -> (hits: Vec<MemoryItem>)
        ensures
            views(hits@) == recall_result(self.live(), filter@),
    {
        match &filter.user_id {
            Some(user) => {
                let candidates = self.load_user(user.as_str());
                proof {
                    lemma_filter_absorbs(self.live(), of_user(user@), matching(filter@));
                }
                select(candidates, &filter)
            },
            None => select(self.load_live(), &filter),
        }
    }

    /// Reads the live records of one user, in append order. Records of other
    /// users are passed over without being read.
    pub fn load_user(&self, user_id: &str) -> (items: Vec<MemoryItem>)
        ensures
            views(items@) == self.live().filter(of_user(user_id@)),
    {
        proof {
            use_type_invariant(self);
        }
        let ghost live = self.live();
        let ghost entries = self.entries();
        let ghost pick = of_user(user_id@);
        let mut items: Vec<MemoryItem> = Vec::new();
        let mut i: usize = 0;
        proof {
            live.take(0).lemma_filter_len(pick);
            assert(views(items@) =~= live.take(0).filter(pick));
        }
        while i < self.index.len()
            invariant
                i <= self.index.len(),
                live == self.live(),
                entries == self.entries(),
                entries.len() == self.index.len(),
                index_matches_log(entries, self.log_view()),
                pick == of_user(user_id@),
                views(items@) == live.take(i as int).filter(pick),
            decreases self.index.len() - i,
        {
            let ghost before = views(items@);
            proof {
                assert(entries[i as int] == (
                    self.index[i as int].user_id@,
                    self.index[i as int].offset,
                ));
                assert(live[i as int].user_id == entries[i as int].0);
                assert(live.take(i + 1) =~= live.take(i as int).push(live[i as int]));
                live.take(i as int).lemma_filter_push(live[i as int], pick);
            }
            if str_eq(self.index[i].user_id.as_str(), user_id) {
                match read_record(self.log.as_slice(), self.index[i].offset) {
                    Ok(item) => {
                        items.push(item);
                        assert(views(items@) =~= before.push(live[i as int]));
                    },
                    Err(_) => {
                        assert(false);
                    },
                }
            }
            i += 1;
        }
        assert(live.take(i as int) =~= live);
        items
    }

    /// The live records of one user in one session, newest first.
    pub fn get_session_memories(&self, user_id: &str, session_id: &str) -> (hits: Vec<
        MemoryItem,
    >)
        ensures
            views(hits@) == recall_result(
                self.live(),
                FilterView {
                    user_id: Some(user_id@),
                    session_id: Some(session_id@),
                    keywords: None,
                    date_from: None,
                    date_to: None,
                    limit: None,
                    min_importance: None,
                },
            ),
    {
        let filter = QueryFilter {
            user_id: Some(String::from_str(user_id)),
            session_id: Some(String::from_str(session_id)),
            keywords: None,
            date_from: None,
            date_to: None,
            limit: None,
            min_importance: None,
        };
        self.recall(filter)
    }

    /// The number of live records of each user, the users in the order in
    /// which their first live record was appended.
    pub fn get_stats(&self) -> (stats: Vec<(String, usize)>)
        ensures
            is_tally(stats.deep_view(), users_of(self.live())),
    {
        proof {
            use_type_invariant(self);
        }
        let mut users: Vec<String> = Vec::new();
        let mut i: usize = 0;
        let ghost entries = self.entries();
        while i < self.index.len()
            invariant
                i <= self.index.len(),
                entries == self.entries(),
                entries.len() == self.index.len(),
                users.len() == i,
                forall|j: int| 0 <= j < i ==> (#[trigger] users[j])@ == entries[j].0,
            decreases self.index.len() - i,
        {
            users.push(self.index[i].user_id.clone());
            i += 1;
        }
        assert(users.deep_view() =~= users_of(self.live())) by {
            assert forall|j: int| 0 <= j < users.len() implies users.deep_view()[j] == users_of(
                self.live(),
            )[j] by {
                assert(users.deep_view()[j] == users[j]@);
                assert(entries[j].0 == self.live()[j].user_id);
            }
        }
        tally_texts(&users)
    }

    /// Takes the first live record with the given id out of the index. Its
    /// frame stays in the log. Tells whether there was such a record.
    pub fn tombstone(&mut self, id: &str) -> (removed: bool)
        ensures
            final(self).log_view() == old(self).log_view(),
            final(self).storage_path_view() == old(self).storage_path_view(),
            final(self).index_path_view() == old(self).index_path_view(),
            removed == (first_with_id(old(self).live(), id@) < old(self).live().len()),
            removed ==> final(self).live() == old(self).live().remove(
                first_with_id(old(self).live(), id@),
            ),
            removed ==> final(self).entries() == old(self).entries().remove(
                first_with_id(old(self).live(), id@),
            ),
            !removed ==> final(self).entries() == old(self).entries(),
            !removed ==> final(self).live() == old(self).live(),
    {
        proof {
            use_type_invariant(&*self);
        }
        let ghost live = self.live();
        let ghost entries = self.entries();
        let at = self.find_id(id);
        if at >= self.index.len() {
            return false;
        }
        let mut taken = MemoryStorage::blank();
        core::mem::swap(self, &mut taken);
        let MemoryStorage { storage_path, index_path, log, mut index } = taken;
        index.remove(at);
        let ghost left = entry_views(index@);
        proof {
            assert(left =~= entries.remove(at as int));
            assert forall|i: int| 0 <= i < left.len() implies match record_at(
                log@,
                (#[trigger] left[i]).1 as int,
            ) {
                Some(item) => item.user_id == left[i].0,
                None => false,
            } by {
                if i < at {
                    assert(left[i] == entries[i]);
                } else {
                    assert(left[i] == entries[i + 1]);
                }
            }
            assert forall|i: int, j: int| 0 <= i < j < left.len() implies frame_end(
                log@,
                (#[trigger] left[i]).1 as int,
            ) <= (#[trigger] left[j]).1 by {
                let a = if i < at {
                    i
                } else {
                    i + 1
                };
                let b = if j < at {
                    j
                } else {
                    j + 1
                };
                assert(left[i] == entries[a]);
                assert(left[j] == entries[b]);
            }
            assert(records_of(left, log@) =~= live.remove(at as int));
        }
        *self = MemoryStorage { storage_path, index_path, log, index };
        true
    }

    /// Takes every marked live record out of the index, the marks counted in
    /// append order, and returns how many records went. Their frames stay in
    /// the log.
    pub fn tombstone_marked(&mut self, marks: &Vec<bool>) -> (gone: usize)
        ensures
            final(self).log_view() == old(self).log_view(),
            final(self).storage_path_view() == old(self).storage_path_view(),
            final(self).index_path_view() == old(self).index_path_view(),
            final(self).entries() == unmarked(old(self).entries(), marks@),
            final(self).live() == unmarked(old(self).live(), marks@),
            gone == marked_below(marks@, old(self).live().len() as int),
            gone + final(self).live().len() == old(self).live().len(),
    {
        proof {
            use_type_invariant(&*self);
        }
        let ghost live = self.live();
        let ghost entries = self.entries();
        let mut taken = MemoryStorage::blank();
        core::mem::swap(self, &mut taken);
        let MemoryStorage { storage_path, index_path, log, index } = taken;
        let mut kept: Vec<IndexEntry> = Vec::new();
        let mut gone: usize = 0;
        let total = index.len();
        let ghost mut origin: Seq<int> = Seq::empty();
        for entry in it: index
            invariant
                it.seq().len() == total,
                entry_views(it.seq()) == entries,
                index_matches_log(entries, log@),
                live == records_of(entries, log@),
                entry_views(kept@) == unmarked(entries.take(it.index() as int), marks@),
                records_of(entry_views(kept@), log@) == unmarked(
                    live.take(it.index() as int),
                    marks@,
                ),
                index_matches_log(entry_views(kept@), log@),
                origin.len() == kept.len(),
                forall|k: int|
                    0 <= k < kept.len() ==> 0 <= #[trigger] origin[k] < it.index()
                        && entry_views(kept@)[k] == entries[origin[k]],
                gone == marked_below(marks@, it.index() as int),
                kept.len() + gone == it.index(),
        {
            let ghost done = it.index() as int;
            let ghost before = entry_views(kept@);
            proof {
                assert(entry_views(it.seq())[done] == (entry.user_id@, entry.offset));
                assert(entries[done] == (entry.user_id@, entry.offset));
                assert(entries.take(done + 1).drop_last() =~= entries.take(done));
                assert(live.take(done + 1).drop_last() =~= live.take(done));
            }
            let here = kept.len() + gone;
            if here < marks.len() && marks[here] {
                gone += 1;
            } else {
                kept.push(entry);
                proof {
                    let after = entry_views(kept@);
                    assert(after =~= before.push(entries[done]));
                    assert forall|k: int| 0 <= k < before.len() implies frame_end(
                        log@,
                        before[k].1 as int,
                    ) <= entries[done].1 by {
                        assert(before[k] == entries[origin[k]]);
                        assert(frame_end(log@, entries[origin[k]].1 as int) <= entries[done].1);
                    }
                    assert(index_matches_log(after, log@));
                    assert(records_of(after, log@) =~= records_of(before, log@).push(live[done]));
                    origin = origin.push(done);
                }
            }
        }
        proof {
            assert(entries.take(entries.len() as int) =~= entries);
            assert(live.take(live.len() as int) =~= live);
            lemma_unmarked_len(live, marks@);
        }
        *self = MemoryStorage { storage_path, index_path, log, index: kept };
        gone
    }

    /// Tombstones every live record whose TTL has run out as of `now`, and
    /// returns their number.
    pub fn cleanup_expired_at(&mut self, now: i64) -> (removed: usize)
        ensures
            final(self).log_view() == old(self).log_view(),
            final(self).storage_path_view() == old(self).storage_path_view(),
            final(self).index_path_view() == old(self).index_path_view(),
            final(self).live() == old(self).live().filter(within_ttl(now)),
            removed + final(self).live().len() == old(self).live().len(),
    {
        let items = self.load_live();
        let ghost live = self.live();
        let mut marks: Vec<bool> = Vec::new();
        let mut i: usize = 0;
        while i < items.len()
            invariant
                i <= items.len(),
                views(items@) == live,
                marks.len() == i,
                forall|j: int| 0 <= j < i ==> marks[j] == !within_ttl(now)(#[trigger] live[j]),
            decreases items.len() - i,
        {
            assert(live[i as int] == items[i as int]@);
            let over = match items[i].ttl_hours {
                Some(ttl) => has_elapsed(now, items[i].timestamp, ttl),
                None => false,
            };
            marks.push(over);
            i += 1;
        }
        proof {
            lemma_unmarked_is_filter(live, marks@, within_ttl(now));
        }
        self.tombstone_marked(&marks)
    }

    /// Tombstones every live record whose TTL has run out as of the present
    /// instant, and returns their number.
    pub fn cleanup_expired(&mut self) -> (removed: usize)
        ensures
            final(self).log_view() == old(self).log_view(),
            final(self).storage_path_view() == old(self).storage_path_view(),
            final(self).index_path_view() == old(self).index_path_view(),
            removed + final(self).live().len() == old(self).live().len(),
            exists|now: i64|
                final(self).live() == old(self).live().filter(#[trigger] within_ttl(now)),
    {
        let now = current_millis();
        self.cleanup_expired_at(now)
    }

    /// Reads every live record, in append order.
    pub fn load_live(&self) -> (items: Vec<MemoryItem>)
        ensures
            views(items@) == self.live(),
            forall|i: int| 0 <= i < items.len() ==> valid_record(#[trigger] items[i]@),
    {
        proof {
            use_type_invariant(self);
        }
        let mut items: Vec<MemoryItem> = Vec::new();
        let mut i: usize = 0;
        let ghost entries = self.entries();
        while i < self.index.len()
            invariant
                i <= self.index.len(),
                entries == self.entries(),
                entries.len() == self.index.len(),
                index_matches_log(entries, self.log_view()),
                items.len() == i,
                forall|j: int|
                    0 <= j < i ==> Some((#[trigger] items[j])@) == record_at(
                        self.log_view(),
                        entries[j].1 as int,
                    ),
            decreases self.index.len() - i,
        {
            assert(entries[i as int].1 == self.index[i as int].offset);
            match read_record(self.log.as_slice(), self.index[i].offset) {
                Ok(item) => {
                    items.push(item);
                },
                Err(_) => {
                    assert(false);
                },
            }
            i += 1;
        }
        assert(views(items@) =~= self.live());
        items
    }
}

} // verus!
