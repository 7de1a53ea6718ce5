//! The offset index outside the store: how it is rebuilt from the log, and how
//! it is written to and read from its file.
//!
//! The file starts with a line that holds a colon and the length of the log
//! for which the index was written. Then it holds one line for each user: the
//! user, a colon, and the offsets of the user's live records in ascending
//! order, separated by commas.

use crate::codec::{frame_bounds, frame_end, frame_fits, read_record, record_at};
use crate::rank::{arranged, descending_order, order_descending};
use crate::summary::{join_texts, joined};
use crate::text::{
    decimal, decimal_text, distinct, lemma_distinct_push, push_distinct, split_fields, split_on,
    str_eq,
};
use vstd::prelude::*;
use vstd::string::*;

verus! {

/// The digit that a character writes, if it writes one.
pub open spec fn digit_value(c: char) -> Option<nat> {
    if c == '0' {
        Some(0)
    } else if c == '1' {
        Some(1)
    } else if c == '2' {
        Some(2)
    } else if c == '3' {
        Some(3)
    } else if c == '4' {
        Some(4)
    } else if c == '5' {
        Some(5)
    } else if c == '6' {
        Some(6)
    } else if c == '7' {
        Some(7)
    } else if c == '8' {
        Some(8)
    } else if c == '9' {
        Some(9)
    } else {
        None
    }
}

/// The number that a run of digits writes in decimal; `None` where a
/// character is no digit. Leading zeros count for nothing.
pub open spec fn digits_value(digits: Seq<char>) -> Option<nat>
    decreases digits.len(),
{
    if digits.len() == 0 {
        Some(0)
    } else {
        match (digits_value(digits.drop_last()), digit_value(digits.last())) {
            (Some(front), Some(last)) => Some(front * 10 + last),
            _ => None,
        }
    }
}

/// The number that a text holds: the value of its digits, before which a plus
/// sign may stand. `None` where the text has no digit, holds anything but
/// digits behind the sign, or writes a number beyond 64 bits.
pub open spec fn parsed_number(text: Seq<char>) -> Option<u64> {
    let digits = if text.len() > 0 && text[0] == '+' {
        text.skip(1)
    } else {
        text
    };
    if digits.len() == 0 {
        None
    } else {
        match digits_value(digits) {
            Some(value) => if value <= u64::MAX {
                Some(value as u64)
            } else {
                None
            },
            None => None,
        }
    }
}

/// `str::parse` to `u64`: the number that the text holds. The standard library
/// takes an optional plus sign followed by decimal digits only, and rejects
/// the empty text, any other character and a number that does not fit.
#[verifier::external_body]
pub(crate) fn parse_number(text: &str) -> (number: Option<u64>)
    ensures
        number == parsed_number(text@),
{
    text.parse::<u64>().ok()
}

/// True when every entry points at a record of its user and each entry's frame
/// ends before the next entry's frame starts.
pub open spec fn index_matches_log(entries: Seq<(Seq<char>, usize)>, log: Seq<u8>) -> bool {
    &&& forall|i: int|
        0 <= i < entries.len() ==> match record_at(log, (#[trigger] entries[i]).1 as int) {
            Some(item) => item.user_id == entries[i].0,
            None => false,
        }
    &&& forall|i: int, j: int|
        0 <= i < j < entries.len() ==> frame_end(log, (#[trigger] entries[i]).1 as int) <= (
        #[trigger] entries[j]).1
}

/// The index that a scan of the log from `at` on finds: an entry for every
/// frame that holds a valid record, frame after frame, up to the first place
/// where no whole frame starts.
pub open spec fn scanned(log: Seq<u8>, at: int) -> Seq<(Seq<char>, usize)>
    decreases log.len() - at,
{
    if at < 0 || !frame_fits(log, at) || frame_end(log, at) <= at {
        Seq::empty()
    } else {
        let rest = scanned(log, frame_end(log, at));
        match record_at(log, at) {
            Some(item) => seq![(item.user_id, at as usize)] + rest,
            None => rest,
        }
    }
}

/// True when the frames of the entries lie one behind the other and fill the
/// log from its start to its end.
pub open spec fn tiles(entries: Seq<(Seq<char>, usize)>, log: Seq<u8>) -> bool {
    &&& entries.len() == 0 ==> log.len() == 0
    &&& entries.len() > 0 ==> entries[0].1 == 0
    &&& forall|k: int|
        0 <= k < entries.len() ==> frame_end(log, (#[trigger] entries[k]).1 as int) == if k + 1
            < entries.len() {
            entries[k + 1].1 as int
        } else {
            log.len() as int
        }
}

/// A scan from the start of the entry at `k` finds that entry and those
/// behind it, where the entries fit the log and tile it.
pub proof fn lemma_scan_finds_tiles(entries: Seq<(Seq<char>, usize)>, log: Seq<u8>, k: int)
    requires
        index_matches_log(entries, log),
        tiles(entries, log),
        0 <= k <= entries.len(),
    ensures
        scanned(
            log,
            if k < entries.len() {
                entries[k].1 as int
            } else {
                log.len() as int
            },
        ) == entries.skip(k),
    decreases entries.len() - k,
{
    if k < entries.len() {
        lemma_scan_finds_tiles(entries, log, k + 1);
        let at = entries[k].1 as int;
        assert(record_at(log, at) is Some);
        assert(entries.skip(k) =~= seq![entries[k]] + entries.skip(k + 1));
    } else {
        assert(entries.skip(k) =~= Seq::<(Seq<char>, usize)>::empty());
    }
}

/// Rebuilds the index by scanning the log from its start. A frame whose
/// payload is no valid record is passed over; the scan ends where the log
/// ends or where what is left is no whole frame.
pub fn scan_log(log: &[u8]) -> (entries: Vec<(String, usize)>)
    ensures
        entries.deep_view() == scanned(log@, 0),
        index_matches_log(entries.deep_view(), log@),
{
    let mut entries: Vec<(String, usize)> = Vec::new();
    let mut at: usize = 0;
    assert(entries.deep_view() + scanned(log@, 0) =~= scanned(log@, 0));
    loop
        invariant
            at <= log.len(),
            scanned(log@, 0) == entries.deep_view() + scanned(log@, at as int),
            index_matches_log(entries.deep_view(), log@),
            forall|k: int|
                0 <= k < entries.len() ==> frame_end(
                    log@,
                    (#[trigger] entries.deep_view()[k]).1 as int,
                ) <= at,
        ensures
            entries.deep_view() == scanned(log@, 0),
            index_matches_log(entries.deep_view(), log@),
        decreases log.len() - at,
    {
        let ghost before = entries.deep_view();
        match frame_bounds(log, at) {
            None => {
                assert(before + Seq::<(Seq<char>, usize)>::empty() =~= before);
                break ;
            },
            Some((_, end)) => {
                match read_record(log, at) {
                    Ok(item) => {
                        entries.push((item.user_id, at));
                        proof {
                            let entry = (item@.user_id, at);
                            assert(entries.deep_view() =~= before.push(entry));
                            assert(before + (seq![entry] + scanned(log@, end as int))
                                =~= before.push(entry) + scanned(log@, end as int));
                        }
                    },
                    Err(_) => {},
                }
                at = end;
            },
        }
    }
    entries
}

/// Tells whether an index fits a log.
pub fn index_fits(entries: &Vec<(String, usize)>, log: &[u8]) -> (fits: bool)
    ensures
        fits == index_matches_log(entries.deep_view(), log@),
{
    let ghost all = entries.deep_view();
    let mut i: usize = 0;
    let mut floor: usize = 0;
    while i < entries.len()
        invariant
            i <= entries.len(),
            all == entries.deep_view(),
            index_matches_log(all.take(i as int), log@),
            forall|k: int| 0 <= k < i ==> frame_end(log@, (#[trigger] all[k]).1 as int) <= floor,
            i == 0 ==> floor == 0,
            i > 0 ==> floor == frame_end(log@, all[i - 1].1 as int),
        decreases entries.len() - i,
    {
        let at = entries[i].1;
        assert(all[i as int] == (entries[i as int].0@, entries[i as int].1));
        let ghost seen = all.take(i as int);
        let fine = at >= floor && match read_record(log, at) {
            Ok(item) => item.user_id == entries[i].0,
            Err(_) => false,
        };
        if !fine {
            proof {
                if index_matches_log(all, log@) {
                    if at < floor {
                        assert(frame_end(log@, all[i - 1].1 as int) <= all[i as int].1);
                    }
                }
            }
            return false;
        }
        match frame_bounds(log, at) {
            Some((_, end)) => {
                proof {
                    let grown = all.take(i + 1);
                    assert(grown =~= seen.push(all[i as int]));
                    assert forall|a: int, b: int| 0 <= a < b < grown.len() implies frame_end(
                        log@,
                        (#[trigger] grown[a]).1 as int,
                    ) <= (#[trigger] grown[b]).1 by {
                        assert(grown[a] == all[a]);
                        assert(grown[b] == all[b]);
                        if b < i {
                            assert(seen[a] == all[a]);
                            assert(seen[b] == all[b]);
                        }
                    }
                    assert forall|k: int| 0 <= k < grown.len() implies match record_at(
                        log@,
                        (#[trigger] grown[k]).1 as int,
                    ) {
                        Some(item) => item.user_id == grown[k].0,
                        None => false,
                    } by {
                        assert(grown[k] == all[k]);
                        if k < i {
                            assert(seen[k] == all[k]);
                        }
                    }
                }
                floor = end;
            },
            None => {
                assert(false);
            },
        }
        i += 1;
    }
    assert(all.take(i as int) =~= all);
    true
}

/// Selects the entries of one user.
pub open spec fn entry_of(user: Seq<char>) -> spec_fn((Seq<char>, usize)) -> bool {
    |e: (Seq<char>, usize)| e.0 == user
}

/// The offsets of one user's entries, in order.
pub open spec fn offsets_of(entries: Seq<(Seq<char>, usize)>, user: Seq<char>) -> Seq<usize> {
    entries.filter(entry_of(user)).map_values(|e: (Seq<char>, usize)| e.1)
}

/// The users of the entries, in order.
pub open spec fn entry_users(entries: Seq<(Seq<char>, usize)>) -> Seq<Seq<char>> {
    entries.map_values(|e: (Seq<char>, usize)| e.0)
}

/// The decimal numerals of the offsets, in order.
pub open spec fn numerals(offsets: Seq<usize>) -> Seq<Seq<char>> {
    offsets.map_values(|o: usize| decimal(o as nat))
}

/// The line of one user in the index file.
pub open spec fn index_line(entries: Seq<(Seq<char>, usize)>, user: Seq<char>) -> Seq<char> {
    user + ":"@ + joined(numerals(offsets_of(entries, user)), ","@) + "\n"@
}

/// The lines of the users, one after the other.
pub open spec fn index_lines(entries: Seq<(Seq<char>, usize)>, users: Seq<Seq<char>>) -> Seq<char>
    decreases users.len(),
{
    if users.len() == 0 {
        Seq::empty()
    } else {
        index_lines(entries, users.drop_last()) + index_line(entries, users.last())
    }
}

/// The first line of the index file: a colon and the length of the log.
pub open spec fn length_line(log_len: usize) -> Seq<char> {
    ":"@ + decimal(log_len as nat) + "\n"@
}

/// The text of the index file: the line of the log's length, and a line for
/// each user, the users in the order of their first entries.
pub open spec fn index_file(entries: Seq<(Seq<char>, usize)>, log_len: usize) -> Seq<char> {
    length_line(log_len) + index_lines(entries, distinct(entry_users(entries)))
}

/// The offsets of one user's entries, in order.
pub fn user_offsets(entries: &Vec<(String, usize)>, user: &str) -> (offsets: Vec<usize>)
    ensures
        offsets@ == offsets_of(entries.deep_view(), user@),
{
    let ghost all = entries.deep_view();
    let mut offsets: Vec<usize> = Vec::new();
    let mut i: usize = 0;
    proof {
        all.take(0).lemma_filter_len(entry_of(user@));
        assert(offsets@ =~= offsets_of(all.take(0), user@));
    }
    while i < entries.len()
        invariant
            i <= entries.len(),
            all == entries.deep_view(),
            offsets@ == offsets_of(all.take(i as int), user@),
        decreases entries.len() - i,
    {
        proof {
            let e = all[i as int];
            assert(e == (entries[i as int].0@, entries[i as int].1));
            assert(all.take(i + 1) =~= all.take(i as int).push(e));
            all.take(i as int).lemma_filter_push(e, entry_of(user@));
            let hits = all.take(i as int).filter(entry_of(user@));
            assert(hits.push(e).map_values(|e: (Seq<char>, usize)| e.1) =~= hits.map_values(
                |e: (Seq<char>, usize)| e.1,
            ).push(e.1));
        }
        if str_eq(entries[i].0.as_str(), user) {
            offsets.push(entries[i].1);
        }
        i += 1;
    }
    assert(all.take(i as int) =~= all);
    offsets
}

/// Writes the text of the index file for a log of `log_len` bytes.
pub fn format_index(entries: &Vec<(String, usize)>, log_len: usize) -> (text: String)
    ensures
        text@ == index_file(entries.deep_view(), log_len),
{
    let ghost all = entries.deep_view();
    let ghost named = entry_users(all);
    let mut users: Vec<String> = Vec::new();
    let mut i: usize = 0;
    assert(users.deep_view() =~= distinct(named.take(0)));
    while i < entries.len()
        invariant
            i <= entries.len(),
            all == entries.deep_view(),
            named == entry_users(all),
            users.deep_view() == distinct(named.take(i as int)),
        decreases entries.len() - i,
    {
        proof {
            assert(all[i as int] == (entries[i as int].0@, entries[i as int].1));
            assert(named.take(i + 1) =~= named.take(i as int).push(named[i as int]));
            lemma_distinct_push(named.take(i as int), named[i as int]);
        }
        push_distinct(&mut users, entries[i].0.clone());
        i += 1;
    }
    assert(named.take(i as int) =~= named);
    let ghost listed = users.deep_view();
    let mut text = String::from_str(":");
    text.append(decimal_text(log_len as u64).as_str());
    text.append("\n");
    assert(text@ =~= length_line(log_len) + index_lines(all, listed.take(0)));
    let mut u: usize = 0;
    while u < users.len()
        invariant
            u <= users.len(),
            all == entries.deep_view(),
            listed == users.deep_view(),
            text@ == length_line(log_len) + index_lines(all, listed.take(u as int)),
        decreases users.len() - u,
    {
        let user = users[u].as_str();
        proof {
            assert(listed[u as int] == user@);
            assert(listed.take(u + 1).drop_last() =~= listed.take(u as int));
        }
        let offsets = user_offsets(entries, user);
        let mut digits: Vec<String> = Vec::new();
        let mut k: usize = 0;
        while k < offsets.len()
            invariant
                k <= offsets.len(),
                digits.len() == k,
                forall|j: int| 0 <= j < k ==> (#[trigger] digits[j])@ == decimal(offsets[j] as nat),
            decreases offsets.len() - k,
        {
            digits.push(decimal_text(offsets[k] as u64));
            k += 1;
        }
        assert(digits.deep_view() =~= numerals(offsets@));
        let ghost head = text@;
        text.append(user);
        text.append(":");
        text.append(join_texts(&digits, ",").as_str());
        text.append("\n");
        assert(text@ =~= head + index_line(all, user@));
        assert(text@ =~= length_line(log_len) + (index_lines(all, listed.take(u as int))
            + index_line(all, user@)));
        u += 1;
    }
    assert(listed.take(u as int) =~= listed);
    text
}

/// The offsets that the second part of a line names: the numbers between its
/// commas, empty pieces passed over. `None` when a piece is no number or does
/// not fit the machine.
pub open spec fn line_offsets(pieces: Seq<Seq<char>>) -> Option<Seq<usize>>
    decreases pieces.len(),
{
    if pieces.len() == 0 {
        Some(Seq::empty())
    } else {
        match line_offsets(pieces.drop_last()) {
            None => None,
            Some(before) => if pieces.last().len() == 0 {
                Some(before)
            } else {
                match parsed_number(pieces.last()) {
                    Some(n) => if n <= usize::MAX {
                        Some(before.push(n as usize))
                    } else {
                        None
                    },
                    None => None,
                }
            },
        }
    }
}

/// The entries that one line names. An empty line names none. `None` when the
/// line is not a user, a colon and a list of offsets.
pub open spec fn line_entries(line: Seq<char>) -> Option<Seq<(Seq<char>, usize)>> {
    if line.len() == 0 {
        Some(Seq::empty())
    } else {
        let parts = split_fields(line, ':');
        if parts.len() != 2 {
            None
        } else {
            match line_offsets(split_fields(parts[1], ',')) {
                Some(offsets) => Some(offsets.map_values(|o: usize| (parts[0], o))),
                None => None,
            }
        }
    }
}

/// The entries that the lines name, line after line. `None` when a line is
/// malformed.
pub open spec fn lines_entries(lines: Seq<Seq<char>>) -> Option<Seq<(Seq<char>, usize)>>
    decreases lines.len(),
{
    if lines.len() == 0 {
        Some(Seq::empty())
    } else {
        match (lines_entries(lines.drop_last()), line_entries(lines.last())) {
            (Some(before), Some(more)) => Some(before + more),
            _ => None,
        }
    }
}

/// The keys that put entries in ascending order of their offsets.
pub open spec fn offset_keys(entries: Seq<(Seq<char>, usize)>) -> Seq<i128> {
    entries.map_values(|e: (Seq<char>, usize)| (-(e.1 as int)) as i128)
}

/// The length that the first line of an index file names. `None` when the line
/// is not a colon and a number that fits the machine.
pub open spec fn header_length(line: Seq<char>) -> Option<usize> {
    let parts = split_fields(line, ':');
    if parts.len() == 2 && parts[0].len() == 0 {
        match parsed_number(parts[1]) {
            Some(n) => if n <= usize::MAX {
                Some(n as usize)
            } else {
                None
            },
            None => None,
        }
    } else {
        None
    }
}

/// What the text of an index file holds: the length of the log for which it
/// was written, and the entries that its other lines name, in ascending order
/// of their offsets. `None` when a line is malformed.
pub open spec fn loaded_index(text: Seq<char>) -> Option<(usize, Seq<(Seq<char>, usize)>)> {
    let lines = split_fields(text, '\n');
    if lines.len() == 0 {
        None
    } else {
        match (header_length(lines[0]), lines_entries(lines.skip(1))) {
            (Some(log_len), Some(entries)) => Some(
                (log_len, arranged(entries, descending_order(offset_keys(entries)))),
            ),
            _ => None,
        }
    }
}

/// Reads the offsets that the second part of a line names.
fn parse_offsets(list: &str) -> (offsets: Option<Vec<usize>>)
    ensures
        match offsets {
            Some(v) => line_offsets(split_fields(list@, ',')) == Some(v@),
            None => line_offsets(split_fields(list@, ',')) is None,
        },
{
    let pieces = split_on(list, ',');
    let ghost all = pieces.deep_view();
    let mut offsets: Vec<usize> = Vec::new();
    let mut i: usize = 0;
    while i < pieces.len()
        invariant
            i <= pieces.len(),
            all == pieces.deep_view(),
            all == split_fields(list@, ','),
            line_offsets(all.take(i as int)) == Some(offsets@),
        decreases pieces.len() - i,
    {
        let piece = pieces[i].as_str();
        proof {
            assert(all[i as int] == piece@);
            assert(all.take(i + 1).drop_last() =~= all.take(i as int));
            assert(all.take(i + 1).last() == piece@);
        }
        if !piece.is_empty() {
            match parse_number(piece) {
                Some(n) => {
                    if n > usize::MAX as u64 {
                        proof {
                            lemma_line_offsets_fail(all, i + 1);
                        }
                        return None;
                    }
                    offsets.push(n as usize);
                },
                None => {
                    proof {
                        lemma_line_offsets_fail(all, i + 1);
                    }
                    return None;
                },
            }
        }
        i += 1;
    }
    assert(all.take(i as int) =~= all);
    Some(offsets)
}

/// Once a prefix of the pieces names no offsets, the whole list names none.
proof fn lemma_line_offsets_fail(pieces: Seq<Seq<char>>, n: int)
    requires
        0 <= n <= pieces.len(),
        line_offsets(pieces.take(n)) is None,
    ensures
        line_offsets(pieces) is None,
    decreases pieces.len() - n,
{
    if n < pieces.len() {
        assert(pieces.take(n + 1).drop_last() =~= pieces.take(n));
        lemma_line_offsets_fail(pieces, n + 1);
    } else {
        assert(pieces.take(n) =~= pieces);
    }
}

/// Once a prefix of the lines names no entries, the whole text names none.
proof fn lemma_lines_entries_fail(lines: Seq<Seq<char>>, n: int)
    requires
        0 <= n <= lines.len(),
        lines_entries(lines.take(n)) is None,
    ensures
        lines_entries(lines) is None,
    decreases lines.len() - n,
{
    if n < lines.len() {
        assert(lines.take(n + 1).drop_last() =~= lines.take(n));
        lemma_lines_entries_fail(lines, n + 1);
    } else {
        assert(lines.take(n) =~= lines);
    }
}

/// Reads the length that the first line of an index file names.
fn parse_header(line: &str) -> (log_len: Option<usize>)
    ensures
        log_len == header_length(line@),
{
    let parts = split_on(line, ':');
    if parts.len() != 2 {
        return None;
    }
    assert(parts.deep_view()[0] == parts[0]@);
    assert(parts.deep_view()[1] == parts[1]@);
    if !parts[0].as_str().is_empty() {
        return None;
    }
    match parse_number(parts[1].as_str()) {
        Some(n) => if n > usize::MAX as u64 {
            None
        } else {
            Some(n as usize)
        },
        None => None,
    }
}

/// Reads what the text of an index file holds.
pub fn parse_index(text: &str) -> (index: Option<(usize, Vec<(String, usize)>)>)
    ensures
        match index {
            Some((log_len, entries)) => loaded_index(text@) == Some(
                (log_len, entries.deep_view()),
            ),
            None => loaded_index(text@) is None,
        },
{
    let lines = split_on(text, '\n');
    let ghost whole = lines.deep_view();
    if lines.len() == 0 {
        return None;
    }
    assert(whole[0] == lines[0]@);
    let log_len = match parse_header(lines[0].as_str()) {
        Some(n) => n,
        None => {
            return None;
        },
    };
    let ghost all = whole.skip(1);
    let mut found: Vec<(String, usize)> = Vec::new();
    let mut i: usize = 1;
    assert(found.deep_view() =~= Seq::<(Seq<char>, usize)>::empty());
    assert(all.take(0) =~= Seq::<Seq<char>>::empty());
    while i < lines.len()
        invariant
            1 <= i <= lines.len(),
            whole == lines.deep_view(),
            whole == split_fields(text@, '\n'),
            all == whole.skip(1),
            header_length(whole[0]) == Some(log_len),
            lines_entries(all.take(i - 1)) == Some(found.deep_view()),
        decreases lines.len() - i,
    {
        let line = lines[i].as_str();
        proof {
            assert(whole[i as int] == line@);
            assert(all[i - 1] == line@);
            assert(all.take(i as int).drop_last() =~= all.take(i - 1));
            assert(all.take(i as int).last() == line@);
        }
        if !line.is_empty() {
            let parts = split_on(line, ':');
            if parts.len() != 2 {
                proof {
                    lemma_lines_entries_fail(all, i as int);
                }
                return None;
            }
            assert(parts.deep_view()[0] == parts[0]@);
            assert(parts.deep_view()[1] == parts[1]@);
            match parse_offsets(parts[1].as_str()) {
                None => {
                    proof {
                        lemma_lines_entries_fail(all, i as int);
                    }
                    return None;
                },
                Some(offsets) => {
                    let ghost before = found.deep_view();
                    let ghost user = parts[0]@;
                    let mut k: usize = 0;
                    assert(before + offsets@.take(0).map_values(|o: usize| (user, o)) =~= before);
                    while k < offsets.len()
                        invariant
                            k <= offsets.len(),
                            parts.len() == 2,
                            user == parts[0]@,
                            found.deep_view() == before + offsets@.take(k as int).map_values(
                                |o: usize| (user, o),
                            ),
                        decreases offsets.len() - k,
                    {
                        let ghost held = found.deep_view();
                        found.push((parts[0].clone(), offsets[k]));
                        assert(found.deep_view() =~= held.push((user, offsets[k as int])));
                        assert(offsets@.take(k + 1).map_values(|o: usize| (user, o))
                            =~= offsets@.take(k as int).map_values(|o: usize| (user, o)).push(
                            (user, offsets[k as int]),
                        ));
                        k += 1;
                    }
                    assert(offsets@.take(k as int) =~= offsets@);
                },
            }
        } else {
            assert(found.deep_view() + Seq::<(Seq<char>, usize)>::empty() =~= found.deep_view());
        }
        i += 1;
    }
    assert(all.take(i - 1) =~= all);
    let ghost entries = found.deep_view();
    let mut keys: Vec<i128> = Vec::new();
    let mut j: usize = 0;
    while j < found.len()
        invariant
            j <= found.len(),
            entries == found.deep_view(),
            keys.len() == j,
            forall|k: int| 0 <= k < j ==> (#[trigger] keys[k]) == -(entries[k].1 as int),
        decreases found.len() - j,
    {
        assert(entries[j as int] == (found[j as int].0@, found[j as int].1));
        keys.push(-(found[j].1 as i128));
        j += 1;
    }
    assert(keys@ =~= offset_keys(entries));
    let order = order_descending(&keys);
    let ghost positions = descending_order(keys@);
    let mut sorted: Vec<(String, usize)> = Vec::new();
    let mut k: usize = 0;
    while k < order.len()
        invariant
            k <= order.len(),
            entries == found.deep_view(),
            order.len() == keys.len(),
            keys.len() == found.len(),
            order@.map_values(|p: usize| p as int) == positions,
            forall|p: int| 0 <= p < order.len() ==> (#[trigger] order[p]) < keys.len(),
            sorted.len() == k,
            forall|p: int|
                0 <= p < k ==> (#[trigger] sorted.deep_view()[p]) == entries[positions[p]],
        decreases order.len() - k,
    {
        let at = order[k];
        let ghost held = sorted.deep_view();
        assert(positions[k as int] == at as int);
        assert(entries[at as int] == (found[at as int].0@, found[at as int].1));
        sorted.push((found[at].0.clone(), found[at].1));
        assert(sorted.deep_view() =~= held.push(entries[at as int]));
        k += 1;
    }
    assert(sorted.deep_view() =~= arranged(entries, positions));
    Some((log_len, sorted))
}

} // verus!
