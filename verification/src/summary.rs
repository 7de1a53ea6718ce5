//! What is derived from a group of records: its span in time, its mean
//! importance, its most frequent topic words and its excerpts.

use crate::rank::{arranged, descending_order, order_descending};
use crate::record::{views, ItemView, MemoryItem};
use crate::text::{
    distinct, is_stop_word, is_tally, lowercase_of, occurrences, split_words, stop_words,
    tally_texts, to_lowercase, words_of,
};
use vstd::prelude::*;
use vstd::string::*;
use vstd::utf8::encode_utf8;

verus! {

/// The instant of the oldest record; 0 for no records.
pub open spec fn earliest(members: Seq<ItemView>) -> i64
    decreases members.len(),
{
    if members.len() == 0 {
        0
    } else if members.len() == 1 {
        members[0].timestamp
    } else if members.last().timestamp < earliest(members.drop_last()) {
        members.last().timestamp
    } else {
        earliest(members.drop_last())
    }
}

/// The instant of the newest record; 0 for no records.
pub open spec fn latest(members: Seq<ItemView>) -> i64
    decreases members.len(),
{
    if members.len() == 0 {
        0
    } else if members.len() == 1 {
        members[0].timestamp
    } else if members.last().timestamp > latest(members.drop_last()) {
        members.last().timestamp
    } else {
        latest(members.drop_last())
    }
}

/// No record is older than the oldest instant or newer than the newest, and
/// both instants are those of records.
pub proof fn lemma_span_bounds(members: Seq<ItemView>)
    requires
        members.len() > 0,
    ensures
        forall|k: int|
            0 <= k < members.len() ==> earliest(members) <= (#[trigger] members[k]).timestamp
                <= latest(members),
        exists|k: int|
            0 <= k < members.len() && (#[trigger] members[k]).timestamp == earliest(members),
        exists|k: int|
            0 <= k < members.len() && (#[trigger] members[k]).timestamp == latest(members),
    decreases members.len(),
{
    if members.len() == 1 {
        assert(members[0].timestamp == earliest(members));
    } else {
        let front = members.drop_last();
        lemma_span_bounds(front);
        assert forall|k: int| 0 <= k < members.len() implies earliest(members) <= (
        #[trigger] members[k]).timestamp <= latest(members) by {
            if k < front.len() {
                assert(front[k] == members[k]);
            }
        }
        let low = choose|k: int|
            0 <= k < front.len() && (#[trigger] front[k]).timestamp == earliest(front);
        let high = choose|k: int|
            0 <= k < front.len() && (#[trigger] front[k]).timestamp == latest(front);
        assert(members[low] == front[low]);
        assert(members[high] == front[high]);
        let last = members.len() - 1;
        assert(members[last] == members.last());
        if members.last().timestamp < earliest(front) {
            assert(members[last].timestamp == earliest(members));
        } else {
            assert(members[low].timestamp == earliest(members));
        }
        if members.last().timestamp > latest(front) {
            assert(members[last].timestamp == latest(members));
        } else {
            assert(members[high].timestamp == latest(members));
        }
    }
}

/// The oldest and the newest instant among the records; `(0, 0)` for none.
pub fn time_span(memories: &Vec<MemoryItem>) -> (span: (i64, i64))
    ensures
        span.0 == earliest(views(memories@)),
        span.1 == latest(views(memories@)),
{
    let ghost all = views(memories@);
    let mut first: i64 = 0;
    let mut last: i64 = 0;
    let mut i: usize = 0;
    while i < memories.len()
        invariant
            i <= memories.len(),
            all == views(memories@),
            first == earliest(all.take(i as int)),
            last == latest(all.take(i as int)),
        decreases memories.len() - i,
    {
        proof {
            assert(all[i as int] == memories[i as int]@);
            assert(all.take(i + 1).drop_last() =~= all.take(i as int));
        }
        let t = memories[i].timestamp;
        if i == 0 || t < first {
            first = t;
        }
        if i == 0 || t > last {
            last = t;
        }
        i += 1;
    }
    assert(all.take(i as int) =~= all);
    (first, last)
}

/// The sum of the records' importances.
pub open spec fn total_importance(members: Seq<ItemView>) -> int
    decreases members.len(),
{
    if members.len() == 0 {
        0
    } else {
        total_importance(members.drop_last()) + members.last().importance
    }
}

/// The arithmetic mean of the records' importances, rounded towards zero; 0
/// for no records.
pub open spec fn mean_importance(members: Seq<ItemView>) -> int {
    let total = total_importance(members);
    if members.len() == 0 {
        0
    } else if total >= 0 {
        total / (members.len() as int)
    } else {
        -((-total) / (members.len() as int))
    }
}

/// Computes [`mean_importance`].
pub fn mean_of(memories: &Vec<MemoryItem>) -> (mean: i32)
    ensures
        mean == mean_importance(views(memories@)),
{
    let ghost all = views(memories@);
    let mut total: i128 = 0;
    let mut i: usize = 0;
    while i < memories.len()
        invariant
            i <= memories.len(),
            all == views(memories@),
            total == total_importance(all.take(i as int)),
            -2147483648 * i <= total <= 2147483647 * i,
        decreases memories.len() - i,
    {
        proof {
            assert(all[i as int] == memories[i as int]@);
            assert(all.take(i + 1).drop_last() =~= all.take(i as int));
        }
        total = total + memories[i].importance as i128;
        i += 1;
    }
    assert(all.take(i as int) =~= all);
    if memories.len() == 0 {
        return 0;
    }
    let n: i128 = memories.len() as i128;
    if total >= 0 {
        assert(total / n <= 2147483647) by (nonlinear_arith)
            requires
                0 <= total <= 2147483647 * n,
                n > 0,
        ;
        assert(total / n >= 0) by (nonlinear_arith)
            requires
                0 <= total,
                n > 0,
        ;
        (total / n) as i32
    } else {
        let flipped: i128 = -total;
        assert(flipped / n <= 2147483648) by (nonlinear_arith)
            requires
                0 <= flipped <= 2147483648 * n,
                n > 0,
        ;
        assert(flipped / n >= 0) by (nonlinear_arith)
            requires
                0 <= flipped,
                n > 0,
        ;
        (-(flipped / n)) as i32
    }
}

/// The length of a text in bytes of UTF-8.
pub open spec fn byte_len(word: Seq<char>) -> nat {
    encode_utf8(word).len()
}

/// True for a word that can name a topic: longer than three bytes and no stop
/// word.
pub open spec fn is_topic_word(word: Seq<char>) -> bool {
    byte_len(word) > 3 && !stop_words().contains(word)
}

/// [`is_topic_word`] as a predicate.
pub open spec fn topic_word() -> spec_fn(Seq<char>) -> bool {
    |word: Seq<char>| is_topic_word(word)
}

/// The topic words of a text: the words of its lower-case form that can name a
/// topic.
pub open spec fn topic_words(content: Seq<char>) -> Seq<Seq<char>> {
    words_of(lowercase_of(content)).filter(topic_word())
}

/// The topic words of the records' contents, record after record.
pub open spec fn all_topic_words(members: Seq<ItemView>) -> Seq<Seq<char>>
    decreases members.len(),
{
    if members.len() == 0 {
        Seq::empty()
    } else {
        all_topic_words(members.drop_last()) + topic_words(members.last().content)
    }
}

/// The keys by which words are ranked: how often each distinct word occurs.
pub open spec fn frequency_keys(words: Seq<Seq<char>>) -> Seq<i128> {
    distinct(words).map_values(|w: Seq<char>| occurrences(words, w) as i128)
}

/// How many topics a summary names at most.
pub const TOPIC_LIMIT: usize = 5;

/// The five most frequent words, the most frequent first; words of one
/// frequency in the order of their first occurrence.
pub open spec fn leading_topics(words: Seq<Seq<char>>) -> Seq<Seq<char>> {
    let ranked = arranged(distinct(words), descending_order(frequency_keys(words)));
    if ranked.len() > TOPIC_LIMIT {
        ranked.take(TOPIC_LIMIT as int)
    } else {
        ranked
    }
}

/// The key topics of a group of records.
pub open spec fn key_topics(members: Seq<ItemView>) -> Seq<Seq<char>> {
    leading_topics(all_topic_words(members))
}

/// Extracts the topic words of a text.
pub fn topic_words_of(content: &str) -> (words: Vec<String>)
    ensures
        words.deep_view() == topic_words(content@),
{
    let lower = to_lowercase(content);
    let candidates = split_words(lower.as_str());
    let ghost all = candidates.deep_view();
    let mut words: Vec<String> = Vec::new();
    let mut i: usize = 0;
    proof {
        all.take(0).lemma_filter_len(topic_word());
        assert(words.deep_view() =~= all.take(0).filter(topic_word()));
    }
    while i < candidates.len()
        invariant
            i <= candidates.len(),
            all == candidates.deep_view(),
            words.deep_view() == all.take(i as int).filter(topic_word()),
        decreases candidates.len() - i,
    {
        let word = candidates[i].as_str();
        let ghost before = words.deep_view();
        proof {
            assert(all[i as int] == word@);
            assert(all.take(i + 1) =~= all.take(i as int).push(word@));
            all.take(i as int).lemma_filter_push(word@, topic_word());
        }
        assert(topic_word()(word@) == is_topic_word(word@));
        if word.as_bytes().len() > 3 && !is_stop_word(word) {
            words.push(candidates[i].clone());
            assert(words.deep_view() =~= before.push(word@));
        }
        i += 1;
    }
    assert(all.take(i as int) =~= all);
    words
}

/// Ranks words by frequency and keeps the five most frequent.
pub fn rank_topics(words: &Vec<String>) -> (topics: Vec<String>)
    ensures
        topics.deep_view() == leading_topics(words.deep_view()),
{
    let ghost all = words.deep_view();
    let counts = tally_texts(words);
    let mut keys: Vec<i128> = Vec::new();
    let mut i: usize = 0;
    while i < counts.len()
        invariant
            i <= counts.len(),
            is_tally(counts.deep_view(), all),
            keys.len() == i,
            forall|j: int| 0 <= j < i ==> (#[trigger] keys[j]) == frequency_keys(all)[j],
        decreases counts.len() - i,
    {
        assert(counts.deep_view()[i as int] == (counts[i as int].0@, counts[i as int].1));
        keys.push(counts[i].1 as i128);
        i += 1;
    }
    assert(keys@ =~= frequency_keys(all));
    let order = order_descending(&keys);
    let ghost positions = descending_order(keys@);
    let ghost ranked = arranged(distinct(all), positions);
    let mut topics: Vec<String> = Vec::new();
    let mut k: usize = 0;
    while k < order.len() && k < TOPIC_LIMIT
        invariant
            k <= order.len(),
            k <= TOPIC_LIMIT,
            is_tally(counts.deep_view(), all),
            order.len() == keys.len(),
            keys.len() == counts.len(),
            order@.map_values(|p: usize| p as int) == positions,
            forall|j: int| 0 <= j < order.len() ==> (#[trigger] order[j]) < keys.len(),
            ranked == arranged(distinct(all), positions),
            topics.len() == k,
            forall|j: int| 0 <= j < k ==> (#[trigger] topics[j])@ == ranked[j],
        decreases order.len() - k,
    {
        let at = order[k];
        assert(positions[k as int] == at as int);
        assert(counts.deep_view()[at as int] == (counts[at as int].0@, counts[at as int].1));
        topics.push(counts[at].0.clone());
        k += 1;
    }
    assert(topics.deep_view() =~= leading_topics(all));
    topics
}

/// The key topics of a group of records: the five most frequent topic words of
/// their contents.
pub fn extract_key_points(memories: &Vec<MemoryItem>) -> (topics: Vec<String>)
    ensures
        topics.deep_view() == key_topics(views(memories@)),
{
    let ghost all = views(memories@);
    let mut words: Vec<String> = Vec::new();
    let mut i: usize = 0;
    assert(words.deep_view() =~= all_topic_words(all.take(0)));
    while i < memories.len()
        invariant
            i <= memories.len(),
            all == views(memories@),
            words.deep_view() == all_topic_words(all.take(i as int)),
        decreases memories.len() - i,
    {
        let mut more = topic_words_of(memories[i].content.as_str());
        let ghost before = words.deep_view();
        let ghost extra = more.deep_view();
        proof {
            assert(all[i as int] == memories[i as int]@);
            assert(all.take(i + 1).drop_last() =~= all.take(i as int));
        }
        words.append(&mut more);
        assert(words.deep_view() =~= before + extra);
        i += 1;
    }
    assert(all.take(i as int) =~= all);
    rank_topics(&words)
}

/// The texts written one after the other, `sep` between each two.
pub open spec fn joined(parts: Seq<Seq<char>>, sep: Seq<char>) -> Seq<char>
    decreases parts.len(),
{
    if parts.len() == 0 {
        Seq::empty()
    } else if parts.len() == 1 {
        parts[0]
    } else {
        joined(parts.drop_last(), sep) + sep + parts.last()
    }
}

/// Computes [`joined`].
pub fn join_texts(parts: &Vec<String>, sep: &str) -> (text: String)
    ensures
        text@ == joined(parts.deep_view(), sep@),
{
    let ghost all = parts.deep_view();
    let mut text = String::new();
    let mut i: usize = 0;
    while i < parts.len()
        invariant
            i <= parts.len(),
            all == parts.deep_view(),
            text@ == joined(all.take(i as int), sep@),
        decreases parts.len() - i,
    {
        proof {
            assert(all[i as int] == parts[i as int]@);
            assert(all.take(i + 1).drop_last() =~= all.take(i as int));
        }
        if i > 0 {
            text.append(sep);
        } else {
            assert(Seq::<char>::empty() + parts[i as int]@ =~= parts[i as int]@);
        }
        text.append(parts[i].as_str());
        i += 1;
    }
    assert(all.take(i as int) =~= all);
    text
}

/// A text cut after `limit` characters, with `mark` behind the cut; a text
/// that is not longer stays as it is.
pub open spec fn excerpt(content: Seq<char>, limit: nat, mark: Seq<char>) -> Seq<char> {
    if content.len() > limit {
        content.take(limit as int) + mark
    } else {
        content
    }
}

/// Computes [`excerpt`].
pub fn excerpt_of(content: &str, limit: usize, mark: &str) -> (text: String)
    ensures
        text@ == excerpt(content@, limit as nat, mark@),
{
    if content.unicode_len() > limit {
        let head = content.substring_char(0, limit);
        assert(content@.subrange(0, limit as int) =~= content@.take(limit as int));
        String::from_str(head).concat(mark)
    } else {
        String::from_str(content)
    }
}

} // verus!
