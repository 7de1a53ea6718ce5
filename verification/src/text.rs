//! Text primitives shared by the query engine and the summarisers.

use vstd::prelude::*;
use vstd::string::*;

verus! {

/// True when `needle` fills `hay` from position `at` on.
pub open spec fn occurs_at(needle: Seq<char>, hay: Seq<char>, at: int) -> bool {
    &&& 0 <= at
    &&& at + needle.len() <= hay.len()
    &&& hay.subrange(at, at + needle.len()) == needle
}

/// True when `needle` occurs in `hay` as a contiguous run of characters.
pub open spec fn is_substring(needle: Seq<char>, hay: Seq<char>) -> bool {
    exists|at: int| occurs_at(needle, hay, at)
}

/// The lower-case form of a text, as the standard library computes it.
pub uninterp spec fn lowercase_of(s: Seq<char>) -> Seq<char>;

/// The whitespace-separated words of a text, in order, as the standard library
/// splits them.
pub uninterp spec fn words_of(s: Seq<char>) -> Seq<Seq<char>>;

/// A text without its leading and trailing whitespace, as the standard library
/// trims it.
pub uninterp spec fn trimmed(s: Seq<char>) -> Seq<char>;

/// Position of the first `sep` in `s`, or the length of `s` when there is none.
pub open spec fn first_index(s: Seq<char>, sep: char) -> int
    decreases s.len(),
{
    if s.len() == 0 {
        0
    } else if s[0] == sep {
        0
    } else {
        1 + first_index(s.skip(1), sep)
    }
}

/// The pieces of `s` between occurrences of `sep`. A text without `sep` is one
/// piece; two adjacent separators enclose an empty piece.
pub open spec fn split_fields(s: Seq<char>, sep: char) -> Seq<Seq<char>>
    decreases s.len(),
{
    let at = first_index(s, sep);
    if at < 0 || at >= s.len() {
        seq![s]
    } else {
        seq![s.take(at)] + split_fields(s.skip(at + 1), sep)
    }
}

/// The character that writes the decimal digit `d`.
pub open spec fn digit_char(d: int) -> char {
    if d == 0 {
        '0'
    } else if d == 1 {
        '1'
    } else if d == 2 {
        '2'
    } else if d == 3 {
        '3'
    } else if d == 4 {
        '4'
    } else if d == 5 {
        '5'
    } else if d == 6 {
        '6'
    } else if d == 7 {
        '7'
    } else if d == 8 {
        '8'
    } else {
        '9'
    }
}

/// The decimal numeral of `n`, without sign or leading zeros.
pub open spec fn decimal(n: nat) -> Seq<char>
    decreases n,
{
    if n < 10 {
        seq![digit_char(n as int)]
    } else {
        decimal(n / 10).push(digit_char((n % 10) as int))
    }
}

/// Selects the texts equal to `x`.
pub open spec fn same_text(x: Seq<char>) -> spec_fn(Seq<char>) -> bool {
    |y: Seq<char>| y == x
}

/// How often `x` occurs in `s`.
pub open spec fn occurrences(s: Seq<Seq<char>>, x: Seq<char>) -> nat {
    s.filter(same_text(x)).len()
}

/// The texts of `s` without repetitions, each at the place of its first
/// occurrence.
pub open spec fn distinct(s: Seq<Seq<char>>) -> Seq<Seq<char>>
    decreases s.len(),
{
    if s.len() == 0 {
        s
    } else {
        let before = distinct(s.drop_last());
        if before.contains(s.last()) {
            before
        } else {
            before.push(s.last())
        }
    }
}

/// True when `counts` lists each distinct text of `s` once, in the order of
/// first occurrence, with the number of its occurrences.
pub open spec fn is_tally(counts: Seq<(Seq<char>, usize)>, s: Seq<Seq<char>>) -> bool {
    &&& counts.len() == distinct(s).len()
    &&& forall|i: int|
        0 <= i < counts.len() ==> (#[trigger] counts[i]).0 == distinct(s)[i] && counts[i].1
            == occurrences(s, distinct(s)[i])
}

/// Tells whether two string slices hold the same characters.
pub fn str_eq(a: &str, b: &str) -> (same: bool)
    ensures
        same == (a@ == b@),
{
    String::from_str(a) == String::from_str(b)
}

/// `str::to_lowercase`: the result is the lower-case form of the input. What
/// that form is follows Unicode and is left to the standard library.
#[verifier::external_body]
pub(crate) fn to_lowercase(s: &str) -> (lower: String)
    ensures
        lower@ == lowercase_of(s@),
{
    s.to_lowercase()
}

/// `str::contains` with a string pattern: true exactly when the pattern
/// matches a sub-slice of the text.
#[verifier::external_body]
pub(crate) fn contains_text(hay: &str, needle: &str) -> (found: bool)
    ensures
        found == is_substring(needle@, hay@),
{
    hay.contains(needle)
}

/// `str::split_whitespace`: the words of the text, each copied into a `String`.
#[verifier::external_body]
pub(crate) fn split_words(s: &str) -> (words: Vec<String>)
    ensures
        words.deep_view() == words_of(s@),
{
    s.split_whitespace().map(String::from).collect()
}

/// `str::split` with a character pattern: the substrings separated by that
/// character, each copied into a `String`.
#[verifier::external_body]
pub(crate) fn split_on(s: &str, sep: char) -> (fields: Vec<String>)
    ensures
        fields.deep_view() == split_fields(s@, sep),
{
    s.split(sep).map(String::from).collect()
}

/// `str::trim`: the text without leading and trailing whitespace.
#[verifier::external_body]
pub(crate) fn trim_text(s: &str) -> (inner: String)
    ensures
        inner@ == trimmed(s@),
{
    s.trim().to_string()
}

/// `u64::to_string`: the decimal numeral of the number.
#[verifier::external_body]
pub(crate) fn decimal_text(n: u64) -> (digits: String)
    ensures
        digits@ == decimal(n as nat),
{
    n.to_string()
}

/// The words that carry no topic: articles, prepositions, pronouns and
/// auxiliary verbs.
pub open spec fn stop_words() -> Set<Seq<char>> {
    set![
        "the"@, "and"@, "or"@, "but"@, "in"@, "on"@, "at"@, "to"@, "for"@, "of"@, "with"@,
        "by"@, "from"@, "up"@, "about"@, "into"@, "through"@, "during"@, "before"@, "after"@,
        "above"@, "below"@, "between"@, "among"@, "this"@, "that"@, "these"@, "those"@, "i"@,
        "you"@, "he"@, "she"@, "it"@, "we"@, "they"@, "am"@, "is"@, "are"@, "was"@, "were"@,
        "be"@, "been"@, "being"@, "have"@, "has"@, "had"@, "do"@, "does"@, "did"@, "will"@,
        "would"@
    ]
}

/// Tells whether `word` is one of the [`stop_words`].
pub fn is_stop_word(word: &str) -> (stop: bool)
    ensures
        stop == stop_words().contains(word@),
{
    str_eq(word, "the") || str_eq(word, "and") || str_eq(word, "or") || str_eq(word, "but")
        || str_eq(word, "in") || str_eq(word, "on") || str_eq(word, "at") || str_eq(word, "to")
        || str_eq(word, "for") || str_eq(word, "of") || str_eq(word, "with") || str_eq(
        word,
        "by",
    ) || str_eq(word, "from") || str_eq(word, "up") || str_eq(word, "about") || str_eq(
        word,
        "into",
    ) || str_eq(word, "through") || str_eq(word, "during") || str_eq(word, "before") || str_eq(
        word,
        "after",
    ) || str_eq(word, "above") || str_eq(word, "below") || str_eq(word, "between") || str_eq(
        word,
        "among",
    ) || str_eq(word, "this") || str_eq(word, "that") || str_eq(word, "these") || str_eq(
        word,
        "those",
    ) || str_eq(word, "i") || str_eq(word, "you") || str_eq(word, "he") || str_eq(word, "she")
        || str_eq(word, "it") || str_eq(word, "we") || str_eq(word, "they") || str_eq(word, "am")
        || str_eq(word, "is") || str_eq(word, "are") || str_eq(word, "was") || str_eq(
        word,
        "were",
    ) || str_eq(word, "be") || str_eq(word, "been") || str_eq(word, "being") || str_eq(
        word,
        "have",
    ) || str_eq(word, "has") || str_eq(word, "had") || str_eq(word, "do") || str_eq(
        word,
        "does",
    ) || str_eq(word, "did") || str_eq(word, "will") || str_eq(word, "would")
}

/// One more text at the end adds one occurrence of that text and none of any
/// other.
pub proof fn lemma_occurrences_push(s: Seq<Seq<char>>, w: Seq<char>, x: Seq<char>)
    ensures
        occurrences(s.push(w), x) == occurrences(s, x) + if w == x {
            1nat
        } else {
            0nat
        },
        occurrences(s, x) <= s.len(),
{
    s.lemma_filter_push(w, same_text(x));
    s.lemma_filter_len(same_text(x));
}

/// Adds a text to a list unless the list holds it already.
pub fn push_distinct(list: &mut Vec<String>, text: String)
    ensures
        final(list).deep_view() == if old(list).deep_view().contains(text@) {
            old(list).deep_view()
        } else {
            old(list).deep_view().push(text@)
        },
{
    let ghost before = list.deep_view();
    let mut j: usize = 0;
    while j < list.len()
        invariant
            j <= list.len(),
            before == list.deep_view(),
            forall|k: int| 0 <= k < j ==> before[k] != text@,
        decreases list.len() - j,
    {
        assert(before[j as int] == list[j as int]@);
        if list[j] == text {
            return ;
        }
        j += 1;
    }
    list.push(text);
    assert(list.deep_view() =~= before.push(text@));
}

/// The distinct texts of a run that grew by one text.
pub proof fn lemma_distinct_push(s: Seq<Seq<char>>, x: Seq<char>)
    ensures
        distinct(s.push(x)) == if distinct(s).contains(x) {
            distinct(s)
        } else {
            distinct(s).push(x)
        },
{
    assert(s.push(x).drop_last() =~= s);
}

/// Counts the occurrences of each text, in the order of first occurrence.
pub fn tally_texts(words: &Vec<String>) -> (counts: Vec<(String, usize)>)
    ensures
        is_tally(counts.deep_view(), words.deep_view()),
{
    let ghost all = words.deep_view();
    let mut names: Vec<String> = Vec::new();
    let mut numbers: Vec<usize> = Vec::new();
    let mut i: usize = 0;
    while i < words.len()
        invariant
            i <= words.len(),
            all == words.deep_view(),
            names.len() == numbers.len(),
            names.deep_view() == distinct(all.take(i as int)),
            forall|j: int|
                0 <= j < numbers.len() ==> (#[trigger] numbers[j]) == occurrences(
                    all.take(i as int),
                    names.deep_view()[j],
                ),
        decreases words.len() - i,
    {
        let ghost seen = all.take(i as int);
        let word = &words[i];
        proof {
            assert(all[i as int] == word@);
            assert(all.take(i + 1) =~= seen.push(word@));
            assert(seen.push(word@).drop_last() =~= seen);
            assert forall|x: Seq<char>|
                occurrences(all.take(i + 1), x) == occurrences(seen, x) + if word@ == x {
                    1nat
                } else {
                    0nat
                } && occurrences(seen, x) <= i by {
                lemma_occurrences_push(seen, word@, x);
            }
        }
        let mut j: usize = 0;
        let mut found = false;
        while j < names.len()
            invariant_except_break
                !found,
                forall|k: int| 0 <= k < j ==> names.deep_view()[k] != word@,
            invariant
                j <= names.len(),
            ensures
                j <= names.len(),
                found ==> j < names.len() && names.deep_view()[j as int] == word@,
                !found ==> !names.deep_view().contains(word@),
            decreases names.len() - j,
        {
            assert(names.deep_view()[j as int] == names[j as int]@);
            if names[j] == *word {
                found = true;
                break ;
            }
            j += 1;
        }
        let ghost old_names = names.deep_view();
        let ghost old_numbers = numbers@;
        if found {
            let n = numbers[j];
            numbers.set(j, n + 1);
            proof {
                assert(old_names.contains(word@));
                lemma_distinct_no_duplicates(seen);
                assert forall|k: int| 0 <= k < numbers.len() implies (#[trigger] numbers[k])
                    == occurrences(seen.push(word@), old_names[k]) by {
                    lemma_occurrences_push(seen, word@, old_names[k]);
                    assert(old_numbers[k] == occurrences(seen, old_names[k]));
                    if k != j {
                        assert(old_names[k] != old_names[j as int]);
                    }
                }
            }
        } else {
            names.push(word.clone());
            numbers.push(1);
            proof {
                assert(names.deep_view() =~= old_names.push(word@));
                lemma_absent_has_no_occurrence(seen, word@);
                assert forall|k: int| 0 <= k < numbers.len() implies (#[trigger] numbers[k])
                    == occurrences(seen.push(word@), names.deep_view()[k]) by {
                    lemma_occurrences_push(seen, word@, names.deep_view()[k]);
                    if k < old_numbers.len() {
                        assert(old_numbers[k] == occurrences(seen, old_names[k]));
                        assert(old_names.contains(old_names[k]));
                    }
                }
            }
        }
        i += 1;
        assert(all.take(i as int) == seen.push(word@));
    }
    assert(all.take(i as int) =~= all);
    let mut counts: Vec<(String, usize)> = Vec::new();
    let mut k: usize = 0;
    while k < names.len()
        invariant
            k <= names.len(),
            names.len() == numbers.len(),
            counts.len() == k,
            forall|j: int|
                0 <= j < k ==> (#[trigger] counts[j]).0@ == names[j]@ && counts[j].1
                    == numbers[j],
        decreases names.len() - k,
    {
        counts.push((names[k].clone(), numbers[k]));
        k += 1;
    }
    proof {
        assert forall|j: int| 0 <= j < counts.len() implies (#[trigger] counts.deep_view()[j])
            == (names.deep_view()[j], numbers[j]) by {
            assert(counts.deep_view()[j] == (counts[j].0@, counts[j].1));
            assert(names.deep_view()[j] == names[j]@);
        }
    }
    counts
}

/// Every text of `s` is among its distinct texts, and the other way round.
pub proof fn lemma_distinct_contains(s: Seq<Seq<char>>, x: Seq<char>)
    ensures
        distinct(s).contains(x) <==> s.contains(x),
    decreases s.len(),
{
    if s.len() > 0 {
        lemma_distinct_contains(s.drop_last(), x);
        let before = distinct(s.drop_last());
        if s.contains(x) {
            let k = choose|k: int| 0 <= k < s.len() && s[k] == x;
            if k < s.len() - 1 {
                assert(s.drop_last()[k] == x);
            }
        }
        if distinct(s).contains(x) {
            if before.contains(x) {
                let k = choose|k: int| 0 <= k < s.len() - 1 && s.drop_last()[k] == x;
                assert(s[k] == x);
            } else {
                if before.contains(s.last()) {
                } else {
                    let k = choose|k: int| 0 <= k < distinct(s).len() && distinct(s)[k] == x;
                    if k < before.len() {
                        assert(before[k] == x);
                    }
                    assert(s[s.len() - 1] == x);
                }
            }
        }
        if s.contains(x) && !distinct(s).contains(x) {
            if s.last() == x {
                if before.contains(x) {
                } else {
                    assert(before.push(x)[before.len() as int] == x);
                }
            } else {
                let k = choose|k: int| 0 <= k < before.len() && before[k] == x;
                assert(distinct(s)[k] == x);
            }
        }
    }
}

/// No text stands twice among the distinct texts of `s`.
pub proof fn lemma_distinct_no_duplicates(s: Seq<Seq<char>>)
    ensures
        distinct(s).no_duplicates(),
    decreases s.len(),
{
    if s.len() > 0 {
        lemma_distinct_no_duplicates(s.drop_last());
    }
}

/// A text that is not among the distinct texts of `s` does not occur in `s`.
pub proof fn lemma_absent_has_no_occurrence(s: Seq<Seq<char>>, x: Seq<char>)
    requires
        !distinct(s).contains(x),
    ensures
        occurrences(s, x) == 0,
    decreases s.len(),
{
    lemma_distinct_contains(s, x);
    s.lemma_all_neg_filter_empty(same_text(x));
}

} // verus!
