//! How the live records spread over age brackets.

use crate::record::{views, ItemView, MemoryItem};
use crate::time::{age_hours, hours_between};
use vstd::prelude::*;
use vstd::string::*;

verus! {

/// The number of age brackets.
pub const BRACKETS: usize = 5;

/// The age bracket of a record as of `now`: 0 for up to 24 hours, 1 for up to
/// 7 days, 2 for up to 30 days, 3 for up to 90 days, 4 beyond. A record from
/// less than an hour in the future counts as new, one from further ahead as
/// beyond every bracket.
pub open spec fn age_bracket(timestamp: i64, now: i64) -> int {
    if now >= timestamp {
        let hours = age_hours(now as int, timestamp as int);
        if hours <= 24 {
            0
        } else if hours <= 168 {
            1
        } else if hours <= 720 {
            2
        } else if hours <= 2160 {
            3
        } else {
            4
        }
    } else if age_hours(timestamp as int, now as int) == 0 {
        0
    } else {
        4
    }
}

/// The name of an age bracket.
pub open spec fn bracket_name(bracket: int) -> Seq<char> {
    if bracket == 0 {
        "0-24h"@
    } else if bracket == 1 {
        "1-7d"@
    } else if bracket == 2 {
        "1-4w"@
    } else if bracket == 3 {
        "1-3m"@
    } else {
        "3m+"@
    }
}

/// Selects the records of one age bracket.
pub open spec fn in_bracket(bracket: int, now: i64) -> spec_fn(ItemView) -> bool {
    |m: ItemView| age_bracket(m.timestamp, now) == bracket
}

/// The rows of an age distribution for the brackets below `upto`: the name and
/// the number of records of each bracket that holds a record, the brackets in
/// ascending order.
pub open spec fn age_rows(live: Seq<ItemView>, now: i64, upto: int) -> Seq<(Seq<char>, usize)>
    decreases upto,
{
    if upto <= 0 {
        Seq::empty()
    } else {
        let before = age_rows(live, now, upto - 1);
        let count = live.filter(in_bracket(upto - 1, now)).len();
        if count > 0 {
            before.push((bracket_name(upto - 1), count as usize))
        } else {
            before
        }
    }
}

/// Computes [`age_bracket`].
pub fn bracket_of(timestamp: i64, now: i64) -> (bracket: usize)
    ensures
        bracket == age_bracket(timestamp, now),
        bracket < BRACKETS,
{
    if now >= timestamp {
        let hours = hours_between(now, timestamp);
        if hours <= 24 {
            0
        } else if hours <= 168 {
            1
        } else if hours <= 720 {
            2
        } else if hours <= 2160 {
            3
        } else {
            4
        }
    } else if hours_between(timestamp, now) == 0 {
        0
    } else {
        4
    }
}

/// The name of an age bracket.
pub fn name_of_bracket(bracket: usize) -> (name: String)
    ensures
        name@ == bracket_name(bracket as int),
{
    if bracket == 0 {
        String::from_str("0-24h")
    } else if bracket == 1 {
        String::from_str("1-7d")
    } else if bracket == 2 {
        String::from_str("1-4w")
    } else if bracket == 3 {
        String::from_str("1-3m")
    } else {
        String::from_str("3m+")
    }
}

/// Counts the records of each age bracket as of `now` and lists the brackets
/// that hold a record.
pub fn age_distribution(items: &Vec<MemoryItem>, now: i64) -> (rows: Vec<(String, usize)>)
    ensures
        rows.deep_view() == age_rows(views(items@), now, BRACKETS as int),
{
    let ghost live = views(items@);
    let mut rows: Vec<(String, usize)> = Vec::new();
    let mut bracket: usize = 0;
    assert(rows.deep_view() =~= age_rows(live, now, 0));
    while bracket < BRACKETS
        invariant
            bracket <= BRACKETS,
            live == views(items@),
            rows.deep_view() == age_rows(live, now, bracket as int),
        decreases BRACKETS - bracket,
    {
        let mut count: usize = 0;
        let mut i: usize = 0;
        let ghost pick = in_bracket(bracket as int, now);
        proof {
            live.take(0).lemma_filter_len(pick);
        }
        while i < items.len()
            invariant
                i <= items.len(),
                live == views(items@),
                pick == in_bracket(bracket as int, now),
                count == live.take(i as int).filter(pick).len(),
                count <= i,
            decreases items.len() - i,
        {
            proof {
                assert(live[i as int] == items[i as int]@);
                assert(live.take(i + 1) =~= live.take(i as int).push(live[i as int]));
                live.take(i as int).lemma_filter_push(live[i as int], pick);
            }
            if bracket_of(items[i].timestamp, now) == bracket {
                count += 1;
            }
            i += 1;
        }
        assert(live.take(i as int) =~= live);
        if count > 0 {
            let ghost before = rows.deep_view();
            rows.push((name_of_bracket(bracket), count));
            assert(rows.deep_view() =~= before.push((bracket_name(bracket as int), count)));
        }
        bracket += 1;
    }
    rows
}

} // verus!
