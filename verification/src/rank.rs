//! Ordering by a numeric key: positions arranged from the largest key to the
//! smallest, equal keys in the order in which they came.

use vstd::prelude::*;

verus! {

/// Puts position `i` behind the last position of `order` whose key is at least
/// as large.
pub open spec fn insert_descending(order: Seq<int>, keys: Seq<i128>, i: int) -> Seq<int>
    decreases order.len(),
{
    if order.len() == 0 {
        seq![i]
    } else if keys[order.last()] >= keys[i] {
        order.push(i)
    } else {
        insert_descending(order.drop_last(), keys, i).push(order.last())
    }
}

/// The positions of `keys` from the largest key to the smallest; positions of
/// equal keys stay in ascending order.
pub open spec fn descending_order(keys: Seq<i128>) -> Seq<int>
    decreases keys.len(),
{
    if keys.len() == 0 {
        Seq::empty()
    } else {
        insert_descending(descending_order(keys.drop_last()), keys, keys.len() - 1)
    }
}

/// The elements of `s` in the order that `order` gives.
pub open spec fn arranged<T>(s: Seq<T>, order: Seq<int>) -> Seq<T> {
    Seq::new(order.len(), |k: int| s[order[k]])
}

/// True when `order` holds every position below `n` exactly once.
pub open spec fn is_permutation(order: Seq<int>, n: int) -> bool {
    &&& order.len() == n
    &&& forall|k: int| 0 <= k < order.len() ==> 0 <= #[trigger] order[k] < n
    &&& forall|a: int, b: int|
        0 <= a < b < order.len() ==> #[trigger] order[a] != #[trigger] order[b]
}

/// True when the keys fall along `order`, and positions of equal keys rise.
pub open spec fn falls_along(keys: Seq<i128>, order: Seq<int>) -> bool {
    forall|a: int, b: int|
        0 <= a < b < order.len() ==> {
            ||| keys[#[trigger] order[a]] > keys[#[trigger] order[b]]
            ||| (keys[order[a]] == keys[order[b]] && order[a] < order[b])
        }
}

/// Inserting behind a prefix and keeping the rest is inserting into the whole,
/// as long as the rest has smaller keys.
proof fn lemma_insert_splits(order: Seq<int>, keys: Seq<i128>, i: int, pos: int)
    requires
        0 <= pos <= order.len(),
        forall|j: int| pos <= j < order.len() ==> keys[#[trigger] order[j]] < keys[i],
    ensures
        insert_descending(order, keys, i) == insert_descending(order.take(pos), keys, i)
            + order.skip(pos),
    decreases order.len() - pos,
{
    if pos == order.len() {
        assert(order.take(pos) =~= order);
        assert(insert_descending(order, keys, i) + order.skip(pos) =~= insert_descending(
            order,
            keys,
            i,
        ));
    } else {
        lemma_insert_splits(order.drop_last(), keys, i, pos);
        assert(order.drop_last().take(pos) =~= order.take(pos));
        assert(order.drop_last().skip(pos).push(order.last()) =~= order.skip(pos));
        assert((insert_descending(order.take(pos), keys, i) + order.drop_last().skip(pos)).push(
            order.last(),
        ) =~= insert_descending(order.take(pos), keys, i) + order.skip(pos));
    }
}

/// Insertion keeps what was there, in its order, and adds the new position.
proof fn lemma_insert_shape(order: Seq<int>, keys: Seq<i128>, i: int)
    ensures
        exists|pos: int|
            0 <= pos <= order.len() && #[trigger] order.insert(pos, i) == insert_descending(
                order,
                keys,
                i,
            ) && (forall|j: int| pos <= j < order.len() ==> keys[#[trigger] order[j]] < keys[i])
                && (pos > 0 ==> keys[order[pos - 1]] >= keys[i]),
    decreases order.len(),
{
    if order.len() == 0 {
        assert(order.insert(0, i) =~= seq![i]);
    } else if keys[order.last()] >= keys[i] {
        assert(order.insert(order.len() as int, i) =~= order.push(i));
    } else {
        let front = order.drop_last();
        lemma_insert_shape(front, keys, i);
        let pos = choose|pos: int|
            0 <= pos <= front.len() && #[trigger] front.insert(pos, i) == insert_descending(
                front,
                keys,
                i,
            ) && (forall|j: int| pos <= j < front.len() ==> keys[#[trigger] front[j]] < keys[i])
                && (pos > 0 ==> keys[front[pos - 1]] >= keys[i]);
        assert(order.insert(pos, i) =~= front.insert(pos, i).push(order.last()));
        assert forall|j: int| pos <= j < order.len() implies keys[#[trigger] order[j]]
            < keys[i] by {
            if j < front.len() {
                assert(front[j] == order[j]);
            }
        }
        if pos > 0 {
            assert(front[pos - 1] == order[pos - 1]);
        }
    }
}

/// The descending order holds every position once, and the keys fall along it.
pub proof fn lemma_descending_order(keys: Seq<i128>)
    ensures
        is_permutation(descending_order(keys), keys.len() as int),
        falls_along(keys, descending_order(keys)),
    decreases keys.len(),
{
    if keys.len() > 0 {
        let front = keys.drop_last();
        let i = keys.len() - 1;
        lemma_descending_order(front);
        let before = descending_order(front);
        lemma_insert_shape(before, keys, i);
        let pos = choose|pos: int|
            0 <= pos <= before.len() && #[trigger] before.insert(pos, i) == insert_descending(
                before,
                keys,
                i,
            ) && (forall|j: int| pos <= j < before.len() ==> keys[#[trigger] before[j]] < keys[i])
                && (pos > 0 ==> keys[before[pos - 1]] >= keys[i]);
        let after = before.insert(pos, i);
        assert(after == descending_order(keys));
        assert forall|k: int| 0 <= k < after.len() implies 0 <= #[trigger] after[k]
            < keys.len() by {
            if k < pos {
                assert(after[k] == before[k]);
            } else if k > pos {
                assert(after[k] == before[k - 1]);
            }
        }
        assert forall|a: int, b: int| 0 <= a < b < after.len() implies #[trigger] after[a]
            != #[trigger] after[b] && (keys[after[a]] > keys[after[b]] || (keys[after[a]]
            == keys[after[b]] && after[a] < after[b])) by {
            let oa = if a < pos {
                a
            } else {
                a - 1
            };
            let ob = if b < pos {
                b
            } else {
                b - 1
            };
            if a != pos {
                assert(after[a] == before[oa]);
                assert(keys[before[oa]] == front[before[oa]]);
            }
            if b != pos {
                assert(after[b] == before[ob]);
                assert(keys[before[ob]] == front[before[ob]]);
            }
            if a == pos {
                assert(keys[before[ob]] < keys[i]);
            } else if b == pos {
                if pos > 0 {
                    let last = before[pos - 1];
                    assert(keys[last] == front[last]);
                    if oa < pos - 1 {
                        assert(front[before[oa]] > front[last] || (front[before[oa]]
                            == front[last] && before[oa] < last));
                    }
                }
            } else {
                assert(front[before[oa]] > front[before[ob]] || (front[before[oa]]
                    == front[before[ob]] && before[oa] < before[ob]));
            }
        }
    }
}

/// Arranges the positions of `keys` from the largest key to the smallest,
/// keeping positions of equal keys in ascending order.
pub fn order_descending(keys: &Vec<i128>) -> (order: Vec<usize>)
    ensures
        order@.map_values(|p: usize| p as int) == descending_order(keys@),
        order.len() == keys.len(),
        forall|k: int| 0 <= k < order.len() ==> (#[trigger] order[k]) < keys.len(),
{
    let mut order: Vec<usize> = Vec::new();
    let mut i: usize = 0;
    while i < keys.len()
        invariant
            i <= keys.len(),
            order.len() == i,
            order@.map_values(|p: usize| p as int) == descending_order(keys@.take(i as int)),
            forall|k: int| 0 <= k < order.len() ==> (#[trigger] order[k]) < i,
        decreases keys.len() - i,
    {
        let ghost before = order@.map_values(|p: usize| p as int);
        let ghost seen = keys@.take(i as int);
        let ghost next = keys@.take(i + 1);
        let mut pos: usize = order.len();
        while pos > 0 && keys[order[pos - 1]] < keys[i]
            invariant
                pos <= order.len(),
                i < keys.len(),
                before == order@.map_values(|p: usize| p as int),
                next == keys@.take(i + 1),
                forall|k: int| 0 <= k < order.len() ==> (#[trigger] order[k]) < i,
                forall|j: int|
                    pos <= j < before.len() ==> next[#[trigger] before[j]] < next[i as int],
            decreases pos,
        {
            assert(before[pos - 1] == order[pos - 1]);
            pos -= 1;
        }
        proof {
            lemma_insert_splits(before, next, i as int, pos as int);
            let head = before.take(pos as int);
            if pos > 0 {
                assert(head.last() == before[pos - 1]);
                assert(before[pos - 1] == order[pos - 1]);
            }
            assert(insert_descending(head, next, i as int) == head.push(i as int));
            assert(next.drop_last() =~= seen);
            assert(descending_order(next) == insert_descending(before, next, i as int));
        }
        order.insert(pos, i);
        proof {
            assert(order@.map_values(|p: usize| p as int) =~= before.take(pos as int).push(
                i as int,
            ) + before.skip(pos as int));
        }
        i += 1;
    }
    assert(keys@.take(i as int) =~= keys@);
    order
}

} // verus!
