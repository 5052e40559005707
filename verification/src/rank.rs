//! Best first: the stable order every list of matches comes out in.
use vstd::prelude::*;

verus! {

/// `order` with `item` put after every index whose key is not below its own.
pub open spec fn placed(order: Seq<int>, keys: Seq<i64>, item: int) -> Seq<int>
    decreases order.len(),
{
    if order.len() == 0 {
        seq![item]
    } else if keys[order.last()] >= keys[item] {
        order.push(item)
    } else {
        placed(order.drop_last(), keys, item).push(order.last())
    }
}

/// The first `n` indices, highest key first; equal keys stay in order.
pub open spec fn best_first(keys: Seq<i64>, n: int) -> Seq<int>
    decreases n,
{
    if n <= 0 {
        Seq::empty()
    } else {
        placed(best_first(keys, n - 1), keys, n - 1)
    }
}

/// `a` comes before `b`: its key is higher, or the keys are equal and it came
/// first.
pub open spec fn before(keys: Seq<i64>, a: int, b: int) -> bool {
    keys[a] > keys[b] || (keys[a] == keys[b] && a < b)
}

/// The order lists every index once, and each index comes before those after
/// it.
pub proof fn lemma_best_first(keys: Seq<i64>, n: int)
    requires
        0 <= n <= keys.len(),
    ensures
        best_first(keys, n).len() == n,
        forall|i: int| 0 <= i < n ==> 0 <= #[trigger] best_first(keys, n)[i] < n,
        forall|i: int, j: int|
            0 <= i < j < n ==> before(
                keys,
                #[trigger] best_first(keys, n)[i],
                #[trigger] best_first(keys, n)[j],
            ),
        forall|item: int| 0 <= item < n ==> #[trigger] best_first(keys, n).contains(item),
    decreases n,
{
    if n > 0 {
        lemma_best_first(keys, n - 1);
        lemma_placed(best_first(keys, n - 1), keys, n - 1, n - 1);
    }
}

/// Placing an index after the others keeps the order.
proof fn lemma_placed(order: Seq<int>, keys: Seq<i64>, item: int, n: int)
    requires
        0 <= item < keys.len(),
        forall|i: int| 0 <= i < order.len() ==> 0 <= #[trigger] order[i] < item,
        forall|i: int, j: int|
            0 <= i < j < order.len() ==> before(keys, #[trigger] order[i], #[trigger] order[j]),
    ensures
        placed(order, keys, item).len() == order.len() + 1,
        forall|i: int|
            0 <= i <= order.len() ==> (#[trigger] placed(order, keys, item)[i] == item
                || order.contains(placed(order, keys, item)[i])),
        forall|i: int|
            0 <= i <= order.len() ==> 0 <= #[trigger] placed(order, keys, item)[i] <= item,
        forall|i: int, j: int|
            0 <= i < j <= order.len() ==> before(
                keys,
                #[trigger] placed(order, keys, item)[i],
                #[trigger] placed(order, keys, item)[j],
            ),
        forall|x: int|
            (x == item || order.contains(x)) ==> #[trigger] placed(order, keys, item).contains(x),
    decreases order.len(),
{
    let now = placed(order, keys, item);
    if order.len() == 0 {
        assert(now[0] == item);
        assert(now.contains(item));
    } else if keys[order.last()] >= keys[item] {
        assert forall|i: int| 0 <= i <= order.len() implies (#[trigger] now[i] == item
            || order.contains(now[i])) by {
            if i < order.len() {
                assert(order[i] == now[i]);
            }
        }
        assert forall|i: int, j: int| 0 <= i < j <= order.len() implies before(
            keys,
            #[trigger] now[i],
            #[trigger] now[j],
        ) by {
            if j == order.len() && i < order.len() - 1 {
                assert(before(keys, order[i], order[order.len() - 1]));
            }
        }
        assert forall|x: int| (x == item || order.contains(x)) implies #[trigger] now.contains(x) by {
            if x == item {
                assert(now[order.len() as int] == item);
            } else {
                let i = choose|i: int| 0 <= i < order.len() && order[i] == x;
                assert(now[i] == x);
            }
        }
    } else {
        let rest = order.drop_last();
        lemma_placed(rest, keys, item, n);
        let part = placed(rest, keys, item);
        assert(now =~= part.push(order.last()));
        assert forall|i: int| 0 <= i <= order.len() implies (#[trigger] now[i] == item
            || order.contains(now[i])) by {
            if i < order.len() {
                assert(part[i] == now[i]);
                if part[i] != item {
                    let k = choose|k: int| 0 <= k < rest.len() && rest[k] == part[i];
                    assert(order[k] == now[i]);
                }
            } else {
                assert(order[order.len() - 1] == now[i]);
            }
        }
        assert forall|i: int, j: int| 0 <= i < j <= order.len() implies before(
            keys,
            #[trigger] now[i],
            #[trigger] now[j],
        ) by {
            if j < order.len() {
                assert(before(keys, part[i], part[j]));
            } else if part[i] != item {
                let k = choose|k: int| 0 <= k < rest.len() && rest[k] == part[i];
                assert(before(keys, order[k], order[order.len() - 1]));
            }
        }
        assert forall|x: int| (x == item || order.contains(x)) implies #[trigger] now.contains(x) by {
            if x == order.last() && x != item {
                assert(now[order.len() as int] == x);
            } else {
                if x != item {
                    let i = choose|i: int| 0 <= i < order.len() && order[i] == x;
                    assert(rest[i] == x);
                }
                assert(part.contains(x));
                let i = choose|i: int| 0 <= i < part.len() && part[i] == x;
                assert(now[i] == x);
            }
        }
    }
}

/// Placing is inserting at the slot the keys say.
proof fn lemma_placed_is_insert(order: Seq<int>, keys: Seq<i64>, item: int, slot: int)
    requires
        0 <= slot <= order.len(),
        slot > 0 ==> keys[order[slot - 1]] >= keys[item],
        forall|i: int| slot <= i < order.len() ==> keys[#[trigger] order[i]] < keys[item],
    ensures
        placed(order, keys, item) == order.insert(slot, item),
    decreases order.len(),
{
    if order.len() == 0 {
        assert(placed(order, keys, item) =~= order.insert(slot, item));
    } else if slot == order.len() {
        assert(placed(order, keys, item) =~= order.insert(slot, item));
    } else {
        let rest = order.drop_last();
        assert(keys[order[order.len() - 1]] < keys[item]);
        lemma_placed_is_insert(rest, keys, item, slot);
        assert(placed(order, keys, item) =~= order.insert(slot, item));
    }
}

/// The indices of `keys`, highest key first; equal keys stay in order.
pub fn rank(keys: &Vec<i64>) -> (order: Vec<usize>)
    ensures
        order@.map_values(|i: usize| i as int) == best_first(keys@, keys@.len() as int),
        order@.len() == keys@.len(),
        forall|i: int| 0 <= i < order@.len() ==> #[trigger] order@[i] < keys@.len(),
{
    let mut order: Vec<usize> = Vec::new();
    let mut item: usize = 0;
    assert(order@.map_values(|i: usize| i as int) =~= Seq::<int>::empty());
    while item < keys.len()
        invariant
            item <= keys@.len(),
            order@.len() == item,
            forall|i: int| 0 <= i < order@.len() ==> #[trigger] order@[i] < item,
            order@.map_values(|i: usize| i as int) == best_first(keys@, item as int),
        decreases keys@.len() - item,
    {
        let ghost held = order@.map_values(|i: usize| i as int);
        let mut slot: usize = order.len();
        while slot > 0 && keys[order[slot - 1]] < keys[item]
            invariant
                slot <= order@.len(),
                item < keys@.len(),
                forall|i: int| 0 <= i < order@.len() ==> #[trigger] order@[i] < item,
                forall|i: int|
                    slot <= i < order@.len() ==> keys@[#[trigger] order@[i] as int]
                        < keys@[item as int],
            decreases slot,
        {
            slot -= 1;
        }
        proof {
            assert forall|i: int| slot <= i < held.len() implies keys@[#[trigger] held[i]]
                < keys@[item as int] by {
                assert(keys@[order@[i] as int] < keys@[item as int]);
            }
            lemma_placed_is_insert(held, keys@, item as int, slot as int);
        }
        order.insert(slot, item);
        item += 1;
        assert(order@.map_values(|i: usize| i as int) =~= held.insert(slot as int, item - 1));
    }
    order
}

/// The first `limit` of `rows`, highest key first.
pub open spec fn top<A>(rows: Seq<A>, keys: Seq<i64>, limit: int) -> Seq<A> {
    let count = if rows.len() < limit {
        rows.len() as int
    } else {
        limit
    };
    Seq::new(count as nat, |k: int| rows[best_first(keys, keys.len() as int)[k]])
}

/// What is shown is the best there is, in order: each row has a key no lower
/// than the ones after it -- equal keys keep the order the rows came in -- and
/// a row that is not shown has a key no higher than any that is.
pub proof fn lemma_top_is_the_best<A>(rows: Seq<A>, keys: Seq<i64>, limit: int)
    requires
        rows.len() == keys.len(),
        0 <= limit,
    ensures
        top(rows, keys, limit).len() == (if rows.len() < limit {
            rows.len() as int
        } else {
            limit
        }),
        exists|order: Seq<int>|
            {
                &&& order.len() == rows.len()
                &&& order.no_duplicates()
                &&& forall|k: int| 0 <= k < order.len() ==> 0 <= #[trigger] order[k] < rows.len()
                &&& forall|k: int|
                    0 <= k < top(rows, keys, limit).len() ==> #[trigger] top(rows, keys, limit)[k]
                        == rows[order[k]]
                &&& forall|a: int, b: int|
                    0 <= a < b < order.len() ==> #[trigger] keys[order[a]] > #[trigger] keys[order[b]]
                        || (keys[order[a]] == keys[order[b]] && order[a] < order[b])
            },
{
    let order = best_first(keys, keys.len() as int);
    lemma_best_first(keys, keys.len() as int);
    assert forall|a: int, b: int| 0 <= a < b < order.len() implies #[trigger] keys[order[a]]
        > #[trigger] keys[order[b]] || (keys[order[a]] == keys[order[b]] && order[a] < order[b]) by {
        assert(before(keys, order[a], order[b]));
    }
    assert forall|i: int, j: int| 0 <= i < j < order.len() implies order[i] != order[j] by {
        assert(before(keys, order[i], order[j]));
    }
    assert(order.no_duplicates());
}

/// While there is room every row is shown.
pub proof fn lemma_everything_shown_while_there_is_room<A>(
    rows: Seq<A>,
    keys: Seq<i64>,
    limit: int,
    row: A,
)
    requires
        rows.len() == keys.len(),
        rows.len() <= limit,
        rows.contains(row),
    ensures
        top(rows, keys, limit).contains(row),
{
    let order = best_first(keys, keys.len() as int);
    lemma_best_first(keys, keys.len() as int);
    let i = choose|i: int| 0 <= i < rows.len() && rows[i] == row;
    assert(order.contains(i));
    let k = choose|k: int| 0 <= k < order.len() && order[k] == i;
    assert(top(rows, keys, limit)[k] == row);
}

} // verus!
