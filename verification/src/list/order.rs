//! Longest runs whose order did not change.
//!
//! A list that re-reads a stretch keeps as many rows in place as it can. The
//! rows it can keep are a *chain*: picked left to right, with their old
//! positions increasing too. [`longest_in_order`] finds a longest one by
//! patience sorting.
use vstd::prelude::*;

verus! {

/// A chain in `pairs`: indices that increase, with increasing first parts.
pub open spec fn is_chain(pairs: Seq<(usize, usize)>, chain: Seq<int>) -> bool {
    &&& forall|i: int| 0 <= i < chain.len() ==> 0 <= #[trigger] chain[i] < pairs.len()
    &&& forall|i: int, j: int|
        0 <= i < j < chain.len() ==> #[trigger] chain[i] < #[trigger] chain[j] && pairs[chain[i]].0
            < pairs[chain[j]].0
}

/// How many of `flags` are set.
pub open spec fn count_set(flags: Seq<bool>) -> nat
    decreases flags.len(),
{
    if flags.len() == 0 {
        0
    } else {
        count_set(flags.drop_last()) + (if flags.last() {
            1nat
        } else {
            0nat
        })
    }
}

/// The set indices of `kept` are a chain.
pub open spec fn keeps_a_chain(pairs: Seq<(usize, usize)>, kept: Seq<bool>) -> bool {
    &&& kept.len() == pairs.len()
    &&& forall|i: int, j: int|
        0 <= i < j < kept.len() && #[trigger] kept[i] && #[trigger] kept[j] ==> pairs[i].0
            < pairs[j].0
}

/// The length of the longest chain ending at `end`.
spec fn rank(pairs: Seq<(usize, usize)>, end: int) -> nat
    decreases end, 1nat,
{
    if end < 0 {
        0
    } else {
        best_before(pairs, end, end) + 1
    }
}

/// The best rank among the first `upto` pairs that may precede `end`.
spec fn best_before(pairs: Seq<(usize, usize)>, end: int, upto: int) -> nat
    decreases end, 0nat, upto,
{
    if upto <= 0 || upto > end {
        0
    } else {
        let rest = best_before(pairs, end, upto - 1);
        let here = rank(pairs, upto - 1);
        if pairs[upto - 1].0 < pairs[end].0 && here > rest {
            here
        } else {
            rest
        }
    }
}

proof fn lemma_best_before(pairs: Seq<(usize, usize)>, end: int, upto: int)
    requires
        0 <= upto <= end < pairs.len(),
    ensures
        forall|j: int|
            0 <= j < upto && pairs[j].0 < pairs[end].0 ==> #[trigger] rank(pairs, j)
                <= best_before(pairs, end, upto),
        best_before(pairs, end, upto) > 0 ==> exists|j: int|
            0 <= j < upto && pairs[j].0 < pairs[end].0 && #[trigger] rank(pairs, j) == best_before(
                pairs,
                end,
                upto,
            ),
    decreases upto,
{
    if upto > 0 {
        lemma_best_before(pairs, end, upto - 1);
        let here = rank(pairs, upto - 1);
        if best_before(pairs, end, upto) > 0 {
            if pairs[upto - 1].0 < pairs[end].0 && here > best_before(pairs, end, upto - 1) {
                assert(rank(pairs, upto - 1) == best_before(pairs, end, upto));
            }
        }
    }
}

/// No chain ending at `chain.last()` is longer than that index's rank.
proof fn lemma_chain_bounded(pairs: Seq<(usize, usize)>, chain: Seq<int>)
    requires
        is_chain(pairs, chain),
        chain.len() > 0,
    ensures
        chain.len() <= rank(pairs, chain.last()),
    decreases chain.len(),
{
    let end = chain.last();
    if chain.len() > 1 {
        let shorter = chain.drop_last();
        assert(is_chain(pairs, shorter));
        lemma_chain_bounded(pairs, shorter);
        let before = shorter.last();
        assert(before == chain[chain.len() - 2]);
        lemma_best_before(pairs, end, end);
        assert(rank(pairs, before) <= best_before(pairs, end, end));
    }
}

/// Patience piles over the first `n` pairs: pile `k` shows the index with the
/// smallest first part among those of rank `k + 1`.
spec fn piles_ok(pairs: Seq<(usize, usize)>, tails: Seq<usize>, n: int) -> bool {
    &&& forall|k: int|
        0 <= k < tails.len() ==> (#[trigger] tails[k]) < n && rank(pairs, tails[k] as int) == k + 1
    &&& forall|k: int, l: int|
        0 <= k < l < tails.len() ==> pairs[#[trigger] tails[k] as int].0
            < pairs[#[trigger] tails[l] as int].0
    &&& forall|i: int|
        0 <= i < n ==> 1 <= #[trigger] rank(pairs, i) <= tails.len()
            && pairs[tails[rank(pairs, i) - 1] as int].0 <= pairs[i].0
}

/// Which of `pairs` form the longest run whose first parts also increase.
///
/// `pairs` are `(old position, new position)` in new order.
pub fn longest_in_order(pairs: &Vec<(usize, usize)>) -> (kept: Vec<bool>)
    ensures
        keeps_a_chain(pairs@, kept@),
        forall|chain: Seq<int>|
            #[trigger] is_chain(pairs@, chain) ==> chain.len() <= count_set(kept@),
{
    let mut tails: Vec<usize> = Vec::new();
    let mut before: Vec<Option<usize>> = Vec::new();
    let mut index: usize = 0;
    while index < pairs.len()
        invariant
            index <= pairs.len(),
            before.len() == index,
            tails.len() <= index,
            piles_ok(pairs@, tails@, index as int),
            forall|i: int|
                0 <= i < index ==> match #[trigger] before@[i] {
                    None => rank(pairs@, i) == 1,
                    Some(b) => b < i && rank(pairs@, b as int) + 1 == rank(pairs@, i)
                        && pairs@[b as int].0 < pairs@[i].0,
                },
        decreases pairs.len() - index,
    {
        let from = pairs[index].0;
        let mut slot: usize = 0;
        while slot < tails.len() && pairs[tails[slot]].0 < from
            invariant
                slot <= tails.len(),
                index < pairs.len(),
                tails.len() <= index,
                piles_ok(pairs@, tails@, index as int),
                forall|k: int| 0 <= k < slot ==> pairs@[#[trigger] tails@[k] as int].0 < from,
            decreases tails.len() - slot,
        {
            slot += 1;
        }
        proof {
            let end = index as int;
            lemma_best_before(pairs@, end, end);
            if slot > 0 {
                let t = tails@[slot - 1] as int;
                assert(rank(pairs@, t) == slot);
                assert(rank(pairs@, t) <= best_before(pairs@, end, end));
            }
            if best_before(pairs@, end, end) > slot {
                let j = choose|j: int|
                    0 <= j < end && pairs@[j].0 < pairs@[end].0 && #[trigger] rank(pairs@, j)
                        == best_before(pairs@, end, end);
                let r = rank(pairs@, j);
                assert(pairs@[tails@[r - 1] as int].0 <= pairs@[j].0);
                assert(slot <= r - 1 < tails.len());
                if slot < r - 1 {
                    assert(pairs@[tails@[slot as int] as int].0 < pairs@[tails@[r - 1] as int].0);
                }
                assert(false);
            }
            assert(rank(pairs@, end) == slot + 1);
        }
        if slot > 0 {
            before.push(Some(tails[slot - 1]));
        } else {
            before.push(None);
        }
        let ghost old_tails = tails@;
        if slot == tails.len() {
            tails.push(index);
        } else {
            tails.set(slot, index);
        }
        proof {
            assert forall|i: int| 0 <= i < index + 1 implies 1 <= #[trigger] rank(pairs@, i)
                <= tails.len() && pairs@[tails@[rank(pairs@, i) - 1] as int].0 <= pairs@[i].0 by {
                if i < index {
                    let k = rank(pairs@, i) - 1;
                    assert(pairs@[old_tails[k] as int].0 <= pairs@[i].0);
                    if k == slot {
                        assert(!(pairs@[old_tails[slot as int] as int].0 < from));
                    }
                }
            }
            assert forall|k: int, l: int| 0 <= k < l < tails.len() implies pairs@[#[trigger] tails@[k] as int].0
                < pairs@[#[trigger] tails@[l] as int].0 by {
                if k == slot {
                    assert(!(pairs@[old_tails[slot as int] as int].0 < from));
                    assert(pairs@[old_tails[slot as int] as int].0 < pairs@[old_tails[l] as int].0);
                } else if l == slot {
                    assert(pairs@[old_tails[k] as int].0 < from);
                } else {
                    assert(pairs@[old_tails[k] as int].0 < pairs@[old_tails[l] as int].0);
                }
            }
        }
        index += 1;
    }
    let mut kept: Vec<bool> = Vec::new();
    while kept.len() < pairs.len()
        invariant
            kept.len() <= pairs.len(),
            forall|i: int| 0 <= i < kept.len() ==> !(#[trigger] kept@[i]),
        decreases pairs.len() - kept.len(),
    {
        kept.push(false);
    }
    proof {
        lemma_count_none(kept@);
        assert forall|chain: Seq<int>| #[trigger] is_chain(pairs@, chain) implies chain.len()
            <= tails@.len() by {
            if chain.len() > 0 {
                lemma_chain_bounded(pairs@, chain);
                let last = chain[chain.len() - 1];
                assert(rank(pairs@, last) <= tails.len());
            }
        }
    }
    if tails.len() == 0 {
        return kept;
    }
    let mut at: Option<usize> = Some(tails[tails.len() - 1]);
    let ghost mut marked: nat = 0;
    let ghost mut low: int = pairs.len() as int;
    while at.is_some()
        invariant
            kept.len() == pairs.len(),
            before.len() == pairs.len(),
            forall|i: int|
                0 <= i < pairs.len() ==> match #[trigger] before@[i] {
                    None => rank(pairs@, i) == 1,
                    Some(b) => b < i && rank(pairs@, b as int) + 1 == rank(pairs@, i)
                        && pairs@[b as int].0 < pairs@[i].0,
                },
            0 <= low <= pairs.len(),
            forall|i: int| 0 <= i < low ==> !(#[trigger] kept@[i]),
            keeps_a_chain(pairs@, kept@),
            count_set(kept@) == marked,
            match at {
                None => marked == tails.len(),
                Some(a) => a < low && rank(pairs@, a as int) + marked == tails.len() && (forall|
                    j: int,
                |
                    low <= j < pairs.len() && #[trigger] kept@[j] ==> pairs@[a as int].0
                        < pairs@[j].0),
            },
        decreases low,
    {
        let here: usize = at.unwrap();
        let ghost was = kept@;
        kept.set(here, true);
        proof {
            lemma_count_update(was, here as int);
            marked = marked + 1;
            low = here as int;
            assert(rank(pairs@, here as int) >= 1);
            let step = before@[here as int];
            assert forall|i: int, j: int| 0 <= i < j < kept@.len() && #[trigger] kept@[i]
                && #[trigger] kept@[j] implies pairs@[i].0 < pairs@[j].0 by {
                assert(i >= here);
            }
            if let Some(b) = step {
                assert forall|j: int| low <= j < pairs.len() && #[trigger] kept@[j] implies pairs@[b as int].0
                    < pairs@[j].0 by {
                    if j != here {
                        assert(was[j]);
                    }
                }
            }
        }
        at = before[here];
    }
    kept
}

proof fn lemma_count_none(flags: Seq<bool>)
    requires
        forall|i: int| 0 <= i < flags.len() ==> !(#[trigger] flags[i]),
    ensures
        count_set(flags) == 0,
    decreases flags.len(),
{
    if flags.len() > 0 {
        lemma_count_none(flags.drop_last());
    }
}

/// Setting one clear flag adds one to the count.
pub proof fn lemma_count_update(flags: Seq<bool>, at: int)
    requires
        0 <= at < flags.len(),
        !flags[at],
    ensures
        count_set(flags.update(at, true)) == count_set(flags) + 1,
    decreases flags.len(),
{
    let after = flags.update(at, true);
    if at == flags.len() - 1 {
        assert(after.drop_last() =~= flags.drop_last());
    } else {
        assert(after.drop_last() =~= flags.drop_last().update(at, true));
        lemma_count_update(flags.drop_last(), at);
    }
}

} // verus!
