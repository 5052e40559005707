//! The positional steps that turn the rows a stretch of the list held into
//! the rows it holds now.
use vstd::prelude::*;
use std::collections::HashMap;
use crate::list::order::{is_chain, keeps_a_chain, count_set, longest_in_order};
use crate::model::MessageId;

verus! {

broadcast use vstd::std_specs::hash::group_hash_axioms;

/// One step of turning the rows a stretch held into the rows it holds now.
#[derive(Debug, Clone, Copy, PartialEq, Eq, Structural)]
pub enum Splice {
    /// Take `count` rows out at `at`.
    Remove {
        /// Where, in the state the steps before this one left.
        at: u32,
        /// How many.
        count: u32,
    },
    /// Put `count` rows in at `at`: the new rows `from..from + count`.
    Insert {
        /// Where, in the state the steps before this one left.
        at: u32,
        /// How many.
        count: u32,
        /// Where they start among the new rows.
        from: usize,
    },
}

/// What a stretch holds once `new` is all it holds.
pub open spec fn all_known(new: Seq<MessageId>) -> Seq<Option<MessageId>> {
    new.map_values(|id: MessageId| Some(id))
}

/// One step carried out on `rows`.
pub open spec fn apply_step(
    rows: Seq<Option<MessageId>>,
    step: Splice,
    new: Seq<MessageId>,
) -> Seq<Option<MessageId>> {
    match step {
        Splice::Remove { at, count } => rows.take(at as int) + rows.skip(at + count),
        Splice::Insert { at, count, from } => rows.take(at as int) + all_known(
            new.subrange(from as int, from + count),
        ) + rows.skip(at as int),
    }
}

/// Every step of `script`, each on the state the one before it left.
pub open spec fn apply_script(
    rows: Seq<Option<MessageId>>,
    script: Seq<Splice>,
    new: Seq<MessageId>,
) -> Seq<Option<MessageId>>
    decreases script.len(),
{
    if script.len() == 0 {
        rows
    } else {
        apply_step(apply_script(rows, script.drop_last(), new), script.last(), new)
    }
}

/// The first position `old` holds `id` at.
pub open spec fn first_held(old: Seq<Option<MessageId>>, id: MessageId) -> Option<int>
    decreases old.len(),
{
    if old.len() == 0 {
        None
    } else {
        match first_held(old.drop_last(), id) {
            Some(at) => Some(at),
            None => if old.last() == Some(id) {
                Some(old.len() - 1)
            } else {
                None
            },
        }
    }
}

/// `(old position, new position)` of every message in both, in new order.
pub open spec fn shared(old: Seq<Option<MessageId>>, new: Seq<MessageId>) -> Seq<(usize, usize)>
    decreases new.len(),
{
    if new.len() == 0 {
        Seq::empty()
    } else {
        let rest = shared(old, new.drop_last());
        match first_held(old, new.last()) {
            Some(from) => rest.push((from as usize, (new.len() - 1) as usize)),
            None => rest,
        }
    }
}

/// Which of `len` old positions the kept pairs stay at.
pub open spec fn old_marks(len: nat, pairs: Seq<(usize, usize)>, kept: Seq<bool>) -> Seq<bool> {
    Seq::new(
        len,
        |i: int| exists|k: int| 0 <= k < pairs.len() && #[trigger] kept[k] && pairs[k].0 == i,
    )
}

/// Which of `len` new positions the kept pairs stay at.
pub open spec fn new_marks(len: nat, pairs: Seq<(usize, usize)>, kept: Seq<bool>) -> Seq<bool> {
    Seq::new(
        len,
        |i: int| exists|k: int| 0 <= k < pairs.len() && #[trigger] kept[k] && pairs[k].1 == i,
    )
}

/// Where the run of clear flags that ends before `end` starts.
pub open spec fn run_start(keep: Seq<bool>, end: int) -> int
    decreases end,
{
    if end <= 0 || keep[end - 1] {
        end
    } else {
        run_start(keep, end - 1)
    }
}

/// Where the run of clear flags that starts at `start` ends.
pub open spec fn run_end(keep: Seq<bool>, start: int) -> int
    decreases keep.len() - start,
{
    if start >= keep.len() || keep[start] {
        start
    } else {
        run_end(keep, start + 1)
    }
}

/// One removal for each run of clear flags before `end`, bottom up.
pub open spec fn removals(keep: Seq<bool>, end: int) -> Seq<Splice>
    decreases end,
{
    if end <= 0 {
        Seq::empty()
    } else if keep[end - 1] {
        removals(keep, end - 1)
    } else {
        let start = run_start(keep, end);
        if 0 <= start < end {
            seq![Splice::Remove { at: start as u32, count: (end - start) as u32 }] + removals(
                keep,
                start,
            )
        } else {
            Seq::empty()
        }
    }
}

/// One insertion for each run of clear flags from `start` on, top down.
pub open spec fn insertions(keep: Seq<bool>, start: int) -> Seq<Splice>
    decreases keep.len() - start,
{
    if start >= keep.len() {
        Seq::empty()
    } else if keep[start] {
        insertions(keep, start + 1)
    } else {
        let end = run_end(keep, start);
        if start < end <= keep.len() {
            seq![
                Splice::Insert { at: start as u32, count: (end - start) as u32, from: start as usize },
            ] + insertions(keep, end)
        } else {
            Seq::empty()
        }
    }
}

/// The rows of `rows` whose flag is set.
pub open spec fn staying(rows: Seq<Option<MessageId>>, keep: Seq<bool>) -> Seq<Option<MessageId>>
    decreases rows.len(),
{
    if rows.len() == 0 {
        Seq::empty()
    } else if keep[rows.len() - 1] {
        staying(rows.drop_last(), keep).push(rows.last())
    } else {
        staying(rows.drop_last(), keep)
    }
}

/// `script` is the script that keeps exactly the pairs `kept` names.
pub open spec fn script_keeping(
    old: Seq<Option<MessageId>>,
    new: Seq<MessageId>,
    kept: Seq<bool>,
    script: Seq<Splice>,
) -> bool {
    let pairs = shared(old, new);
    script == removals(old_marks(old.len(), pairs, kept), old.len() as int) + insertions(
        new_marks(new.len(), pairs, kept),
        0,
    )
}

/// `kept` names a chain of shared rows, and no chain is longer.
pub open spec fn is_longest(pairs: Seq<(usize, usize)>, kept: Seq<bool>) -> bool {
    &&& keeps_a_chain(pairs, kept)
    &&& forall|chain: Seq<int>| #[trigger] is_chain(pairs, chain) ==> chain.len() <= count_set(kept)
}

proof fn lemma_first_held(old: Seq<Option<MessageId>>, id: MessageId)
    ensures
        match first_held(old, id) {
            Some(at) => 0 <= at < old.len() && old[at] == Some(id) && forall|i: int|
                0 <= i < at ==> #[trigger] old[i] != Some(id),
            None => forall|i: int| 0 <= i < old.len() ==> #[trigger] old[i] != Some(id),
        },
    decreases old.len(),
{
    if old.len() > 0 {
        lemma_first_held(old.drop_last(), id);
        assert forall|i: int| 0 <= i < old.len() - 1 implies old[i] == old.drop_last()[i] by {}
    }
}

proof fn lemma_shared(old: Seq<Option<MessageId>>, new: Seq<MessageId>)
    requires
        old.len() <= usize::MAX,
        new.len() <= usize::MAX,
    ensures
        forall|k: int|
            0 <= k < shared(old, new).len() ==> {
                let pair = #[trigger] shared(old, new)[k];
                pair.0 < old.len() && pair.1 < new.len() && old[pair.0 as int] == Some(
                    new[pair.1 as int],
                )
            },
        forall|k: int, l: int|
            0 <= k < l < shared(old, new).len() ==> (#[trigger] shared(old, new)[k]).1
                < (#[trigger] shared(old, new)[l]).1,
    decreases new.len(),
{
    if new.len() > 0 {
        lemma_shared(old, new.drop_last());
        lemma_first_held(old, new.last());
    }
}

proof fn lemma_run_start(keep: Seq<bool>, end: int)
    requires
        0 <= end <= keep.len(),
    ensures
        0 <= run_start(keep, end) <= end,
        forall|i: int| run_start(keep, end) <= i < end ==> !(#[trigger] keep[i]),
        run_start(keep, end) > 0 ==> keep[run_start(keep, end) - 1],
        end > 0 && !keep[end - 1] ==> run_start(keep, end) < end,
    decreases end,
{
    if end > 0 && !keep[end - 1] {
        lemma_run_start(keep, end - 1);
    }
}

proof fn lemma_run_end(keep: Seq<bool>, start: int)
    requires
        0 <= start <= keep.len(),
    ensures
        start <= run_end(keep, start) <= keep.len(),
        forall|i: int| start <= i < run_end(keep, start) ==> !(#[trigger] keep[i]),
        run_end(keep, start) < keep.len() ==> keep[run_end(keep, start)],
        start < keep.len() && !keep[start] ==> run_end(keep, start) > start,
    decreases keep.len() - start,
{
    if start < keep.len() && !keep[start] {
        lemma_run_end(keep, start + 1);
    }
}

proof fn lemma_apply_concat(
    rows: Seq<Option<MessageId>>,
    first: Seq<Splice>,
    second: Seq<Splice>,
    new: Seq<MessageId>,
)
    ensures
        apply_script(rows, first + second, new) == apply_script(
            apply_script(rows, first, new),
            second,
            new,
        ),
    decreases second.len(),
{
    if second.len() == 0 {
        assert(first + second =~= first);
    } else {
        let whole = first + second;
        assert(whole.drop_last() =~= first + second.drop_last());
        assert(whole.last() == second.last());
        lemma_apply_concat(rows, first, second.drop_last(), new);
    }
}

proof fn lemma_apply_one(
    rows: Seq<Option<MessageId>>,
    step: Splice,
    rest: Seq<Splice>,
    new: Seq<MessageId>,
)
    ensures
        apply_script(rows, seq![step] + rest, new) == apply_script(
            apply_step(rows, step, new),
            rest,
            new,
        ),
{
    lemma_apply_concat(rows, seq![step], rest, new);
    reveal_with_fuel(apply_script, 2);
    assert(seq![step].drop_last() =~= Seq::<Splice>::empty());
}

/// A run of clear flags adds nothing to what stays.
proof fn lemma_staying_run(rows: Seq<Option<MessageId>>, keep: Seq<bool>, start: int, end: int)
    requires
        0 <= start <= end <= rows.len(),
        rows.len() <= keep.len(),
        forall|i: int| start <= i < end ==> !(#[trigger] keep[i]),
    ensures
        staying(rows.take(end), keep) == staying(rows.take(start), keep),
    decreases end - start,
{
    if start < end {
        assert(rows.take(end).drop_last() =~= rows.take(end - 1));
        assert(!keep[end - 1]);
        lemma_staying_run(rows, keep, start, end - 1);
    }
}

proof fn lemma_removals(
    old: Seq<Option<MessageId>>,
    keep: Seq<bool>,
    end: int,
    tail: Seq<Option<MessageId>>,
    new: Seq<MessageId>,
)
    requires
        keep.len() == old.len(),
        old.len() <= u32::MAX,
        0 <= end <= old.len(),
    ensures
        apply_script(old.take(end) + tail, removals(keep, end), new) == staying(
            old.take(end),
            keep,
        ) + tail,
    decreases end,
{
    if end == 0 {
        assert(old.take(0) + tail =~= tail);
        assert(Seq::<Option<MessageId>>::empty() + tail =~= tail);
        assert(staying(old.take(0), keep) =~= Seq::<Option<MessageId>>::empty());
    } else if keep[end - 1] {
        let more = seq![old[end - 1]] + tail;
        assert(old.take(end) + tail =~= old.take(end - 1) + more);
        assert(old.take(end).drop_last() =~= old.take(end - 1));
        lemma_removals(old, keep, end - 1, more, new);
        assert(staying(old.take(end), keep) + tail =~= staying(old.take(end - 1), keep) + more);
    } else {
        lemma_run_start(keep, end);
        let start = run_start(keep, end);
        let step = Splice::Remove { at: start as u32, count: (end - start) as u32 };
        let state = old.take(end) + tail;
        lemma_apply_one(state, step, removals(keep, start), new);
        assert(apply_step(state, step, new) =~= old.take(start) + tail);
        lemma_removals(old, keep, start, tail, new);
        lemma_staying_run(old, keep, start, end);
    }
}

/// What stays of `rows` from `start` on.
spec fn staying_from(
    rows: Seq<Option<MessageId>>,
    keep: Seq<bool>,
    start: int,
) -> Seq<Option<MessageId>>
    decreases rows.len() - start,
{
    if start >= rows.len() {
        Seq::empty()
    } else if keep[start] {
        seq![rows[start]] + staying_from(rows, keep, start + 1)
    } else {
        staying_from(rows, keep, start + 1)
    }
}

proof fn lemma_staying_from(rows: Seq<Option<MessageId>>, keep: Seq<bool>, start: int)
    requires
        0 <= start <= rows.len(),
    ensures
        staying(rows, keep) == staying(rows.take(start), keep) + staying_from(rows, keep, start),
    decreases rows.len() - start,
{
    if start == rows.len() {
        assert(rows.take(start) =~= rows);
        assert(staying(rows, keep) + Seq::<Option<MessageId>>::empty() =~= staying(rows, keep));
    } else {
        lemma_staying_from(rows, keep, start + 1);
        assert(rows.take(start + 1).drop_last() =~= rows.take(start));
        assert(staying(rows.take(start + 1), keep) + staying_from(rows, keep, start + 1)
            =~= staying(rows.take(start), keep) + staying_from(rows, keep, start));
    }
}

proof fn lemma_staying_from_run(
    rows: Seq<Option<MessageId>>,
    keep: Seq<bool>,
    start: int,
    end: int,
)
    requires
        0 <= start <= end <= rows.len(),
        rows.len() <= keep.len(),
        forall|i: int| start <= i < end ==> !(#[trigger] keep[i]),
    ensures
        staying_from(rows, keep, start) == staying_from(rows, keep, end),
    decreases end - start,
{
    if start < end {
        assert(!keep[start]);
        lemma_staying_from_run(rows, keep, start + 1, end);
    }
}

proof fn lemma_insertions(new: Seq<MessageId>, keep: Seq<bool>, start: int)
    requires
        keep.len() == new.len(),
        new.len() <= u32::MAX,
        0 <= start <= new.len(),
    ensures
        apply_script(
            all_known(new).take(start) + staying_from(all_known(new), keep, start),
            insertions(keep, start),
            new,
        ) == all_known(new),
    decreases new.len() - start,
{
    let rows = all_known(new);
    if start == new.len() {
        assert(rows.take(start) + staying_from(rows, keep, start) =~= rows);
    } else if keep[start] {
        lemma_insertions(new, keep, start + 1);
        assert(rows.take(start) + staying_from(rows, keep, start) =~= rows.take(start + 1)
            + staying_from(rows, keep, start + 1));
    } else {
        lemma_run_end(keep, start);
        let end = run_end(keep, start);
        let step = Splice::Insert {
            at: start as u32,
            count: (end - start) as u32,
            from: start as usize,
        };
        let state = rows.take(start) + staying_from(rows, keep, start);
        lemma_apply_one(state, step, insertions(keep, end), new);
        lemma_staying_from_run(rows, keep, start, end);
        assert(apply_step(state, step, new) =~= rows.take(end) + staying_from(rows, keep, end));
        lemma_insertions(new, keep, end);
    }
}

/// Setting a flag past every set one adds its row at the end of what stays.
proof fn lemma_staying_mark(
    rows: Seq<Option<MessageId>>,
    keep: Seq<bool>,
    at: int,
    upto: int,
)
    requires
        0 <= at < rows.len(),
        0 <= upto <= rows.len(),
        keep.len() == rows.len(),
        forall|i: int| at <= i < rows.len() ==> !(#[trigger] keep[i]),
    ensures
        staying(rows.take(upto), keep.update(at, true)) == if at < upto {
            staying(rows.take(upto), keep).push(rows[at])
        } else {
            staying(rows.take(upto), keep)
        },
    decreases upto,
{
    if upto > 0 {
        assert(rows.take(upto).drop_last() =~= rows.take(upto - 1));
        lemma_staying_mark(rows, keep, at, upto - 1);
    }
}

/// Carrying out a script that keeps a chain of shared rows lands exactly on
/// the new rows.
pub proof fn lemma_script_lands(
    old: Seq<Option<MessageId>>,
    new: Seq<MessageId>,
    kept: Seq<bool>,
    script: Seq<Splice>,
)
    requires
        old.len() <= u32::MAX,
        new.len() <= u32::MAX,
        keeps_a_chain(shared(old, new), kept),
        script_keeping(old, new, kept, script),
    ensures
        apply_script(old, script, new) == all_known(new),
{
    let pairs = shared(old, new);
    let ko = old_marks(old.len(), pairs, kept);
    let kn = new_marks(new.len(), pairs, kept);
    let rows = all_known(new);
    lemma_shared(old, new);
    lemma_stays_agree(old, new, pairs, kept, pairs.len() as int);
    assert(pairs.take(pairs.len() as int) =~= pairs);
    assert(kept.take(pairs.len() as int) =~= kept);
    assert(old.take(old.len() as int) =~= old);
    assert(old + Seq::<Option<MessageId>>::empty() =~= old);
    lemma_removals(old, ko, old.len() as int, Seq::empty(), new);
    assert(staying(old, ko) + Seq::<Option<MessageId>>::empty() =~= staying(old, ko));
    lemma_apply_concat(
        old,
        removals(ko, old.len() as int),
        insertions(kn, 0),
        new,
    );
    lemma_staying_from(rows, kn, 0);
    assert(staying(rows.take(0), kn) =~= Seq::<Option<MessageId>>::empty());
    assert(rows.take(0) + staying_from(rows, kn, 0) =~= staying(rows, kn));
    lemma_insertions(new, kn, 0);
}

proof fn lemma_stays_agree(
    old: Seq<Option<MessageId>>,
    new: Seq<MessageId>,
    pairs: Seq<(usize, usize)>,
    kept: Seq<bool>,
    n: int,
)
    requires
        keeps_a_chain(pairs, kept),
        0 <= n <= pairs.len(),
        forall|k: int|
            0 <= k < pairs.len() ==> {
                let pair = #[trigger] pairs[k];
                pair.0 < old.len() && pair.1 < new.len() && old[pair.0 as int] == Some(
                    new[pair.1 as int],
                )
            },
        forall|k: int, l: int|
            0 <= k < l < pairs.len() ==> (#[trigger] pairs[k]).1 < (#[trigger] pairs[l]).1,
    ensures
        staying(old, old_marks(old.len(), pairs.take(n), kept.take(n))) == staying(
            all_known(new),
            new_marks(new.len(), pairs.take(n), kept.take(n)),
        ),
    decreases n,
{
    let rows = all_known(new);
    let ko = old_marks(old.len(), pairs.take(n), kept.take(n));
    let kn = new_marks(new.len(), pairs.take(n), kept.take(n));
    if n == 0 {
        lemma_none_stay(old, ko);
        lemma_none_stay(rows, kn);
    } else {
        let po = old_marks(old.len(), pairs.take(n - 1), kept.take(n - 1));
        let pn = new_marks(new.len(), pairs.take(n - 1), kept.take(n - 1));
        lemma_stays_agree(old, new, pairs, kept, n - 1);
        let last = pairs[n - 1];
        if kept[n - 1] {
            assert forall|i: int| 0 <= i < old.len() implies ko[i] == po.update(last.0 as int, true)[i] by {
                lemma_mark_step(pairs, kept, n, i);
            }
            assert(ko =~= po.update(last.0 as int, true));
            assert forall|i: int| 0 <= i < new.len() implies kn[i] == pn.update(last.1 as int, true)[i] by {
                lemma_mark_step(pairs, kept, n, i);
            }
            assert(kn =~= pn.update(last.1 as int, true));
            assert forall|i: int| last.0 <= i < old.len() implies !(#[trigger] po[i]) by {
                if po[i] {
                    let k = choose|k: int| 0 <= k < pairs.take(n - 1).len() && #[trigger] kept.take(n - 1)[k] && pairs.take(n - 1)[k].0 == i;
                    assert(kept[k] && kept[n - 1]);
                    assert(pairs[k].0 < pairs[n - 1].0);
                }
            }
            assert forall|i: int| last.1 <= i < new.len() implies !(#[trigger] pn[i]) by {
                if pn[i] {
                    let k = choose|k: int| 0 <= k < pairs.take(n - 1).len() && #[trigger] kept.take(n - 1)[k] && pairs.take(n - 1)[k].1 == i;
                    assert(pairs[k].1 < pairs[n - 1].1);
                }
            }
            lemma_staying_mark(old, po, last.0 as int, old.len() as int);
            lemma_staying_mark(rows, pn, last.1 as int, rows.len() as int);
            assert(old.take(old.len() as int) =~= old);
            assert(rows.take(rows.len() as int) =~= rows);
        } else {
            assert forall|i: int| 0 <= i < old.len() implies ko[i] == po[i] by {
                lemma_mark_step(pairs, kept, n, i);
            }
            assert(ko =~= po);
            assert forall|i: int| 0 <= i < new.len() implies kn[i] == pn[i] by {
                lemma_mark_step(pairs, kept, n, i);
            }
            assert(kn =~= pn);
        }
    }
}

/// The mark at `i` from the first `n` pairs, from the one from `n - 1`.
proof fn lemma_mark_step(pairs: Seq<(usize, usize)>, kept: Seq<bool>, n: int, i: int)
    requires
        0 < n <= pairs.len(),
        kept.len() == pairs.len(),
    ensures
        (exists|k: int| 0 <= k < pairs.take(n).len() && #[trigger] kept.take(n)[k] && pairs.take(n)[k].0 == i)
            == ((exists|k: int|
            0 <= k < pairs.take(n - 1).len() && #[trigger] kept.take(n - 1)[k] && pairs.take(n - 1)[k].0 == i)
            || (kept[n - 1] && pairs[n - 1].0 == i)),
        (exists|k: int| 0 <= k < pairs.take(n).len() && #[trigger] kept.take(n)[k] && pairs.take(n)[k].1 == i)
            == ((exists|k: int|
            0 <= k < pairs.take(n - 1).len() && #[trigger] kept.take(n - 1)[k] && pairs.take(n - 1)[k].1 == i)
            || (kept[n - 1] && pairs[n - 1].1 == i)),
{
    if exists|k: int| 0 <= k < pairs.take(n - 1).len() && #[trigger] kept.take(n - 1)[k] && pairs.take(n - 1)[k].0 == i {
        let k = choose|k: int| 0 <= k < pairs.take(n - 1).len() && #[trigger] kept.take(n - 1)[k] && pairs.take(n - 1)[k].0 == i;
        assert(kept.take(n)[k] && pairs.take(n)[k].0 == i);
    }
    if exists|k: int| 0 <= k < pairs.take(n - 1).len() && #[trigger] kept.take(n - 1)[k] && pairs.take(n - 1)[k].1 == i {
        let k = choose|k: int| 0 <= k < pairs.take(n - 1).len() && #[trigger] kept.take(n - 1)[k] && pairs.take(n - 1)[k].1 == i;
        assert(kept.take(n)[k] && pairs.take(n)[k].1 == i);
    }
    if kept[n - 1] {
        assert(kept.take(n)[n - 1]);
    }
    if exists|k: int| 0 <= k < pairs.take(n).len() && #[trigger] kept.take(n)[k] && pairs.take(n)[k].0 == i {
        let k = choose|k: int| 0 <= k < pairs.take(n).len() && #[trigger] kept.take(n)[k] && pairs.take(n)[k].0 == i;
        if k < n - 1 {
            assert(kept.take(n - 1)[k] && pairs.take(n - 1)[k].0 == i);
        }
    }
    if exists|k: int| 0 <= k < pairs.take(n).len() && #[trigger] kept.take(n)[k] && pairs.take(n)[k].1 == i {
        let k = choose|k: int| 0 <= k < pairs.take(n).len() && #[trigger] kept.take(n)[k] && pairs.take(n)[k].1 == i;
        if k < n - 1 {
            assert(kept.take(n - 1)[k] && pairs.take(n - 1)[k].1 == i);
        }
    }
}

proof fn lemma_none_stay(rows: Seq<Option<MessageId>>, keep: Seq<bool>)
    requires
        keep.len() >= rows.len(),
        forall|i: int| 0 <= i < rows.len() ==> !(#[trigger] keep[i]),
    ensures
        staying(rows, keep) == Seq::<Option<MessageId>>::empty(),
    decreases rows.len(),
{
    if rows.len() > 0 {
        lemma_none_stay(rows.drop_last(), keep);
    }
}

/// A stretch read back unchanged, each message in it once, needs no step at
/// all.
pub proof fn lemma_unchanged_needs_nothing(
    new: Seq<MessageId>,
    kept: Seq<bool>,
    script: Seq<Splice>,
)
    requires
        new.len() <= u32::MAX,
        new.no_duplicates(),
        is_longest(shared(all_known(new), new), kept),
        script_keeping(all_known(new), new, kept, script),
    ensures
        script.len() == 0,
{
    let old = all_known(new);
    let pairs = shared(old, new);
    lemma_shared_with_itself(new, new.len() as int);
    assert(new.take(new.len() as int) =~= new);
    let identity = Seq::new(pairs.len(), |i: int| i);
    assert(is_chain(pairs, identity));
    lemma_all_set(kept);
    let ko = old_marks(old.len(), pairs, kept);
    let kn = new_marks(new.len(), pairs, kept);
    assert forall|i: int| 0 <= i < new.len() implies ko[i] && kn[i] by {
        assert(kept[i] && pairs[i].0 == i && pairs[i].1 == i);
    }
    lemma_no_removals(ko, old.len() as int);
    lemma_no_insertions(kn, 0);
}

proof fn lemma_shared_with_itself(new: Seq<MessageId>, n: int)
    requires
        new.len() <= u32::MAX,
        new.no_duplicates(),
        0 <= n <= new.len(),
    ensures
        shared(all_known(new), new.take(n)).len() == n,
        forall|i: int|
            0 <= i < n ==> #[trigger] shared(all_known(new), new.take(n))[i] == (
                i as usize,
                i as usize,
            ),
    decreases n,
{
    if n > 0 {
        lemma_shared_with_itself(new, n - 1);
        assert(new.take(n).drop_last() =~= new.take(n - 1));
        assert(new.take(n).last() == new[n - 1]);
        let old = all_known(new);
        lemma_first_held(old, new[n - 1]);
        assert(old[n - 1] == Some(new[n - 1]));
    }
}

/// A count as large as the flags themselves means every one is set.
proof fn lemma_all_set(flags: Seq<bool>)
    requires
        count_set(flags) >= flags.len(),
    ensures
        count_set(flags) == flags.len(),
        forall|i: int| 0 <= i < flags.len() ==> #[trigger] flags[i],
    decreases flags.len(),
{
    if flags.len() > 0 {
        lemma_count_at_most(flags.drop_last());
        lemma_all_set(flags.drop_last());
        assert forall|i: int| 0 <= i < flags.len() implies #[trigger] flags[i] by {
            if i < flags.len() - 1 {
                assert(flags.drop_last()[i]);
            }
        }
    }
}

proof fn lemma_count_at_most(flags: Seq<bool>)
    ensures
        count_set(flags) <= flags.len(),
    decreases flags.len(),
{
    if flags.len() > 0 {
        lemma_count_at_most(flags.drop_last());
    }
}

proof fn lemma_no_removals(keep: Seq<bool>, end: int)
    requires
        0 <= end <= keep.len(),
        forall|i: int| 0 <= i < end ==> #[trigger] keep[i],
    ensures
        removals(keep, end).len() == 0,
    decreases end,
{
    if end > 0 {
        lemma_no_removals(keep, end - 1);
    }
}

proof fn lemma_no_insertions(keep: Seq<bool>, start: int)
    requires
        0 <= start <= keep.len(),
        forall|i: int| start <= i < keep.len() ==> #[trigger] keep[i],
    ensures
        insertions(keep, start).len() == 0,
    decreases keep.len() - start,
{
    if start < keep.len() {
        lemma_no_insertions(keep, start + 1);
    }
}

/// Where `old` first holds each message.
fn index_old(old: &[Option<MessageId>]) -> (held: HashMap<i64, usize>)
    ensures
        forall|id: MessageId|
            match first_held(old@, id) {
                Some(at) => held@.contains_key(id.0) && held@[#[trigger] id.0] == at,
                None => !held@.contains_key(id.0),
            },
{
    let mut held: HashMap<i64, usize> = HashMap::new();
    let mut index: usize = 0;
    assert(old@.take(0) =~= Seq::empty());
    while index < old.len()
        invariant
            index <= old.len(),
            forall|id: MessageId|
                match first_held(old@.take(index as int), id) {
                    Some(at) => held@.contains_key(id.0) && held@[#[trigger] id.0] == at,
                    None => !held@.contains_key(id.0),
                },
        decreases old.len() - index,
    {
        proof {
            assert(old@.take(index + 1).drop_last() =~= old@.take(index as int));
        }
        if let Some(id) = old[index] {
            if !held.contains_key(&id.0) {
                held.insert(id.0, index);
            }
        }
        index += 1;
        assert forall|id: MessageId| true implies match first_held(old@.take(index as int), id) {
            Some(at) => held@.contains_key(id.0) && held@[#[trigger] id.0] == at,
            None => !held@.contains_key(id.0),
        } by {
            if let Some(found) = old@[index - 1] {
                if found.0 == id.0 {
                    assert(found == id);
                }
            }
        }
    }
    assert(old@.take(old@.len() as int) =~= old@);
    held
}

/// The pairs of positions `old` and `new` share.
fn shared_pairs(old: &[Option<MessageId>], new: &[MessageId]) -> (pairs: Vec<(usize, usize)>)
    ensures
        pairs@ == shared(old@, new@),
{
    let held = index_old(old);
    let mut pairs: Vec<(usize, usize)> = Vec::new();
    let mut to: usize = 0;
    assert(new@.take(0) =~= Seq::empty());
    while to < new.len()
        invariant
            to <= new.len(),
            forall|id: MessageId|
                match first_held(old@, id) {
                    Some(at) => held@.contains_key(id.0) && held@[#[trigger] id.0] == at,
                    None => !held@.contains_key(id.0),
                },
            pairs@ == shared(old@, new@.take(to as int)),
        decreases new.len() - to,
    {
        proof {
            assert(new@.take(to + 1).drop_last() =~= new@.take(to as int));
            lemma_first_held(old@, new@[to as int]);
        }
        let key: i64 = new[to].0;
        assert(new@[to as int].0 == key);
        if let Some(from) = held.get(&key) {
            pairs.push((*from, to));
        }
        to += 1;
    }
    assert(new@.take(new@.len() as int) =~= new@);
    pairs
}

fn clear_flags(len: usize) -> (flags: Vec<bool>)
    ensures
        flags@ == Seq::new(len as nat, |i: int| false),
{
    let mut flags: Vec<bool> = Vec::new();
    while flags.len() < len
        invariant
            flags.len() <= len,
            forall|i: int| 0 <= i < flags.len() ==> !(#[trigger] flags@[i]),
        decreases len - flags.len(),
    {
        flags.push(false);
    }
    flags
}

/// The fewest positional steps that turn `old` into `new`: removals first,
/// bottom up, then insertions, top down, each position counted in the state
/// the steps before it left.
///
/// Which rows stay is the longest run of shared messages whose order did not
/// change. A position `old` knew nothing about is always replaced.
pub fn splices(old: &[Option<MessageId>], new: &[MessageId]) -> (script: Vec<Splice>)
    requires
        old@.len() <= u32::MAX,
        new@.len() <= u32::MAX,
    ensures
        apply_script(old@, script@, new@) == all_known(new@),
        exists|kept: Seq<bool>|
            #![trigger is_longest(shared(old@, new@), kept)]
            is_longest(shared(old@, new@), kept) && script_keeping(old@, new@, kept, script@),
{
    let pairs = shared_pairs(old, new);
    let kept = longest_in_order(&pairs);
    let mut keep_old = clear_flags(old.len());
    let mut keep_new = clear_flags(new.len());
    proof {
        lemma_shared(old@, new@);
        assert(keep_old@ =~= old_marks(old@.len(), pairs@.take(0), kept@.take(0)));
        assert(keep_new@ =~= new_marks(new@.len(), pairs@.take(0), kept@.take(0)));
    }
    let mut index: usize = 0;
    while index < pairs.len()
        invariant
            index <= pairs.len(),
            kept.len() == pairs.len(),
            keep_old.len() == old@.len(),
            keep_new.len() == new@.len(),
            forall|k: int|
                0 <= k < pairs@.len() ==> {
                    let pair = #[trigger] pairs@[k];
                    pair.0 < old@.len() && pair.1 < new@.len()
                },
            keep_old@ == old_marks(old@.len(), pairs@.take(index as int), kept@.take(index as int)),
            keep_new@ == new_marks(new@.len(), pairs@.take(index as int), kept@.take(index as int)),
        decreases pairs.len() - index,
    {
        let ghost po = keep_old@;
        let ghost pn = keep_new@;
        let pair = pairs[index];
        if kept[index] {
            keep_old.set(pair.0, true);
            keep_new.set(pair.1, true);
        }
        index += 1;
        proof {
            let n = index as int;
            assert forall|i: int| 0 <= i < old@.len() implies keep_old@[i] == old_marks(
                old@.len(),
                pairs@.take(n),
                kept@.take(n),
            )[i] by {
                lemma_mark_step(pairs@, kept@, n, i);
            }
            assert forall|i: int| 0 <= i < new@.len() implies keep_new@[i] == new_marks(
                new@.len(),
                pairs@.take(n),
                kept@.take(n),
            )[i] by {
                lemma_mark_step(pairs@, kept@, n, i);
            }
            assert(keep_old@ =~= old_marks(old@.len(), pairs@.take(n), kept@.take(n)));
            assert(keep_new@ =~= new_marks(new@.len(), pairs@.take(n), kept@.take(n)));
        }
    }
    assert(pairs@.take(pairs@.len() as int) =~= pairs@);
    assert(kept@.take(pairs@.len() as int) =~= kept@);

    let mut script: Vec<Splice> = Vec::new();
    let mut end: usize = old.len();
    assert(Seq::<Splice>::empty() + removals(keep_old@, end as int) =~= removals(keep_old@, end as int));
    while end > 0
        invariant
            end <= keep_old.len(),
            keep_old.len() == old@.len() <= u32::MAX,
            script@ + removals(keep_old@, end as int) == removals(keep_old@, old@.len() as int),
        decreases end,
    {
        if keep_old[end - 1] {
            end -= 1;
            continue;
        }
        let mut start: usize = end;
        while start > 0 && !keep_old[start - 1]
            invariant
                start <= end <= keep_old.len(),
                run_start(keep_old@, end as int) == run_start(keep_old@, start as int),
            decreases start,
        {
            start -= 1;
        }
        proof {
            lemma_run_start(keep_old@, end as int);
        }
        let ghost was = script@;
        script.push(Splice::Remove { at: start as u32, count: (end - start) as u32 });
        assert(script@ + removals(keep_old@, start as int) =~= was + removals(keep_old@, end as int));
        end = start;
    }
    assert(script@ =~= removals(keep_old@, old@.len() as int));
    let ghost removed = script@;
    let mut start: usize = 0;
    assert(script@ + insertions(keep_new@, 0) =~= removed + insertions(keep_new@, 0));
    while start < new.len()
        invariant
            start <= keep_new.len(),
            keep_new.len() == new@.len() <= u32::MAX,
            script@ + insertions(keep_new@, start as int) == removed + insertions(keep_new@, 0),
        decreases new.len() - start,
    {
        if keep_new[start] {
            start += 1;
            continue;
        }
        let mut end: usize = start;
        while end < new.len() && !keep_new[end]
            invariant
                start <= end <= keep_new.len(),
                keep_new.len() == new@.len(),
                run_end(keep_new@, start as int) == run_end(keep_new@, end as int),
            decreases new.len() - end,
        {
            end += 1;
        }
        proof {
            lemma_run_end(keep_new@, start as int);
        }
        let ghost was = script@;
        script.push(Splice::Insert { at: start as u32, count: (end - start) as u32, from: start });
        assert(script@ + insertions(keep_new@, end as int) =~= was + insertions(
            keep_new@,
            start as int,
        ));
        start = end;
    }
    assert(script@ =~= removed + insertions(keep_new@, 0));
    proof {
        assert(is_longest(shared(old@, new@), kept@));
        lemma_script_lands(old@, new@, kept@, script@);
    }
    script
}

// ---------------------------------------------------------------------------
// What a script does
// ---------------------------------------------------------------------------

/// Every new row whose message was held is paired with the first place it was
/// held at; no other is paired with anything.
pub proof fn lemma_what_is_shared(old: Seq<Option<MessageId>>, new: Seq<MessageId>, j: int)
    requires
        old.len() <= usize::MAX,
        new.len() <= usize::MAX,
        0 <= j < new.len(),
    ensures
        old.contains(Some(new[j])) <==> exists|k: int|
            0 <= k < shared(old, new).len() && (#[trigger] shared(old, new)[k]).1 == j,
        forall|k: int|
            0 <= k < shared(old, new).len() && (#[trigger] shared(old, new)[k]).1 == j ==> ({
                let from = shared(old, new)[k].0 as int;
                &&& from < old.len()
                &&& old[from] == Some(new[j])
                &&& forall|i: int| 0 <= i < from ==> #[trigger] old[i] != Some(new[j])
            }),
    decreases new.len(),
{
    let front = new.drop_last();
    let rest = shared(old, front);
    let all = shared(old, new);
    lemma_shared(old, front);
    lemma_shared(old, new);
    lemma_first_held(old, new.last());
    if j < front.len() {
        assert(front[j] == new[j]);
        lemma_what_is_shared(old, front, j);
        if old.contains(Some(new[j])) {
            let k = choose|k: int| 0 <= k < rest.len() && (#[trigger] rest[k]).1 == j;
            assert(all[k] == rest[k]);
        }
        if exists|k: int| 0 <= k < all.len() && (#[trigger] all[k]).1 == j {
            let k = choose|k: int| 0 <= k < all.len() && (#[trigger] all[k]).1 == j;
            assert(k < rest.len());
            assert(all[k] == rest[k]);
        }
        assert forall|k: int| 0 <= k < all.len() && (#[trigger] all[k]).1 == j implies ({
            let from = all[k].0 as int;
            &&& from < old.len()
            &&& old[from] == Some(new[j])
            &&& forall|i: int| 0 <= i < from ==> #[trigger] old[i] != Some(new[j])
        }) by {
            assert(k < rest.len());
            assert(all[k] == rest[k]);
        }
    } else {
        if old.contains(Some(new[j])) {
            assert(all[rest.len() as int].1 == j);
        }
        assert forall|k: int| 0 <= k < all.len() && (#[trigger] all[k]).1 == j implies k
            == rest.len() by {
            if k < rest.len() {
                assert(all[k] == rest[k]);
            }
        }
    }
}

/// The removals are the runs of clear flags, bottom up, a row that stays
/// between each and the next.
proof fn lemma_removals_are_runs(keep: Seq<bool>, end: int)
    requires
        0 <= end <= keep.len(),
        keep.len() <= u32::MAX,
    ensures
        forall|s: int|
            0 <= s < removals(keep, end).len() ==> {
                let step = #[trigger] removals(keep, end)[s];
                &&& step is Remove
                &&& step->Remove_count > 0
                &&& step->Remove_at + step->Remove_count <= end
                &&& end > 0 && keep[end - 1] ==> step->Remove_at + step->Remove_count < end
                &&& forall|i: int|
                    step->Remove_at <= i < step->Remove_at + step->Remove_count
                        ==> !(#[trigger] keep[i])
            },
        forall|s: int, t: int|
            0 <= s < t < removals(keep, end).len() ==> (#[trigger] removals(
                keep,
                end,
            )[t])->Remove_at + removals(keep, end)[t]->Remove_count < (#[trigger] removals(
                keep,
                end,
            )[s])->Remove_at,
    decreases end,
{
    if end > 0 {
        if keep[end - 1] {
            lemma_removals_are_runs(keep, end - 1);
        } else {
            lemma_run_start(keep, end);
            let start = run_start(keep, end);
            lemma_removals_are_runs(keep, start);
            let rest = removals(keep, start);
            let all = removals(keep, end);
            assert(all =~= seq![Splice::Remove { at: start as u32, count: (end - start) as u32 }] + rest);
            assert forall|s: int| 0 <= s < all.len() implies {
                let step = #[trigger] all[s];
                &&& step is Remove
                &&& step->Remove_count > 0
                &&& step->Remove_at + step->Remove_count <= end
                &&& end > 0 && keep[end - 1] ==> step->Remove_at + step->Remove_count < end
                &&& forall|i: int|
                    step->Remove_at <= i < step->Remove_at + step->Remove_count
                        ==> !(#[trigger] keep[i])
            } by {
                if s > 0 {
                    assert(all[s] == rest[s - 1]);
                }
            }
            assert forall|s: int, t: int| 0 <= s < t < all.len() implies (
            #[trigger] all[t])->Remove_at + all[t]->Remove_count < (#[trigger] all[s])->Remove_at by {
                assert(all[t] == rest[t - 1]);
                if s > 0 {
                    assert(all[s] == rest[s - 1]);
                }
            }
        }
    }
}

/// The insertions are the runs of clear flags, top down, a row that stays
/// between each and the next.
proof fn lemma_insertions_are_runs(keep: Seq<bool>, start: int)
    requires
        0 <= start <= keep.len(),
        keep.len() <= u32::MAX,
    ensures
        forall|s: int|
            0 <= s < insertions(keep, start).len() ==> {
                let step = #[trigger] insertions(keep, start)[s];
                &&& step is Insert
                &&& step->Insert_count > 0
                &&& step->Insert_at >= start
                &&& start < keep.len() && keep[start] ==> step->Insert_at > start
                &&& step->Insert_at + step->Insert_count <= keep.len()
                &&& forall|i: int|
                    step->Insert_at <= i < step->Insert_at + step->Insert_count
                        ==> !(#[trigger] keep[i])
            },
        forall|s: int, t: int|
            0 <= s < t < insertions(keep, start).len() ==> (#[trigger] insertions(
                keep,
                start,
            )[s])->Insert_at + insertions(keep, start)[s]->Insert_count < (#[trigger] insertions(
                keep,
                start,
            )[t])->Insert_at,
    decreases keep.len() - start,
{
    if start < keep.len() {
        if keep[start] {
            lemma_insertions_are_runs(keep, start + 1);
        } else {
            lemma_run_end(keep, start);
            let end = run_end(keep, start);
            lemma_insertions_are_runs(keep, end);
            let rest = insertions(keep, end);
            let all = insertions(keep, start);
            assert(all =~= seq![
                Splice::Insert { at: start as u32, count: (end - start) as u32, from: start as usize },
            ] + rest);
            assert forall|s: int| 0 <= s < all.len() implies {
                let step = #[trigger] all[s];
                &&& step is Insert
                &&& step->Insert_count > 0
                &&& step->Insert_at >= start
                &&& start < keep.len() && keep[start] ==> step->Insert_at > start
                &&& step->Insert_at + step->Insert_count <= keep.len()
                &&& forall|i: int|
                    step->Insert_at <= i < step->Insert_at + step->Insert_count
                        ==> !(#[trigger] keep[i])
            } by {
                if s > 0 {
                    assert(all[s] == rest[s - 1]);
                }
            }
            assert forall|s: int, t: int| 0 <= s < t < all.len() implies (
            #[trigger] all[s])->Insert_at + all[s]->Insert_count < (#[trigger] all[t])->Insert_at by {
                assert(all[t] == rest[t - 1]);
                if s > 0 {
                    assert(all[s] == rest[s - 1]);
                }
            }
        }
    }
}

/// A step never touches a row that stays: no removal takes its old place, and
/// no insertion its new one. What stays is as much as can: no run of shared
/// rows in their old order is longer.
pub proof fn lemma_what_stays_is_left_alone(
    old: Seq<Option<MessageId>>,
    new: Seq<MessageId>,
    kept: Seq<bool>,
    script: Seq<Splice>,
    k: int,
    s: int,
    chain: Seq<int>,
)
    requires
        old.len() <= u32::MAX,
        new.len() <= u32::MAX,
        is_longest(shared(old, new), kept),
        script_keeping(old, new, kept, script),
        0 <= k < shared(old, new).len(),
        kept[k],
        0 <= s < script.len(),
    ensures
        ({
            let pair = shared(old, new)[k];
            &&& script[s] matches Splice::Remove { at, count } ==> count > 0 && !(at <= pair.0 < at
                + count)
            &&& script[s] matches Splice::Insert { at, count, .. } ==> count > 0 && !(at <= pair.1
                < at + count)
        }),
        is_chain(shared(old, new), chain) ==> chain.len() <= count_set(kept),
{
    let pairs = shared(old, new);
    let ko = old_marks(old.len(), pairs, kept);
    let kn = new_marks(new.len(), pairs, kept);
    lemma_shared(old, new);
    let from = pairs[k].0 as int;
    let to = pairs[k].1 as int;
    assert(ko[from]);
    assert(kn[to]);
    lemma_removals_are_runs(ko, old.len() as int);
    lemma_insertions_are_runs(kn, 0);
    let first = removals(ko, old.len() as int);
    let second = insertions(kn, 0);
    if s < first.len() {
        assert(script[s] == first[s]);
    } else {
        assert(script[s] == second[s - first.len()]);
    }
}

/// The steps are as few as they can be for what stays: removals first, bottom
/// up, then insertions, top down, and a row that stays between any two of a
/// kind.
pub proof fn lemma_steps_are_whole_runs(
    old: Seq<Option<MessageId>>,
    new: Seq<MessageId>,
    kept: Seq<bool>,
    script: Seq<Splice>,
    s: int,
    t: int,
)
    requires
        old.len() <= u32::MAX,
        new.len() <= u32::MAX,
        script_keeping(old, new, kept, script),
        0 <= s < t < script.len(),
    ensures
        script[s] is Insert ==> script[t] is Insert,
        script[s] is Remove && script[t] is Remove ==> script[t]->Remove_at + script[t]->Remove_count
            < script[s]->Remove_at,
        script[s] is Insert && script[t] is Insert ==> script[s]->Insert_at + script[s]->Insert_count
            < script[t]->Insert_at,
{
    let pairs = shared(old, new);
    let ko = old_marks(old.len(), pairs, kept);
    let kn = new_marks(new.len(), pairs, kept);
    lemma_removals_are_runs(ko, old.len() as int);
    lemma_insertions_are_runs(kn, 0);
    let first = removals(ko, old.len() as int);
    let second = insertions(kn, 0);
    if t < first.len() {
        assert(script[s] == first[s] && script[t] == first[t]);
    } else if s < first.len() {
        assert(script[s] == first[s] && script[t] == second[t - first.len()]);
    } else {
        assert(script[s] == second[s - first.len()] && script[t] == second[t - first.len()]);
    }
}

} // verus!
