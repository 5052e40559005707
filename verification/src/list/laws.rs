//! What holds of a window across its operations.
use vstd::prelude::*;
use crate::list::shape::{CACHE_PAGES, PAGE_SIZE};
use crate::list::shape::{all_rows, chunk, chunks, full_page, held_row, past_run};
use crate::list::shape::{replaced, rows_between, run_after, run_last, touched_order};
use crate::list::shape::{anchor_page, before_page, first_at, holds_at, past_rows, place, ListRow, WindowView};
use crate::list::shape::{from_page, held_in, lemma_giving_up, lemma_unlisted, unlisted};
use crate::list::shape::{lemma_filter, lemma_full_rows, lemma_run, lemma_split, lemma_touched};
use crate::list::shape::{last_with, lemma_bounded, lemma_place, lemma_recut_wf, merged, one_if, other_than, updated_to};
use crate::model::MessageId;

verus! {

/// No page holds more rows than a page has places.
pub open spec fn pages_fit<T>(pages: Map<u32, Seq<T>>) -> bool {
    forall|p: u32| #[trigger] pages.contains_key(p) ==> pages[p].len() <= PAGE_SIZE
}

/// A delivery leaves the delivered page held, and no more pages than the
/// bound, whatever was held before.
pub proof fn lemma_delivery_bounds_pages<T>(window: WindowView<T>, page: u32, items: Seq<T>)
    requires
        window.wf(),
        page * PAGE_SIZE + items.len() <= u32::MAX,
    ensures
        window.delivered(page, items).wf(),
        window.delivered(page, items).recent.len() <= CACHE_PAGES,
        window.delivered(page, items).pages.dom().len() <= CACHE_PAGES,
        window.delivered(page, items).pages.contains_key(page),
        window.delivered(page, items).pages[page] == items,
{
    let after = window.delivered(page, items);
    let order = touched_order(window.recent, page);
    let gone = window.evicted_by(page);
    lemma_touched(window.recent, page);
    assert(gone =~= order.take(gone.len() as int));
    assert forall|p: u32| #[trigger] after.recent.contains(p) == after.pages.dom().contains(p) by {
        lemma_split(order, gone.len() as int, p);
        assert(window.recent.to_set().contains(p) == window.pages.dom().contains(p));
    }
    lemma_split(order, gone.len() as int, page);
    assert(after.recent.to_set() =~= after.pages.dom());
    after.recent.unique_seq_to_set();
    assert(order.last() == page);
    assert(after.recent.last() == page);
    assert(after.recent.contains(page));
    assert(after.pages.contains_key(page));
}

/// With no page longer than a page has places, no more rows are resident
/// after a delivery than the bound on pages allows: a scope of any size
/// never materialises more than that.
pub proof fn lemma_delivery_bounds_rows<T>(window: WindowView<T>, page: u32, items: Seq<T>)
    requires
        window.wf(),
        pages_fit(window.pages),
        items.len() <= PAGE_SIZE,
        page * PAGE_SIZE + items.len() <= u32::MAX,
    ensures
        pages_fit(window.delivered(page, items).pages),
        all_rows(window.delivered(page, items).pages).len() <= CACHE_PAGES * PAGE_SIZE,
{
    lemma_delivery_bounds_pages(window, page, items);
    lemma_rows_bounded(window.delivered(page, items));
}

/// A window within the bound on pages is within the bound on rows.
pub proof fn lemma_rows_bounded<T>(window: WindowView<T>)
    requires
        window.wf(),
        pages_fit(window.pages),
        window.recent.len() <= CACHE_PAGES,
    ensures
        all_rows(window.pages).len() <= CACHE_PAGES * PAGE_SIZE,
{
    lemma_rows_at_most(window.pages, window.recent, u32::MAX + 1);
    assert(window.recent.filter(before_page(u32::MAX + 1)).len() <= window.recent.len()) by {
        lemma_filter(window.recent, before_page(u32::MAX + 1));
    }
    let n = window.recent.filter(before_page(u32::MAX + 1)).len();
    assert(n * PAGE_SIZE <= CACHE_PAGES * PAGE_SIZE) by (nonlinear_arith)
        requires
            n <= CACHE_PAGES,
    ;
}

proof fn lemma_rows_at_most<T>(pages: Map<u32, Seq<T>>, recent: Seq<u32>, to: int)
    requires
        recent.no_duplicates(),
        recent.to_set() == pages.dom(),
        pages_fit(pages),
        0 <= to <= u32::MAX + 1,
    ensures
        rows_between(pages, 0, to).len() <= recent.filter(before_page(to)).len() * PAGE_SIZE,
    decreases to,
{
    if to == 0 {
    } else {
        lemma_rows_at_most(pages, recent, to - 1);
        let here = (to - 1) as u32;
        lemma_filter_grows(recent, to - 1);
        assert(recent.to_set().contains(here) == pages.dom().contains(here));
        let less = recent.filter(before_page(to - 1)).len();
        let more = recent.filter(before_page(to)).len();
        assert(pages.contains_key(here) ==> (less + 1) * PAGE_SIZE == less * PAGE_SIZE + PAGE_SIZE)
            by (nonlinear_arith);
    }
}

/// Raising the limit by one lets in exactly the page at it.
proof fn lemma_filter_grows(s: Seq<u32>, limit: int)
    requires
        s.no_duplicates(),
        0 <= limit <= u32::MAX,
    ensures
        s.filter(before_page(limit + 1)).len() == s.filter(before_page(limit)).len() + (if s.contains(
            limit as u32,
        ) {
            1int
        } else {
            0int
        }),
    decreases s.len(),
{
    reveal(Seq::filter);
    if s.len() > 0 {
        let rest = s.drop_last();
        let last = s.last();
        assert(s =~= rest.push(last));
        assert(rest.no_duplicates()) by {
            assert forall|i: int, j: int| 0 <= i < rest.len() && 0 <= j < rest.len() && i != j
                implies rest[i] != rest[j] by {
                assert(s[i] != s[j]);
            }
        }
        lemma_filter_grows(rest, limit);
        crate::list::pages::lemma_push_contains(rest, last, limit as u32);
        if last == limit {
            assert(!rest.contains(last)) by {
                if rest.contains(last) {
                    let i = choose|i: int| 0 <= i < rest.len() && rest[i] == last;
                    assert(s[i] == s[s.len() - 1]);
                }
            }
        }
    }
}

/// A splice leaves no more pages than the bound, whatever was held before.
pub proof fn lemma_splice_bounds_pages<T>(
    window: WindowView<T>,
    position: int,
    removed: int,
    inserted: Seq<T>,
)
    requires
        window.wf(),
        window.has_room(inserted.len()),
        0 <= position,
        0 <= removed,
        window.covers(position, removed),
    ensures
        window.spliced(position, removed, inserted).wf(),
        window.spliced(position, removed, inserted).recent.len() <= CACHE_PAGES,
        window.spliced(position, removed, inserted).pages.dom().len() <= CACHE_PAGES,
{
    lemma_recut_wf(window, position, removed, inserted);
    lemma_bounded(
        window.recut(position, removed, inserted),
        past_rows(position + inserted.len()),
        window.still_held(position, removed, inserted),
    );
    window.spliced(position, removed, inserted).recent.unique_seq_to_set();
}

/// With no page longer than a page has places, no more rows are resident
/// after a splice than the bound on pages allows.
pub proof fn lemma_splice_bounds_rows<T>(
    window: WindowView<T>,
    position: int,
    removed: int,
    inserted: Seq<T>,
)
    requires
        window.wf(),
        pages_fit(window.pages),
        window.has_room(inserted.len()),
        0 <= position,
        0 <= removed,
        window.covers(position, removed),
    ensures
        pages_fit(window.spliced(position, removed, inserted).pages),
        all_rows(window.spliced(position, removed, inserted).pages).len() <= CACHE_PAGES * PAGE_SIZE,
{
    let recut = window.recut(position, removed, inserted);
    let after = window.spliced(position, removed, inserted);
    lemma_splice_bounds_pages(window, position, removed, inserted);
    lemma_recut_wf(window, position, removed, inserted);
    lemma_bounded(
        recut,
        past_rows(position + inserted.len()),
        window.still_held(position, removed, inserted),
    );
    let first = window.run_at(position).0;
    let rows = replaced(
        window.run_rows(position),
        window.run_offset(position),
        removed,
        inserted,
    );
    assert forall|p: u32| #[trigger] after.pages.contains_key(p) implies after.pages[p].len()
        <= PAGE_SIZE by {
        assert(recut.pages.contains_key(p));
        if chunks(first, rows).contains_key(p) {
            assert(recut.pages[p] == chunk(first, rows, p as int));
        } else {
            assert(window.pages.contains_key(p));
        }
    }
    lemma_rows_bounded(after);
}

/// Reading, shrinking, removing a row, answering and abandoning never bring
/// the window over the bound on pages: only a delivery and a splice put pages
/// in, and both come down to the bound.
pub proof fn lemma_bound_is_kept<T>(window: WindowView<T>, page: u32, position: int)
    requires
        window.wf(),
        window.recent.len() <= CACHE_PAGES,
    ensures
        window.pages.contains_key(page) ==> window.touched(page).recent.len() <= CACHE_PAGES,
        window.cut_from(position).recent.len() <= CACHE_PAGES,
        window.without_row(position).recent.len() <= CACHE_PAGES,
        window.settled(page).recent.len() <= CACHE_PAGES,
{
    if window.pages.contains_key(page) {
        lemma_touched(window.recent, page);
        let order = touched_order(window.recent, page);
        assert forall|p: u32| #[trigger] order.to_set().contains(p) == window.recent.to_set().contains(p) by {
            assert(window.recent.to_set().contains(page));
        }
        assert(order.to_set() =~= window.recent.to_set());
        order.unique_seq_to_set();
        window.recent.unique_seq_to_set();
    }
    lemma_filter(window.recent, before_page((position + PAGE_SIZE - 1) / PAGE_SIZE as int));
    let at = (position / PAGE_SIZE as int) as u32;
    lemma_filter(window.recent, before_page(run_after(window.pages, at) + 1));
}

/// Nothing is kept of what lies past the end of a scope that shrank, and what
/// lies before it stays where it was.
pub proof fn lemma_shrinking_forgets_the_rest<T: ListRow>(
    window: WindowView<T>,
    total: u32,
    other: int,
    message: MessageId,
)
    requires
        window.wf(),
        total < window.total,
        0 <= other <= u32::MAX,
    ensures
        ({
            let after = WindowView { total, ..window.cut_from(total as int) };
            &&& other < total ==> after.cell(other) == window.cell(other)
            &&& other >= total ==> held_row(after.pages, other) is None
            &&& after.position_of(message) matches Some(at) ==> at < total
            &&& window.position_of(message) matches Some(at) ==> at < total ==> after.position_of(
                message,
            ) == Some(at)
        }),
{
    let after = WindowView { total, ..window.cut_from(total as int) };
    assert forall|p: u32, i: int| #[trigger]
        holds_at(after.pages, message, p, i) implies holds_at(window.pages, message, p, i) && p
        * PAGE_SIZE + i < total by {}
    if exists|p: u32, i: int| #[trigger] holds_at(after.pages, message, p, i) {
        let (p, i) = choose|p: u32, i: int| #[trigger] holds_at(after.pages, message, p, i);
        lemma_place_is_first(after.pages, message, p, i);
        let at = place(after.pages, message)->0;
        assert(holds_at(after.pages, message, at.0, at.1));
    }
    if exists|p: u32, i: int| #[trigger] holds_at(window.pages, message, p, i) {
        let (p, i) = choose|p: u32, i: int| #[trigger] holds_at(window.pages, message, p, i);
        lemma_place_is_first(window.pages, message, p, i);
        let at = place(window.pages, message)->0;
        assert(holds_at(window.pages, message, at.0, at.1));
        if at.0 * PAGE_SIZE + at.1 < total {
            assert(holds_at(after.pages, message, at.0, at.1));
            assert(first_at(after.pages, message, at.0, at.1));
            lemma_place(after.pages, message, at.0, at.1);
        }
    }
}

proof fn lemma_place_is_first<T: ListRow>(
    pages: Map<u32, Seq<T>>,
    message: MessageId,
    page: u32,
    index: int,
)
    requires
        holds_at(pages, message, page, index),
    ensures
        place(pages, message) is Some,
        ({
            let at = place(pages, message)->0;
            first_at(pages, message, at.0, at.1)
        }),
    decreases page, index,
{
    if first_at(pages, message, page, index) {
        lemma_place(pages, message, page, index);
    } else {
        let (p, i) = choose|p: u32, i: int| #[trigger]
            holds_at(pages, message, p, i) && !(page < p || (page == p && index <= i));
        lemma_place_is_first(pages, message, p, i);
    }
}

/// A page on its way is never asked for again, whichever position is read:
/// what reading a position asks for is on its way afterwards, and is not
/// asked for a second time until it is answered or given up on.
pub proof fn lemma_never_asked_twice<T>(window: WindowView<T>, position: int, other: int)
    ensures
        forall|p: u32| #[trigger]
            window.asks_for(position).contains(p) ==> !window.pending.contains(p),
        ({
            let after = WindowView {
                pending: window.pending.union(window.asks_for(position).to_set()),
                ..window
            };
            forall|p: u32| #[trigger]
                after.asks_for(other).contains(p) ==> !window.asks_for(position).contains(p)
        }),
{
    lemma_asks(window, position);
    let after = WindowView {
        pending: window.pending.union(window.asks_for(position).to_set()),
        ..window
    };
    lemma_asks(after, other);
}

proof fn lemma_asks<T>(window: WindowView<T>, position: int)
    ensures
        forall|p: u32| #[trigger]
            window.asks_for(position).contains(p) ==> !window.pending.contains(p),
{
    let asks = window.asks_for(position);
    assert forall|p: u32| #[trigger] asks.contains(p) implies !window.pending.contains(p) by {
        let i = choose|i: int| 0 <= i < asks.len() && asks[i] == p;
    }
}

/// A page whose fetch failed, or whose answer was taken, can be asked for
/// again: the next read of a row it does not hold asks for it.
pub proof fn lemma_settled_is_askable<T>(window: WindowView<T>, position: int)
    requires
        0 <= position < window.total,
        window.cell(position) is None,
        window.owed((position / PAGE_SIZE as int) as u32) == 0,
    ensures
        window.settled((position / PAGE_SIZE as int) as u32).asks_for(position).contains(
            (position / PAGE_SIZE as int) as u32,
        ),
{
    let page = (position / PAGE_SIZE as int) as u32;
    let after = window.settled(page);
    assert(page * PAGE_SIZE <= position);
    assert(after.asks_for(position)[0] == page);
}

/// Removing a row moves every row after it up by one place, and no row is
/// ever shown one place out: each position answers with the row that was
/// there or one further on, or with nothing.
pub proof fn lemma_remove_shifts<T>(window: WindowView<T>, position: int, other: int)
    requires
        window.wf(),
        window.can_remove(position),
        pages_fit(window.pages),
        0 <= other,
    ensures
        ({
            let after = window.without_row(position);
            &&& after.total == window.total - 1
            &&& other < position ==> after.cell(other) == window.cell(other)
            &&& other >= position ==> after.cell(other) is None || after.cell(other) == window.cell(
                other + 1,
            )
            &&& position <= other && other + 1 < window.total && (other + 1) / PAGE_SIZE as int
                <= run_after(window.pages, (position / PAGE_SIZE as int) as u32) ==> after.cell(
                other,
            ) == window.cell(other + 1)
        }),
{
    let page = (position / PAGE_SIZE as int) as u32;
    let index = position % PAGE_SIZE as int;
    let last = run_after(window.pages, page);
    let after = window.without_row(position);
    lemma_run_after(window.pages, page);
    let p = other / PAGE_SIZE as int;
    let i = other % PAGE_SIZE as int;
    let q = (other + 1) / PAGE_SIZE as int;
    assert(i < PAGE_SIZE - 1 ==> q == p && (other + 1) % PAGE_SIZE as int == i + 1);
    assert(i == PAGE_SIZE - 1 ==> q == p + 1 && (other + 1) % PAGE_SIZE as int == 0);
    if other < window.total {
        if page <= p < last {
            assert(full_page(window.pages, p));
            assert(window.pages.contains_key((p + 1) as u32));
        }
        if p == last && p > page {
            assert(window.pages.contains_key(p as u32));
        }
    }
}

proof fn lemma_run_after<T>(pages: Map<u32, Seq<T>>, page: u32)
    ensures
        page <= run_after(pages, page),
        forall|p: u32|
            page < p <= run_after(pages, page) ==> #[trigger] pages.contains_key(p)
                && pages[p].len() > 0,
        forall|p: u32|
            page <= p < run_after(pages, page) ==> (#[trigger] pages[p]).len() == PAGE_SIZE,
    decreases u32::MAX - page,
{
    if page < u32::MAX && pages[page].len() == PAGE_SIZE && pages.contains_key((page + 1) as u32)
        && pages[(page + 1) as u32].len() > 0 {
        lemma_run_after(pages, (page + 1) as u32);
    }
}

/// The rows of full pages back to back are the rows of their positions.
proof fn lemma_full_cells<T>(pages: Map<u32, Seq<T>>, first: int, to: int, k: int)
    requires
        0 <= first <= to <= u32::MAX + 1,
        forall|p: int| first <= p < to ==> #[trigger] full_page(pages, p),
        0 <= k < (to - first) * PAGE_SIZE,
    ensures
        rows_between(pages, first, to).len() == (to - first) * PAGE_SIZE,
        first + k / PAGE_SIZE as int <= u32::MAX,
        rows_between(pages, first, to)[k] == pages[(first + k / PAGE_SIZE as int) as u32][k
            % PAGE_SIZE as int],
    decreases to - first,
{
    lemma_full_rows(pages, first, to);
    lemma_full_rows(pages, first, to - 1);
    assert(full_page(pages, to - 1));
    if k < (to - 1 - first) * PAGE_SIZE {
        lemma_full_cells(pages, first, to - 1, k);
    } else {
        assert(k / PAGE_SIZE as int == to - 1 - first && k % PAGE_SIZE as int == k - (to - 1
            - first) * PAGE_SIZE) by (nonlinear_arith)
            requires
                (to - 1 - first) * PAGE_SIZE <= k < (to - first) * PAGE_SIZE,
                PAGE_SIZE == 50,
        ;
    }
}

/// The rows of a run are the rows of the positions it covers.
pub proof fn lemma_run_cells<T>(window: WindowView<T>, position: int, k: int)
    requires
        window.wf(),
        pages_fit(window.pages),
        0 <= position <= u32::MAX,
        anchor_page(window.pages, position) is Some,
        0 <= k < window.run_rows(position).len(),
    ensures
        held_row(window.pages, window.run_at(position).0 * PAGE_SIZE + k) == Some(
            window.run_rows(position)[k],
        ),
{
    let (first, last) = window.run_at(position);
    let pages = window.pages;
    lemma_run(pages, anchor_page(pages, position)->0);
    lemma_full_rows(pages, first, last);
    let place = first * PAGE_SIZE + k;
    assert(place / PAGE_SIZE as int == first + k / PAGE_SIZE as int && place % PAGE_SIZE as int == k
        % PAGE_SIZE as int) by (nonlinear_arith)
        requires
            place == first * PAGE_SIZE + k,
            PAGE_SIZE == 50,
            k >= 0,
    ;
    assert(pages.contains_key(last as u32));
    if k < (last - first) * PAGE_SIZE {
        lemma_full_cells(pages, first, last, k);
        assert((k / PAGE_SIZE as int) < last - first) by (nonlinear_arith)
            requires
                0 <= k < (last - first) * PAGE_SIZE,
                PAGE_SIZE == 50,
        ;
        assert(full_page(pages, first + k / PAGE_SIZE as int));
    } else {
        let rest = k - (last - first) * PAGE_SIZE;
        assert(0 <= rest < pages[last as u32].len());
        if rest < PAGE_SIZE {
            assert(k / PAGE_SIZE as int == last - first && k % PAGE_SIZE as int == rest)
                by (nonlinear_arith)
                requires
                    k == (last - first) * PAGE_SIZE + rest,
                    0 <= rest < PAGE_SIZE,
                    PAGE_SIZE == 50,
            ;
        }
    }
}

/// The row that `other` answers with once `removed` rows at `position` are
/// replaced by `inserted`, going by what was held before.
pub open spec fn edited<T>(
    window: WindowView<T>,
    position: int,
    removed: int,
    inserted: Seq<T>,
    other: int,
) -> Option<T> {
    if other < position {
        window.cell(other)
    } else if other < position + inserted.len() {
        Some(inserted[other - position])
    } else {
        window.cell(other - inserted.len() + removed)
    }
}

proof fn lemma_recut_places<T>(
    window: WindowView<T>,
    position: int,
    removed: int,
    inserted: Seq<T>,
    other: int,
)
    requires
        window.wf(),
        pages_fit(window.pages),
        window.has_room(inserted.len()),
        0 <= position <= u32::MAX,
        0 <= removed,
        window.covers(position, removed),
        0 <= other,
    ensures
        ({
            let after = window.recut(position, removed, inserted);
            let start = window.run_at(position).0 * PAGE_SIZE;
            let rows = replaced(
                window.run_rows(position),
                window.run_offset(position),
                removed,
                inserted,
            );
            &&& after.total == window.total - removed + inserted.len()
            &&& after.cell(other) is None || after.cell(other) == edited(
                window,
                position,
                removed,
                inserted,
                other,
            )
            &&& other < start ==> after.cell(other) == window.cell(other)
            &&& start <= other < start + rows.len() && other < after.total ==> after.cell(other)
                == Some(rows[other - start])
        }),
{
    let after = window.recut(position, removed, inserted);
    let (first, last) = window.run_at(position);
    let start = first * PAGE_SIZE;
    let run = window.run_rows(position);
    let offset = window.run_offset(position);
    let rows = replaced(run, offset, removed, inserted);
    let anchor = anchor_page(window.pages, position)->0;
    lemma_run(window.pages, anchor);
    lemma_full_rows(window.pages, first, last);
    assert(window.pages.contains_key(last as u32));
    assert(start <= anchor * PAGE_SIZE) by (nonlinear_arith)
        requires
            start == first * PAGE_SIZE,
            first <= anchor,
    ;
    assert(0 <= offset);
    assert(rows.len() == run.len() - removed + inserted.len());
    assert(start + (last - first) * PAGE_SIZE == last * PAGE_SIZE) by (nonlinear_arith)
        requires
            start == first * PAGE_SIZE,
    ;
    if other < after.total {
        let p = other / PAGE_SIZE as int;
        let i = other % PAGE_SIZE as int;
        let k = other - start;
        let made = chunks(first, rows);
        assert(other == p * PAGE_SIZE + i);
        assert(p <= u32::MAX);
        if p < first {
            assert(other < start) by (nonlinear_arith)
                requires
                    p < first,
                    other == p * PAGE_SIZE + i,
                    i < PAGE_SIZE,
                    start == first * PAGE_SIZE,
                    PAGE_SIZE == 50,
            ;
            assert(!made.contains_key(p as u32));
            assert(first < past_run(first, rows.len() as int));
            assert(after.pages.contains_key(p as u32) == window.pages.contains_key(p as u32));
        } else {
            assert(k == (p - first) * PAGE_SIZE + i) by (nonlinear_arith)
                requires
                    other == p * PAGE_SIZE + i,
                    k == other - first * PAGE_SIZE,
            ;
            if (p - first) * PAGE_SIZE < rows.len() {
                assert(made.contains_key(p as u32));
                assert(p - first < (rows.len() + PAGE_SIZE - 1) / PAGE_SIZE as int)
                    by (nonlinear_arith)
                    requires
                        (p - first) * PAGE_SIZE < rows.len(),
                        PAGE_SIZE == 50,
                ;
                assert(after.pages.contains_key(p as u32));
                assert(after.pages[p as u32] == chunk(first, rows, p));
                if k < rows.len() {
                    assert(after.cell(other) == Some(rows[k]));
                    if k < offset {
                        lemma_run_cells(window, position, k);
                    } else if k >= offset + inserted.len() {
                        lemma_run_cells(window, position, k - inserted.len() + removed);
                    }
                }
            } else {
                assert(!made.contains_key(p as u32));
                if inserted.len() != removed {
                    assert(rows.len() > 0 ==> p - first >= (rows.len() + PAGE_SIZE - 1) / PAGE_SIZE as int)
                        by (nonlinear_arith)
                        requires
                            (p - first) * PAGE_SIZE >= rows.len(),
                            PAGE_SIZE == 50,
                    ;
                    assert(!after.pages.contains_key(p as u32));
                } else {
                    if p > last {
                        assert(other >= (last + 1) * PAGE_SIZE) by (nonlinear_arith)
                            requires
                                p > last,
                                other == p * PAGE_SIZE + i,
                                i >= 0,
                                PAGE_SIZE == 50,
                        ;
                        assert((last + 1) * PAGE_SIZE == last * PAGE_SIZE + PAGE_SIZE) by (nonlinear_arith);
                        assert(after.pages.contains_key(p as u32) == window.pages.contains_key(p as u32));
                    } else {
                        assert(!after.pages.contains_key(p as u32));
                    }
                }
            }
        }
    }
}

/// A splice never shows a row out of place: every position answers with the
/// row the edit puts there, or with nothing.
///
/// As long as the pages that reach up to the rows put in are within the bound
/// on pages, every position up to and among those rows answers exactly as the
/// edit has it, and each of them that is in the run with a row; and when all
/// the pages are, so does every position up to the end of the run.
pub proof fn lemma_splice_places<T>(
    window: WindowView<T>,
    position: int,
    removed: int,
    inserted: Seq<T>,
    other: int,
)
    requires
        window.wf(),
        pages_fit(window.pages),
        window.has_room(inserted.len()),
        0 <= position,
        0 <= removed,
        window.covers(position, removed),
        0 <= other,
    ensures
        ({
            let after = window.spliced(position, removed, inserted);
            let recut = window.recut(position, removed, inserted);
            let end = position + inserted.len();
            let start = window.run_at(position).0 * PAGE_SIZE;
            let rows = replaced(
                window.run_rows(position),
                window.run_offset(position),
                removed,
                inserted,
            );
            let here = edited(window, position, removed, inserted, other);
            &&& after.total == window.total - removed + inserted.len()
            &&& after.cell(other) is None || after.cell(other) == here
            &&& recut.recent.filter(before_page(past_rows(end))).len() <= CACHE_PAGES && other < end
                && other < after.total ==> after.cell(other) == here && (start <= other ==> here is Some)
            &&& recut.recent.len() <= CACHE_PAGES && other < start + rows.len() && other < after.total
                ==> after.cell(other) == here && (start <= other ==> here is Some)
        }),
{
    let after = window.spliced(position, removed, inserted);
    let recut = window.recut(position, removed, inserted);
    let end = position + inserted.len();
    let cut = past_rows(end);
    lemma_recut_wf(window, position, removed, inserted);
    lemma_bounded(recut, cut, window.still_held(position, removed, inserted));
    lemma_recut_places(window, position, removed, inserted, other);
    let p = other / PAGE_SIZE as int;
    let start = window.run_at(position).0 * PAGE_SIZE;
    let rows = replaced(
        window.run_rows(position),
        window.run_offset(position),
        removed,
        inserted,
    );
    lemma_run(window.pages, anchor_page(window.pages, position)->0);
    if other < after.total {
        assert(after.cell(other) is Some ==> after.cell(other) == recut.cell(other)) by {
            if after.pages.contains_key(p as u32) {
                assert(recut.pages.contains_key(p as u32));
            }
        }
        if other < end {
            assert(p < cut);
            assert(other < start + rows.len());
        }
    }
}

/// What a delivery reports to be redrawn is what landed: a position is in the
/// reported range exactly when it is in the scope and is where one of the
/// delivered rows goes.
pub proof fn lemma_delivery_redraws_what_landed<T>(
    window: WindowView<T>,
    page: u32,
    count: nat,
    position: int,
)
    ensures
        (window.span_of(page, count) matches Some(span) && span.0 <= position < span.1) <==> (0
            <= position < window.total && exists|i: int|
            0 <= i < count && position == #[trigger] (page * PAGE_SIZE + i)),
{
    if page * PAGE_SIZE <= position < page * PAGE_SIZE + count {
        let i = position - page * PAGE_SIZE;
        assert(position == page * PAGE_SIZE + i);
    }
}

/// A delivered row is read at its position, and nothing else moves: a position
/// on another page answers as before, or with nothing when its page was let
/// go.
pub proof fn lemma_delivered_rows_are_read<T>(
    window: WindowView<T>,
    page: u32,
    items: Seq<T>,
    position: int,
)
    requires
        window.wf(),
        page * PAGE_SIZE + items.len() <= u32::MAX,
        items.len() <= PAGE_SIZE,
        0 <= position < window.total,
    ensures
        ({
            let after = window.delivered(page, items);
            let here = position - page * PAGE_SIZE;
            &&& after.total == window.total
            &&& 0 <= here < items.len() ==> after.cell(position) == Some(items[here])
            &&& items.len() <= here < PAGE_SIZE ==> after.cell(position) is None
            &&& (here < 0 || here >= PAGE_SIZE) ==> after.cell(position) == (if window.evicted_by(
                page,
            ).contains((position / PAGE_SIZE as int) as u32) {
                None
            } else {
                window.cell(position)
            })
            &&& !window.evicted_by(page).contains(page)
        }),
{
    let after = window.delivered(page, items);
    lemma_delivery_bounds_pages(window, page, items);
    let gone = window.evicted_by(page);
    let p = position / PAGE_SIZE as int;
    let here = position - page * PAGE_SIZE;
    assert(0 <= here < PAGE_SIZE <==> p == page) by (nonlinear_arith)
        requires
            p == position / 50,
            here == position - page * 50,
            PAGE_SIZE == 50,
    ;
    assert(gone.to_set().contains(p as u32) == gone.contains(p as u32));
    if gone.contains(page) {
        assert(gone.to_set().contains(page));
    }
}

/// A redelivered row is reconciled with one held for the same message, and a
/// row for a message that was not held is taken as it came.
pub proof fn lemma_delivery_reconciles<T: ListRow>(
    previous: Seq<T>,
    rows: Seq<T>,
    items: Seq<T>,
    i: int,
)
    requires
        merged(previous, rows, items),
        0 <= i < rows.len(),
    ensures
        items.len() == rows.len(),
        (rows[i].row_id() is Some && exists|k: int|
            0 <= k < previous.len() && (#[trigger] previous[k]).row_id() == rows[i].row_id())
            ==> exists|k: int|
            0 <= k < previous.len() && (#[trigger] previous[k]).row_id() == rows[i].row_id()
                && call_ensures(T::reconcile, (&previous[k], rows[i]), items[i]),
        (rows[i].row_id() is None || forall|k: int|
            0 <= k < previous.len() ==> (#[trigger] previous[k]).row_id() != rows[i].row_id())
            ==> items[i] == rows[i],
{
    lemma_last_with(previous, rows[i].row_id());
    match last_with(previous, rows[i].row_id()) {
        Some(k) => {
            assert(previous[k].row_id() == rows[i].row_id());
        },
        None => {},
    }
}

proof fn lemma_last_with<T: ListRow>(rows: Seq<T>, message: Option<MessageId>)
    ensures
        match last_with(rows, message) {
            Some(k) => 0 <= k < rows.len() && message is Some && rows[k].row_id() == message,
            None => message is None || forall|k: int|
                0 <= k < rows.len() ==> (#[trigger] rows[k]).row_id() != message,
        },
    decreases rows.len(),
{
    if rows.len() > 0 && message is Some && rows.last().row_id() != message {
        lemma_last_with(rows.drop_last(), message);
        if last_with(rows, message) is None {
            assert forall|k: int| 0 <= k < rows.len() implies (#[trigger] rows[k]).row_id()
                != message by {
                if k < rows.len() - 1 {
                    assert(rows.drop_last()[k].row_id() != message);
                }
            }
        }
    }
}

proof fn lemma_filter_keeps_order(s: Seq<u32>, pred: spec_fn(u32) -> bool, n: int, a: int, b: int)
    requires
        s.no_duplicates(),
        0 <= a < b < s.len(),
        pred(s[a]),
        0 <= n <= s.filter(pred).len(),
        s.filter(pred).take(n).contains(s[b]),
    ensures
        s.filter(pred).take(n).contains(s[a]),
    decreases s.len(),
{
    reveal(Seq::filter);
    let rest = s.drop_last();
    let kept = rest.filter(pred);
    let all = s.filter(pred);
    lemma_filter(rest, pred);
    lemma_filter(s, pred);
    assert(rest.no_duplicates()) by {
        assert forall|i: int, j: int| 0 <= i < rest.len() && 0 <= j < rest.len() && i != j implies rest[i]
            != rest[j] by {
            assert(s[i] != s[j]);
        }
    }
    assert(rest[a] == s[a]);
    if b == s.len() - 1 {
        let k = choose|k: int| 0 <= k < n && all.take(n)[k] == s[b];
        assert(all[k] == s[b]);
        if k < kept.len() {
            assert(kept[k] == s[b]);
            assert(kept.contains(s[b]));
            let j = choose|j: int| 0 <= j < rest.len() && rest[j] == s[b];
            assert(s[j] == s[b]);
        }
        assert(rest.contains(s[a]));
        assert(kept.contains(s[a]));
        let j = choose|j: int| 0 <= j < kept.len() && kept[j] == s[a];
        assert(all.take(n)[j] == s[a]);
    } else {
        let k = choose|k: int| 0 <= k < n && all.take(n)[k] == s[b];
        assert(all[k] == s[b]);
        if k >= kept.len() {
            assert(all[k] == s.last());
            assert(s[b] == s[s.len() - 1]);
        }
        let m = if n < kept.len() { n } else { kept.len() as int };
        assert(kept.take(m)[k] == s[b]);
        lemma_filter_keeps_order(rest, pred, m, a, b);
        let j = choose|j: int| 0 <= j < m && kept.take(m)[j] == s[a];
        assert(all.take(n)[j] == s[a]);
    }
}

/// What a delivery lets go is what was used longest ago: a page that goes takes
/// every page used before it along, and as many go as there are too many.
pub proof fn lemma_least_used_go_first<T>(window: WindowView<T>, page: u32, a: int, b: int)
    requires
        window.wf(),
        0 <= a < b < window.recent.len(),
        window.recent[a] != page,
        window.evicted_by(page).contains(window.recent[b]),
    ensures
        window.evicted_by(page).contains(window.recent[a]),
{
    let kept = window.recent.filter(other_than(page));
    let order = touched_order(window.recent, page);
    let gone = window.evicted_by(page);
    lemma_filter(window.recent, other_than(page));
    assert(order.len() > CACHE_PAGES);
    let n = order.len() - CACHE_PAGES;
    assert(gone =~= kept.take(n));
    lemma_filter_keeps_order(window.recent, other_than(page), n, a, b);
}

/// A delivery lets go of exactly as many pages as are over the bound.
pub proof fn lemma_no_page_goes_without_need<T>(window: WindowView<T>, page: u32)
    requires
        window.wf(),
    ensures
        ({
            let held = window.pages.dom().insert(page).len();
            window.evicted_by(page).len() == (if held > CACHE_PAGES {
                held - CACHE_PAGES
            } else {
                0
            })
        }),
{
    lemma_touched(window.recent, page);
    let order = touched_order(window.recent, page);
    order.unique_seq_to_set();
    assert forall|p: u32| #[trigger] order.to_set().contains(p) == window.pages.dom().insert(
        page,
    ).contains(p) by {
        assert(window.recent.to_set().contains(p) == window.pages.dom().contains(p));
    }
    assert(order.to_set() =~= window.pages.dom().insert(page));
}

/// A page that was just read is not the one the next delivery lets go.
pub proof fn lemma_page_in_view_stays<T>(window: WindowView<T>, page: u32, other: u32)
    requires
        window.wf(),
        window.pages.contains_key(page),
    ensures
        !window.touched(page).evicted_by(other).contains(page),
{
    let read = touched_order(window.recent, page);
    let order = touched_order(read, other);
    lemma_touched(window.recent, page);
    lemma_touched(read, other);
    if other == page {
        assert(order.last() == page);
    } else {
        reveal(Seq::filter);
        assert(read.last() == page);
        assert(read.filter(other_than(other)) =~= read.drop_last().filter(other_than(other)).push(page));
        assert(order[order.len() - 2] == page);
    }
    let gone = window.touched(page).evicted_by(other);
    if gone.contains(page) {
        let k = choose|k: int| 0 <= k < gone.len() && gone[k] == page;
        assert(order[k] == page);
    }
}

/// What reading a position that is not held asks for: the page it is on, and
/// the pages either side, each unless it starts past the end of the scope, is
/// on its way, or -- for a neighbour -- is held. Nothing else is asked for.
pub proof fn lemma_what_a_read_asks_for<T>(window: WindowView<T>, position: int, page: u32)
    requires
        0 <= position < window.total,
        window.cell(position) is None,
    ensures
        window.asks_for(position).contains(page) <==> {
            &&& !window.pending.contains(page)
            &&& page * PAGE_SIZE < window.total
            &&& {
                ||| page * PAGE_SIZE <= position < page * PAGE_SIZE + PAGE_SIZE
                ||| (page + 1) * PAGE_SIZE <= position < (page + 2) * PAGE_SIZE
                    && !window.pages.contains_key(page)
                ||| (page - 1) * PAGE_SIZE <= position < page * PAGE_SIZE
                    && !window.pages.contains_key(page)
            }
        },
{
    let at = position / PAGE_SIZE as int;
    let asks = window.asks_for(position);
    let index = position % PAGE_SIZE as int;
    assert(at * PAGE_SIZE <= position < at * PAGE_SIZE + PAGE_SIZE);
    let first = one_if(window.lacks(at, Some(index)), at);
    let second = one_if(window.lacks(at - 1, None), at - 1);
    let third = one_if(window.lacks(at + 1, None), at + 1);
    assert(page * PAGE_SIZE <= position < page * PAGE_SIZE + PAGE_SIZE <==> page == at);
    assert((page + 1) * PAGE_SIZE <= position < (page + 2) * PAGE_SIZE <==> page == at - 1);
    assert((page - 1) * PAGE_SIZE <= position < page * PAGE_SIZE <==> page == at + 1);
    if first.len() > 0 {
        assert(asks[0] == first[0]);
    }
    if second.len() > 0 {
        assert(asks[first.len() as int] == second[0]);
    }
    if third.len() > 0 {
        assert(asks[(first.len() + second.len()) as int] == third[0]);
    }
    if asks.contains(page) {
        let k = choose|k: int| 0 <= k < asks.len() && asks[k] == page;
    }
}

/// A disowned answer is refused, and costs nothing but itself: after as many
/// answers as were disowned, the next one is taken. An answer for one page
/// says nothing about another.
pub proof fn lemma_disowned_answers_are_counted_off<T>(window: WindowView<T>, page: u32, other: u32)
    ensures
        ({
            let after = window.settled(page);
            &&& window.owed(page) > 0 ==> !window.accepts(window.generation, page) && after.owed(page)
                == window.owed(page) - 1 && after.pending == window.pending
            &&& window.owed(page) == 0 ==> window.accepts(window.generation, page) && after.owed(page)
                == 0 && !after.pending.contains(page)
            &&& other != page ==> after.owed(other) == window.owed(other) && after.pending.contains(
                other,
            ) == window.pending.contains(other)
            &&& after.pages == window.pages && after.total == window.total && after.recent
                == window.recent
        }),
{
}

/// An update changes the one row it is for, and no other position.
pub proof fn lemma_update_touches_one_row<T: ListRow>(
    before: WindowView<T>,
    incoming: T,
    updated: T,
    after: WindowView<T>,
    position: int,
)
    requires
        before.wf(),
        pages_fit(before.pages),
        incoming.row_id() is Some,
        before.position_of(incoming.row_id()->0) is Some,
        updated_to(before, incoming, updated, after),
        0 <= position <= u32::MAX,
    ensures
        ({
            let at = before.position_of(incoming.row_id()->0)->0;
            &&& held_row(before.pages, at as int) matches Some(existing) && existing.row_id()
                == incoming.row_id() && call_ensures(T::reconcile, (&existing, incoming), updated)
            &&& held_row(after.pages, position) == (if position == at {
                Some(updated)
            } else {
                held_row(before.pages, position)
            })
            &&& after.recent == before.recent && after.total == before.total
        }),
{
    let message = incoming.row_id()->0;
    lemma_position_is_where_it_is(before, message);
    let at = place(before.pages, message)->0;
    let here = at.0 * PAGE_SIZE + at.1;
    assert(here / PAGE_SIZE as int == at.0 && here % PAGE_SIZE as int == at.1) by (nonlinear_arith)
        requires
            here == at.0 * 50 + at.1,
            0 <= at.1 < 50,
            PAGE_SIZE == 50,
    ;
    assert(position == (position / PAGE_SIZE as int) * PAGE_SIZE + position % PAGE_SIZE as int);
}

/// A message is found at the first place it is held: the row there is for it,
/// and no row before it is.
pub proof fn lemma_position_is_where_it_is<T: ListRow>(window: WindowView<T>, message: MessageId)
    requires
        window.wf(),
        pages_fit(window.pages),
    ensures
        match window.position_of(message) {
            Some(at) => {
                &&& held_row(window.pages, at as int) matches Some(row) && row.row_id() == Some(message)
                &&& forall|other: int|
                    0 <= other < at ==> !((#[trigger] held_row(window.pages, other)) matches Some(row)
                        && row.row_id() == Some(message))
            },
            None => forall|other: int|
                0 <= other <= u32::MAX ==> !((#[trigger] held_row(window.pages, other)) matches Some(
                    row,
                ) && row.row_id() == Some(message)),
        },
        window.position_of(message) is Some ==> {
            let at = place(window.pages, message)->0;
            holds_at(window.pages, message, at.0, at.1)
        },
{
    if exists|p: u32, i: int| #[trigger] holds_at(window.pages, message, p, i) {
        let (p, i) = choose|p: u32, i: int| #[trigger] holds_at(window.pages, message, p, i);
        lemma_place_is_first(window.pages, message, p, i);
        let at = place(window.pages, message)->0;
        assert(holds_at(window.pages, message, at.0, at.1));
        let here = at.0 * PAGE_SIZE + at.1;
        assert(here / PAGE_SIZE as int == at.0 && here % PAGE_SIZE as int == at.1)
            by (nonlinear_arith)
            requires
                here == at.0 * 50 + at.1,
                0 <= at.1 < 50,
                PAGE_SIZE == 50,
        ;
        assert forall|other: int| 0 <= other < here implies !((#[trigger] held_row(
            window.pages,
            other,
        )) matches Some(row) && row.row_id() == Some(message)) by {
            let q = other / PAGE_SIZE as int;
            let j = other % PAGE_SIZE as int;
            assert(other == q * PAGE_SIZE + j);
            if held_row(window.pages, other) matches Some(row) && row.row_id() == Some(message) {
                assert(holds_at(window.pages, message, q as u32, j));
            }
        }
    } else {
        assert forall|other: int| 0 <= other <= u32::MAX implies !((#[trigger] held_row(
            window.pages,
            other,
        )) matches Some(row) && row.row_id() == Some(message)) by {
            let q = other / PAGE_SIZE as int;
            let j = other % PAGE_SIZE as int;
            assert(!holds_at(window.pages, message, q as u32, j));
        }
    }
}

// ---------------------------------------------------------------------------
// What an edit reaches
// ---------------------------------------------------------------------------

proof fn lemma_held_position<T>(pages: Map<u32, Seq<T>>, position: int)
    requires
        0 <= position,
        held_row(pages, position) is Some,
    ensures
        ({
            let page = position / 50;
            &&& pages.contains_key(page as u32)
            &&& position % 50 < pages[page as u32].len()
        }),
{
}

/// Pages that are all held up to a position, with no gap, are full but the
/// last of them.
proof fn lemma_held_pages_are_full<T>(pages: Map<u32, Seq<T>>, from: int, to: int, p: int)
    requires
        pages_fit(pages),
        0 <= from <= to <= u32::MAX,
        forall|k: int| from <= k <= to ==> (#[trigger] held_row(pages, k)) is Some,
        from / 50 <= p < to / 50,
    ensures
        full_page(pages, p),
{
    let k = p * 50 + 49;
    assert(k / 50 == p && k % 50 == 49) by (nonlinear_arith)
        requires
            k == p * 50 + 49,
    ;
    assert(from <= k <= to) by (nonlinear_arith)
        requires
            k == p * 50 + 49,
            from / 50 <= p,
            p < to / 50,
    ;
    assert(held_row(pages, k) is Some);
    lemma_held_position(pages, k);
    assert(p <= u32::MAX);
    assert(pages.contains_key(p as u32));
}

proof fn lemma_run_after_reaches<T>(pages: Map<u32, Seq<T>>, page: u32, to: int)
    requires
        page <= to <= u32::MAX,
        forall|p: int| page <= p < to ==> #[trigger] full_page(pages, p),
        pages.contains_key(to as u32),
        pages[to as u32].len() > 0,
    ensures
        run_after(pages, page) >= to,
    decreases to - page,
{
    if page < to {
        assert(full_page(pages, page as int));
        let next = (page + 1) as u32;
        if next < to {
            assert(full_page(pages, next as int));
        }
        lemma_run_after_reaches(pages, next, to);
    } else {
        lemma_run_after(pages, page);
    }
}

/// As far as the rows behind a removed one are held without a gap, each of
/// them is there one place up.
pub proof fn lemma_removal_keeps_what_follows<T>(window: WindowView<T>, position: int, other: int)
    requires
        window.wf(),
        window.can_remove(position),
        pages_fit(window.pages),
        position <= other,
        other + 1 < window.total,
        forall|k: int| position <= k <= other + 1 ==> (#[trigger] held_row(window.pages, k)) is Some,
    ensures
        window.without_row(position).cell(other) == window.cell(other + 1),
        window.without_row(position).cell(other) is Some,
{
    let pages = window.pages;
    let page = position / 50;
    let to = (other + 1) / 50;
    assert(held_row(pages, other + 1) is Some);
    lemma_held_position(pages, other + 1);
    assert forall|p: int| page <= p < to implies #[trigger] full_page(pages, p) by {
        lemma_held_pages_are_full(pages, position, other + 1, p);
    }
    lemma_run_after_reaches(pages, page as u32, to);
    lemma_remove_shifts(window, position, other);
}

/// A row can be taken out in place exactly when it is held and nothing is on
/// its way for its own page or a later one.
pub proof fn lemma_what_can_be_removed<T>(window: WindowView<T>, position: int)
    requires
        0 <= position,
    ensures
        window.can_remove(position) <==> window.cell(position) is Some && forall|p: u32|
            (p + 1) * 50 > position ==> !#[trigger] window.pending.contains(p),
        window.can_remove(position) ==> window.without_row(position).pending == window.pending
            && window.without_row(position).generation == window.generation,
{
    if window.can_remove(position) {
        assert forall|p: u32| (p + 1) * 50 > position implies !#[trigger] window.pending.contains(
            p,
        ) by {
            if window.pending.contains(p) {
                assert(p < position / 50);
            }
        }
    }
    if window.cell(position) is Some && forall|p: u32|
        (p + 1) * 50 > position ==> !#[trigger] window.pending.contains(p) {
        assert forall|p: u32| #[trigger] window.pending.contains(p) implies p < position
            / PAGE_SIZE as int by {
            assert((p + 1) * 50 <= position);
        }
    }
}

proof fn lemma_run_last_reaches<T>(pages: Map<u32, Seq<T>>, page: int, to: int)
    requires
        0 <= page <= to <= u32::MAX,
        forall|p: int| page <= p < to ==> #[trigger] full_page(pages, p),
        pages.contains_key(to as u32),
    ensures
        run_last(pages, page) >= to,
    decreases to - page,
{
    if page < to {
        assert(full_page(pages, page));
        if page + 1 < to {
            assert(full_page(pages, page + 1));
        }
        lemma_run_last_reaches(pages, page + 1, to);
    } else {
        lemma_run(pages, page);
    }
}

/// Rows can be replaced exactly when every one of them is held and in the
/// scope.
pub proof fn lemma_what_a_splice_covers<T>(window: WindowView<T>, position: int, removed: int)
    requires
        window.wf(),
        pages_fit(window.pages),
        0 <= position,
        0 < removed,
        position + removed <= window.total,
    ensures
        window.covers(position, removed) <==> forall|k: int|
            position <= k < position + removed ==> (#[trigger] held_row(window.pages, k)) is Some,
{
    let pages = window.pages;
    if window.covers(position, removed) {
        let first = window.run_at(position).0;
        let anchor = anchor_page(pages, position)->0;
        lemma_run(pages, anchor);
        assert(anchor <= position / 50);
        assert(first * 50 <= position) by (nonlinear_arith)
            requires
                first <= position / 50,
                0 <= position,
        ;
        assert forall|k: int| position <= k < position + removed implies (#[trigger] held_row(
            pages,
            k,
        )) is Some by {
            lemma_run_cells(window, position, k - first * PAGE_SIZE);
        }
    }
    if forall|k: int|
        position <= k < position + removed ==> (#[trigger] held_row(pages, k)) is Some {
        let page = position / 50;
        let end = position + removed - 1;
        let to = end / 50;
        assert(held_row(pages, position) is Some);
        lemma_held_position(pages, position);
        assert(held_row(pages, end) is Some);
        lemma_held_position(pages, end);
        assert(anchor_page(pages, position) == Some(page));
        assert forall|p: int| page <= p < to implies #[trigger] full_page(pages, p) by {
            lemma_held_pages_are_full(pages, position, end, p);
        }
        lemma_run_last_reaches(pages, page, to);
        lemma_run(pages, page);
        let (first, last) = window.run_at(position);
        lemma_full_rows(pages, first, last);
        let count = window.run_rows(position).len();
        assert(count == (last - first) * PAGE_SIZE + pages[last as u32].len());
        assert(position - first * 50 + removed <= count) by {
            assert(end == to * 50 + end % 50);
            if last == to {
                assert((last - first) * 50 == to * 50 - first * 50) by (nonlinear_arith)
                    requires
                        last == to,
                ;
            } else {
                assert((last - first) * 50 >= to * 50 + 50 - first * 50) by (nonlinear_arith)
                    requires
                        last >= to + 1,
                ;
            }
        }
    }
}

/// Rows that came or went move what is behind them: a page asked for before
/// that, at the place of the edit or later, can be asked for again, and the
/// answer on its way is refused when it lands. As many rows put in as taken
/// out move nothing, and every answer on its way stands.
pub proof fn lemma_splice_disowns_what_it_moves<T>(
    window: WindowView<T>,
    position: int,
    removed: int,
    inserted: Seq<T>,
    page: u32,
)
    requires
        window.wf(),
        window.has_room(inserted.len()),
        0 <= position <= u32::MAX,
        window.covers(position, removed),
        (page + 1) * 50 > position,
    ensures
        ({
            let after = window.spliced(position, removed, inserted);
            &&& after.generation == window.generation
            &&& inserted.len() != removed ==> !after.pending.contains(page)
            &&& inserted.len() != removed && window.pending.contains(page) ==> after.owed(page)
                == window.owed(page) + 1 && !after.accepts(window.generation, page)
            &&& inserted.len() != removed && !window.pending.contains(page) ==> after.owed(page)
                == window.owed(page)
            &&& inserted.len() == removed ==> after.pending == window.pending && after.owed(page)
                == window.owed(page)
        }),
{
    let first = window.run_at(position).0;
    let anchor = anchor_page(window.pages, position)->0;
    lemma_run(window.pages, anchor);
    assert(anchor <= position / 50);
    assert(page >= position / 50);
    assert(page >= first);
}

/// A page still to come is not given up when the scope shrinks, unless every
/// row of it lies past the new end.
pub proof fn lemma_shrinking_disowns_the_rest<T>(window: WindowView<T>, total: u32, page: u32)
    requires
        total < window.total,
    ensures
        window.cut_from(total as int).pending.contains(page) <==> window.pending.contains(page)
            && page * 50 < total,
{
    let limit = (total + 49) / 50;
    assert(page < limit <==> page * 50 < total) by (nonlinear_arith)
        requires
            limit == (total + 49) / 50,
    ;
}

/// What is resident is every held row and nothing else, page by page from the
/// top.
pub proof fn lemma_resident_is_what_is_held<T>(pages: Map<u32, Seq<T>>, page: u32, index: int)
    requires
        pages.contains_key(page),
        0 <= index < pages[page].len(),
    ensures
        all_rows(pages).contains(pages[page][index]),
        all_rows(pages).len() >= pages[page].len(),
{
    lemma_between_holds(pages, u32::MAX + 1, page, index);
}

proof fn lemma_between_holds<T>(pages: Map<u32, Seq<T>>, to: int, page: u32, index: int)
    requires
        pages.contains_key(page),
        0 <= index < pages[page].len(),
        page < to <= u32::MAX + 1,
    ensures
        rows_between(pages, 0, to).contains(pages[page][index]),
        rows_between(pages, 0, to).len() >= pages[page].len(),
    decreases to,
{
    let before = rows_between(pages, 0, to - 1);
    let now = rows_between(pages, 0, to);
    if page == to - 1 {
        assert(now[before.len() + index] == pages[page][index]);
    } else {
        lemma_between_holds(pages, to - 1, page, index);
        let k = choose|k: int| 0 <= k < before.len() && before[k] == pages[page][index];
        assert(now[k] == before[k]);
    }
}

/// Every resident row is held on some page.
pub proof fn lemma_nothing_else_is_resident<T>(pages: Map<u32, Seq<T>>, k: int)
    requires
        0 <= k < all_rows(pages).len(),
    ensures
        exists|page: u32, index: int|
            pages.contains_key(page) && 0 <= index < pages[page].len() && #[trigger] pages[page][index]
                == all_rows(pages)[k],
{
    lemma_between_comes_from(pages, u32::MAX + 1, k);
}

proof fn lemma_between_comes_from<T>(pages: Map<u32, Seq<T>>, to: int, k: int)
    requires
        0 <= to <= u32::MAX + 1,
        0 <= k < rows_between(pages, 0, to).len(),
    ensures
        exists|page: u32, index: int|
            pages.contains_key(page) && 0 <= index < pages[page].len() && #[trigger] pages[page][index]
                == rows_between(pages, 0, to)[k],
    decreases to,
{
    if to > 0 {
        let before = rows_between(pages, 0, to - 1);
        let now = rows_between(pages, 0, to);
        if k < before.len() {
            lemma_between_comes_from(pages, to - 1, k);
            assert(now[k] == before[k]);
        } else {
            let page = (to - 1) as u32;
            assert(pages[page][k - before.len()] == now[k]);
        }
    }
}

/// A filter keeps the order of what it leaves in.
proof fn lemma_filter_places(s: Seq<u32>, pred: spec_fn(u32) -> bool, i: int, j: int) -> (at: (
    int,
    int,
))
    requires
        0 <= i < j < s.len(),
        pred(s[i]),
        pred(s[j]),
    ensures
        0 <= at.0 < at.1 < s.filter(pred).len(),
        s.filter(pred)[at.0] == s[i],
        s.filter(pred)[at.1] == s[j],
    decreases s.len(),
{
    reveal(Seq::filter);
    let rest = s.drop_last();
    let kept = rest.filter(pred);
    lemma_filter(rest, pred);
    if j == s.len() - 1 {
        assert(rest[i] == s[i]);
        assert(kept.contains(s[i]));
        let a = choose|a: int| 0 <= a < kept.len() && kept[a] == s[i];
        assert(s.filter(pred) =~= kept.push(s[j]));
        (a, kept.len() as int)
    } else {
        let at = lemma_filter_places(rest, pred, i, j);
        assert(rest[i] == s[i] && rest[j] == s[j]);
        at
    }
}

/// Where a filter leaves what it leaves in.
proof fn lemma_filter_place(s: Seq<u32>, pred: spec_fn(u32) -> bool, i: int) -> (at: int)
    requires
        0 <= i < s.len(),
        pred(s[i]),
    ensures
        0 <= at < s.filter(pred).len(),
        s.filter(pred)[at] == s[i],
{
    lemma_filter(s, pred);
    assert(s.contains(s[i]));
    assert(s.filter(pred).contains(s[i]));
    choose|at: int| 0 <= at < s.filter(pred).len() && s.filter(pred)[at] == s[i]
}

/// A page that is kept keeps the pages behind it in the order of giving up.
proof fn lemma_kept_with_what_follows<T>(
    window: WindowView<T>,
    cut: int,
    read: int,
    x: int,
    y: int,
)
    requires
        window.wf(),
        0 <= read <= window.recent.len(),
        0 <= x < y < window.giving_up(cut, read).len(),
        window.bounded(cut, read).pages.contains_key(window.giving_up(cut, read)[x]),
    ensures
        window.bounded(cut, read).pages.contains_key(window.giving_up(cut, read)[y]),
{
    let order = window.giving_up(cut, read);
    lemma_giving_up(window, cut, read);
    assert(order.contains(order[y]));
    assert(order.to_set().contains(order[y]));
    if window.recent.len() > CACHE_PAGES {
        let gone = order.len() - CACHE_PAGES;
        let first = order.take(gone);
        if x < gone {
            assert(first[x] == order[x]);
            assert(first.to_set().contains(order[x]));
        }
        if first.contains(order[y]) {
            let k = choose|k: int| 0 <= k < first.len() && first[k] == order[y];
            assert(order[k] == order[y]);
        }
    }
}

/// `i` of the order of use goes before `j` of it, once the pages up to `cut`
/// are to stay and only the first `read` have been read.
spec fn goes_first(recent: Seq<u32>, cut: int, read: int, i: int, j: int) -> bool {
    ||| recent[j] < cut <= recent[i]
    ||| cut <= recent[i] && cut <= recent[j] && j < read <= i
    ||| i < j && recent[i] < cut && recent[j] < cut
    ||| i < j && cut <= recent[i] && cut <= recent[j] && (i < read <==> j < read)
}

proof fn lemma_bounded_gives_up<T>(window: WindowView<T>, cut: int, read: int, i: int, j: int)
    requires
        window.wf(),
        0 <= read <= window.recent.len(),
        0 <= i < window.recent.len(),
        0 <= j < window.recent.len(),
        goes_first(window.recent, cut, read, i, j),
        window.bounded(cut, read).pages.contains_key(window.recent[i]),
    ensures
        window.bounded(cut, read).pages.contains_key(window.recent[j]),
{
    let recent = window.recent;
    let used = recent.take(read);
    let fresh = recent.skip(read);
    let unread = fresh.filter(from_page(cut));
    let later = used.filter(from_page(cut));
    let early = recent.filter(before_page(cut));
    let order = window.giving_up(cut, read);
    let (x, y): (int, int) = if recent[i] < cut {
        let at = lemma_filter_places(recent, before_page(cut), i, j);
        (unread.len() + later.len() + at.0, unread.len() + later.len() + at.1)
    } else if i < read {
        assert(used[i] == recent[i]);
        if recent[j] < cut {
            let a = lemma_filter_place(used, from_page(cut), i);
            let b = lemma_filter_place(recent, before_page(cut), j);
            (unread.len() + a, unread.len() + later.len() + b)
        } else {
            assert(used[j] == recent[j]);
            let at = lemma_filter_places(used, from_page(cut), i, j);
            (unread.len() + at.0, unread.len() + at.1)
        }
    } else {
        assert(fresh[i - read] == recent[i]);
        if recent[j] < cut {
            let a = lemma_filter_place(fresh, from_page(cut), i - read);
            let b = lemma_filter_place(recent, before_page(cut), j);
            (a, unread.len() + later.len() + b)
        } else if j < read {
            assert(used[j] == recent[j]);
            let a = lemma_filter_place(fresh, from_page(cut), i - read);
            let b = lemma_filter_place(used, from_page(cut), j);
            (a, unread.len() + b)
        } else {
            assert(fresh[j - read] == recent[j]);
            let at = lemma_filter_places(fresh, from_page(cut), i - read, j - read);
            (at.0, at.1)
        }
    };
    assert(order[x] == recent[i]);
    assert(order[y] == recent[j]);
    lemma_kept_with_what_follows(window, cut, read, x, y);
}

/// The unlisted pages come from the top down.
proof fn lemma_unlisted_from_the_top<T>(
    pages: Map<u32, Seq<T>>,
    recent: Seq<u32>,
    from: int,
    to: int,
    a: int,
    b: int,
)
    requires
        0 <= from <= to <= u32::MAX + 1,
        0 <= a < b < unlisted(pages, recent, from, to).len(),
    ensures
        unlisted(pages, recent, from, to)[a] < unlisted(pages, recent, from, to)[b],
    decreases to - from,
{
    let before = unlisted(pages, recent, from, to - 1);
    lemma_unlisted(pages, recent, from, to - 1);
    if b < before.len() {
        lemma_unlisted_from_the_top(pages, recent, from, to - 1, a, b);
    } else {
        assert(before.contains(before[a]));
    }
}

/// A run that is cut anew stays among the pages there are.
proof fn lemma_run_stays_in_range<T>(
    window: WindowView<T>,
    position: int,
    removed: int,
    inserted: Seq<T>,
)
    requires
        window.wf(),
        window.has_room(inserted.len()),
        0 <= position,
        0 <= removed,
        window.covers(position, removed),
    ensures
        0 <= window.run_at(position).0 <= past_run(
            window.run_at(position).0,
            window.run_rows(position).len() - removed + inserted.len(),
        ) <= u32::MAX + 1,
{
    let (first, last) = window.run_at(position);
    let anchor = anchor_page(window.pages, position)->0;
    lemma_run(window.pages, anchor);
    lemma_full_rows(window.pages, first, last);
    assert(window.pages.contains_key(last as u32));
    assert(first * PAGE_SIZE + (last - first) * PAGE_SIZE == last * PAGE_SIZE) by (nonlinear_arith);
    assert(first * PAGE_SIZE <= anchor * PAGE_SIZE) by (nonlinear_arith)
        requires
            first <= anchor,
    ;
}

/// Of two pages that are new once a run is cut anew, the upper one stands in
/// front.
proof fn lemma_new_pages_from_the_top<T>(
    window: WindowView<T>,
    position: int,
    removed: int,
    inserted: Seq<T>,
    i: int,
    j: int,
)
    requires
        window.wf(),
        window.has_room(inserted.len()),
        0 <= position,
        0 <= removed,
        window.covers(position, removed),
        window.still_held(position, removed, inserted) <= i < window.recut(
            position,
            removed,
            inserted,
        ).recent.len(),
        window.still_held(position, removed, inserted) <= j < window.recut(
            position,
            removed,
            inserted,
        ).recent.len(),
        window.recut(position, removed, inserted).recent[i] < window.recut(
            position,
            removed,
            inserted,
        ).recent[j],
    ensures
        i < j,
{
    let first = window.run_at(position).0;
    let past = past_run(first, window.run_rows(position).len() - removed + inserted.len());
    let pages = window.spliced_pages(position, removed, inserted);
    let listed = window.recent.filter(held_in(pages));
    lemma_run_stays_in_range(window, position, removed, inserted);
    if j < i {
        lemma_unlisted_from_the_top(
            pages,
            listed,
            first,
            past,
            j - listed.len(),
            i - listed.len(),
        );
    }
}

/// Where in the order of use a page stands once a run is cut anew: one held
/// before in front of those that are new.
proof fn lemma_place_after_recut<T>(
    window: WindowView<T>,
    position: int,
    removed: int,
    inserted: Seq<T>,
    page: u32,
) -> (at: int)
    requires
        window.wf(),
        window.has_room(inserted.len()),
        0 <= position,
        0 <= removed,
        window.covers(position, removed),
        window.spliced_pages(position, removed, inserted).contains_key(page),
    ensures
        0 <= at < window.recut(position, removed, inserted).recent.len(),
        window.recut(position, removed, inserted).recent[at] == page,
        at < window.still_held(position, removed, inserted) <==> window.pages.contains_key(page),
{
    let after = window.recut(position, removed, inserted);
    let pages = window.spliced_pages(position, removed, inserted);
    let listed = window.recent.filter(held_in(pages));
    lemma_recut_wf(window, position, removed, inserted);
    lemma_filter(window.recent, held_in(pages));
    assert(window.recent.to_set().contains(page) == window.pages.dom().contains(page));
    assert(after.recent.to_set().contains(page) == after.pages.dom().contains(page));
    if window.pages.contains_key(page) {
        assert(listed.contains(page));
        let at = choose|at: int| 0 <= at < listed.len() && listed[at] == page;
        assert(after.recent[at] == page);
        at
    } else {
        let at = choose|at: int| 0 <= at < after.recent.len() && after.recent[at] == page;
        if at < listed.len() {
            assert(listed[at] == page);
            assert(listed.contains(page));
        }
        at
    }
}

/// What a splice gives up when it leaves more pages than may be held: the
/// pages past the rows put in before any page those rows reach up to; past
/// them, the pages that are new before those that were held; of the pages that
/// were held, the ones used longest ago; and of those that are new, the upper
/// ones. A page is kept only if every page that is to outlast it is.
pub proof fn lemma_what_a_splice_gives_up<T>(
    window: WindowView<T>,
    position: int,
    removed: int,
    inserted: Seq<T>,
    p: u32,
    q: u32,
)
    requires
        window.wf(),
        window.has_room(inserted.len()),
        0 <= position,
        0 <= removed,
        window.covers(position, removed),
        window.spliced_pages(position, removed, inserted).contains_key(p),
        window.spliced_pages(position, removed, inserted).contains_key(q),
        window.spliced(position, removed, inserted).pages.contains_key(p),
        ({
            let end = position + inserted.len();
            let past_p = p * 50 >= end;
            let past_q = q * 50 >= end;
            ||| past_p && !past_q
            ||| past_p && past_q && !window.pages.contains_key(p) && window.pages.contains_key(q)
            ||| !past_p && !past_q && window.pages.contains_key(p) && !window.pages.contains_key(q)
            ||| past_p == past_q && !window.pages.contains_key(p) && !window.pages.contains_key(q) && p
                < q
            ||| past_p == past_q && exists|a: int, b: int|
                0 <= a < b < window.recent.len() && #[trigger] window.recent[a] == p
                    && #[trigger] window.recent[b] == q
        }),
    ensures
        window.spliced(position, removed, inserted).pages.contains_key(q),
{
    let end = position + inserted.len();
    let cut = past_rows(end);
    let recut = window.recut(position, removed, inserted);
    let pages = window.spliced_pages(position, removed, inserted);
    let read = window.still_held(position, removed, inserted);
    let listed = window.recent.filter(held_in(pages));
    lemma_recut_wf(window, position, removed, inserted);
    assert(p >= cut <==> p * 50 >= end);
    assert(q >= cut <==> q * 50 >= end);
    if (p >= cut) == (q >= cut) && exists|a: int, b: int|
        0 <= a < b < window.recent.len() && #[trigger] window.recent[a] == p
            && #[trigger] window.recent[b] == q {
        let (a, b) = choose|a: int, b: int|
            0 <= a < b < window.recent.len() && #[trigger] window.recent[a] == p
                && #[trigger] window.recent[b] == q;
        let at = lemma_filter_places(window.recent, held_in(pages), a, b);
        assert(recut.recent[at.0] == p);
        assert(recut.recent[at.1] == q);
        lemma_bounded_gives_up(recut, cut, read, at.0, at.1);
    } else {
        let i = lemma_place_after_recut(window, position, removed, inserted, p);
        let j = lemma_place_after_recut(window, position, removed, inserted, q);
        if !window.pages.contains_key(p) && !window.pages.contains_key(q) && p < q {
            lemma_new_pages_from_the_top(window, position, removed, inserted, i, j);
        }
        lemma_bounded_gives_up(recut, cut, read, i, j);
    }
}

/// A splice keeps as many pages as may be held: all of them while they fit,
/// and else as many as fit.
pub proof fn lemma_splice_keeps_what_fits<T>(
    window: WindowView<T>,
    position: int,
    removed: int,
    inserted: Seq<T>,
)
    requires
        window.wf(),
        window.has_room(inserted.len()),
        0 <= position,
        0 <= removed,
        window.covers(position, removed),
    ensures
        ({
            let pages = window.spliced_pages(position, removed, inserted);
            let after = window.spliced(position, removed, inserted);
            &&& pages.dom().len() <= CACHE_PAGES ==> after.pages == pages
            &&& pages.dom().len() > CACHE_PAGES ==> after.pages.dom().len() == CACHE_PAGES
        }),
{
    let recut = window.recut(position, removed, inserted);
    let cut = past_rows(position + inserted.len());
    let pages = window.spliced_pages(position, removed, inserted);
    let read = window.still_held(position, removed, inserted);
    lemma_recut_wf(window, position, removed, inserted);
    lemma_filter(window.recent, held_in(pages));
    recut.recent.unique_seq_to_set();
    assert(recut.recent.to_set() =~= pages.dom());
    lemma_giving_up(recut, cut, read);
    lemma_bounded(recut, cut, read);
    let after = window.spliced(position, removed, inserted);
    after.recent.unique_seq_to_set();
    assert(after.recent.to_set() =~= after.pages.dom());
}

} // verus!
