//! The paging and generation bookkeeping behind a windowed message list.
//!
//! A window owns the resident rows as well as the bookkeeping, so the bound
//! on what a huge scope materialises is a bound on what is actually held.
//! Nothing here is fallible, blocking or asynchronous, and nothing emits
//! anything: every method that changes something answers with what changed.
use vstd::prelude::*;
use std::collections::HashMap;
use std::ops::Range;
use crate::list::pages::{insert_sorted, lemma_push_contains, PageSet, PageTable};
use crate::list::shape::{ListRow, CACHE_PAGES, PAGE_SIZE};
use crate::list::shape::{all_rows, holds_at, place, rows_between, touched_order, WindowView};
use crate::list::shape::{before_page, held_in, other_than};
use crate::list::shape::{anchor_page, chunks, full_page, past_run, replaced, run_first, run_last, unlisted};
use crate::list::shape::{lemma_rows_upto, lists_pages, rows_listed};
use crate::list::shape::{lemma_full_rows, lemma_run, lemma_recut_wf, lemma_unlisted};
use crate::list::shape::{from_page, lemma_bounded, lemma_giving_up, past_rows};
use crate::list::shape::{closed_up, kept_part, run_after};
use crate::list::shape::{last_with, merged, one_if, same_messages, updated_to};
use crate::list::shape::{lemma_filter, lemma_place, lemma_split, lemma_touched};
use crate::model::{MessageId, RowKind};

verus! {

broadcast use vstd::std_specs::hash::group_hash_axioms;

/// The answer to asking a window for the row at a position.
#[derive(Debug, PartialEq, Eq)]
pub enum Lookup<'a, T> {
    /// The row is here.
    Resident(&'a T),
    /// Not here. Draw a placeholder and issue these requests — the page
    /// itself and, at a boundary, its neighbour — deduplicated against
    /// whatever is already held or already on its way.
    Missing {
        /// Pages to ask the page source for. Never a page already on its way.
        request: Vec<u32>,
    },
}

/// What a page delivery changed.
#[derive(Debug, Default, Clone, PartialEq, Eq)]
pub struct Delivered {
    /// Dropped: a reply from a generation the user has already left, or one
    /// asked for at offsets a splice has since moved. Nothing else on this
    /// value means anything when this is `true`.
    pub stale: bool,
    /// The positions the toolkit must tell its view about, if any rows in
    /// range actually landed.
    pub changed: Option<Range<u32>>,
    /// Pages evicted to stay inside the bound. Informational only.
    pub evicted: Vec<u32>,
    /// Every row landed on top of a row that was already resident, in the
    /// same order and the same number: the same messages, with new contents.
    pub reconciled: bool,
}

/// The paging and generation bookkeeping behind a windowed message list.
pub struct ListWindow<T> {
    total: u32,
    /// Resident pages.
    pages: PageTable<T>,
    /// Page numbers, least recently used first.
    recent: Vec<u32>,
    /// Pages already asked for and not yet delivered.
    pending: PageSet,
    /// Bumped by `reset`. A reply from an older generation is answering a
    /// question nobody is asking any more.
    generation: u64,
    /// Replies to drop when they land, per page.
    discard: HashMap<u32, u32>,
}

impl<T> View for ListWindow<T> {
    type V = WindowView<T>;

    closed spec fn view(&self) -> WindowView<T> {
        WindowView {
            total: self.total,
            pages: self.pages@,
            recent: self.recent@,
            pending: self.pending@,
            generation: self.generation,
            discard: self.discard@,
        }
    }
}

/// The numbers in `list` below `limit`.
fn below(list: &Vec<u32>, limit: u32) -> (out: Vec<u32>)
    ensures
        out@ == list@.filter(before_page(limit as int)),
{
    let mut out: Vec<u32> = Vec::new();
    let mut i: usize = 0;
    proof {
        reveal(Seq::filter);
    }
    while i < list.len()
        invariant
            i <= list@.len(),
            out@ == list@.take(i as int).filter(before_page(limit as int)),
        decreases list@.len() - i,
    {
        proof {
            reveal(Seq::filter);
            assert(list@.take(i + 1).drop_last() =~= list@.take(i as int));
        }
        if list[i] < limit {
            out.push(list[i]);
        }
        i += 1;
    }
    assert(list@.take(list@.len() as int) =~= list@);
    out
}

/// The numbers from `limit` on among those of `list` from `start` to before
/// `end`.
fn from_on(list: &Vec<u32>, start: usize, end: usize, limit: u32) -> (out: Vec<u32>)
    requires
        start <= end <= list@.len(),
    ensures
        out@ == list@.subrange(start as int, end as int).filter(from_page(limit as int)),
{
    let mut out: Vec<u32> = Vec::new();
    let mut i: usize = start;
    proof {
        reveal(Seq::filter);
    }
    while i < end
        invariant
            start <= i <= end <= list@.len(),
            out@ == list@.subrange(start as int, i as int).filter(from_page(limit as int)),
        decreases end - i,
    {
        proof {
            reveal(Seq::filter);
            assert(list@.subrange(start as int, i + 1).drop_last() =~= list@.subrange(
                start as int,
                i as int,
            ));
        }
        if list[i] >= limit {
            out.push(list[i]);
        }
        i += 1;
    }
    out
}

/// `list` without `page`.
fn without(list: &Vec<u32>, page: u32) -> (out: Vec<u32>)
    ensures
        out@ == list@.filter(other_than(page)),
{
    let mut out: Vec<u32> = Vec::new();
    let mut i: usize = 0;
    proof {
        reveal(Seq::filter);
    }
    while i < list.len()
        invariant
            i <= list@.len(),
            out@ == list@.take(i as int).filter(other_than(page)),
        decreases list@.len() - i,
    {
        proof {
            reveal(Seq::filter);
            assert(list@.take(i + 1).drop_last() =~= list@.take(i as int));
        }
        if list[i] != page {
            out.push(list[i]);
        }
        i += 1;
    }
    assert(list@.take(list@.len() as int) =~= list@);
    out
}

/// The numbers in `list` that `table` holds.
fn among<T>(list: &Vec<u32>, table: &PageTable<T>) -> (out: Vec<u32>)
    ensures
        out@ == list@.filter(held_in(table@)),
{
    let mut out: Vec<u32> = Vec::new();
    let mut i: usize = 0;
    proof {
        reveal(Seq::filter);
    }
    while i < list.len()
        invariant
            i <= list@.len(),
            out@ == list@.take(i as int).filter(held_in(table@)),
        decreases list@.len() - i,
    {
        proof {
            reveal(Seq::filter);
            assert(list@.take(i + 1).drop_last() =~= list@.take(i as int));
        }
        if table.contains(list[i]) {
            out.push(list[i]);
        }
        i += 1;
    }
    assert(list@.take(list@.len() as int) =~= list@);
    out
}

/// The position `page` starts at.
fn starts_at(page: u32) -> (out: u64)
    ensures
        out == page * PAGE_SIZE,
{
    assert(page as u64 * PAGE_SIZE as u64 <= u32::MAX as u64 * 50) by (nonlinear_arith)
        requires
            PAGE_SIZE == 50,
    ;
    page as u64 * PAGE_SIZE as u64
}

/// Whether `row` stands for `message`.
fn stands_for<T: ListRow>(row: &T, message: MessageId) -> (out: bool)
    ensures
        out == (row.row_id() == Some(message)),
{
    match row.id() {
        Some(found) => found.0 == message.0,
        None => false,
    }
}

/// Whether both rows stand for the same message.
fn same_message<T: ListRow>(before: &T, now: &T) -> (out: bool)
    ensures
        out == (before.row_id() is Some && before.row_id() == now.row_id()),
{
    match before.id() {
        Some(message) => stands_for(now, message),
        None => false,
    }
}

/// The last of `rows` for `message`.
fn find_last<T: ListRow>(rows: &Vec<T>, message: Option<MessageId>) -> (out: Option<usize>)
    ensures
        match (out, last_with(rows@, message)) {
            (Some(at), Some(k)) => at == k && at < rows@.len(),
            (None, None) => true,
            _ => false,
        },
{
    let sought = match message {
        Some(sought) => sought,
        None => {
            return None;
        },
    };
    let mut end: usize = rows.len();
    assert(rows@.take(rows@.len() as int) =~= rows@);
    while end > 0
        invariant
            end <= rows@.len(),
            message == Some(sought),
            last_with(rows@, message) == last_with(rows@.take(end as int), message),
        decreases end,
    {
        assert(rows@.take(end as int).drop_last() =~= rows@.take(end - 1));
        assert(rows@.take(end as int).last() == rows@[end - 1]);
        if stands_for(&rows[end - 1], sought) {
            return Some(end - 1);
        }
        end -= 1;
    }
    None
}

impl<T> ListWindow<T> {
    /// What every window keeps.
    pub closed spec fn wf(&self) -> bool {
        self@.wf()
    }

    /// A well-formed window's view is well formed.
    pub proof fn lemma_wf(&self)
        requires
            self.wf(),
        ensures
            self@.wf(),
    {
    }
}

impl<T> Default for ListWindow<T> {
    fn default() -> (out: Self)
        ensures
            out.wf(),
            out@ == WindowView::<T>::empty(0, 0),
    {
        let out = ListWindow {
            total: 0,
            pages: PageTable::new(),
            recent: Vec::new(),
            pending: PageSet::new(),
            generation: 0,
            discard: HashMap::new(),
        };
        assert(out@ =~= WindowView::<T>::empty(0, 0));
        assert(out@.recent.to_set() =~= out@.pages.dom());
        out
    }
}

impl<T: ListRow> ListWindow<T> {
    /// An empty window, generation zero.
    pub fn new() -> (out: Self)
        ensures
            out.wf(),
            out@ == WindowView::<T>::empty(0, 0),
    {
        Self::default()
    }

    /// How many rows the current scope has, in total.
    pub fn total(&self) -> (out: u32)
        ensures
            out == self@.total,
    {
        self.total
    }

    /// The generation in force. Stamp this on a request when it is made, and
    /// pass it back to `deliver` when the answer arrives.
    pub fn generation(&self) -> (out: u64)
        ensures
            out == self@.generation,
    {
        self.generation
    }

    /// Reset to a generation the caller already handed out: a list that
    /// keeps showing the scope it is leaving until the new one's first page
    /// lands stamps that page's request with the generation it will be
    /// answered under, and adopts it when the answer arrives.
    pub fn adopt(&mut self, total: u32, generation: u64)
        ensures
            final(self).wf(),
            final(self)@ == WindowView::<T>::empty(total, generation),
    {
        self.pages.clear();
        self.recent = Vec::new();
        self.pending.clear();
        self.discard.clear();
        self.total = total;
        self.generation = generation;
        assert(self@ =~= WindowView::<T>::empty(total, generation));
        assert(self@.recent.to_set() =~= self@.pages.dom());
    }

    /// Point the window at a new scope: a different folder, a different
    /// search, a smart folder replacing a mailbox.
    ///
    /// Empties the cache and bumps the generation — a reply already in
    /// flight is answering a question this scope did not ask. Returns the
    /// new generation, for the caller to stamp on whatever request follows.
    pub fn reset(&mut self, total: u32) -> (out: u64)
        requires
            old(self)@.generation < u64::MAX,
        ensures
            final(self).wf(),
            out == old(self)@.generation + 1,
            final(self)@ == WindowView::<T>::empty(total, out),
    {
        let next: u64 = self.generation + 1;
        self.adopt(total, next);
        next
    }

    /// Move to `generation` keeping every held page: the rows are still
    /// right, but nothing asked for under the old generation may land on
    /// them.
    pub fn renumber(&mut self, generation: u64)
        requires
            old(self).wf(),
        ensures
            final(self).wf(),
            final(self)@ == (WindowView {
                pending: Set::empty(),
                discard: Map::empty(),
                generation,
                ..old(self)@
            }),
    {
        let ghost before = self@;
        self.pending.clear();
        self.discard.clear();
        self.generation = generation;
        assert(self@ =~= (WindowView {
            pending: Set::empty(),
            discard: Map::empty(),
            generation,
            ..before
        }));
    }

    /// Drop everything held and ask again, keeping both the scope and the
    /// generation.
    ///
    /// For when the order itself moved — a resync, a re-sort — and the rows
    /// answering are still answering the same question. Returns the row
    /// count so the caller can report every position as changed.
    pub fn invalidate(&mut self) -> (out: u32)
        ensures
            final(self).wf(),
            out == old(self)@.total,
            final(self)@ == WindowView::<T>::empty(old(self)@.total, old(self)@.generation),
    {
        let total: u32 = self.total;
        let generation: u64 = self.generation;
        self.adopt(total, generation);
        total
    }

    /// Correct the row count without touching what is held, beyond
    /// forgetting what now lies past the end.
    ///
    /// Returns `(position, removed, added)`, or `None` if the total did not
    /// actually change.
    pub fn set_total(&mut self, total: u32) -> (out: Option<(u32, u32, u32)>)
        requires
            old(self).wf(),
        ensures
            final(self).wf(),
            out == (if total == old(self)@.total {
                None
            } else if total > old(self)@.total {
                Some((old(self)@.total, 0u32, (total - old(self)@.total) as u32))
            } else {
                Some((total, (old(self)@.total - total) as u32, 0u32))
            }),
            final(self)@ == (if total >= old(self)@.total {
                WindowView { total, ..old(self)@ }
            } else {
                WindowView { total, ..old(self)@.cut_from(total as int) }
            }),
    {
        let previous: u32 = self.total;
        if previous == total {
            return None;
        }
        self.total = total;
        if total > previous {
            Some((previous, 0, total - previous))
        } else {
            self.forget_from(total);
            Some((total, previous - total, 0))
        }
    }

    /// Forget every row from `position` on, and every page on its way that
    /// starts there or later.
    fn forget_from(&mut self, position: u32)
        requires
            old(self).wf(),
        ensures
            final(self).wf(),
            final(self)@ == old(self)@.cut_from(position as int),
    {
        let ghost before = self@;
        let first_stale: u32 = if position % PAGE_SIZE == 0 {
            position / PAGE_SIZE
        } else {
            position / PAGE_SIZE + 1
        };
        self.pages.cut_at(position);
        self.recent = below(&self.recent, first_stale);
        let _gone = self.pending.split_from(first_stale);
        proof {
            assert(first_stale == (position + PAGE_SIZE - 1) / PAGE_SIZE as int);
            lemma_filter(before.recent, before_page(first_stale as int));
            assert forall|p: u32| self@.recent.contains(p) == self@.pages.dom().contains(p) by {
                assert(before.recent.to_set().contains(p) == before.pages.dom().contains(p));
            }
            assert(self@.recent.to_set() =~= self@.pages.dom());
            assert(self@ =~= before.cut_from(position as int));
        }
    }

    /// New rows landed at the front of the scope.
    ///
    /// Every row shifts down by `count`, which misaligns every held page
    /// against its positions, so the cache is dropped. The generation is
    /// **not** bumped: this is still the same scope, just longer. Returns
    /// whether anything actually happened.
    pub fn inserted_at_top(&mut self, count: u32) -> (out: bool)
        requires
            old(self).wf(),
            old(self)@.total + count <= u32::MAX,
        ensures
            final(self).wf(),
            out == (count > 0),
            final(self)@ == (if count == 0 {
                old(self)@
            } else {
                WindowView {
                    discard: old(self)@.discard,
                    ..WindowView::<T>::empty(
                        (old(self)@.total + count) as u32,
                        old(self)@.generation,
                    )
                }
            }),
    {
        if count == 0 {
            return false;
        }
        let ghost before = self@;
        self.pages.clear();
        self.recent = Vec::new();
        self.pending.clear();
        self.total = self.total + count;
        assert(self@ =~= (WindowView {
            discard: before.discard,
            ..WindowView::<T>::empty((before.total + count) as u32, before.generation)
        }));
        assert(self@.recent.to_set() =~= self@.pages.dom());
        true
    }

    /// Say that the answer for `page` has been taken, without delivering it
    /// here -- a refresh holds its pages until they have all landed, then
    /// applies them as splices. `false` when the answer is one to drop.
    pub fn answered(&mut self, generation: u64, page: u32) -> (out: bool)
        requires
            old(self).wf(),
        ensures
            final(self).wf(),
            out == old(self)@.accepts(generation, page),
            final(self)@ == (if generation != old(self)@.generation {
                old(self)@
            } else {
                old(self)@.settled(page)
            }),
    {
        if generation != self.generation {
            return false;
        }
        self.settle(page)
    }

    /// Give up on a page whose fetch failed, so it can be asked for again.
    ///
    /// A page on its way is not asked for twice, which assumes that every
    /// request is eventually answered one way or the other. This is the
    /// other way. It does not retry by itself: the page simply becomes
    /// askable again. A failure from a scope already left says nothing about
    /// this one, and neither does the failure of a request a splice already
    /// disowned.
    pub fn abandon(&mut self, generation: u64, page: u32)
        requires
            old(self).wf(),
        ensures
            final(self).wf(),
            final(self)@ == (if generation != old(self)@.generation {
                old(self)@
            } else {
                old(self)@.settled(page)
            }),
    {
        if generation != self.generation {
            return;
        }
        let _taken = self.settle(page);
    }

    /// Count one answer for `page` off: a disowned one if any is owed, else
    /// the one on its way.
    fn settle(&mut self, page: u32) -> (out: bool)
        requires
            old(self).wf(),
        ensures
            final(self).wf(),
            out == (old(self)@.owed(page) == 0),
            final(self)@ == old(self)@.settled(page),
    {
        let ghost before = self@;
        let owed: u32 = match self.discard.get(&page) {
            Some(count) => *count,
            None => 0,
        };
        if owed > 0 {
            self.discard.insert(page, owed - 1);
            assert(self@ =~= before.settled(page));
            return false;
        }
        self.pending.remove(page);
        assert(self@ =~= before.settled(page));
        true
    }

    /// A page an event asked for is on its way: remember it, and say whether
    /// that is news.
    pub fn note_pending(&mut self, page: u32) -> (out: bool)
        requires
            old(self).wf(),
        ensures
            final(self).wf(),
            out == !old(self)@.pending.contains(page),
            final(self)@ == (WindowView { pending: old(self)@.pending.insert(page), ..old(self)@ }),
    {
        let ghost before = self@;
        let out = self.pending.insert(page);
        assert(self@ =~= (WindowView { pending: before.pending.insert(page), ..before }));
        out
    }

    /// Whether `page` is on its way, from whichever ask.
    pub fn is_pending(&self, page: u32) -> (out: bool)
        ensures
            out == self@.pending.contains(page),
    {
        self.pending.contains(page)
    }

    /// The message at `position`, but only if its page is already resident.
    pub fn peek(&self, position: u32) -> (out: Option<MessageId>)
        requires
            self.wf(),
        ensures
            out == (match self@.cell(position as int) {
                Some(row) => row.row_id(),
                None => None,
            }),
    {
        if position >= self.total {
            return None;
        }
        let index: usize = (position % PAGE_SIZE) as usize;
        match self.pages.get(position / PAGE_SIZE) {
            Some(rows) => if index < rows.len() {
                rows[index].id()
            } else {
                None
            },
            None => None,
        }
    }

    /// Where `message` is held: page number and row within it.
    fn locate(&self, message: MessageId) -> (out: Option<(u32, usize)>)
        requires
            self.wf(),
        ensures
            match out {
                Some(at) => place(self@.pages, message) == Some((at.0, at.1 as int)) && holds_at(
                    self@.pages,
                    message,
                    at.0,
                    at.1 as int,
                ),
                None => place(self@.pages, message) is None,
            },
    {
        let order = self.pages.numbers();
        let mut slot: usize = 0;
        while slot < order.len()
            invariant
                self.wf(),
                slot <= order@.len(),
                lists_pages(self@.pages, order@),
                forall|s: int, i: int|
                    0 <= s < slot ==> !#[trigger] holds_at(
                        self@.pages,
                        message,
                        order@[s],
                        i,
                    ),
            decreases order@.len() - slot,
        {
            let page: u32 = order[slot];
            let rows = self.pages.rows(page);
            let mut index: usize = 0;
            while index < rows.len()
                invariant
                    self.wf(),
                    slot < order@.len(),
                    page == order@[slot as int],
                    rows@ == self.pages@[page],
                    self.pages@.contains_key(page),
                    index <= rows@.len(),
                    lists_pages(self@.pages, order@),
                    forall|s: int, i: int|
                        0 <= s < slot ==> !#[trigger] holds_at(
                            self@.pages,
                            message,
                            order@[s],
                            i,
                        ),
                    forall|i: int|
                        0 <= i < index ==> !#[trigger] holds_at(self@.pages, message, page, i),
                decreases rows@.len() - index,
            {
                if stands_for(&rows[index], message) {
                    proof {
                        assert(holds_at(self@.pages, message, page, index as int));
                        assert forall|p: u32, i: int| #[trigger]
                            holds_at(self@.pages, message, p, i) implies page < p || (page == p
                            && index <= i) by {
                            assert(self.pages@.contains_key(p));
                            let s = choose|s: int|
                                0 <= s < order@.len() && order@[s] == p;
                            if s < slot {
                                assert(!holds_at(self@.pages, message, order@[s], i));
                            }
                        }
                        lemma_place(self@.pages, message, page, index as int);
                    }
                    return Some((page, index));
                }
                index += 1;
            }
            assert forall|i: int| !#[trigger] holds_at(self@.pages, message, page, i) by {}
            slot += 1;
        }
        assert forall|p: u32, i: int| !#[trigger] holds_at(self@.pages, message, p, i) by {
            if holds_at(self@.pages, message, p, i) {
                assert(self.pages@.contains_key(p));
                let s = choose|s: int|
                    0 <= s < order@.len() && order@[s] == p;
                assert(!holds_at(self@.pages, message, order@[s], i));
            }
        }
        None
    }

    /// Where `message` sits, among the rows currently resident.
    ///
    /// `None` covers both "not in this scope" and "this row not fetched
    /// yet". Of several rows for one message the first is meant.
    pub fn position_of(&self, message: MessageId) -> (out: Option<u32>)
        requires
            self.wf(),
        ensures
            out == self@.position_of(message),
    {
        match self.locate(message) {
            Some(at) => {
                assert(self@.pages.contains_key(at.0));
                Some(at.0 * PAGE_SIZE + at.1 as u32)
            },
            None => None,
        }
    }

    /// The resident row for `message`, if the window still holds one.
    pub fn row_of(&self, message: MessageId) -> (out: Option<&T>)
        requires
            self.wf(),
        ensures
            match (out, place(self@.pages, message)) {
                (Some(row), Some(at)) => self@.pages.contains_key(at.0) && 0 <= at.1
                    < self@.pages[at.0].len() && *row == self@.pages[at.0][at.1]
                    && row.row_id() == Some(message),
                (None, None) => true,
                _ => false,
            },
    {
        match self.locate(message) {
            Some(at) => match self.pages.get(at.0) {
                Some(rows) => Some(&rows[at.1]),
                None => None,
            },
            None => None,
        }
    }

    /// Which resident page holds `message`, if any.
    pub fn page_of(&self, message: MessageId) -> (out: Option<u32>)
        requires
            self.wf(),
        ensures
            out == self@.page_of(message),
    {
        match self.position_of(message) {
            Some(position) => Some(position / PAGE_SIZE),
            None => None,
        }
    }
}

impl<T: ListRow> ListWindow<T> {
    /// Mark `page` as the most recently used.
    fn touch(&mut self, page: u32)
        requires
            old(self).wf(),
            old(self)@.pages.contains_key(page),
        ensures
            final(self).wf(),
            final(self)@ == old(self)@.touched(page),
    {
        let ghost before = self@;
        self.recent = without(&self.recent, page);
        self.recent.push(page);
        proof {
            lemma_touched(before.recent, page);
            assert(self@.recent =~= touched_order(before.recent, page));
            assert forall|p: u32| self@.recent.contains(p) == self@.pages.dom().contains(p) by {
                assert(before.recent.to_set().contains(p) == before.pages.dom().contains(p));
            }
            assert(self@.recent.to_set() =~= self@.pages.dom());
            assert(self@ =~= before.touched(page));
        }
    }

    /// Note `page` in `into` as worth a request, and as on its way — unless
    /// it already is, or starts past the end, or is held. Held means held as
    /// far as row `index` when one is wanted: a page can be resident and
    /// still too short for the position asked of it.
    fn want(&mut self, page: u32, index: Option<usize>, into: &mut Vec<u32>)
        requires
            old(self).wf(),
        ensures
            final(self).wf(),
            final(into)@ == old(into)@ + one_if(
                old(self)@.lacks(
                    page as int,
                    match index {
                        Some(index) => Some(index as int),
                        None => None,
                    },
                ),
                page as int,
            ),
            final(self)@ == (WindowView {
                pending: if old(self)@.lacks(
                    page as int,
                    match index {
                        Some(index) => Some(index as int),
                        None => None,
                    },
                ) {
                    old(self)@.pending.insert(page)
                } else {
                    old(self)@.pending
                },
                ..old(self)@
            }),
    {
        let ghost before = self@;
        let ghost asked = into@;
        if starts_at(page) >= self.total as u64 {
            assert(into@ =~= asked + Seq::<u32>::empty());
            return;
        }
        let resident = match self.pages.get(page) {
            Some(rows) => match index {
                Some(index) => index < rows.len(),
                None => true,
            },
            None => false,
        };
        if resident || self.pending.contains(page) {
            assert(into@ =~= asked + Seq::<u32>::empty());
            return;
        }
        let _new = self.pending.insert(page);
        into.push(page);
        assert(into@ =~= asked + seq![page]);
        assert(self@ =~= (WindowView { pending: before.pending.insert(page), ..before }));
    }

    /// The row at `position`, with the pages to ask for — its own and, since
    /// scrolling at speed must not stall on a page boundary, the page either
    /// side — if it is not resident.
    ///
    /// `None` for a position outside the current total.
    pub fn row_at(&mut self, position: u32) -> (out: Option<Lookup<'_, T>>)
        requires
            old(self).wf(),
        ensures
            final(self).wf(),
            if position >= old(self)@.total {
                out is None && final(self)@ == old(self)@
            } else {
                match old(self)@.cell(position as int) {
                    Some(row) => out == Some(Lookup::<T>::Resident(&row)) && final(self)@ == old(
                        self,
                    )@.touched((position / PAGE_SIZE) as u32),
                    None => {
                        &&& out matches Some(Lookup::Missing { request })
                        &&& request@ == old(self)@.asks_for(position as int)
                        &&& final(self)@ == (WindowView {
                            pending: old(self)@.pending.union(request@.to_set()),
                            ..old(self)@
                        })
                    },
                }
            },
    {
        if position >= self.total {
            return None;
        }
        let page: u32 = position / PAGE_SIZE;
        let index: usize = (position % PAGE_SIZE) as usize;
        let resident = match self.pages.get(page) {
            Some(rows) => index < rows.len(),
            None => false,
        };
        if resident {
            self.touch(page);
            return match self.pages.get(page) {
                Some(rows) => Some(Lookup::Resident(&rows[index])),
                None => None,
            };
        }
        let ghost before = self@;
        let mut request: Vec<u32> = Vec::new();
        self.want(page, Some(index), &mut request);
        let ghost first = request@;
        if page > 0 {
            self.want(page - 1, None, &mut request);
        }
        let ghost second = request@;
        self.want(page + 1, None, &mut request);
        proof {
            let asks = before.asks_for(position as int);
            assert(request@ =~= asks);
            assert forall|p: u32| #[trigger] self@.pending.contains(p) == (before.pending.contains(p) || asks.contains(p)) by {
                if before.lacks(page as int, Some(index as int)) {
                    assert(asks[0] == page);
                }
                if page > 0 && before.lacks(page - 1, None) {
                    assert(second[first.len() as int] == page - 1);
                    assert(asks[first.len() as int] == page - 1);
                }
                if before.lacks(page + 1, None) {
                    assert(asks[second.len() as int] == page + 1);
                }
            }
            assert(self@.pending =~= before.pending.union(request@.to_set()));
            assert(self@ =~= (WindowView {
                pending: before.pending.union(request@.to_set()),
                ..before
            }));
        }
        Some(Lookup::Missing { request })
    }
}

impl<T: ListRow> ListWindow<T> {
    /// Drop the least recently used pages down to the bound, reporting which
    /// ones went.
    fn evict(&mut self) -> (evicted: Vec<u32>)
        requires
            old(self).wf(),
        ensures
            final(self).wf(),
            evicted@ == (if old(self)@.recent.len() > CACHE_PAGES {
                old(self)@.recent.take(old(self)@.recent.len() - CACHE_PAGES)
            } else {
                Seq::empty()
            }),
            final(self)@ == (WindowView {
                pages: old(self)@.pages.remove_keys(evicted@.to_set()),
                recent: old(self)@.recent.skip(evicted@.len() as int),
                ..old(self)@
            }),
    {
        let ghost before = self@;
        let mut evicted: Vec<u32> = Vec::new();
        assert(before.recent.skip(0) =~= before.recent);
        assert(before.pages.remove_keys(evicted@.to_set()) =~= before.pages);
        while self.recent.len() > CACHE_PAGES
            invariant
                before.wf(),
                evicted@.len() + self.recent@.len() == before.recent.len(),
                evicted@ == before.recent.take(evicted@.len() as int),
                evicted@.len() > 0 ==> self.recent@.len() >= CACHE_PAGES,
                self@ == (WindowView {
                    pages: before.pages.remove_keys(evicted@.to_set()),
                    recent: before.recent.skip(evicted@.len() as int),
                    ..before
                }),
            decreases self.recent@.len(),
        {
            let ghost gone = evicted@;
            let oldest: u32 = self.recent.remove(0);
            let _rows = self.pages.take(oldest);
            evicted.push(oldest);
            proof {
                assert(oldest == before.recent[gone.len() as int]);
                assert forall|p: u32| #[trigger] evicted@.to_set().contains(p) == (gone.to_set().contains(p) || p == oldest) by {
                    lemma_push_contains(gone, oldest, p);
                }
                assert(self@.pages =~= before.pages.remove_keys(evicted@.to_set()));
                assert(self@.recent =~= before.recent.skip(evicted@.len() as int));
                assert(self@ =~= (WindowView {
                    pages: before.pages.remove_keys(evicted@.to_set()),
                    recent: before.recent.skip(evicted@.len() as int),
                    ..before
                }));
            }
        }
        proof {
            assert forall|p: u32| self@.recent.contains(p) == self@.pages.dom().contains(p) by {
                lemma_split(before.recent, evicted@.len() as int, p);
                assert(before.recent.to_set().contains(p) == before.pages.dom().contains(p));
            }
            assert(self@.recent.to_set() =~= self@.pages.dom());
        }
        evicted
    }

    /// Come down to the bound on pages, giving up those from `cut` on first,
    /// and of those the ones behind the first `read` of the order of use.
    fn bound(&mut self, cut: u32, read: usize)
        requires
            old(self).wf(),
            read <= old(self)@.recent.len(),
        ensures
            final(self).wf(),
            final(self)@ == old(self)@.bounded(cut as int, read as int),
    {
        if self.recent.len() <= CACHE_PAGES {
            return;
        }
        let ghost before = self@;
        let mut order = from_on(&self.recent, read, self.recent.len(), cut);
        let mut used = from_on(&self.recent, 0, read, cut);
        let mut early = below(&self.recent, cut);
        order.append(&mut used);
        order.append(&mut early);
        proof {
            lemma_giving_up(before, cut as int, read as int);
            assert(before.recent.subrange(0, read as int) =~= before.recent.take(read as int));
            assert(before.recent.subrange(read as int, before.recent.len() as int)
                =~= before.recent.skip(read as int));
            assert(order@ =~= before.giving_up(cut as int, read as int));
        }
        self.recent = order;
        let _gone = self.evict();
        assert(self@ =~= before.bounded(cut as int, read as int));
    }

    /// Accept a page of rows delivered for `generation`.
    ///
    /// Rows already resident for the same message are reconciled rather than
    /// replaced outright, so a redelivered page does not invalidate anything
    /// holding onto them.
    pub fn deliver(&mut self, generation: u64, page: u32, rows: Vec<T>) -> (out: Delivered)
        requires
            old(self).wf(),
            old(self)@.accepts(generation, page) ==> page * PAGE_SIZE + rows@.len() <= u32::MAX,
        ensures
            final(self).wf(),
            out.stale == !old(self)@.accepts(generation, page),
            out.stale ==> out.changed is None && out.evicted@.len() == 0 && !out.reconciled
                && final(self)@ == (if generation == old(self)@.generation {
                old(self)@.settled(page)
            } else {
                old(self)@
            }),
            !out.stale ==> exists|items: Seq<T>|
                {
                    &&& #[trigger] merged(old(self)@.rows_of(page), rows@, items)
                    &&& final(self)@ == old(self)@.delivered(page, items)
                    &&& out.reconciled == same_messages(old(self)@.rows_of(page), items)
                },
            !out.stale ==> out.evicted@ == old(self)@.evicted_by(page),
            !out.stale ==> match (out.changed, old(self)@.span_of(page, rows@.len())) {
                (Some(range), Some(span)) => range.start == span.0 && range.end == span.1,
                (None, None) => true,
                _ => false,
            },
    {
        let ghost before = self@;
        if generation != self.generation {
            return Delivered { stale: true, changed: None, evicted: Vec::new(), reconciled: false };
        }
        if !self.settle(page) {
            return Delivered { stale: true, changed: None, evicted: Vec::new(), reconciled: false };
        }
        let previous = match self.pages.take(page) {
            Some(previous) => previous,
            None => Vec::new(),
        };
        let count: u32 = rows.len() as u32;
        let ghost incoming = rows@;
        assert(previous@ =~= before.rows_of(page));
        let mut items: Vec<T> = Vec::new();
        let mut same = previous.len() == rows.len();
        for row in it: rows
            invariant
                it.seq() == incoming,
                items@.len() == it.index(),
                same ==> previous@.len() == incoming.len(),
                same == (previous@.len() == incoming.len() && forall|i: int|
                    0 <= i < it.index() ==> (#[trigger] previous@[i]).row_id() is Some
                        && previous@[i].row_id() == items@[i].row_id()),
                forall|i: int|
                    0 <= i < it.index() ==> match last_with(
                        previous@,
                        (#[trigger] incoming[i]).row_id(),
                    ) {
                        Some(k) => call_ensures(T::reconcile, (&previous@[k], incoming[i]), items@[i]),
                        None => items@[i] == incoming[i],
                    },
        {
            let index: usize = items.len();
            let found = find_last(&previous, row.id());
            let item = match found {
                Some(k) => T::reconcile(&previous[k], row),
                None => row,
            };
            if same && index < previous.len() {
                same = same_message(&previous[index], &item);
            }
            items.push(item);
        }
        let ghost merged_items = items@;
        self.pages.insert(page, items);
        self.recent = without(&self.recent, page);
        self.recent.push(page);
        proof {
            lemma_touched(before.recent, page);
            assert(self@.recent =~= touched_order(before.recent, page));
            assert(self@.pages =~= before.pages.insert(page, merged_items));
            assert forall|p: u32| self@.recent.contains(p) == self@.pages.dom().contains(p) by {
                assert(before.recent.to_set().contains(p) == before.pages.dom().contains(p));
            }
            assert(self@.recent.to_set() =~= self@.pages.dom());
        }
        let evicted = self.evict();
        // The positions did not move; what they answer with did.
        let start: u32 = page * PAGE_SIZE;
        let left: u32 = self.total.saturating_sub(start);
        let span: u32 = if count < left {
            count
        } else {
            left
        };
        let changed = if span > 0 {
            Some(start..start + span)
        } else {
            None
        };
        proof {
            assert(merged(before.rows_of(page), incoming, merged_items));
            assert(self@ =~= before.delivered(page, merged_items));
        }
        Delivered { stale: false, changed, evicted, reconciled: same }
    }

    /// Update one row in place — a flag, read state, a label — without
    /// touching its position or its page's eviction standing.
    ///
    /// Reconciled the same as a redelivered page, so the row keeps its
    /// identity. Returns the row's position if it was resident; a row that
    /// is not on screen needs no update, because its page is read fresh when
    /// it next is.
    pub fn update(&mut self, incoming: T) -> (out: Option<u32>)
        requires
            old(self).wf(),
        ensures
            final(self).wf(),
            out == (match incoming.row_id() {
                Some(message) => old(self)@.position_of(message),
                None => None,
            }),
            out is None ==> final(self)@ == old(self)@,
            out is Some ==> exists|updated: T| #[trigger]
                updated_to(old(self)@, incoming, updated, final(self)@),
    {
        let ghost before = self@;
        let message = match incoming.id() {
            Some(message) => message,
            None => {
                return None;
            },
        };
        let (page, index) = match self.locate(message) {
            Some(at) => at,
            None => {
                return None;
            },
        };
        let mut rows = match self.pages.take(page) {
            Some(rows) => rows,
            None => {
                return None;
            },
        };
        let updated = T::reconcile(&rows[index], incoming);
        let ghost kept = updated;
        rows.set(index, updated);
        let ghost changed = rows@;
        self.pages.insert(page, rows);
        proof {
            assert(before.pages.contains_key(page));
            assert(self@.pages =~= before.pages.insert(page, before.pages[page].update(index as int, kept)));
            assert(self@.pages.dom() =~= before.pages.dom());
            assert(self@ =~= (WindowView {
                pages: before.pages.insert(page, before.pages[page].update(index as int, kept)),
                ..before
            }));
            assert(updated_to(before, incoming, kept, self@));
        }
        Some(page * PAGE_SIZE + index as u32)
    }
}

impl<T: ListRow> ListWindow<T> {
    /// Remove the row at `position`, shifting every row after it up by one.
    ///
    /// `false`, with nothing changed, when the row is not resident or a page
    /// from here on is still on its way -- a page asked for at the old
    /// offsets would land one row out -- and the caller reloads instead.
    ///
    /// Each following page that is held gives its first row to the one
    /// before it, for as long as the held pages run on unbroken. The last of
    /// them is then one row short. Past a page nobody holds, every row would
    /// sit one position out, so those pages go.
    pub fn remove_at(&mut self, position: u32) -> (out: bool)
        requires
            old(self).wf(),
        ensures
            final(self).wf(),
            out == old(self)@.can_remove(position as int),
            final(self)@ == (if out {
                old(self)@.without_row(position as int)
            } else {
                old(self)@
            }),
    {
        if position >= self.total {
            return false;
        }
        let ghost before = self@;
        let page: u32 = position / PAGE_SIZE;
        let index: usize = (position % PAGE_SIZE) as usize;
        if self.pending.any_from(page) {
            return false;
        }
        let resident = match self.pages.get(page) {
            Some(rows) => index < rows.len(),
            None => false,
        };
        if !resident {
            return false;
        }
        let mut carrying = match self.pages.take(page) {
            Some(rows) => rows,
            None => {
                return false;
            },
        };
        let _row = carrying.remove(index);
        self.total = self.total - 1;
        let mut last: u32 = page;
        let mut more = true;
        proof {
            assert(before.pages.contains_key(page));
        }
        while more
            invariant
                before.wf(),
                before.pages.contains_key(page),
                index < before.pages[page].len(),
                page <= last,
                before.pages.contains_key(last),
                run_after(before.pages, page) == run_after(before.pages, last),
                more ==> carrying@ == kept_part(before.pages, page, index as int, last),
                more ==> !self.pages@.contains_key(last),
                !more ==> run_after(before.pages, page) == last,
                forall|p: u32|
                    page < p <= last ==> #[trigger] before.pages.contains_key(p)
                        && before.pages[p].len() > 0,
                forall|p: u32| p < last ==> #[trigger] self.pages@.contains_key(p) == before.pages.contains_key(p),
                forall|p: u32| p < page && before.pages.contains_key(p) ==> #[trigger] self.pages@[p] == before.pages[p],
                forall|p: u32| page <= p < last ==> self.pages@.contains_key(p) && p < u32::MAX && #[trigger] self.pages@[p] == kept_part(before.pages, page, index as int, p).push(before.pages[(p + 1) as u32][0]),
                !more ==> self.pages@.contains_key(last) && self.pages@[last] == kept_part(before.pages, page, index as int, last),
                forall|p: u32| p > last && before.pages.contains_key(p) ==> #[trigger] self.pages@.contains_key(p) && self.pages@[p] == before.pages[p],
                forall|p: u32| p > last && #[trigger] self.pages@.contains_key(p) ==> before.pages.contains_key(p),
                self@ == (WindowView { pages: self.pages@, total: (before.total - 1) as u32, ..before }),
            decreases
                u32::MAX - last,
                if more {
                    1int
                } else {
                    0int
                },
        {
            assert(last * PAGE_SIZE + before.pages[last].len() <= u32::MAX);
            let ghost held = self.pages@;
            let ghost here = last;
            let follows = if carrying.len() + 1 == PAGE_SIZE as usize {
                self.pages.take(last + 1)
            } else {
                None
            };
            match follows {
                Some(mut next) => {
                    if next.len() == 0 {
                        self.pages.insert(last + 1, next);
                        self.pages.insert(last, carrying);
                        carrying = Vec::new();
                        more = false;
                    } else {
                        let carried = next.remove(0);
                        carrying.push(carried);
                        assert(carrying@ =~= kept_part(before.pages, page, index as int, last).push(
                            before.pages[(last + 1) as u32][0],
                        ));
                        self.pages.insert(last, carrying);
                        carrying = next;
                        last = last + 1;
                        assert(carrying@ =~= before.pages[last].skip(1));
                    }
                },
                None => {
                    self.pages.insert(last, carrying);
                    carrying = Vec::new();
                    more = false;
                },
            }
            proof {
                assert forall|p: u32| p > last && before.pages.contains_key(p) implies #[trigger] self.pages@.contains_key(p)
                    && self.pages@[p] == before.pages[p] by {
                    assert(held.contains_key(p));
                    assert(p > here);
                }
                assert forall|p: u32| p > last && #[trigger] self.pages@.contains_key(p) implies before.pages.contains_key(p) by {
                    assert(held.contains_key(p));
                }
            }
            assert(self@ =~= (WindowView { pages: self.pages@, total: (before.total - 1) as u32, ..before }));
        }
        proof {
            assert(last * PAGE_SIZE + before.pages[last].len() <= u32::MAX);
        }
        self.pages.keep_below(last + 1);
        self.recent = below(&self.recent, last + 1);
        proof {
            lemma_filter(before.recent, before_page(last + 1));
            assert(self@.pages =~= closed_up(before.pages, page, index as int));
            assert forall|p: u32| self@.recent.contains(p) == self@.pages.dom().contains(p) by {
                assert(before.recent.to_set().contains(p) == before.pages.dom().contains(p));
            }
            assert(self@.recent.to_set() =~= self@.pages.dom());
            assert forall|p: u32| #[trigger] self@.pages.contains_key(p) implies p * PAGE_SIZE + self@.pages[p].len() <= u32::MAX by {
                assert(before.pages.contains_key(p));
            }
            assert(self@ =~= before.without_row(position as int));
        }
        true
    }
}

/// Put `rows` into `table` as pages from `first` on, the last of them short
/// if it has to be.
fn rechunk<T>(table: &mut PageTable<T>, first: u32, rows: Vec<T>)
    requires
        first * PAGE_SIZE + rows@.len() <= u32::MAX,
    ensures
        final(table)@ == old(table)@.union_prefer_right(chunks(first as int, rows@)),
{
    let ghost base = table@;
    let ghost all = rows@;
    let mut page: u32 = first;
    let mut filling: Vec<T> = Vec::new();
    proof {
        assert(base.union_prefer_right(chunks(first as int, all.take(0))) =~= base);
    }
    for row in it: rows
        invariant
            it.seq() == all,
            first <= page,
            first * PAGE_SIZE + all.len() <= u32::MAX,
            (page - first) * PAGE_SIZE + filling@.len() == it.index(),
            filling@.len() < PAGE_SIZE,
            it.index() <= all.len(),
            filling@ == all.subrange((page - first) * PAGE_SIZE, it.index() as int),
            table@ == base.union_prefer_right(
                chunks(first as int, all.take((page - first) * PAGE_SIZE)),
            ),
    {
        let ghost from = (page - first) * PAGE_SIZE;
        let ghost here = page;
        assert(row == all[it.index() as int]);
        filling.push(row);
        assert(filling@ =~= all.subrange(from, it.index() + 1));
        if filling.len() == PAGE_SIZE as usize {
            proof {
                lemma_next_chunk(base, first as int, all, page as int);
                assert(page - first < 85_899_346) by (nonlinear_arith)
                    requires
                        (page - first) * 50 <= u32::MAX,
                ;
                assert(first < 85_899_346) by (nonlinear_arith)
                    requires
                        first * 50 <= u32::MAX,
                ;
            }
            table.insert(page, filling);
            page = page + 1;
            filling = Vec::new();
            proof {
                assert((here + 1 - first) * PAGE_SIZE == from + PAGE_SIZE) by (nonlinear_arith)
                    requires
                        from == (here - first) * PAGE_SIZE,
                ;
                assert(filling@ =~= all.subrange(from + PAGE_SIZE, it.index() + 1));
            }
        }
    }
    if filling.len() > 0 {
        proof {
            lemma_next_chunk(base, first as int, all, page as int);
            assert(all.take(all.len() as int) =~= all);
        }
        table.insert(page, filling);
    } else {
        proof {
            assert(all.take((page - first) * PAGE_SIZE) =~= all);
        }
    }
}

/// Cutting one more page off `rows` adds exactly that page.
proof fn lemma_next_chunk<T>(base: Map<u32, Seq<T>>, first: int, rows: Seq<T>, page: int)
    requires
        0 <= first <= page <= u32::MAX,
        (page - first) * PAGE_SIZE < rows.len(),
    ensures
        ({
            let from = (page - first) * PAGE_SIZE;
            let to = if from + PAGE_SIZE < rows.len() {
                from + PAGE_SIZE
            } else {
                rows.len() as int
            };
            base.union_prefer_right(chunks(first, rows.take(to))) == base.union_prefer_right(
                chunks(first, rows.take(from)),
            ).insert(page as u32, rows.subrange(from, to))
        }),
{
    let from = (page - first) * PAGE_SIZE;
    let to = if from + PAGE_SIZE < rows.len() {
        from + PAGE_SIZE
    } else {
        rows.len() as int
    };
    let more = chunks(first, rows.take(to));
    let less = chunks(first, rows.take(from));
    assert forall|p: u32| #[trigger] more.contains_key(p) == (less.contains_key(p) || p == page) by {
        assert(first <= p && p < page ==> (p - first) * PAGE_SIZE + PAGE_SIZE <= from) by (nonlinear_arith)
            requires
                from == (page - first) * PAGE_SIZE,
        ;
        assert(p > page ==> (p - first) * PAGE_SIZE >= from + PAGE_SIZE) by (nonlinear_arith)
            requires
                from == (page - first) * PAGE_SIZE,
        ;
    }
    assert forall|p: u32| #[trigger] less.contains_key(p) implies more[p] == less[p] by {
        assert(p < page ==> (p - first) * PAGE_SIZE + PAGE_SIZE <= from) by (nonlinear_arith)
            requires
                from == (page - first) * PAGE_SIZE,
        ;
        assert(p >= page ==> (p - first) * PAGE_SIZE >= from) by (nonlinear_arith)
            requires
                from == (page - first) * PAGE_SIZE,
        ;
        assert(more[p] =~= less[p]);
    }
    assert(more.contains_key(page as u32));
    assert(more[page as u32] =~= rows.subrange(from, to));
    assert(base.union_prefer_right(more) =~= base.union_prefer_right(less).insert(
        page as u32,
        rows.subrange(from, to),
    ));
}

impl<T: ListRow> ListWindow<T> {
    /// Whether `page` is held, and full.
    fn full(&self, page: u32) -> (out: bool)
        requires
            self.wf(),
        ensures
            out == full_page(self@.pages, page as int),
    {
        match self.pages.get(page) {
            Some(rows) => rows.len() == PAGE_SIZE as usize,
            None => false,
        }
    }

    /// The run of held pages a change at `position` belongs to.
    fn find_run(&self, position: u32) -> (out: Option<(u32, u32)>)
        requires
            self.wf(),
        ensures
            match out {
                Some(run) => anchor_page(self@.pages, position as int) is Some && self@.run_at(
                    position as int,
                ) == (run.0 as int, run.1 as int) && run.0 <= run.1 && self@.pages.contains_key(
                    run.1,
                ) && run.0 * PAGE_SIZE <= position && forall|p: int|
                    run.0 <= p < run.1 ==> #[trigger] full_page(self@.pages, p),
                None => anchor_page(self@.pages, position as int) is None,
            },
    {
        let page: u32 = position / PAGE_SIZE;
        let index: usize = (position % PAGE_SIZE) as usize;
        let reaches = match self.pages.get(page) {
            Some(rows) => index <= rows.len(),
            None => false,
        };
        let anchor: u32 = if reaches {
            page
        } else if index == 0 && page > 0 && self.full(page - 1) {
            page - 1
        } else {
            return None;
        };
        proof {
            lemma_run(self@.pages, anchor as int);
        }
        let mut first: u32 = anchor;
        while first > 0 && self.full(first - 1)
            invariant
                self.wf(),
                first <= anchor,
                run_first(self@.pages, anchor as int) == run_first(self@.pages, first as int),
            decreases first,
        {
            first -= 1;
        }
        let mut last: u32 = anchor;
        while last < u32::MAX && self.full(last) && self.pages.contains(last + 1)
            invariant
                self.wf(),
                anchor <= last,
                run_last(self@.pages, anchor as int) == run_last(self@.pages, last as int),
            decreases u32::MAX - last,
        {
            last += 1;
        }
        Some((first, last))
    }

    /// Take the run from `first` to `last` out, handing back its rows.
    fn take_run(&mut self, first: u32, last: u32) -> (rows: Vec<T>)
        requires
            old(self).wf(),
            first <= last < u32::MAX,
        ensures
            final(self)@ == (WindowView {
                pages: old(self)@.pages.remove_keys(Set::new(|p: u32| first <= p <= last)),
                ..old(self)@
            }),
            rows@ == rows_between(old(self)@.pages, first as int, last + 1),
    {
        let ghost before = self@;
        let mut rows: Vec<T> = Vec::new();
        let mut page: u32 = first;
        assert(before.pages.remove_keys(Set::new(|p: u32| first <= p < page)) =~= before.pages);
        while page <= last
            invariant
                first <= page <= last + 1,
                last < u32::MAX,
                rows@ == rows_between(before.pages, first as int, page as int),
                self.pages@ == before.pages.remove_keys(Set::new(|p: u32| first <= p < page)),
                self@ == (WindowView { pages: self.pages@, ..before }),
            decreases last + 1 - page,
        {
            match self.pages.take(page) {
                Some(mut held) => {
                    rows.append(&mut held);
                },
                None => {},
            }
            page += 1;
            proof {
                assert(self.pages@ =~= before.pages.remove_keys(
                    Set::new(|p: u32| first <= p < page),
                ));
                assert(self@ =~= (WindowView { pages: self.pages@, ..before }));
            }
        }
        proof {
            assert(self.pages@ =~= before.pages.remove_keys(
                Set::new(|p: u32| first <= p <= last),
            ));
        }
        rows
    }

    /// Disown the reply to each of `moved`.
    fn disown(&mut self, moved: &Vec<u32>)
        requires
            moved@.no_duplicates(),
            forall|i: int| 0 <= i < moved@.len() ==> old(self)@.owed(#[trigger] moved@[i]) < u32::MAX,
        ensures
            final(self).pages == old(self).pages,
            final(self).pending == old(self).pending,
            final(self)@ == (WindowView { discard: final(self)@.discard, ..old(self)@ }),
            final(self)@.discard == Map::new(
                |p: u32| old(self)@.discard.contains_key(p) || moved@.contains(p),
                |p: u32|
                    if moved@.contains(p) {
                        (old(self)@.owed(p) + 1) as u32
                    } else {
                        old(self)@.discard[p]
                    },
            ),
    {
        let ghost before = self@;
        let mut i: usize = 0;
        while i < moved.len()
            invariant
                i <= moved@.len(),
                moved@.no_duplicates(),
                forall|j: int| 0 <= j < moved@.len() ==> before.owed(#[trigger] moved@[j]) < u32::MAX,
                self.pages == old(self).pages,
                self.pending == old(self).pending,
                self@ == (WindowView { discard: self@.discard, ..before }),
                forall|p: u32| #[trigger]
                    self@.discard.contains_key(p) == (before.discard.contains_key(p)
                        || moved@.take(i as int).contains(p)),
                forall|p: u32| #[trigger]
                    self@.discard.contains_key(p) ==> self@.discard[p] == (if moved@.take(
                        i as int,
                    ).contains(p) {
                        before.owed(p) + 1
                    } else {
                        before.discard[p] as nat
                    }),
            decreases moved@.len() - i,
        {
            let page: u32 = moved[i];
            let ghost seen = moved@.take(i as int);
            assert(!seen.contains(page));
            let owed: u32 = match self.discard.get(&page) {
                Some(count) => *count,
                None => 0,
            };
            assert(owed == before.owed(page)) by {
                assert(self@.discard.contains_key(page) == before.discard.contains_key(page));
            }
            self.discard.insert(page, owed + 1);
            i += 1;
            proof {
                assert(moved@.take(i as int) =~= seen.push(page));
                assert forall|p: u32| #[trigger] seen.push(page).contains(p) == (seen.contains(p) || p == page) by {
                    lemma_push_contains(seen, page, p);
                }
                assert(self@ =~= (WindowView { discard: self@.discard, ..before }));
            }
        }
        proof {
            assert(moved@.take(moved@.len() as int) =~= moved@);
            assert(self@.discard =~= Map::new(
                |p: u32| before.discard.contains_key(p) || moved@.contains(p),
                |p: u32|
                    if moved@.contains(p) {
                        (before.owed(p) + 1) as u32
                    } else {
                        before.discard[p]
                    },
            ));
        }
    }

    /// List the held pages from `from` up to but not including `to` that the
    /// order of use does not, as the most recently used.
    fn list_pages(&mut self, from: u32, to: u32)
        requires
            from <= to,
        ensures
            final(self).pages == old(self).pages,
            final(self).pending == old(self).pending,
            final(self)@ == (WindowView {
                recent: old(self)@.recent + unlisted(
                    old(self)@.pages,
                    old(self)@.recent,
                    from as int,
                    to as int,
                ),
                ..old(self)@
            }),
    {
        let ghost before = self@;
        let mut page: u32 = from;
        assert(before.recent + Seq::<u32>::empty() =~= before.recent);
        while page < to
            invariant
                from <= page <= to,
                self.pages == old(self).pages,
                self.pending == old(self).pending,
                self@ == (WindowView {
                    recent: before.recent + unlisted(
                        before.pages,
                        before.recent,
                        from as int,
                        page as int,
                    ),
                    ..before
                }),
                forall|i: int|
                    before.recent.len() <= i < self.recent@.len() ==> #[trigger] self.recent@[i]
                        < page,
            decreases to - page,
        {
            let ghost listed = self.recent@;
            if self.pages.contains(page) && !is_listed(&self.recent, page) {
                self.recent.push(page);
            }
            proof {
                assert(listed.contains(page) == before.recent.contains(page)) by {
                    if before.recent.contains(page) {
                        let i = choose|i: int| 0 <= i < before.recent.len() && before.recent[i] == page;
                        assert(listed[i] == page);
                    }
                    if listed.contains(page) {
                        let i = choose|i: int| 0 <= i < listed.len() && listed[i] == page;
                        if i < before.recent.len() {
                            assert(before.recent[i] == page);
                        }
                    }
                }
                assert(self@.recent =~= before.recent + unlisted(
                    before.pages,
                    before.recent,
                    from as int,
                    page + 1,
                ));
                assert(self@ =~= (WindowView {
                    recent: before.recent + unlisted(
                        before.pages,
                        before.recent,
                        from as int,
                        page + 1,
                    ),
                    ..before
                }));
            }
            page += 1;
        }
    }

    /// Replace `removed` rows at `position` with `inserted`, inside the run
    /// of held pages that holds it -- one splice step, applied.
    ///
    /// A run is held pages back to back, every one of them full but the
    /// last, so its rows are exactly the positions it covers. The run is
    /// re-cut into pages after the change: a row pushed off the end of one
    /// page is the first of the next, and a run that grew past its last full
    /// page ends on a new short one.
    ///
    /// When the run's length changes, everything after it is one row out per
    /// row gained or lost: pages held past it are dropped, and a page asked
    /// for at the old offsets has its answer dropped when it lands -- it is
    /// askable again from now. `false`, with nothing changed, when no held
    /// run covers the change; the end of a run counts, for a stretch that
    /// grew there.
    ///
    /// A run that grew can take more pages than are kept. The window then
    /// comes down to the bound: the pages past the rows just put in go first,
    /// those nobody has read before the others.
    pub fn splice(&mut self, position: u32, removed: u32, inserted: Vec<T>) -> (out: bool)
        requires
            old(self).wf(),
            old(self)@.has_room(inserted@.len()),
        ensures
            final(self).wf(),
            out == old(self)@.covers(position as int, removed as int),
            final(self)@ == (if out {
                old(self)@.spliced(position as int, removed as int, inserted@)
            } else {
                old(self)@
            }),
            out ==> final(self)@.recent.len() <= CACHE_PAGES,
    {
        let ghost before = self@;
        let ghost new_rows = inserted@;
        if position > self.total || removed > self.total - position {
            return false;
        }
        let (first, last) = match self.find_run(position) {
            Some(run) => run,
            None => {
                return false;
            },
        };
        proof {
            assert(before.pages.contains_key(last));
            lemma_full_rows(before.pages, first as int, last as int);
            assert(first * PAGE_SIZE + (last - first) * PAGE_SIZE == last * PAGE_SIZE) by (nonlinear_arith);
        }
        let start: u32 = first * PAGE_SIZE;
        let held: usize = match self.pages.get(last) {
            Some(rows) => rows.len(),
            None => 0,
        };
        let length: u32 = (last * PAGE_SIZE - start) + held as u32;
        let offset: u32 = position - start;
        assert(before.run_rows(position as int).len() == length);
        if offset > length || removed > length - offset {
            return false;
        }
        assert(last < u32::MAX);
        let mut rows = self.take_run(first, last);
        let mut inserted = inserted;
        let added: u32 = inserted.len() as u32;
        let mut tail = rows.split_off(offset as usize);
        let mut rest = tail.split_off(removed as usize);
        rows.append(&mut inserted);
        rows.append(&mut rest);
        let ghost run = before.run_rows(position as int);
        let ghost made = rows@;
        proof {
            assert(made =~= replaced(run, offset as int, removed as int, new_rows));
        }
        let count: u32 = rows.len() as u32;
        let after_run: u32 = if count == 0 {
            first + 1
        } else {
            first + (count - 1) / PAGE_SIZE + 1
        };
        proof {
            assert((count + PAGE_SIZE - 1) / PAGE_SIZE as int == (count - 1) / PAGE_SIZE as int + 1);
            assert(after_run == past_run(first as int, count as int));
        }
        let ghost outside = self.pages@;
        rechunk(&mut self.pages, first, rows);
        self.total = self.total - removed + added;
        if added != removed {
            self.pages.keep_below(after_run);
            let moved = self.pending.split_from(first);
            proof {
                assert forall|i: int| 0 <= i < moved@.len() implies before.owed(#[trigger] moved@[i]) < u32::MAX by {
                    assert(moved@.to_set().contains(moved@[i]));
                }
            }
            self.disown(&moved);
            proof {
                assert forall|p: u32| moved@.contains(p) == (before.pending.contains(p) && p >= first) by {
                    assert(moved@.to_set().contains(p) == moved@.contains(p));
                }
                assert(self@.discard =~= before.disowned_from(first as int));
                assert(self@.pending =~= before.pending.filter(before_page(first as int)));
            }
        }
        let ghost pages = before.spliced_pages(position as int, removed as int, new_rows);
        proof {
            assert(self.pages@ =~= pages);
        }
        self.recent = among(&self.recent, &self.pages);
        let ghost listed = self.recent@;
        let read: usize = self.recent.len();
        self.list_pages(first, after_run);
        proof {
            lemma_filter(before.recent, held_in(pages));
            lemma_unlisted(pages, listed, first as int, after_run as int);
            assert(self@ =~= before.recut(position as int, removed as int, new_rows));
            lemma_recut_wf(before, position as int, removed as int, new_rows);
            lemma_bounded(self@, past_rows(position + added), read as int);
        }
        let end: u64 = position as u64 + added as u64;
        self.bound(((end + PAGE_SIZE as u64 - 1) / PAGE_SIZE as u64) as u32, read);
        true
    }
}

/// Whether `page` is in `list`.
fn is_listed(list: &Vec<u32>, page: u32) -> (out: bool)
    ensures
        out == list@.contains(page),
{
    let mut i: usize = 0;
    while i < list.len()
        invariant
            i <= list@.len(),
            forall|j: int| 0 <= j < i ==> #[trigger] list@[j] != page,
        decreases list@.len() - i,
    {
        if list[i] == page {
            return true;
        }
        i += 1;
    }
    false
}

impl<T: ListRow> ListWindow<T> {
    /// How many rows are resident. The number the memory budget is about.
    pub fn resident_rows(&self) -> (out: usize)
        requires
            self.wf(),
            all_rows(self@.pages).len() <= usize::MAX,
        ensures
            out == all_rows(self@.pages).len(),
    {
        let mut out: usize = 0;
        let mut slot: usize = 0;
        let order = self.pages.numbers();
        proof {
            lemma_rows_upto(self@.pages, order@, 0);
        }
        while slot < order.len()
            invariant
                self.wf(),
                slot <= order@.len(),
                lists_pages(self@.pages, order@),
                all_rows(self@.pages).len() <= usize::MAX,
                out == rows_listed(self@.pages, order@, slot as int).len(),
            decreases order@.len() - slot,
        {
            proof {
                lemma_rows_upto(self@.pages, order@, slot + 1);
            }
            out = out + self.pages.rows(order[slot]).len();
            slot += 1;
        }
        proof {
            lemma_rows_upto(self@.pages, order@, order@.len() as int);
        }
        out
    }

    /// Which pages are resident, lowest first.
    pub fn resident_pages(&self) -> (out: Vec<u32>)
        requires
            self.wf(),
        ensures
            forall|i: int, j: int|
                0 <= i < j < out@.len() ==> #[trigger] out@[i] < #[trigger] out@[j],
            forall|page: u32| #[trigger] out@.contains(page) == self@.pages.contains_key(page),
    {
        let out = self.pages.numbers();
        proof {
            assert forall|page: u32| #[trigger] out@.contains(page) == self@.pages.contains_key(page) by {
                if out@.contains(page) {
                    let i = choose|i: int| 0 <= i < out@.len() && out@[i] == page;
                    assert(self@.pages.contains_key(out@[i]));
                }
            }
        }
        out
    }

    /// Every row held, page by page, asking for nothing.
    ///
    /// For a caller that wants what is already here -- the subset of a
    /// conversation the list holds -- where `row_at` over every position
    /// would ask for every page it does not hold.
    pub fn resident(&self) -> (out: Vec<&T>)
        requires
            self.wf(),
        ensures
            out@.len() == all_rows(self@.pages).len(),
            forall|i: int| 0 <= i < out@.len() ==> *(#[trigger] out@[i]) == all_rows(self@.pages)[i],
    {
        let mut out: Vec<&T> = Vec::new();
        let mut slot: usize = 0;
        let order = self.pages.numbers();
        while slot < order.len()
            invariant
                self.wf(),
                slot <= order@.len(),
                lists_pages(self@.pages, order@),
                out@.len() == rows_listed(self@.pages, order@, slot as int).len(),
                forall|i: int|
                    0 <= i < out@.len() ==> *(#[trigger] out@[i]) == rows_listed(
                        self@.pages,
                        order@,
                        slot as int,
                    )[i],
            decreases order@.len() - slot,
        {
            let rows = self.pages.rows(order[slot]);
            let ghost before = rows_listed(self@.pages, order@, slot as int);
            let mut index: usize = 0;
            while index < rows.len()
                invariant
                    index <= rows@.len(),
                    out@.len() == before.len() + index,
                    forall|i: int|
                        0 <= i < out@.len() ==> *(#[trigger] out@[i]) == (before + rows@)[i],
                decreases rows@.len() - index,
            {
                out.push(&rows[index]);
                index += 1;
            }
            slot += 1;
        }
        proof {
            lemma_rows_upto(self@.pages, order@, order@.len() as int);
        }
        out
    }

    /// Forget every held page `keep` says no to, asking for nothing.
    ///
    /// For a refresh that re-read only the pages somebody is looking at: the
    /// rest are one row out for every row the refresh moved, so they go, and
    /// are read again at their new offsets when they are next wanted.
    pub fn retain_pages<F: Fn(u32) -> bool>(&mut self, keep: F)
        requires
            old(self).wf(),
            forall|page: u32| old(self)@.pages.contains_key(page) ==> #[trigger] keep.requires((page,)),
        ensures
            final(self).wf(),
            forall|page: u32| #[trigger]
                final(self)@.pages.contains_key(page) ==> old(self)@.pages.contains_key(page)
                    && final(self)@.pages[page] == old(self)@.pages[page] && keep.ensures((page,), true),
            forall|page: u32| #[trigger]
                old(self)@.pages.contains_key(page) && !final(self)@.pages.contains_key(page)
                    ==> keep.ensures((page,), false),
            final(self)@ == (WindowView {
                pages: final(self)@.pages,
                recent: old(self)@.recent.filter(held_in(final(self)@.pages)),
                ..old(self)@
            }),
    {
        let ghost before = self@;
        let numbers = self.resident_pages();
        let mut index: usize = 0;
        assert forall|i: int| 0 <= i < numbers@.len() implies self@.pages.contains_key(
            #[trigger] numbers@[i],
        ) by {
            assert(numbers@.contains(numbers@[i]));
        }
        while index < numbers.len()
            invariant
                before.wf(),
                index <= numbers@.len(),
                forall|i: int, j: int|
                    0 <= i < j < numbers@.len() ==> #[trigger] numbers@[i] < #[trigger] numbers@[j],
                forall|page: u32| #[trigger] numbers@.contains(page) == before.pages.contains_key(page),
                forall|page: u32| before.pages.contains_key(page) ==> #[trigger] keep.requires((page,)),
                forall|page: u32| #[trigger]
                    self@.pages.contains_key(page) ==> before.pages.contains_key(page)
                        && self@.pages[page] == before.pages[page],
                forall|i: int|
                    index <= i < numbers@.len() ==> self@.pages.contains_key(#[trigger] numbers@[i]),
                forall|i: int|
                    0 <= i < index ==> keep.ensures(
                        (#[trigger] numbers@[i],),
                        self@.pages.contains_key(numbers@[i]),
                    ),
                self@ == (WindowView { pages: self@.pages, ..before }),
            decreases numbers@.len() - index,
        {
            let page: u32 = numbers[index];
            assert(numbers@.contains(page));
            if !keep(page) {
                let _gone = self.pages.take(page);
            }
            index += 1;
            assert(self@ =~= (WindowView { pages: self@.pages, ..before }));
        }
        self.recent = among(&self.recent, &self.pages);
        proof {
            lemma_filter(before.recent, held_in(self@.pages));
            assert forall|page: u32| self@.recent.contains(page) == self@.pages.dom().contains(page) by {
                assert(before.recent.to_set().contains(page) == before.pages.dom().contains(page));
            }
            assert(self@.recent.to_set() =~= self@.pages.dom());
            assert forall|page: u32| #[trigger] before.pages.contains_key(page) implies keep.ensures((page,), self@.pages.contains_key(page)) by {
                assert(numbers@.contains(page));
                let i = choose|i: int| 0 <= i < numbers@.len() && numbers@[i] == page;
                assert(keep.ensures((numbers@[i],), self@.pages.contains_key(numbers@[i])));
            }
            assert(self@ =~= (WindowView {
                pages: self@.pages,
                recent: before.recent.filter(held_in(self@.pages)),
                ..before
            }));
        }
    }

    /// Every resident page holding any of `messages`, lowest first, each
    /// once.
    ///
    /// For a burst of changes that land together, so the caller issues one
    /// request per affected page rather than one per message.
    pub fn pages_holding(&self, messages: &[MessageId]) -> (out: Vec<u32>)
        requires
            self.wf(),
        ensures
            forall|i: int, j: int|
                0 <= i < j < out@.len() ==> #[trigger] out@[i] < #[trigger] out@[j],
            forall|page: u32| #[trigger]
                out@.contains(page) == exists|k: int|
                    0 <= k < messages@.len() && self@.page_of(#[trigger] messages@[k]) == Some(page),
    {
        let mut out: Vec<u32> = Vec::new();
        let mut index: usize = 0;
        while index < messages.len()
            invariant
                self.wf(),
                index <= messages@.len(),
                forall|i: int, j: int|
                    0 <= i < j < out@.len() ==> #[trigger] out@[i] < #[trigger] out@[j],
                forall|page: u32| #[trigger]
                    out@.contains(page) == exists|k: int|
                        0 <= k < index && self@.page_of(#[trigger] messages@[k]) == Some(page),
            decreases messages@.len() - index,
        {
            let ghost before = out@;
            if let Some(page) = self.page_of(messages[index]) {
                insert_sorted(&mut out, page);
            }
            index += 1;
            assert forall|page: u32| #[trigger]
                out@.contains(page) == exists|k: int|
                    0 <= k < index && self@.page_of(#[trigger] messages@[k]) == Some(page) by {
                if before.contains(page) {
                    let k = choose|k: int| 0 <= k < index - 1 && self@.page_of(#[trigger] messages@[k]) == Some(page);
                    assert(self@.page_of(messages@[k]) == Some(page));
                }
                assert(self@.page_of(messages@[index - 1]) == Some(page) ==> out@.contains(page));
            }
        }
        out
    }

    /// What kind of row `message` has here.
    ///
    /// A row that has been paged out is missing rather than a message: what
    /// it was cannot be checked, so nothing is guessed.
    pub fn row_kind(&self, message: MessageId) -> (out: RowKind)
        requires
            self.wf(),
        ensures
            match place(self@.pages, message) {
                None => out == RowKind::Missing,
                Some(at) => match out {
                    RowKind::Missing => false,
                    RowKind::Message => call_ensures(T::thread, (&self@.pages[at.0][at.1],), None),
                    RowKind::Thread(thread) => call_ensures(
                        T::thread,
                        (&self@.pages[at.0][at.1],),
                        Some(thread),
                    ),
                },
            },
    {
        match self.row_of(message) {
            None => RowKind::Missing,
            Some(row) => match row.thread() {
                Some(thread) => RowKind::Thread(thread),
                None => RowKind::Message,
            },
        }
    }
}

} // verus!
