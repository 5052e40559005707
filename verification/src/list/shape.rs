//! What a window over a list is, as plain mathematics: the rows it holds,
//! page by page, and what each operation makes of them.
use vstd::prelude::*;
use crate::model::{MessageId, ThreadId};

verus! {

/// Rows per page.
///
/// Big enough that a screenful never spans more than two pages at any
/// sensible density, small enough that a page is a few kilobytes on the
/// wire from the store.
pub const PAGE_SIZE: u32 = 50;

/// Pages kept resident. Everything past this is evicted least-recently-used.
///
/// Eight pages is around 400 rows: roughly a screen either side of the
/// viewport at the airiest density, plus slack for a fast flick.
pub const CACHE_PAGES: usize = 8;

/// A row a window can hold.
///
/// The trait is the whole of what the model needs to know about a row: which
/// message it stands for, and what a redelivered copy of it should become.
pub trait ListRow {
    /// The message this row stands for, if it carries one.
    open spec fn row_id(&self) -> Option<MessageId> {
        arbitrary()
    }

    /// The message this row stands for, if it carries one.
    ///
    /// A row not yet loaded (a placeholder, say) answers `None`.
    fn id(&self) -> (out: Option<MessageId>)
        ensures
            out == self.row_id(),
    ;

    /// The conversation this row stands for, when it stands for one.
    ///
    /// `None` means "a message row": a query view, an unthreaded list, or a
    /// row that has not been loaded. That is the default because a plain
    /// value row carries no threading of its own.
    fn thread(&self) -> (out: Option<ThreadId>)
        default_ensures
            out is None,
    {
        None
    }

    /// A redelivered row for the same message.
    ///
    /// The default takes the incoming value, which is right for a plain
    /// value type — nothing in it needs to survive a replacement. A toolkit
    /// whose rows are objects updates the existing one in place and hands
    /// that back, so anything holding the row keeps holding it.
    fn reconcile(_existing: &Self, incoming: Self) -> (out: Self) where Self: Sized
        default_ensures
            out == incoming,
    {
        incoming
    }
}

/// Everything a window knows.
#[verifier::ext_equal]
pub struct WindowView<T> {
    /// How many rows the scope has.
    pub total: u32,
    /// The rows of each held page.
    pub pages: Map<u32, Seq<T>>,
    /// The held pages, least recently used first.
    pub recent: Seq<u32>,
    /// The pages asked for and not yet delivered.
    pub pending: Set<u32>,
    /// The generation in force.
    pub generation: u64,
    /// Replies still to be dropped, per page.
    pub discard: Map<u32, u32>,
}

impl<T> WindowView<T> {
    /// A window over nothing.
    pub open spec fn empty(total: u32, generation: u64) -> Self {
        WindowView {
            total,
            pages: Map::empty(),
            recent: Seq::empty(),
            pending: Set::empty(),
            generation,
            discard: Map::empty(),
        }
    }

    /// What every window keeps: each held page is in the order of use once,
    /// and every row's position is a number.
    pub open spec fn wf(self) -> bool {
        &&& self.recent.no_duplicates()
        &&& self.recent.to_set() == self.pages.dom()
        &&& forall|page: u32| #[trigger]
            self.pages.contains_key(page) ==> page * PAGE_SIZE + self.pages[page].len() <= u32::MAX
    }

    /// How many replies for `page` are still to be dropped.
    pub open spec fn owed(self, page: u32) -> nat {
        if self.discard.contains_key(page) {
            self.discard[page] as nat
        } else {
            0
        }
    }

    /// The held row at `position`.
    pub open spec fn cell(self, position: int) -> Option<T> {
        if 0 <= position < self.total {
            held_row(self.pages, position)
        } else {
            None
        }
    }

    /// Every row from `position` on forgotten, and every page on its way that
    /// starts there or later.
    pub open spec fn cut_from(self, position: int) -> Self {
        let first_stale = (position + PAGE_SIZE - 1) / PAGE_SIZE as int;
        WindowView {
            pages: Map::new(
                |p: u32| self.pages.contains_key(p) && p * PAGE_SIZE < position,
                |p: u32| cut_rows(self.pages[p], p, position),
            ),
            recent: self.recent.filter(before_page(first_stale)),
            pending: self.pending.filter(before_page(first_stale)),
            ..self
        }
    }

    /// A reply for `page` stamped with `generation` is one to take.
    pub open spec fn accepts(self, generation: u64, page: u32) -> bool {
        generation == self.generation && self.owed(page) == 0
    }

    /// One answer for `page` counted off: a disowned one if any is owed,
    /// else the one on its way.
    pub open spec fn settled(self, page: u32) -> Self {
        if self.owed(page) > 0 {
            WindowView {
                discard: self.discard.insert(page, (self.discard[page] - 1) as u32),
                ..self
            }
        } else {
            WindowView { pending: self.pending.remove(page), ..self }
        }
    }

    /// `page` is now the most recently used.
    pub open spec fn touched(self, page: u32) -> Self {
        WindowView { recent: touched_order(self.recent, page), ..self }
    }
}

impl<T: ListRow> WindowView<T> {
    /// The position of the first held row for `message`.
    pub open spec fn position_of(self, message: MessageId) -> Option<u32> {
        match place(self.pages, message) {
            Some(at) => Some((at.0 * PAGE_SIZE + at.1) as u32),
            None => None,
        }
    }

    /// The page that position is on.
    pub open spec fn page_of(self, message: MessageId) -> Option<u32> {
        match self.position_of(message) {
            Some(position) => Some((position / PAGE_SIZE) as u32),
            None => None,
        }
    }
}

/// The rows of `page` that stand before `position`.
pub open spec fn cut_rows<T>(rows: Seq<T>, page: u32, position: int) -> Seq<T> {
    let left = position - page * PAGE_SIZE;
    if rows.len() > left {
        rows.take(left)
    } else {
        rows
    }
}

/// The last row of `rows` for `message`.
pub open spec fn last_with<T: ListRow>(rows: Seq<T>, message: Option<MessageId>) -> Option<int>
    decreases rows.len(),
{
    if rows.len() == 0 || message is None {
        None
    } else if rows.last().row_id() == message {
        Some(rows.len() - 1)
    } else {
        last_with(rows.drop_last(), message)
    }
}

/// `items` is what a page holding `previous` becomes when `rows` is delivered
/// for it: a row for a message already there is reconciled with it, any
/// other is taken as it came.
pub open spec fn merged<T: ListRow>(previous: Seq<T>, rows: Seq<T>, items: Seq<T>) -> bool {
    &&& items.len() == rows.len()
    &&& forall|i: int|
        0 <= i < rows.len() ==> match last_with(previous, (#[trigger] rows[i]).row_id()) {
            Some(k) => call_ensures(T::reconcile, (&previous[k], rows[i]), items[i]),
            None => items[i] == rows[i],
        }
}

/// Both hold the same messages, in the same order.
pub open spec fn same_messages<T: ListRow>(before: Seq<T>, now: Seq<T>) -> bool {
    &&& before.len() == now.len()
    &&& forall|i: int|
        0 <= i < before.len() ==> (#[trigger] before[i]).row_id() is Some && before[i].row_id()
            == now[i].row_id()
}

/// `after` is `before` with the first row for `incoming`'s message replaced
/// by `updated`, the two reconciled.
pub open spec fn updated_to<T: ListRow>(
    before: WindowView<T>,
    incoming: T,
    updated: T,
    after: WindowView<T>,
) -> bool {
    let at = place(before.pages, incoming.row_id()->0)->0;
    &&& call_ensures(T::reconcile, (&before.pages[at.0][at.1], incoming), updated)
    &&& after == (WindowView {
        pages: before.pages.insert(at.0, before.pages[at.0].update(at.1, updated)),
        ..before
    })
}

impl<T> WindowView<T> {
    /// The rows of `page`, none when it is not held.
    pub open spec fn rows_of(self, page: u32) -> Seq<T> {
        if self.pages.contains_key(page) {
            self.pages[page]
        } else {
            Seq::empty()
        }
    }

    /// The pages a delivery of `page` evicts, least recently used first.
    pub open spec fn evicted_by(self, page: u32) -> Seq<u32> {
        let order = touched_order(self.recent, page);
        if order.len() > CACHE_PAGES {
            order.take(order.len() - CACHE_PAGES)
        } else {
            Seq::empty()
        }
    }

    /// The window once `items` is held as `page`.
    pub open spec fn delivered(self, page: u32, items: Seq<T>) -> Self {
        let gone = self.evicted_by(page);
        WindowView {
            pages: self.pages.insert(page, items).remove_keys(gone.to_set()),
            recent: touched_order(self.recent, page).skip(gone.len() as int),
            pending: self.pending.remove(page),
            ..self
        }
    }

    /// The positions in scope that `count` rows delivered as `page` land on.
    pub open spec fn span_of(self, page: u32, count: nat) -> Option<(int, int)> {
        let start = page * PAGE_SIZE;
        let left = self.total - start;
        let span = if left < count {
            left
        } else {
            count as int
        };
        if span > 0 {
            Some((start, start + span))
        } else {
            None
        }
    }

    /// `page` has to be asked for: it starts inside the scope, it is not on
    /// its way, and it is not held as far as row `index` (when one is
    /// wanted).
    pub open spec fn lacks(self, page: int, index: Option<int>) -> bool {
        &&& 0 <= page <= u32::MAX
        &&& page * PAGE_SIZE < self.total
        &&& !self.pending.contains(page as u32)
        &&& match index {
            Some(index) => !(self.pages.contains_key(page as u32) && index
                < self.pages[page as u32].len()),
            None => !self.pages.contains_key(page as u32),
        }
    }

    /// The pages to ask for when the row at `position` is not held: its own,
    /// then the one before, then the one after.
    pub open spec fn asks_for(self, position: int) -> Seq<u32> {
        let page = position / PAGE_SIZE as int;
        one_if(self.lacks(page, Some(position % PAGE_SIZE as int)), page) + one_if(
            self.lacks(page - 1, None),
            page - 1,
        ) + one_if(self.lacks(page + 1, None), page + 1)
    }
}

/// The last of the held pages that run on from `page` without a gap: each but
/// the last is full, so that the first row of the next is the one after its
/// last.
pub open spec fn run_after<T>(pages: Map<u32, Seq<T>>, page: u32) -> u32
    decreases u32::MAX - page,
{
    if page < u32::MAX && pages[page].len() == PAGE_SIZE && pages.contains_key((page + 1) as u32)
        && pages[(page + 1) as u32].len() > 0 {
        run_after(pages, (page + 1) as u32)
    } else {
        page
    }
}

/// What `p` keeps of its own rows when row `index` of `page` is taken out
/// and the rows after it move up.
pub open spec fn kept_part<T>(pages: Map<u32, Seq<T>>, page: u32, index: int, p: u32) -> Seq<T> {
    if p == page {
        pages[p].remove(index)
    } else {
        pages[p].skip(1)
    }
}

/// The held pages once row `index` of `page` is taken out: each page of the
/// run from there on gives its first row to the page before it, and what lies
/// past the run is forgotten.
pub open spec fn closed_up<T>(pages: Map<u32, Seq<T>>, page: u32, index: int) -> Map<u32, Seq<T>> {
    let last = run_after(pages, page);
    Map::new(
        |p: u32| pages.contains_key(p) && p <= last,
        |p: u32|
            if p < page {
                pages[p]
            } else if p < last {
                kept_part(pages, page, index, p).push(pages[(p + 1) as u32][0])
            } else {
                kept_part(pages, page, index, p)
            },
    )
}

impl<T> WindowView<T> {
    /// The row at `position` can be taken out in place: it is held, and no
    /// page from there on is on its way.
    pub open spec fn can_remove(self, position: int) -> bool {
        &&& self.cell(position) is Some
        &&& forall|p: u32| #[trigger] self.pending.contains(p) ==> p < position / PAGE_SIZE as int
    }

    /// The window once the row at `position` is taken out.
    pub open spec fn without_row(self, position: int) -> Self {
        let page = (position / PAGE_SIZE as int) as u32;
        WindowView {
            total: (self.total - 1) as u32,
            pages: closed_up(self.pages, page, position % PAGE_SIZE as int),
            recent: self.recent.filter(before_page(run_after(self.pages, page) + 1)),
            ..self
        }
    }
}

/// `page` is held, and full.
pub open spec fn full_page<T>(pages: Map<u32, Seq<T>>, page: int) -> bool {
    &&& 0 <= page <= u32::MAX
    &&& pages.contains_key(page as u32)
    &&& pages[page as u32].len() == PAGE_SIZE
}

/// The held page a change at `position` belongs to: its own page when it
/// reaches that far, or a full one that ends there.
pub open spec fn anchor_page<T>(pages: Map<u32, Seq<T>>, position: int) -> Option<int> {
    let page = position / PAGE_SIZE as int;
    let index = position % PAGE_SIZE as int;
    if pages.contains_key(page as u32) && index <= pages[page as u32].len() {
        Some(page)
    } else if index == 0 && full_page(pages, page - 1) {
        Some(page - 1)
    } else {
        None
    }
}

/// The first of the full pages that lead up to `page` without a gap.
pub open spec fn run_first<T>(pages: Map<u32, Seq<T>>, page: int) -> int
    decreases page,
{
    if page > 0 && full_page(pages, page - 1) {
        run_first(pages, page - 1)
    } else {
        page
    }
}

/// The last of the held pages that follow `page` without a gap, each but the
/// last full.
pub open spec fn run_last<T>(pages: Map<u32, Seq<T>>, page: int) -> int
    decreases u32::MAX - page,
{
    if full_page(pages, page) && page < u32::MAX && pages.contains_key((page + 1) as u32) {
        run_last(pages, page + 1)
    } else {
        page
    }
}

/// `rows` cut into pages from `first` on, the last of them short if it has
/// to be.
pub open spec fn chunks<T>(first: int, rows: Seq<T>) -> Map<u32, Seq<T>> {
    Map::new(
        |p: u32| first <= p && (p - first) * PAGE_SIZE < rows.len(),
        |p: u32| chunk(first, rows, p as int),
    )
}

/// The rows that page `p` gets when `rows` is cut into pages from `first` on.
pub open spec fn chunk<T>(first: int, rows: Seq<T>, p: int) -> Seq<T> {
    let from = (p - first) * PAGE_SIZE;
    let to = if from + PAGE_SIZE < rows.len() {
        from + PAGE_SIZE
    } else {
        rows.len() as int
    };
    rows.subrange(from, to)
}

/// The page after the last one that `count` rows take from `first` on; a run
/// takes one page at least.
pub open spec fn past_run(first: int, count: int) -> int {
    if count == 0 {
        first + 1
    } else {
        first + (count + PAGE_SIZE - 1) / PAGE_SIZE as int
    }
}

/// The held pages from `from` up to but not including `to` that `recent` does
/// not list, lowest first.
pub open spec fn unlisted<T>(
    pages: Map<u32, Seq<T>>,
    recent: Seq<u32>,
    from: int,
    to: int,
) -> Seq<u32>
    decreases to - from,
{
    if to <= from {
        Seq::empty()
    } else {
        unlisted(pages, recent, from, to - 1) + one_if(
            pages.contains_key((to - 1) as u32) && !recent.contains((to - 1) as u32),
            to - 1,
        )
    }
}

/// `rows` with `removed` rows at `offset` replaced by `inserted`.
pub open spec fn replaced<T>(rows: Seq<T>, offset: int, removed: int, inserted: Seq<T>) -> Seq<T> {
    rows.take(offset) + inserted + rows.skip(offset + removed)
}

impl<T> WindowView<T> {
    /// Where the run that a change at `position` belongs to starts and ends.
    pub open spec fn run_at(self, position: int) -> (int, int) {
        let anchor = anchor_page(self.pages, position)->0;
        (run_first(self.pages, anchor), run_last(self.pages, anchor))
    }

    /// The rows of the run that a change at `position` belongs to.
    pub open spec fn run_rows(self, position: int) -> Seq<T> {
        let (first, last) = self.run_at(position);
        rows_between(self.pages, first, last + 1)
    }

    /// Where in its run `position` is.
    pub open spec fn run_offset(self, position: int) -> int {
        position - self.run_at(position).0 * PAGE_SIZE
    }

    /// `removed` rows at `position` lie inside the scope and inside one run
    /// of held pages.
    pub open spec fn covers(self, position: int, removed: int) -> bool {
        &&& position + removed <= self.total
        &&& anchor_page(self.pages, position) is Some
        &&& self.run_offset(position) + removed <= self.run_rows(position).len()
    }

    /// There are numbers enough for `count` more rows, and for one more
    /// dropped reply per page.
    pub open spec fn has_room(self, count: nat) -> bool {
        &&& self.total + count <= u32::MAX
        &&& forall|p: u32| #[trigger]
            self.pages.contains_key(p) ==> p * PAGE_SIZE + self.pages[p].len() + count <= u32::MAX
        &&& forall|p: u32| #[trigger] self.pending.contains(p) ==> self.owed(p) < u32::MAX
    }

    /// The held pages once `removed` rows at `position` are replaced by
    /// `inserted`: the run is cut into pages anew, and when its length
    /// changed, what lies past it is forgotten.
    pub open spec fn spliced_pages(self, position: int, removed: int, inserted: Seq<T>) -> Map<
        u32,
        Seq<T>,
    > {
        let (first, last) = self.run_at(position);
        let rows = replaced(
            self.run_rows(position),
            self.run_offset(position),
            removed,
            inserted,
        );
        let outside = self.pages.remove_keys(Set::new(|p: u32| first <= p <= last));
        let placed = outside.union_prefer_right(chunks(first, rows));
        if inserted.len() != removed {
            placed.restrict(Set::new(before_page(past_run(first, rows.len() as int))))
        } else {
            placed
        }
    }

    /// The window once `removed` rows at `position` are replaced by
    /// `inserted`, whatever number of pages that takes. When the run's length
    /// changed, the replies to pages asked for from its start on are to be
    /// dropped, and those pages can be asked for again.
    pub open spec fn recut(self, position: int, removed: int, inserted: Seq<T>) -> Self {
        let first = self.run_at(position).0;
        let count = self.run_rows(position).len() - removed + inserted.len();
        let pages = self.spliced_pages(position, removed, inserted);
        let listed = self.recent.filter(held_in(pages));
        let moved = inserted.len() != removed;
        WindowView {
            total: (self.total - removed + inserted.len()) as u32,
            pages,
            recent: listed + unlisted(pages, listed, first, past_run(first, count)),
            pending: if moved {
                self.pending.filter(before_page(first))
            } else {
                self.pending
            },
            discard: if moved {
                self.disowned_from(first)
            } else {
                self.discard
            },
            ..self
        }
    }

    /// The pages held, in the order a splice gives them up in: those from
    /// `cut` on before the others; of those the ones nobody has read yet, which
    /// stand behind the first `read` of the order of use; and else the least
    /// recently used first.
    pub open spec fn giving_up(self, cut: int, read: int) -> Seq<u32> {
        self.recent.skip(read).filter(from_page(cut)) + self.recent.take(read).filter(
            from_page(cut),
        ) + self.recent.filter(before_page(cut))
    }

    /// The window down to the bound on pages.
    pub open spec fn bounded(self, cut: int, read: int) -> Self {
        if self.recent.len() <= CACHE_PAGES {
            self
        } else {
            let order = self.giving_up(cut, read);
            let gone = order.len() - CACHE_PAGES;
            WindowView {
                pages: self.pages.remove_keys(order.take(gone).to_set()),
                recent: order.skip(gone),
                ..self
            }
        }
    }

    /// How many of the pages held once `removed` rows at `position` are
    /// replaced by `inserted` were held before.
    pub open spec fn still_held(self, position: int, removed: int, inserted: Seq<T>) -> int {
        self.recent.filter(held_in(self.spliced_pages(position, removed, inserted))).len() as int
    }

    /// The window once `removed` rows at `position` are replaced by
    /// `inserted`, down to the bound on pages: the pages past the rows put in
    /// go first.
    pub open spec fn spliced(self, position: int, removed: int, inserted: Seq<T>) -> Self {
        self.recut(position, removed, inserted).bounded(
            past_rows(position + inserted.len()),
            self.still_held(position, removed, inserted),
        )
    }

    /// One more reply to drop for each page on its way from `first` on.
    pub open spec fn disowned_from(self, first: int) -> Map<u32, u32> {
        Map::new(
            |p: u32| self.discard.contains_key(p) || (self.pending.contains(p) && p >= first),
            |p: u32|
                if self.pending.contains(p) && p >= first {
                    (self.owed(p) + 1) as u32
                } else {
                    self.discard[p]
                },
        )
    }
}

/// A run is full pages up to its last, which is held too.
pub proof fn lemma_run<T>(pages: Map<u32, Seq<T>>, page: int)
    requires
        0 <= page <= u32::MAX,
        pages.contains_key(page as u32),
    ensures
        0 <= run_first(pages, page) <= page <= run_last(pages, page) <= u32::MAX,
        forall|p: int|
            run_first(pages, page) <= p < run_last(pages, page) ==> #[trigger] full_page(pages, p),
        pages.contains_key(run_last(pages, page) as u32),
{
    lemma_run_first(pages, page);
    lemma_run_last(pages, page);
}

proof fn lemma_run_first<T>(pages: Map<u32, Seq<T>>, page: int)
    requires
        0 <= page <= u32::MAX,
    ensures
        0 <= run_first(pages, page) <= page,
        forall|p: int| run_first(pages, page) <= p < page ==> #[trigger] full_page(pages, p),
    decreases page,
{
    if page > 0 && full_page(pages, page - 1) {
        lemma_run_first(pages, page - 1);
    }
}

proof fn lemma_run_last<T>(pages: Map<u32, Seq<T>>, page: int)
    requires
        0 <= page <= u32::MAX,
        pages.contains_key(page as u32),
    ensures
        page <= run_last(pages, page) <= u32::MAX,
        forall|p: int| page <= p < run_last(pages, page) ==> #[trigger] full_page(pages, p),
        pages.contains_key(run_last(pages, page) as u32),
    decreases u32::MAX - page,
{
    if full_page(pages, page) && page < u32::MAX && pages.contains_key((page + 1) as u32) {
        lemma_run_last(pages, page + 1);
    }
}

/// Full pages back to back hold as many rows as they have places.
pub proof fn lemma_full_rows<T>(pages: Map<u32, Seq<T>>, from: int, to: int)
    requires
        0 <= from <= to <= u32::MAX + 1,
        forall|p: int| from <= p < to ==> #[trigger] full_page(pages, p),
    ensures
        rows_between(pages, from, to).len() == (to - from) * PAGE_SIZE,
    decreases to - from,
{
    if from < to {
        assert(full_page(pages, to - 1));
        lemma_full_rows(pages, from, to - 1);
    }
}

/// `page` alone when `wanted`, else nothing.
pub open spec fn one_if(wanted: bool, page: int) -> Seq<u32> {
    if wanted {
        seq![page as u32]
    } else {
        Seq::empty()
    }
}

/// The row the held pages put at `position`.
pub open spec fn held_row<T>(pages: Map<u32, Seq<T>>, position: int) -> Option<T> {
    let page = (position / PAGE_SIZE as int) as u32;
    let index = position % PAGE_SIZE as int;
    if pages.contains_key(page) && index < pages[page].len() {
        Some(pages[page][index])
    } else {
        None
    }
}

/// Being a page other than `page`.
pub open spec fn other_than(page: u32) -> spec_fn(u32) -> bool {
    |p: u32| p != page
}

/// Being a page below `limit`.
pub open spec fn before_page(limit: int) -> spec_fn(u32) -> bool {
    |p: u32| p < limit
}

/// Being a page from `limit` on.
pub open spec fn from_page(limit: int) -> spec_fn(u32) -> bool {
    |p: u32| p >= limit
}

/// The first page that holds no position before `position`.
pub open spec fn past_rows(position: int) -> int {
    (position + PAGE_SIZE - 1) / PAGE_SIZE as int
}

/// Being one of the pages held.
pub open spec fn held_in<T>(pages: Map<u32, Seq<T>>) -> spec_fn(u32) -> bool {
    |p: u32| pages.contains_key(p)
}

/// `recent` with `page` moved to its end.
pub open spec fn touched_order(recent: Seq<u32>, page: u32) -> Seq<u32> {
    recent.filter(other_than(page)).push(page)
}

/// The rows of the held pages from `from` up to but not including `to`, page
/// by page.
pub open spec fn rows_between<T>(pages: Map<u32, Seq<T>>, from: int, to: int) -> Seq<T>
    decreases to - from,
{
    if to <= from {
        Seq::empty()
    } else {
        let before = rows_between(pages, from, to - 1);
        if 0 <= to - 1 <= u32::MAX && pages.contains_key((to - 1) as u32) {
            before + pages[(to - 1) as u32]
        } else {
            before
        }
    }
}

/// Every held row, page by page.
pub open spec fn all_rows<T>(pages: Map<u32, Seq<T>>) -> Seq<T> {
    rows_between(pages, 0, u32::MAX + 1)
}

/// `message` is held as row `index` of `page`.
pub open spec fn holds_at<T: ListRow>(
    pages: Map<u32, Seq<T>>,
    message: MessageId,
    page: u32,
    index: int,
) -> bool {
    &&& pages.contains_key(page)
    &&& 0 <= index < pages[page].len()
    &&& pages[page][index].row_id() == Some(message)
}

/// `message` is held as row `index` of `page`, and nowhere before that.
pub open spec fn first_at<T: ListRow>(
    pages: Map<u32, Seq<T>>,
    message: MessageId,
    page: u32,
    index: int,
) -> bool {
    &&& holds_at(pages, message, page, index)
    &&& forall|p: u32, i: int| #[trigger]
        holds_at(pages, message, p, i) ==> page < p || (page == p && index <= i)
}

/// Where `message` is held: the first place, lowest page first.
pub open spec fn place<T: ListRow>(pages: Map<u32, Seq<T>>, message: MessageId) -> Option<
    (u32, int),
> {
    if exists|page: u32, index: int| #[trigger] holds_at(pages, message, page, index) {
        Some(choose|at: (u32, int)| #[trigger] first_at(pages, message, at.0, at.1))
    } else {
        None
    }
}

/// A place is the only first place.
pub proof fn lemma_place<T: ListRow>(
    pages: Map<u32, Seq<T>>,
    message: MessageId,
    page: u32,
    index: int,
)
    requires
        first_at(pages, message, page, index),
    ensures
        place(pages, message) == Some((page, index)),
{
    let at = (page, index);
    assert(first_at(pages, message, at.0, at.1));
    let found = choose|at: (u32, int)| #[trigger] first_at(pages, message, at.0, at.1);
    assert(first_at(pages, message, found.0, found.1));
    assert(holds_at(pages, message, found.0, found.1));
}

/// What a filtered sequence holds.
pub proof fn lemma_filter(s: Seq<u32>, pred: spec_fn(u32) -> bool)
    ensures
        s.no_duplicates() ==> s.filter(pred).no_duplicates(),
        s.filter(pred).len() <= s.len(),
        forall|p: u32| #[trigger] s.filter(pred).contains(p) == (s.contains(p) && pred(p)),
    decreases s.len(),
{
    reveal(Seq::filter);
    if s.len() > 0 {
        let rest = s.drop_last();
        lemma_filter(rest, pred);
        let last = s.last();
        assert(s =~= rest.push(last));
        assert forall|p: u32| #[trigger] s.filter(pred).contains(p) == (s.contains(p) && pred(p)) by {
            crate::list::pages::lemma_push_contains(rest, last, p);
            crate::list::pages::lemma_push_contains(rest.filter(pred), last, p);
        }
        if s.no_duplicates() {
            assert(!rest.contains(last)) by {
                if rest.contains(last) {
                    let i = choose|i: int| 0 <= i < rest.len() && rest[i] == last;
                    assert(s[i] == s[s.len() - 1]);
                }
            }
            assert(!rest.filter(pred).contains(last));
            assert(rest.no_duplicates()) by {
                assert forall|i: int, j: int| 0 <= i < rest.len() && 0 <= j < rest.len() && i != j
                    implies rest[i] != rest[j] by {
                    assert(s[i] != s[j]);
                }
            }
        }
    }
}

/// Touching a page moves it to the end and loses nothing.
pub proof fn lemma_touched(recent: Seq<u32>, page: u32)
    requires
        recent.no_duplicates(),
    ensures
        touched_order(recent, page).no_duplicates(),
        touched_order(recent, page).len() <= recent.len() + 1,
        forall|p: u32| #[trigger]
            touched_order(recent, page).contains(p) == (recent.contains(p) || p == page),
{
    let kept = recent.filter(other_than(page));
    lemma_filter(recent, other_than(page));
    assert(!kept.contains(page));
    assert forall|p: u32| #[trigger]
        touched_order(recent, page).contains(p) == (recent.contains(p) || p == page) by {
        crate::list::pages::lemma_push_contains(kept, page, p);
    }
}

/// A sequence without duplicates, cut in two: each value is in one part.
pub proof fn lemma_split(s: Seq<u32>, at: int, p: u32)
    requires
        s.no_duplicates(),
        0 <= at <= s.len(),
    ensures
        s.skip(at).contains(p) == (s.contains(p) && !s.take(at).contains(p)),
        s.skip(at).no_duplicates(),
{
    if s.contains(p) {
        let i = choose|i: int| 0 <= i < s.len() && s[i] == p;
        if i < at {
            assert(s.take(at)[i] == p);
        } else {
            assert(s.skip(at)[i - at] == p);
        }
    }
    if s.skip(at).contains(p) {
        let j = choose|j: int| 0 <= j < s.skip(at).len() && s.skip(at)[j] == p;
        assert(s[j + at] == p);
        if s.take(at).contains(p) {
            let k = choose|k: int| 0 <= k < s.take(at).len() && s.take(at)[k] == p;
            assert(s[k] == p);
        }
    }
}

/// What the unlisted pages are: held, not in the order, each once.
pub proof fn lemma_unlisted<T>(pages: Map<u32, Seq<T>>, recent: Seq<u32>, from: int, to: int)
    requires
        0 <= from <= to <= u32::MAX + 1,
    ensures
        forall|p: u32| #[trigger]
            unlisted(pages, recent, from, to).contains(p) == (from <= p < to && pages.contains_key(
                p,
            ) && !recent.contains(p)),
        unlisted(pages, recent, from, to).no_duplicates(),
    decreases to - from,
{
    if from < to {
        lemma_unlisted(pages, recent, from, to - 1);
        let before = unlisted(pages, recent, from, to - 1);
        let here = (to - 1) as u32;
        let now = unlisted(pages, recent, from, to);
        if pages.contains_key(here) && !recent.contains(here) {
            assert(now =~= before.push(here));
            assert(!before.contains(here));
            assert forall|p: u32| #[trigger] now.contains(p) == (from <= p < to && pages.contains_key(p)
                && !recent.contains(p)) by {
                crate::list::pages::lemma_push_contains(before, here, p);
            }
        } else {
            assert(now =~= before);
        }
    }
}

/// Cutting a run anew keeps the window well formed.
pub proof fn lemma_recut_wf<T>(
    window: WindowView<T>,
    position: int,
    removed: int,
    inserted: Seq<T>,
)
    requires
        window.wf(),
        window.has_room(inserted.len()),
        0 <= position,
        0 <= removed,
        window.covers(position, removed),
    ensures
        window.recut(position, removed, inserted).wf(),
{
    let after = window.recut(position, removed, inserted);
    let (first, last) = window.run_at(position);
    let anchor = anchor_page(window.pages, position)->0;
    lemma_run(window.pages, anchor);
    lemma_full_rows(window.pages, first, last);
    let run = window.run_rows(position);
    let rows = replaced(run, window.run_offset(position), removed, inserted);
    let past = past_run(first, rows.len() as int);
    assert(window.pages.contains_key(last as u32));
    assert(first * PAGE_SIZE + (last - first) * PAGE_SIZE == last * PAGE_SIZE) by (nonlinear_arith);
    assert(0 <= window.run_offset(position)) by {
        assert(first * PAGE_SIZE <= anchor * PAGE_SIZE) by (nonlinear_arith)
            requires
                first <= anchor,
        ;
    }
    assert(rows.len() == run.len() - removed + inserted.len());
    let listed = window.recent.filter(held_in(after.pages));
    let more = unlisted(after.pages, listed, first, past);
    lemma_filter(window.recent, held_in(after.pages));
    assert(past <= u32::MAX + 1);
    lemma_unlisted(after.pages, listed, first, past);
    let made = chunks(first, rows);
    assert forall|p: u32| #[trigger] made.contains_key(p) implies first <= p < past by {
        assert(p - first < (rows.len() + PAGE_SIZE - 1) / PAGE_SIZE as int) by (nonlinear_arith)
            requires
                (p - first) * PAGE_SIZE < rows.len(),
                PAGE_SIZE == 50,
        ;
    }
    assert forall|p: u32| #[trigger] after.recent.contains(p) == after.pages.contains_key(p) by {
        if listed.contains(p) {
            let i = choose|i: int| 0 <= i < listed.len() && listed[i] == p;
            assert(after.recent[i] == p);
        }
        if more.contains(p) {
            let i = choose|i: int| 0 <= i < more.len() && more[i] == p;
            assert(after.recent[listed.len() + i] == p);
        }
        if after.recent.contains(p) {
            let i = choose|i: int| 0 <= i < after.recent.len() && after.recent[i] == p;
            if i < listed.len() {
                assert(listed[i] == p);
            } else {
                assert(more[i - listed.len()] == p);
            }
        }
        if after.pages.contains_key(p) {
            assert(window.recent.to_set().contains(p) == window.pages.dom().contains(p));
            if !window.pages.contains_key(p) {
                assert(made.contains_key(p));
            }
        }
    }
    assert(after.recent.to_set() =~= after.pages.dom());
    assert(after.recent.no_duplicates()) by {
        assert forall|i: int, j: int|
            0 <= i < j < after.recent.len() implies after.recent[i] != after.recent[j] by {
            if j >= listed.len() && i < listed.len() {
                assert(listed.contains(after.recent[i]));
                assert(more.contains(more[j - listed.len()]));
            }
        }
    }
    assert forall|p: u32| #[trigger] after.pages.contains_key(p) implies p * PAGE_SIZE
        + after.pages[p].len() <= u32::MAX by {
        if made.contains_key(p) {
            assert(p * PAGE_SIZE == first * PAGE_SIZE + (p - first) * PAGE_SIZE) by (nonlinear_arith);
        } else {
            assert(window.pages.contains_key(p));
        }
    }
}

proof fn lemma_has_either(a: Seq<u32>, b: Seq<u32>, p: u32)
    ensures
        (a + b).contains(p) == (a.contains(p) || b.contains(p)),
{
    let both = a + b;
    if a.contains(p) {
        let i = choose|i: int| 0 <= i < a.len() && a[i] == p;
        assert(both[i] == p);
    }
    if b.contains(p) {
        let i = choose|i: int| 0 <= i < b.len() && b[i] == p;
        assert(both[a.len() + i] == p);
    }
    if both.contains(p) {
        let i = choose|i: int| 0 <= i < both.len() && both[i] == p;
        if i < a.len() {
            assert(a[i] == p);
        } else {
            assert(b[i - a.len()] == p);
        }
    }
}

proof fn lemma_apart(a: Seq<u32>, b: Seq<u32>)
    requires
        a.no_duplicates(),
        b.no_duplicates(),
        forall|p: u32| #[trigger] a.contains(p) ==> !b.contains(p),
    ensures
        (a + b).no_duplicates(),
{
    let both = a + b;
    assert forall|i: int, j: int| 0 <= i < j < both.len() implies both[i] != both[j] by {
        if i < a.len() <= j {
            assert(a.contains(a[i]));
            assert(b.contains(b[j - a.len()]));
        }
    }
}

/// The order of giving up lists the held pages, each once, and those from
/// `cut` on before the others.
pub proof fn lemma_giving_up<T>(window: WindowView<T>, cut: int, read: int)
    requires
        window.wf(),
        0 <= read <= window.recent.len(),
    ensures
        window.giving_up(cut, read).len() == window.recent.len(),
        window.giving_up(cut, read).no_duplicates(),
        window.giving_up(cut, read).to_set() == window.pages.dom(),
        forall|i: int|
            0 <= i < window.recent.len() - window.recent.filter(before_page(cut)).len()
                ==> #[trigger] window.giving_up(cut, read)[i] >= cut,
{
    let used = window.recent.take(read);
    let fresh = window.recent.skip(read);
    let unread = fresh.filter(from_page(cut));
    let later = used.filter(from_page(cut));
    let early = window.recent.filter(before_page(cut));
    let order = window.giving_up(cut, read);
    lemma_filter(used, from_page(cut));
    lemma_filter(fresh, from_page(cut));
    lemma_filter(window.recent, before_page(cut));
    lemma_split(window.recent, read, 0);
    assert(used.no_duplicates());
    assert forall|p: u32| #[trigger] unread.contains(p) implies !later.contains(p) by {
        lemma_split(window.recent, read, p);
    }
    lemma_apart(unread, later);
    assert forall|p: u32| #[trigger] (unread + later).contains(p) == (window.recent.contains(p) && p
        >= cut) by {
        lemma_has_either(unread, later, p);
        lemma_split(window.recent, read, p);
        if used.contains(p) {
            let i = choose|i: int| 0 <= i < used.len() && used[i] == p;
            assert(window.recent[i] == p);
        }
    }
    lemma_apart(unread + later, early);
    assert forall|p: u32| #[trigger] order.contains(p) == window.pages.contains_key(p) by {
        lemma_has_either(unread + later, early, p);
        assert(window.recent.to_set().contains(p) == window.pages.dom().contains(p));
    }
    assert(order.to_set() =~= window.pages.dom());
    order.unique_seq_to_set();
    window.recent.unique_seq_to_set();
    assert forall|i: int| 0 <= i < window.recent.len() - early.len() implies #[trigger] order[i]
        >= cut by {
        assert((unread + later).contains((unread + later)[i]));
    }
}

/// Coming down to the bound forgets whole pages and changes no other, and no
/// page before `cut` as long as those alone are within the bound.
pub proof fn lemma_bounded<T>(window: WindowView<T>, cut: int, read: int)
    requires
        window.wf(),
        0 <= read <= window.recent.len(),
    ensures
        window.bounded(cut, read).wf(),
        window.bounded(cut, read).recent.len() <= CACHE_PAGES,
        forall|p: u32| #[trigger]
            window.bounded(cut, read).pages.contains_key(p) ==> window.pages.contains_key(p)
                && window.bounded(cut, read).pages[p] == window.pages[p],
        window.recent.filter(before_page(cut)).len() <= CACHE_PAGES ==> forall|p: u32| #[trigger]
            window.pages.contains_key(p) && p < cut ==> window.bounded(
                cut,
                read,
            ).pages.contains_key(p),
{
    if window.recent.len() > CACHE_PAGES {
        let after = window.bounded(cut, read);
        let order = window.giving_up(cut, read);
        let gone = order.len() - CACHE_PAGES;
        lemma_giving_up(window, cut, read);
        assert forall|p: u32| #[trigger] after.recent.contains(p) == after.pages.dom().contains(p) by {
            lemma_split(order, gone, p);
            assert(order.to_set().contains(p) == window.pages.dom().contains(p));
        }
        lemma_split(order, gone, 0);
        assert(after.recent.to_set() =~= after.pages.dom());
        if window.recent.filter(before_page(cut)).len() <= CACHE_PAGES {
            assert forall|p: u32| #[trigger] window.pages.contains_key(p) && p < cut implies after.pages.contains_key(
                p,
            ) by {
                if order.take(gone).contains(p) {
                    let i = choose|i: int| 0 <= i < gone && order.take(gone)[i] == p;
                    assert(order[i] == p);
                }
            }
        }
    }
}

/// `order` lists exactly the held pages, lowest first.
pub open spec fn lists_pages<T>(pages: Map<u32, Seq<T>>, order: Seq<u32>) -> bool {
    &&& forall|i: int, j: int|
        0 <= i < j < order.len() ==> #[trigger] order[i] < #[trigger] order[j]
    &&& forall|i: int| 0 <= i < order.len() ==> pages.contains_key(#[trigger] order[i])
    &&& forall|page: u32| #[trigger] pages.contains_key(page) ==> order.contains(page)
}

/// The rows of the first `n` pages of `order`.
pub open spec fn rows_listed<T>(pages: Map<u32, Seq<T>>, order: Seq<u32>, n: int) -> Seq<T>
    decreases n,
{
    if n <= 0 {
        Seq::empty()
    } else {
        rows_listed(pages, order, n - 1) + pages[order[n - 1]]
    }
}

/// Pages nobody holds add no rows.
proof fn lemma_gap<T>(pages: Map<u32, Seq<T>>, from: int, a: int, b: int)
    requires
        from <= a <= b,
        forall|p: u32| a <= p < b ==> !#[trigger] pages.contains_key(p),
    ensures
        rows_between(pages, from, a) == rows_between(pages, from, b),
    decreases b - a,
{
    if a < b {
        lemma_gap(pages, from, a, b - 1);
        if 0 <= b - 1 <= u32::MAX {
            assert(!pages.contains_key((b - 1) as u32));
        }
    }
}

/// The rows of the first pages of the order are a first part of all rows.
pub proof fn lemma_rows_upto<T>(pages: Map<u32, Seq<T>>, order: Seq<u32>, n: int)
    requires
        lists_pages(pages, order),
        0 <= n <= order.len(),
    ensures
        rows_listed(pages, order, n).len() <= all_rows(pages).len(),
        n == order.len() ==> rows_listed(pages, order, n) == all_rows(pages),
{
    let end = if n < order.len() {
        order[n] as int
    } else {
        u32::MAX + 1
    };
    lemma_rows_before(pages, order, n, end);
    lemma_more_rows(pages, 0, end, u32::MAX + 1);
}

proof fn lemma_rows_before<T>(pages: Map<u32, Seq<T>>, order: Seq<u32>, n: int, end: int)
    requires
        lists_pages(pages, order),
        0 <= n <= order.len(),
        0 <= end <= u32::MAX + 1,
        n > 0 ==> order[n - 1] < end,
        n < order.len() ==> end <= order[n],
    ensures
        rows_listed(pages, order, n) == rows_between(pages, 0, end),
    decreases n,
{
    let start = if n > 0 {
        order[n - 1] + 1
    } else {
        0
    };
    assert forall|p: u32| start <= p < end implies !#[trigger] pages.contains_key(p) by {
        if pages.contains_key(p) {
            let i = choose|i: int| 0 <= i < order.len() && order[i] == p;
            if i < n - 1 {
                assert(order[i] < order[n - 1]);
            }
            if n < i {
                assert(order[n] < order[i]);
            }
        }
    }
    lemma_gap(pages, 0, start, end);
    if n > 0 {
        lemma_rows_before(pages, order, n - 1, order[n - 1] as int);
    }
}

proof fn lemma_more_rows<T>(pages: Map<u32, Seq<T>>, from: int, a: int, b: int)
    requires
        from <= a <= b,
    ensures
        rows_between(pages, from, a).len() <= rows_between(pages, from, b).len(),
    decreases b - a,
{
    if a < b {
        lemma_more_rows(pages, from, a, b - 1);
    }
}

} // verus!
