//! Where the keyboard goes: Tab's walk across the panes, and the way back out
//! of a surface it went into.
use vstd::prelude::*;
use crate::model::Context;

verus! {

/// The pane after `from`, wrapping: sidebar, list, reader, round.
///
/// The conversation is inside the reading pane, so it holds the list's place
/// in the cycle. A context that is not one of the panes has none.
pub open spec fn pane_after(from: Context, forward: bool) -> Option<Context> {
    match (from, forward) {
        (Context::Sidebar, true) => Some(Context::List),
        (Context::List, true) => Some(Context::Reader),
        (Context::Conversation, true) => Some(Context::Reader),
        (Context::Reader, true) => Some(Context::Sidebar),
        (Context::Sidebar, false) => Some(Context::Reader),
        (Context::List, false) => Some(Context::Sidebar),
        (Context::Conversation, false) => Some(Context::Sidebar),
        (Context::Reader, false) => Some(Context::List),
        _ => None,
    }
}

/// The pane after `from`, wrapping: sidebar, list, reader, round.
///
/// A context that is not one of the panes (the composer, the palette, a
/// settings list) gets `None`: guessing a pane is worse than doing nothing.
pub fn next_pane(from: Context, forward: bool) -> (out: Option<Context>)
    ensures
        out == pane_after(from, forward),
{
    match (from, forward) {
        (Context::Sidebar, true) => Some(Context::List),
        (Context::List | Context::Conversation, true) => Some(Context::Reader),
        (Context::Reader, true) => Some(Context::Sidebar),
        (Context::Sidebar, false) => Some(Context::Reader),
        (Context::List | Context::Conversation, false) => Some(Context::Sidebar),
        (Context::Reader, false) => Some(Context::List),
        _ => None,
    }
}

/// From each of the three panes, forward and back come round after three
/// steps, and a step back undoes a step forward.
pub proof fn lemma_panes_wrap(pane: Context, forward: bool)
    requires
        pane is Sidebar || pane is List || pane is Reader,
    ensures
        pane_after(pane, forward) is Some,
        pane_after(pane_after(pane, forward)->0, !forward) == Some(pane),
        pane_after(pane_after(pane_after(pane, forward)->0, forward)->0, forward) == Some(pane),
{
}

/// Where the keyboard was before it went into a nested surface — the folder
/// list, the parts panel, a list in settings — so leaving puts it back where
/// it was rather than guessing.
///
/// One record per surface, because surfaces nest.
#[derive(Clone, Debug, PartialEq, Eq)]
pub struct Returns {
    /// `(surface, the context that had the keyboard before it)`.
    entries: Vec<(Context, Context)>,
}

impl View for Returns {
    type V = Seq<(Context, Context)>;

    closed spec fn view(&self) -> Seq<(Context, Context)> {
        self.entries@
    }
}

/// Being a record of another surface than `surface`.
pub open spec fn not_for(surface: Context) -> spec_fn((Context, Context)) -> bool {
    |entry: (Context, Context)| entry.0 != surface
}

/// Where the first record of `surface` from `from` on is.
pub open spec fn record_of(
    entries: Seq<(Context, Context)>,
    surface: Context,
    from: int,
) -> Option<int>
    decreases entries.len() - from,
{
    if from < 0 || from >= entries.len() {
        None
    } else if entries[from].0 == surface {
        Some(from)
    } else {
        record_of(entries, surface, from + 1)
    }
}

/// The records once the keyboard went into `surface` from `current`.
pub open spec fn entered(
    entries: Seq<(Context, Context)>,
    surface: Context,
    current: Context,
) -> Seq<(Context, Context)> {
    if current == surface {
        entries
    } else {
        entries.filter(not_for(surface)).push((surface, current))
    }
}

/// The context to restore and the records left once the keyboard leaves
/// `surface` while `current` owns it.
pub open spec fn left(
    entries: Seq<(Context, Context)>,
    surface: Context,
    current: Context,
) -> (Option<Context>, Seq<(Context, Context)>) {
    if current != surface {
        (None, entries)
    } else {
        match record_of(entries, surface, 0) {
            Some(at) => (Some(entries[at].1), entries.remove(at)),
            None => (Some(Context::List), entries),
        }
    }
}

impl Default for Returns {
    fn default() -> (out: Self)
        ensures
            out@.len() == 0,
    {
        Returns { entries: Vec::new() }
    }
}

impl Returns {
    /// The keyboard is going into `surface` from `current`.
    ///
    /// Returns the context to set — `surface` — or `None` when the keyboard
    /// is already there, in which case nothing is recorded: a repeated entry
    /// must not overwrite the real way back with `surface` itself.
    pub fn enter(&mut self, surface: Context, current: Context) -> (out: Option<Context>)
        ensures
            out == (if current == surface {
                None
            } else {
                Some(surface)
            }),
            final(self)@ == entered(old(self)@, surface, current),
    {
        if current == surface {
            return None;
        }
        let mut kept: Vec<(Context, Context)> = Vec::new();
        let mut i: usize = 0;
        proof {
            reveal(Seq::filter);
        }
        while i < self.entries.len()
            invariant
                i <= self.entries@.len(),
                kept@ == self.entries@.take(i as int).filter(not_for(surface)),
            decreases self.entries@.len() - i,
        {
            proof {
                reveal(Seq::filter);
                assert(self.entries@.take(i + 1).drop_last() =~= self.entries@.take(i as int));
            }
            if self.entries[i].0 != surface {
                kept.push(self.entries[i]);
            }
            i += 1;
        }
        assert(self.entries@.take(self.entries@.len() as int) =~= self.entries@);
        kept.push((surface, current));
        self.entries = kept;
        Some(surface)
    }

    /// The keyboard is leaving `surface` while `current` owns it.
    ///
    /// Returns the context to restore — where the keyboard was before it
    /// went in, or the list when nothing recorded it — or `None` when the
    /// keyboard was not in `surface` to begin with.
    pub fn leave(&mut self, surface: Context, current: Context) -> (out: Option<Context>)
        ensures
            (out, final(self)@) == left(old(self)@, surface, current),
    {
        if current != surface {
            return None;
        }
        let mut i: usize = 0;
        while i < self.entries.len()
            invariant
                i <= self.entries@.len(),
                self.entries@ == old(self)@,
                current == surface,
                record_of(self.entries@, surface, 0) == record_of(
                    self.entries@,
                    surface,
                    i as int,
                ),
            decreases self.entries@.len() - i,
        {
            if self.entries[i].0 == surface {
                let recorded = self.entries.remove(i);
                return Some(recorded.1);
            }
            i += 1;
        }
        Some(Context::List)
    }
}

/// Leaving a surface right after going into it puts the keyboard back where
/// it was, and leaves every other surface's record as it was.
pub proof fn lemma_leave_undoes_enter(
    entries: Seq<(Context, Context)>,
    surface: Context,
    current: Context,
)
    requires
        current != surface,
    ensures
        left(entered(entries, surface, current), surface, surface) == (
            Some(current),
            entries.filter(not_for(surface)),
        ),
{
    let kept = entries.filter(not_for(surface));
    let now = entered(entries, surface, current);
    lemma_kept(entries, surface);
    lemma_record_is_last(now, surface, 0);
    assert(now.remove(now.len() - 1) =~= kept);
}

/// Surfaces nest: going into a second surface and out of it again leaves the
/// way back out of the first.
pub proof fn lemma_surfaces_nest(
    entries: Seq<(Context, Context)>,
    outer: Context,
    inner: Context,
    current: Context,
)
    requires
        current != outer,
        inner != outer,
    ensures
        ({
            let inside = entered(entered(entries, outer, current), inner, outer);
            let back = left(inside, inner, inner);
            &&& back.0 == Some(outer)
            &&& left(back.1, outer, outer).0 == Some(current)
        }),
{
    let once = entered(entries, outer, current);
    lemma_leave_undoes_enter(once, inner, outer);
    let kept = once.filter(not_for(inner));
    lemma_kept(entries, outer);
    let first = entries.filter(not_for(outer));
    assert(once =~= first.push((outer, current)));
    reveal(Seq::filter);
    assert(once.drop_last() =~= first);
    assert(kept =~= first.filter(not_for(inner)).push((outer, current)));
    lemma_filter_keeps_absence(first, inner, outer);
    lemma_record_is_last(kept, outer, 0);
}

proof fn lemma_kept(entries: Seq<(Context, Context)>, surface: Context)
    ensures
        forall|i: int|
            0 <= i < entries.filter(not_for(surface)).len() ==> (#[trigger] entries.filter(
                not_for(surface),
            )[i]).0 != surface,
    decreases entries.len(),
{
    reveal(Seq::filter);
    if entries.len() > 0 {
        lemma_kept(entries.drop_last(), surface);
    }
}

proof fn lemma_filter_keeps_absence(
    entries: Seq<(Context, Context)>,
    filtered: Context,
    absent: Context,
)
    requires
        forall|i: int| 0 <= i < entries.len() ==> (#[trigger] entries[i]).0 != absent,
    ensures
        forall|i: int|
            0 <= i < entries.filter(not_for(filtered)).len() ==> (#[trigger] entries.filter(
                not_for(filtered),
            )[i]).0 != absent,
    decreases entries.len(),
{
    reveal(Seq::filter);
    if entries.len() > 0 {
        assert(entries[entries.len() - 1].0 != absent);
        lemma_filter_keeps_absence(entries.drop_last(), filtered, absent);
    }
}

proof fn lemma_record_is_last(entries: Seq<(Context, Context)>, surface: Context, from: int)
    requires
        0 <= from < entries.len(),
        entries.last().0 == surface,
        forall|i: int| 0 <= i < entries.len() - 1 ==> (#[trigger] entries[i]).0 != surface,
    ensures
        record_of(entries, surface, from) == Some(entries.len() - 1),
    decreases entries.len() - from,
{
    if from < entries.len() - 1 {
        lemma_record_is_last(entries, surface, from + 1);
    }
}

/// The conversation holds the list's place in the walk; what is no pane has no
/// place; and the walk goes from the sidebar to the list to the reader.
pub proof fn lemma_which_pane_comes_next(from: Context, forward: bool)
    ensures
        pane_after(Context::Conversation, forward) == pane_after(Context::List, forward),
        pane_after(Context::Sidebar, true) == Some(Context::List),
        pane_after(Context::List, true) == Some(Context::Reader),
        pane_after(from, forward) is Some <==> from is Sidebar || from is List
            || from is Conversation || from is Reader,
{
}

/// Leaving a surface the keyboard is not in does nothing. Leaving the one it
/// is in goes to where that surface was entered from, and takes that record
/// and no other; to the list where none was kept.
pub proof fn lemma_where_leaving_goes(
    entries: Seq<(Context, Context)>,
    surface: Context,
    current: Context,
    i: int,
)
    requires
        0 <= i < entries.len(),
        entries[i].0 == surface,
        forall|j: int| 0 <= j < entries.len() && j != i ==> (#[trigger] entries[j]).0 != surface,
    ensures
        current != surface ==> left(entries, surface, current) == (None::<Context>, entries),
        left(entries, surface, surface) == (Some(entries[i].1), entries.remove(i)),
        left(entries.remove(i), surface, surface) == (Some(Context::List), entries.remove(i)),
{
    lemma_record_is(entries, surface, 0, i);
    lemma_no_record(entries.remove(i), surface, 0);
}

proof fn lemma_record_is(entries: Seq<(Context, Context)>, surface: Context, from: int, i: int)
    requires
        0 <= from <= i < entries.len(),
        entries[i].0 == surface,
        forall|j: int| 0 <= j < i ==> (#[trigger] entries[j]).0 != surface,
    ensures
        record_of(entries, surface, from) == Some(i),
    decreases i - from,
{
    if from < i {
        lemma_record_is(entries, surface, from + 1, i);
    }
}

proof fn lemma_no_record(entries: Seq<(Context, Context)>, surface: Context, from: int)
    requires
        0 <= from,
        forall|j: int| 0 <= j < entries.len() ==> (#[trigger] entries[j]).0 != surface,
    ensures
        record_of(entries, surface, from) is None,
    decreases entries.len() - from,
{
    if from < entries.len() {
        lemma_no_record(entries, surface, from + 1);
    }
}

} // verus!
