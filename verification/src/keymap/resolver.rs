//! The live keymap: the table plus whatever sequence is half-typed.
use vstd::prelude::*;
use crate::keymap::chord::Chord;
use crate::keymap::chord::{chord_views, chords_text, describe_chords, goes_on, survives, ChordView};
use crate::keymap::table::{chain_of, exact_in, is_shadowed, lemma_typing_wins, takes_part};
use crate::keymap::table::{Found, Keymap, KeyContext};
use crate::keymap::table::{built_from, context_name, found, shadowed_in, shown, shown_view, EntryView, FoundView};
use crate::model::CommandKeymap;
use crate::text::texts;

verus! {

/// How long a half-typed sequence stays pending before it is forgotten, in
/// nanoseconds: one second.
///
/// Long enough to be typed deliberately, short enough that a `g` left over
/// from a moment ago never swallows the next keystroke. The pending state is
/// visible while it lasts, so the user is never guessing.
pub const CHORD_TIMEOUT: u64 = 1_000_000_000;

/// What a key press meant.
#[derive(Debug, Clone, PartialEq, Eq)]
pub enum Outcome {
    /// Run this command.
    Command(String),
    /// The start of a sequence. The string is what to show the user while it
    /// is pending — `"g"` — so the pending state is never invisible.
    Pending(String),
    /// Nothing is bound to it. The caller should let the key propagate.
    Unhandled,
}

/// What a key press meant, its words as text.
pub enum OutcomeView {
    /// Run this command.
    Command(Seq<char>),
    /// The start of a sequence.
    Pending(Seq<char>),
    /// Nothing is bound to it.
    Unhandled,
}

impl View for Outcome {
    type V = OutcomeView;

    open spec fn view(&self) -> OutcomeView {
        match *self {
            Outcome::Command(command) => OutcomeView::Command(command@),
            Outcome::Pending(shown) => OutcomeView::Pending(shown@),
            Outcome::Unhandled => OutcomeView::Unhandled,
        }
    }
}

/// The live keymap: the table plus whatever sequence is half-typed.
///
/// Moments and spans are nanoseconds, counted from any moment the caller
/// likes, so that the timeout depends on nothing but what is passed in.
#[derive(Debug)]
pub struct Resolver {
    keymap: Keymap,
    timeout: u64,
    pending: Vec<Chord>,
    /// When the pending sequence stops being pending; never, when that moment
    /// is past the last there is.
    expires_at: Option<u64>,
}

/// Everything a resolver knows.
#[verifier::ext_equal]
pub struct ResolverView {
    /// The table.
    pub entries: Seq<EntryView>,
    /// How long a sequence stays pending.
    pub timeout: u64,
    /// What is half-typed.
    pub pending: Seq<ChordView>,
    /// When that is forgotten.
    pub expires_at: Option<u64>,
}

impl View for Resolver {
    type V = ResolverView;

    closed spec fn view(&self) -> ResolverView {
        ResolverView {
            entries: self.keymap@,
            timeout: self.timeout,
            pending: chord_views(self.pending@),
            expires_at: self.expires_at,
        }
    }
}

impl ResolverView {
    /// With nothing half-typed.
    pub open spec fn cleared(self) -> Self {
        ResolverView { pending: Seq::empty(), expires_at: None, ..self }
    }

    /// What is still half-typed at `now`.
    pub open spec fn pending_at(self, now: u64) -> Seq<ChordView> {
        match self.expires_at {
            Some(deadline) => if now >= deadline {
                Seq::empty()
            } else {
                self.pending
            },
            None => self.pending,
        }
    }

    /// What pressing `chord` means, and the state after it. A sequence that
    /// went nowhere is abandoned whole, rather than tried again as a fresh
    /// first chord.
    pub open spec fn pressed(
        self,
        chord: ChordView,
        context: KeyContext,
        typing: bool,
        now: u64,
    ) -> (OutcomeView, ResolverView) {
        let attempt = self.pending_at(now).push(chord);
        match found(self.entries, context, attempt, typing) {
            FoundView::Exact(command) => (OutcomeView::Command(command), self.cleared()),
            FoundView::Prefix => (
                OutcomeView::Pending(chords_text(attempt)),
                ResolverView {
                    pending: attempt,
                    expires_at: if now + self.timeout <= u64::MAX {
                        Some((now + self.timeout) as u64)
                    } else {
                        None
                    },
                    ..self
                },
            ),
            FoundView::Nothing => (OutcomeView::Unhandled, self.cleared()),
        }
    }
}

/// What is said of a binding that can never fire.
pub open spec fn shadow_problem(entry: EntryView) -> Seq<char> {
    "`"@ + chords_text(entry.1) + "` in "@ + context_name(entry.0)
        + " can never fire -- a shorter binding matches first, so `"@ + entry.2
        + "` is unreachable"@
}

/// Everything to report of the registry's table: what the registry could not
/// honour, what could not be read, and what can never fire.
pub open spec fn all_problems(commands: CommandKeymap) -> Seq<Seq<char>> {
    let built = built_from(commands.actions@);
    texts(commands.problems@) + built.problems + built.entries.filter(
        shadowed_in(built.entries),
    ).map_values(|entry: EntryView| shadow_problem(entry))
}

/// What is said of a binding that can never fire.
fn say_shadowed(entry: &(KeyContext, &crate::keymap::chord::Binding, &str)) -> (out: String)
    ensures
        out@ == shadow_problem(shown_view(*entry)),
{
    let mut out = "`".to_owned();
    out.append(entry.1.to_string().as_str());
    out.append("` in ");
    out.append(entry.0.name());
    out.append(" can never fire -- a shorter binding matches first, so `");
    out.append(entry.2);
    out.append("` is unreachable");
    assert(out@ =~= shadow_problem(shown_view(*entry)));
    out
}

/// The registry's table, and everything to report of it.
fn build(commands: &CommandKeymap) -> (out: (Keymap, Vec<String>))
    ensures
        out.0@ == built_from(commands.actions@).entries,
        texts(out.1@) == all_problems(*commands),
{
    let (keymap, parse_problems) = Keymap::from_commands(commands);
    let mut problems: Vec<String> = Vec::new();
    let mut i: usize = 0;
    while i < commands.problems.len()
        invariant
            i <= commands.problems@.len(),
            texts(problems@) == texts(commands.problems@).take(i as int),
        decreases commands.problems@.len() - i,
    {
        let ghost done = texts(problems@);
        problems.push(commands.problems[i].clone());
        i += 1;
        assert(texts(problems@) =~= done.push(commands.problems@[i - 1]@));
        assert(texts(problems@) =~= texts(commands.problems@).take(i as int));
    }
    let ghost core = texts(problems@);
    let mut parse_problems = parse_problems;
    let ghost parsed = texts(parse_problems@);
    problems.append(&mut parse_problems);
    assert(texts(problems@) =~= core + parsed);
    let shadowed = keymap.shadowed();
    let ghost entries = keymap@.filter(shadowed_in(keymap@));
    let ghost said = entries.map_values(|entry: EntryView| shadow_problem(entry));
    let mut k: usize = 0;
    assert(core + parsed + said.take(0) =~= core + parsed);
    while k < shadowed.len()
        invariant
            shown(shadowed@) == entries,
            said == entries.map_values(|entry: EntryView| shadow_problem(entry)),
            k <= shadowed@.len(),
            texts(problems@) == core + parsed + said.take(k as int),
        decreases shadowed@.len() - k,
    {
        let ghost done = texts(problems@);
        assert(entries[k as int] == shown_view(shadowed@[k as int]));
        problems.push(say_shadowed(&shadowed[k]));
        k += 1;
        assert(texts(problems@) =~= done.push(said[k - 1]));
        assert(core + parsed + said.take(k as int) =~= done.push(said[k - 1]));
    }
    proof {
        assert(core =~= texts(commands.problems@));
        assert(said.take(said.len() as int) =~= said);
        assert(shadowed@.len() == entries.len());
    }
    (keymap, problems)
}

impl Resolver {
    /// Wraps a keymap, with the default [`CHORD_TIMEOUT`].
    pub fn new(keymap: Keymap) -> (out: Self)
        ensures
            out@ == (ResolverView {
                entries: keymap@,
                timeout: CHORD_TIMEOUT,
                pending: Seq::empty(),
                expires_at: None,
            }),
    {
        Self::with_timeout(keymap, CHORD_TIMEOUT)
    }

    /// A resolver over the registry with the user's overrides already
    /// applied, and whatever could not be honoured.
    pub fn from_commands(commands: &CommandKeymap) -> (out: (Self, Vec<String>))
        ensures
            out.0@ == (ResolverView {
                entries: built_from(commands.actions@).entries,
                timeout: CHORD_TIMEOUT,
                pending: Seq::empty(),
                expires_at: None,
            }),
            texts(out.1@) == all_problems(*commands),
    {
        let (keymap, problems) = build(commands);
        (Self::new(keymap), problems)
    }

    /// Rebuilds the table after the configuration changed, without a restart.
    /// Returns the problems to report.
    pub fn apply_commands(&mut self, commands: &CommandKeymap) -> (out: Vec<String>)
        ensures
            final(self)@ == (ResolverView {
                entries: built_from(commands.actions@).entries,
                ..old(self)@.cleared()
            }),
            texts(out@) == all_problems(*commands),
    {
        let (keymap, problems) = build(commands);
        self.set_keymap(keymap);
        problems
    }

    /// Wraps a keymap with a different pending-sequence timeout.
    pub fn with_timeout(keymap: Keymap, timeout: u64) -> (out: Self)
        ensures
            out@ == (ResolverView {
                entries: keymap@,
                timeout,
                pending: Seq::empty(),
                expires_at: None,
            }),
    {
        let ghost entries = keymap@;
        let out = Resolver { keymap, timeout, pending: Vec::new(), expires_at: None };
        assert(out@ =~= (ResolverView {
            entries,
            timeout,
            pending: Seq::empty(),
            expires_at: None,
        }));
        out
    }

    /// The table this resolver reads.
    pub fn keymap(&self) -> (out: &Keymap)
        ensures
            out@ == self@.entries,
    {
        &self.keymap
    }

    /// Replaces the table, e.g. after the config file changed on disk.
    ///
    /// Any half-typed sequence is dropped: it was typed against the old table.
    pub fn set_keymap(&mut self, keymap: Keymap)
        ensures
            final(self)@ == (ResolverView { entries: keymap@, ..old(self)@.cleared() }),
    {
        let ghost before = self@;
        let ghost entries = keymap@;
        self.keymap = keymap;
        self.clear_pending();
        assert(self@ =~= (ResolverView { entries, ..before.cleared() }));
    }

    /// What is currently half-typed, for the pending indicator.
    pub fn pending(&self) -> (out: Option<String>)
        ensures
            match out {
                Some(text) => self@.pending.len() > 0 && text@ == chords_text(self@.pending),
                None => self@.pending.len() == 0,
            },
    {
        if self.pending.len() == 0 {
            None
        } else {
            Some(describe_chords(self.pending.as_slice()))
        }
    }

    /// Forgets a half-typed sequence — on focus loss, or when the user hits
    /// `Escape` and the caller decides that means "never mind".
    pub fn clear_pending(&mut self)
        ensures
            final(self)@ == old(self)@.cleared(),
    {
        let ghost before = self@;
        self.pending = Vec::new();
        self.expires_at = None;
        assert(self@ =~= before.cleared());
    }

    /// Resolves one key press.
    ///
    /// `in_text_entry` is whether the focused widget takes text. When it is
    /// true, a binding whose first chord is a bare character or an ordinary
    /// editing key does not fire at all — typing always wins.
    pub fn press(
        &mut self,
        chord: &Chord,
        context: KeyContext,
        in_text_entry: bool,
        now: u64,
    ) -> (out: Outcome)
        ensures
            (out@, final(self)@) == old(self)@.pressed(chord@, context, in_text_entry, now),
            in_text_entry && old(self)@.pending_at(now).len() == 0 && !survives(chord@)
                ==> out@ is Unhandled,
    {
        let ghost before = self@;
        let expired = match self.expires_at {
            Some(deadline) => now >= deadline,
            None => false,
        };
        if expired {
            self.clear_pending();
        }
        let mut attempt: Vec<Chord> = Vec::new();
        std::mem::swap(&mut attempt, &mut self.pending);
        let ghost held = chord_views(attempt@);
        attempt.push(*chord);
        proof {
            assert(held =~= before.pending_at(now));
            assert(chord_views(attempt@) =~= before.pending_at(now).push(chord@));
        }
        match self.keymap.lookup(context, attempt.as_slice(), in_text_entry) {
            Found::Exact(command) => {
                self.clear_pending();
                assert(self@ =~= before.cleared());
                Outcome::Command(command)
            },
            Found::Prefix => {
                let description = describe_chords(attempt.as_slice());
                self.pending = attempt;
                self.expires_at = now.checked_add(self.timeout);
                assert(self@ =~= before.pressed(chord@, context, in_text_entry, now).1);
                Outcome::Pending(description)
            },
            Found::Nothing => {
                self.clear_pending();
                assert(self@ =~= before.cleared());
                Outcome::Unhandled
            },
        }
    }
}

/// A pending sequence is forgotten once its time is up: the next press means
/// what it means with nothing half-typed.
pub proof fn lemma_expired_is_forgotten(
    resolver: ResolverView,
    deadline: u64,
    chord: ChordView,
    context: KeyContext,
    typing: bool,
    now: u64,
)
    requires
        resolver.expires_at == Some(deadline),
        now >= deadline,
    ensures
        resolver.pressed(chord, context, typing, now) == resolver.cleared().pressed(
            chord,
            context,
            typing,
            now,
        ),
{
}

/// A sequence that went nowhere leaves nothing pending: the next press starts
/// clean.
pub proof fn lemma_dead_end_is_abandoned(
    resolver: ResolverView,
    chord: ChordView,
    context: KeyContext,
    typing: bool,
    now: u64,
)
    requires
        resolver.pressed(chord, context, typing, now).0 is Unhandled,
    ensures
        resolver.pressed(chord, context, typing, now).1 == resolver.cleared(),
        resolver.pressed(chord, context, typing, now).1.pending.len() == 0,
{
}

/// Typing runs nothing and starts nothing: while a text field has focus, a
/// press of what the field takes is left to it, whatever is bound and wherever
/// the focus is, unless it goes on with a sequence already started.
pub proof fn lemma_typing_is_left_alone(
    resolver: ResolverView,
    chord: ChordView,
    context: KeyContext,
    now: u64,
)
    requires
        forall|i: int|
            0 <= i < resolver.entries.len() ==> (#[trigger] resolver.entries[i]).1.len() > 0,
        !survives(resolver.pending_at(now).push(chord)[0]),
    ensures
        resolver.pressed(chord, context, true, now) == (
            OutcomeView::Unhandled,
            resolver.cleared(),
        ),
{
    lemma_typing_wins(resolver.entries, context, resolver.pending_at(now).push(chord));
}

/// The state after `presses` -- each a chord, whether a text field had focus,
/// and when -- all in `context`.
pub open spec fn after_presses(
    resolver: ResolverView,
    context: KeyContext,
    presses: Seq<(ChordView, bool, u64)>,
) -> ResolverView
    decreases presses.len(),
{
    if presses.len() == 0 {
        resolver
    } else {
        let (chord, typing, now) = presses.last();
        after_presses(resolver, context, presses.drop_last()).pressed(
            chord,
            context,
            typing,
            now,
        ).1
    }
}

/// No binding of `context` is where `pending` starts.
spec fn past_no_binding(
    entries: Seq<EntryView>,
    context: KeyContext,
    pending: Seq<ChordView>,
) -> bool {
    forall|i: int|
        0 <= i < entries.len() && (#[trigger] entries[i]).0 == context && entries[i].1.len()
            <= pending.len() ==> pending.take(entries[i].1.len() as int) != entries[i].1
}

/// A chord that completes a binding of `context` is not left pending.
proof fn lemma_whole_binding_is_not_pending(
    entries: Seq<EntryView>,
    context: KeyContext,
    i: int,
    typing: bool,
)
    requires
        forall|i: int| 0 <= i < entries.len() ==> (#[trigger] entries[i]).1.len() > 0,
        0 <= i < entries.len(),
        entries[i].0 == context,
    ensures
        !(found(entries, context, entries[i].1, typing) is Prefix),
{
    let pressed = entries[i].1;
    if typing && !survives(pressed[0]) {
        lemma_typing_wins(entries, context, pressed);
    } else {
        lemma_exact_present(entries, context, pressed, typing, 0, i);
        assert(chain_of(context)[0] == context);
    }
}

proof fn lemma_exact_present(
    entries: Seq<EntryView>,
    context: KeyContext,
    pressed: Seq<ChordView>,
    typing: bool,
    from: int,
    i: int,
)
    requires
        0 <= from <= i < entries.len(),
        takes_part(entries[i], context, typing),
        entries[i].1 == pressed,
    ensures
        exact_in(entries, context, pressed, typing, from) is Some,
    decreases entries.len() - from,
{
    if from < i {
        lemma_exact_present(entries, context, pressed, typing, from + 1, i);
    }
}

proof fn lemma_pending_goes_past_no_binding(
    resolver: ResolverView,
    context: KeyContext,
    presses: Seq<(ChordView, bool, u64)>,
)
    requires
        forall|i: int|
            0 <= i < resolver.entries.len() ==> (#[trigger] resolver.entries[i]).1.len() > 0,
        resolver.pending.len() == 0,
    ensures
        after_presses(resolver, context, presses).entries == resolver.entries,
        past_no_binding(
            resolver.entries,
            context,
            after_presses(resolver, context, presses).pending,
        ),
    decreases presses.len(),
{
    let entries = resolver.entries;
    if presses.len() > 0 {
        lemma_pending_goes_past_no_binding(resolver, context, presses.drop_last());
        let before = after_presses(resolver, context, presses.drop_last());
        let (chord, typing, now) = presses.last();
        let held = before.pending_at(now);
        let attempt = held.push(chord);
        if found(entries, context, attempt, typing) is Prefix {
            assert forall|i: int|
                0 <= i < entries.len() && (#[trigger] entries[i]).0 == context && entries[i].1.len()
                    <= attempt.len() implies attempt.take(entries[i].1.len() as int)
                != entries[i].1 by {
                let n = entries[i].1.len() as int;
                if n == attempt.len() {
                    assert(attempt.take(n) =~= attempt);
                    lemma_whole_binding_is_not_pending(entries, context, i, typing);
                } else {
                    assert(attempt.take(n) =~= held.take(n));
                }
            }
        }
    }
}

/// A shadowed binding can never fire: from nothing half-typed, whatever is
/// pressed in its context never comes to its chords, because the shorter
/// binding takes what was typed first.
pub proof fn lemma_shadowed_never_fires(
    resolver: ResolverView,
    entry: EntryView,
    presses: Seq<(ChordView, bool, u64)>,
    chord: ChordView,
    now: u64,
)
    requires
        forall|i: int|
            0 <= i < resolver.entries.len() ==> (#[trigger] resolver.entries[i]).1.len() > 0,
        resolver.pending.len() == 0,
        is_shadowed(resolver.entries, entry),
    ensures
        after_presses(resolver, entry.0, presses).pending_at(now).push(chord) != entry.1,
{
    let entries = resolver.entries;
    lemma_pending_goes_past_no_binding(resolver, entry.0, presses);
    let pending = after_presses(resolver, entry.0, presses).pending_at(now);
    let i = choose|i: int|
        0 <= i < entries.len() && (#[trigger] entries[i]).0 == entry.0 && goes_on(
            entry.1,
            entries[i].1,
        );
    let n = entries[i].1.len() as int;
    if pending.push(chord) == entry.1 {
        assert(entry.1.take(n) =~= pending.take(n));
    }
}

} // verus!
