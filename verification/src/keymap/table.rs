//! The binding table: which command a binding runs, in which context.
use vstd::prelude::*;
use crate::keymap::chord::{Binding, Chord, ParseError, ParseErrorView};
use crate::keymap::chord::{chord_views, error_text, goes_on, read_binding, same_chords, survives, ChordView};
use crate::model::{BoundAction, CommandKeymap, Context};
use crate::text::{same_text, texts};

verus! {

/// Where the keyboard focus is, which decides what a key means.
///
/// Contexts fall back rather than replace: reading a message still leaves the
/// list's `j`/`k` working. The chain is [`KeyContext::chain`].
#[derive(Debug, Clone, Copy, PartialEq, Eq, PartialOrd, Ord, Hash, Default, Structural)]
pub enum KeyContext {
    /// Bindings that apply everywhere unless something more specific claims
    /// the key.
    #[default]
    Global,
    /// The message list.
    List,
    /// The conversation pane: the whole thread stacked beside the list.
    Conversation,
    /// The reading pane.
    Reader,
    /// The composer, which takes over the reading pane.
    Composer,
    /// The search bar.
    Search,
    /// The command palette.
    Palette,
    /// The folder list, once the keyboard is in it.
    Sidebar,
    /// The parts panel, once the keyboard is in it.
    Parts,
    /// The account list in settings, once the keyboard is in it.
    Accounts,
    /// The keybinding list in settings, once the keyboard is in it.
    Keys,
}

/// The contexts to look in, most specific first.
pub open spec fn chain_of(context: KeyContext) -> Seq<KeyContext> {
    match context {
        KeyContext::Global => seq![KeyContext::Global],
        KeyContext::Conversation => seq![
            KeyContext::Conversation,
            KeyContext::List,
            KeyContext::Global,
        ],
        KeyContext::Reader => seq![
            KeyContext::Reader,
            KeyContext::Conversation,
            KeyContext::List,
            KeyContext::Global,
        ],
        other => seq![other, KeyContext::Global],
    }
}

/// The name of a context.
pub open spec fn context_name(context: KeyContext) -> Seq<char> {
    match context {
        KeyContext::Global => "Global"@,
        KeyContext::List => "List"@,
        KeyContext::Conversation => "Conversation"@,
        KeyContext::Reader => "Reader"@,
        KeyContext::Composer => "Composer"@,
        KeyContext::Search => "Search"@,
        KeyContext::Palette => "Palette"@,
        KeyContext::Sidebar => "Sidebar"@,
        KeyContext::Parts => "Parts"@,
        KeyContext::Accounts => "Accounts"@,
        KeyContext::Keys => "Keys"@,
    }
}

impl KeyContext {
    /// The contexts to look in, most specific first.
    ///
    /// Composer, Search, Palette, Sidebar, Parts, Accounts and Keys do not
    /// fall back through the list: while the composer is open, `a` is the
    /// letter A, not archive, and in the folder list `j` means "next
    /// folder".
    pub fn chain(self) -> (out: Vec<KeyContext>)
        ensures
            out@ == chain_of(self),
    {
        let out = match self {
            KeyContext::Global => vec![KeyContext::Global],
            KeyContext::Conversation => vec![
                KeyContext::Conversation,
                KeyContext::List,
                KeyContext::Global,
            ],
            KeyContext::Reader => vec![
                KeyContext::Reader,
                KeyContext::Conversation,
                KeyContext::List,
                KeyContext::Global,
            ],
            other => vec![other, KeyContext::Global],
        };
        assert(out@ =~= chain_of(self));
        out
    }

    /// The name of this context.
    pub fn name(self) -> (out: &'static str)
        ensures
            out@ == context_name(self),
    {
        match self {
            KeyContext::Global => "Global",
            KeyContext::List => "List",
            KeyContext::Conversation => "Conversation",
            KeyContext::Reader => "Reader",
            KeyContext::Composer => "Composer",
            KeyContext::Search => "Search",
            KeyContext::Palette => "Palette",
            KeyContext::Sidebar => "Sidebar",
            KeyContext::Parts => "Parts",
            KeyContext::Accounts => "Accounts",
            KeyContext::Keys => "Keys",
        }
    }
}

/// The runtime's context, as the resolver names it.
pub open spec fn key_context(context: Context) -> KeyContext {
    match context {
        Context::List => KeyContext::List,
        Context::Conversation => KeyContext::Conversation,
        Context::Reader => KeyContext::Reader,
        Context::Composer => KeyContext::Composer,
        Context::Search => KeyContext::Search,
        Context::Palette => KeyContext::Palette,
        Context::Sidebar => KeyContext::Sidebar,
        Context::Parts => KeyContext::Parts,
        Context::Accounts => KeyContext::Accounts,
        Context::Keys => KeyContext::Keys,
    }
}

impl From<Context> for KeyContext {
    /// The runtime's context, as the resolver names it. One-to-one.
    fn from(context: Context) -> (out: Self) {
        match context {
            Context::List => KeyContext::List,
            Context::Conversation => KeyContext::Conversation,
            Context::Reader => KeyContext::Reader,
            Context::Composer => KeyContext::Composer,
            Context::Search => KeyContext::Search,
            Context::Palette => KeyContext::Palette,
            Context::Sidebar => KeyContext::Sidebar,
            Context::Parts => KeyContext::Parts,
            Context::Accounts => KeyContext::Accounts,
            Context::Keys => KeyContext::Keys,
        }
    }
}

impl vstd::std_specs::convert::FromSpecImpl<Context> for KeyContext {
    open spec fn obeys_from_spec() -> bool {
        true
    }

    open spec fn from_spec(context: Context) -> Self {
        key_context(context)
    }
}

/// One entry of the table: where, which chords, which command.
pub type EntryView = (KeyContext, Seq<ChordView>, Seq<char>);

/// The binding table: which command a binding runs, in which context.
#[derive(Debug)]
pub struct Keymap {
    entries: Vec<(KeyContext, Binding, String)>,
}

/// An entry, its parts as text.
pub open spec fn entry_view(entry: (KeyContext, Binding, String)) -> EntryView {
    (entry.0, entry.1@, entry.2@)
}

/// Entries, their parts as text.
pub open spec fn entry_views(entries: Seq<(KeyContext, Binding, String)>) -> Seq<EntryView> {
    entries.map_values(|entry: (KeyContext, Binding, String)| entry_view(entry))
}

/// An entry as it is handed out, its parts as text.
pub open spec fn shown_view(entry: (KeyContext, &Binding, &str)) -> EntryView {
    (entry.0, entry.1@, entry.2@)
}

/// Entries as they are handed out, their parts as text.
pub open spec fn shown(entries: Seq<(KeyContext, &Binding, &str)>) -> Seq<EntryView> {
    entries.map_values(|entry: (KeyContext, &Binding, &str)| shown_view(entry))
}

impl View for Keymap {
    type V = Seq<EntryView>;

    closed spec fn view(&self) -> Seq<EntryView> {
        entry_views(self.entries@)
    }
}

impl Clone for Keymap {
    fn clone(&self) -> (out: Self)
        ensures
            out@ == self@,
    {
        let mut entries: Vec<(KeyContext, Binding, String)> = Vec::new();
        let mut i: usize = 0;
        proof {
            use_type_invariant(self);
        }
        while i < self.entries.len()
            invariant
                i <= self.entries@.len(),
                entries@.len() == i,
                forall|j: int|
                    0 <= j < self.entries@.len() ==> (#[trigger] self.entries@[j]).1@.len() > 0,
                forall|j: int|
                    0 <= j < i ==> entry_view(#[trigger] entries@[j]) == entry_view(self.entries@[j]),
            decreases self.entries@.len() - i,
        {
            let entry = &self.entries[i];
            entries.push((entry.0, entry.1.clone(), entry.2.clone()));
            i += 1;
        }
        proof {
            assert forall|j: int| 0 <= j < entries@.len() implies (#[trigger] entries@[j]).1@.len() > 0 by {
                assert(entry_view(entries@[j]) == entry_view(self.entries@[j]));
            }
            assert(entry_views(entries@) =~= self@);
        }
        Keymap { entries }
    }
}

/// Being another entry than the one for `chords` in `context`.
pub open spec fn not_bound_to(context: KeyContext, chords: Seq<ChordView>) -> spec_fn(
    EntryView,
) -> bool {
    |entry: EntryView| !(entry.0 == context && entry.1 == chords)
}

/// `entries` with `command` bound to `chords` in `context`, in place of
/// whatever was there.
pub open spec fn rebound(
    entries: Seq<EntryView>,
    context: KeyContext,
    chords: Seq<ChordView>,
    command: Seq<char>,
) -> Seq<EntryView> {
    entries.filter(not_bound_to(context, chords)).push((context, chords, command))
}

/// Where `command` is first bound in `context`.
pub open spec fn first_for(
    entries: Seq<EntryView>,
    context: KeyContext,
    command: Seq<char>,
    from: int,
) -> Option<Seq<ChordView>>
    decreases entries.len() - from,
{
    if from < 0 || from >= entries.len() {
        None
    } else if entries[from].0 == context && entries[from].2 == command {
        Some(entries[from].1)
    } else {
        first_for(entries, context, command, from + 1)
    }
}

/// A shorter binding in the same context always matches before `entry`.
pub open spec fn is_shadowed(entries: Seq<EntryView>, entry: EntryView) -> bool {
    exists|i: int|
        0 <= i < entries.len() && (#[trigger] entries[i]).0 == entry.0 && goes_on(
            entry.1,
            entries[i].1,
        )
}

/// Being an entry that can never fire.
pub open spec fn shadowed_in(entries: Seq<EntryView>) -> spec_fn(EntryView) -> bool {
    |entry: EntryView| is_shadowed(entries, entry)
}

/// What pressing some chords finds.
pub enum FoundView {
    /// This command.
    Exact(Seq<char>),
    /// The start of a sequence.
    Prefix,
    /// Nothing.
    Nothing,
}

/// `entry` takes part in `context`: while typing, only if its first chord
/// survives that.
pub open spec fn takes_part(entry: EntryView, context: KeyContext, typing: bool) -> bool {
    entry.0 == context && (!typing || survives(entry.1[0]))
}

/// The command of the first entry from `from` on that is exactly `pressed`.
pub open spec fn exact_in(
    entries: Seq<EntryView>,
    context: KeyContext,
    pressed: Seq<ChordView>,
    typing: bool,
    from: int,
) -> Option<Seq<char>>
    decreases entries.len() - from,
{
    if from < 0 || from >= entries.len() {
        None
    } else if takes_part(entries[from], context, typing) && entries[from].1 == pressed {
        Some(entries[from].2)
    } else {
        exact_in(entries, context, pressed, typing, from + 1)
    }
}

/// An entry starts with `pressed` and goes on.
pub open spec fn prefix_in(
    entries: Seq<EntryView>,
    context: KeyContext,
    pressed: Seq<ChordView>,
    typing: bool,
) -> bool {
    exists|i: int|
        0 <= i < entries.len() && takes_part(#[trigger] entries[i], context, typing) && goes_on(
            entries[i].1,
            pressed,
        )
}

/// What `pressed` finds in one context: an exact match before a longer
/// sequence.
pub open spec fn found_in(
    entries: Seq<EntryView>,
    context: KeyContext,
    pressed: Seq<ChordView>,
    typing: bool,
) -> FoundView {
    match exact_in(entries, context, pressed, typing, 0) {
        Some(command) => FoundView::Exact(command),
        None => if prefix_in(entries, context, pressed, typing) {
            FoundView::Prefix
        } else {
            FoundView::Nothing
        },
    }
}

/// What `pressed` finds along `chain` from `from` on: the most specific
/// context that claims it.
pub open spec fn found_along(
    entries: Seq<EntryView>,
    chain: Seq<KeyContext>,
    from: int,
    pressed: Seq<ChordView>,
    typing: bool,
) -> FoundView
    decreases chain.len() - from,
{
    if from < 0 || from >= chain.len() {
        FoundView::Nothing
    } else {
        match found_in(entries, chain[from], pressed, typing) {
            FoundView::Nothing => found_along(entries, chain, from + 1, pressed, typing),
            found => found,
        }
    }
}

/// What `pressed` finds from `context`.
pub open spec fn found(
    entries: Seq<EntryView>,
    context: KeyContext,
    pressed: Seq<ChordView>,
    typing: bool,
) -> FoundView {
    found_along(entries, chain_of(context), 0, pressed, typing)
}

/// The chord a native menu shows for `command`, from `from` on: that of a
/// global binding of one chord, else that of the first other binding of one
/// chord, which `fallback` holds.
pub open spec fn trigger_from(
    entries: Seq<EntryView>,
    command: Seq<char>,
    from: int,
    fallback: Option<ChordView>,
) -> Option<ChordView>
    decreases entries.len() - from,
{
    if from < 0 || from >= entries.len() {
        fallback
    } else if entries[from].2 != command || entries[from].1.len() != 1 {
        trigger_from(entries, command, from + 1, fallback)
    } else if entries[from].0 == KeyContext::Global {
        Some(entries[from].1[0])
    } else {
        trigger_from(
            entries,
            command,
            from + 1,
            if fallback is None {
                Some(entries[from].1[0])
            } else {
                fallback
            },
        )
    }
}

/// What looking up some chords finds.
pub enum Found {
    /// This command.
    Exact(String),
    /// The start of a sequence.
    Prefix,
    /// Nothing.
    Nothing,
}

impl View for Found {
    type V = FoundView;

    open spec fn view(&self) -> FoundView {
        match *self {
            Found::Exact(command) => FoundView::Exact(command@),
            Found::Prefix => FoundView::Prefix,
            Found::Nothing => FoundView::Nothing,
        }
    }
}

impl Default for Keymap {
    fn default() -> (out: Self)
        ensures
            out@.len() == 0,
    {
        Keymap { entries: Vec::new() }
    }
}

impl Keymap {
    /// Every binding of the table has at least one chord.
    #[verifier::type_invariant]
    spec fn bindings_press(self) -> bool {
        forall|i: int| 0 <= i < self.entries@.len() ==> (#[trigger] self.entries@[i]).1@.len() > 0
    }

    /// An empty table.
    pub fn new() -> (out: Self)
        ensures
            out@.len() == 0,
    {
        Keymap { entries: Vec::new() }
    }

    /// The entries but for the one for `binding` in `context`.
    fn without_entry(&self, context: KeyContext, binding: &Binding) -> (kept: Vec<
        (KeyContext, Binding, String),
    >)
        ensures
            entry_views(kept@) == self@.filter(not_bound_to(context, binding@)),
            forall|i: int| 0 <= i < kept@.len() ==> (#[trigger] kept@[i]).1@.len() > 0,
    {
        let mut kept: Vec<(KeyContext, Binding, String)> = Vec::new();
        let mut i: usize = 0;
        proof {
            use_type_invariant(self);
            reveal(Seq::filter);
            assert(entry_views(kept@) =~= self@.take(0).filter(not_bound_to(context, binding@)));
        }
        while i < self.entries.len()
            invariant
                i <= self.entries@.len(),
                forall|j: int|
                    0 <= j < self.entries@.len() ==> (#[trigger] self.entries@[j]).1@.len() > 0,
                entry_views(kept@) == self@.take(i as int).filter(not_bound_to(context, binding@)),
                forall|j: int| 0 <= j < kept@.len() ==> (#[trigger] kept@[j]).1@.len() > 0,
            decreases self.entries@.len() - i,
        {
            let ghost done = entry_views(kept@);
            let entry = &self.entries[i];
            proof {
                reveal(Seq::filter);
                assert(self@.take(i + 1).drop_last() =~= self@.take(i as int));
                assert(self@.take(i + 1).last() == entry_view(*entry));
            }
            if !(entry.0 == context && same_chords(entry.1.chords(), binding.chords())) {
                kept.push((entry.0, entry.1.clone(), entry.2.clone()));
                assert(entry_views(kept@) =~= done.push(entry_view(*entry)));
            }
            i += 1;
        }
        assert(self@.take(self@.len() as int) =~= self@);
        kept
    }

    /// Binds a command in a context, replacing any binding already there.
    ///
    /// Rebinding the same `(context, binding)` replaces it rather than
    /// stacking, so the user's override wins over the default without the
    /// caller having to remove anything first.
    pub fn bind(&mut self, context: KeyContext, binding: &str, command: &str) -> (out: Result<
        (),
        ParseError,
    >)
        ensures
            match out {
                Ok(_) => read_binding(binding@) matches Ok(chords) && final(self)@ == rebound(
                    old(self)@,
                    context,
                    chords,
                    command@,
                ),
                Err(error) => read_binding(binding@) == Err::<Seq<ChordView>, ParseErrorView>(error@)
                    && final(self)@ == old(self)@,
            },
    {
        let binding = match Binding::read(binding) {
            Ok(binding) => binding,
            Err(error) => {
                return Err(error);
            },
        };
        let mut entries = self.without_entry(context, &binding);
        let ghost kept = entry_views(entries@);
        let ghost chords = binding@;
        let _presses: usize = binding.len();
        entries.push((context, binding, command.to_owned()));
        assert(entry_views(entries@) =~= kept.push((context, chords, command@)));
        self.entries = entries;
        Ok(())
    }

    /// Removes a binding, returning whether there was one.
    pub fn unbind(&mut self, context: KeyContext, binding: &Binding) -> (out: bool)
        ensures
            out == exists|i: int|
                0 <= i < old(self)@.len() && (#[trigger] old(self)@[i]).0 == context && old(
                    self,
                )@[i].1 == binding@,
            final(self)@ == old(self)@.filter(not_bound_to(context, binding@)),
    {
        let ghost entries = self@;
        let before: usize = self.entries.len();
        let kept = self.without_entry(context, binding);
        let after: usize = kept.len();
        proof {
            lemma_filter_len(entries, not_bound_to(context, binding@));
        }
        self.entries = kept;
        after != before
    }

    /// The binding a command has in a context, if any.
    pub fn binding_for(&self, context: KeyContext, command: &str) -> (out: Option<&Binding>)
        ensures
            match out {
                Some(binding) => first_for(self@, context, command@, 0) == Some(binding@),
                None => first_for(self@, context, command@, 0) is None,
            },
    {
        let mut i: usize = 0;
        while i < self.entries.len()
            invariant
                i <= self.entries@.len(),
                self@.len() == self.entries@.len(),
                first_for(self@, context, command@, 0) == first_for(
                    self@,
                    context,
                    command@,
                    i as int,
                ),
            decreases self.entries@.len() - i,
        {
            let entry = &self.entries[i];
            assert(self@[i as int] == entry_view(*entry));
            if entry.0 == context && same_text(entry.2.as_str(), command) {
                return Some(&entry.1);
            }
            i += 1;
        }
        None
    }

    /// Every entry, for the cheat sheet and the command palette.
    pub fn entries(&self) -> (out: Vec<(KeyContext, &Binding, &str)>)
        ensures
            shown(out@) == self@,
    {
        let mut out: Vec<(KeyContext, &Binding, &str)> = Vec::new();
        let mut i: usize = 0;
        while i < self.entries.len()
            invariant
                i <= self.entries@.len(),
                shown(out@) == self@.take(i as int),
            decreases self.entries@.len() - i,
        {
            let ghost done = shown(out@);
            let entry = &self.entries[i];
            out.push((entry.0, &entry.1, entry.2.as_str()));
            assert(shown(out@) =~= done.push(entry_view(*entry)));
            i += 1;
            assert(self@.take(i as int) =~= done.push(self@[i - 1]));
        }
        assert(self@.take(self@.len() as int) =~= self@);
        out
    }

    /// Bindings that can never fire because a shorter one in the same context
    /// always matches first — `g` shadowing `g g`.
    ///
    /// Not an error at bind time: a user override can create one, and
    /// refusing to start over it would be worse than reporting it.
    pub fn shadowed(&self) -> (out: Vec<(KeyContext, &Binding, &str)>)
        ensures
            shown(out@) == self@.filter(shadowed_in(self@)),
    {
        let mut out: Vec<(KeyContext, &Binding, &str)> = Vec::new();
        let mut i: usize = 0;
        proof {
            reveal(Seq::filter);
            assert(shown(out@) =~= self@.take(0).filter(shadowed_in(self@)));
        }
        while i < self.entries.len()
            invariant
                i <= self.entries@.len(),
                shown(out@) == self@.take(i as int).filter(shadowed_in(self@)),
            decreases self.entries@.len() - i,
        {
            let ghost done = shown(out@);
            let entry = &self.entries[i];
            proof {
                reveal(Seq::filter);
                assert(self@.take(i + 1).drop_last() =~= self@.take(i as int));
                assert(self@.take(i + 1).last() == entry_view(*entry));
            }
            if self.shadows(entry.0, &entry.1) {
                out.push((entry.0, &entry.1, entry.2.as_str()));
                assert(shown(out@) =~= done.push(entry_view(*entry)));
            }
            i += 1;
        }
        assert(self@.take(self@.len() as int) =~= self@);
        out
    }

    /// Whether a shorter binding in `context` always matches before `binding`.
    fn shadows(&self, context: KeyContext, binding: &Binding) -> (out: bool)
        ensures
            out == exists|i: int|
                0 <= i < self@.len() && (#[trigger] self@[i]).0 == context && goes_on(
                    binding@,
                    self@[i].1,
                ),
    {
        let mut i: usize = 0;
        while i < self.entries.len()
            invariant
                i <= self.entries@.len(),
                self@.len() == self.entries@.len(),
                forall|j: int|
                    0 <= j < i ==> !((#[trigger] self@[j]).0 == context && goes_on(
                        binding@,
                        self@[j].1,
                    )),
            decreases self.entries@.len() - i,
        {
            let other = &self.entries[i];
            assert(self@[i as int] == entry_view(*other));
            if other.0 == context && binding.starts_with(other.1.chords()) {
                return true;
            }
            i += 1;
        }
        false
    }

    /// What `pressed` finds in one context.
    fn lookup_in(&self, context: KeyContext, pressed: &[Chord], typing: bool) -> (out: Found)
        ensures
            out@ == found_in(self@, context, chord_views(pressed@), typing),
    {
        let mut prefix = false;
        let mut i: usize = 0;
        while i < self.entries.len()
            invariant
                i <= self.entries@.len(),
                self@.len() == self.entries@.len(),
                exact_in(self@, context, chord_views(pressed@), typing, 0) == exact_in(
                    self@,
                    context,
                    chord_views(pressed@),
                    typing,
                    i as int,
                ),
                prefix == exists|j: int|
                    0 <= j < i && takes_part(#[trigger] self@[j], context, typing) && goes_on(
                        self@[j].1,
                        chord_views(pressed@),
                    ),
            decreases self.entries@.len() - i,
        {
            let entry = &self.entries[i];
            assert(self@[i as int] == entry_view(*entry));
            let first = entry.1.first();
            if entry.0 == context && (!typing || first.survives_text_entry()) {
                if same_chords(entry.1.chords(), pressed) {
                    // An exact match wins immediately, even when a longer
                    // binding also starts this way: waiting for a timeout
                    // before acting on a key the user has fully typed reads
                    // as lag, and `shadowed` reports the arrangement instead.
                    return Found::Exact(entry.2.clone());
                }
                if entry.1.starts_with(pressed) {
                    prefix = true;
                }
            }
            i += 1;
        }
        if prefix {
            Found::Prefix
        } else {
            Found::Nothing
        }
    }

    /// What `pressed` finds from `context`: the most specific context that
    /// claims it decides, so a fallback cannot resolve a key out from under a
    /// sequence.
    pub fn lookup(&self, context: KeyContext, pressed: &[Chord], typing: bool) -> (out: Found)
        ensures
            out@ == found(self@, context, chord_views(pressed@), typing),
            typing && pressed@.len() > 0 && !survives(pressed@[0]@) ==> out@ is Nothing,
    {
        proof {
            use_type_invariant(self);
            assert forall|i: int| 0 <= i < self@.len() implies (#[trigger] self@[i]).1.len() > 0 by {
                assert(self@[i] == entry_view(self.entries@[i]));
            }
            if typing && pressed@.len() > 0 && !survives(pressed@[0]@) {
                lemma_typing_wins(self@, context, chord_views(pressed@));
            }
        }
        let chain = context.chain();
        let mut i: usize = 0;
        while i < chain.len()
            invariant
                i <= chain@.len(),
                chain@ == chain_of(context),
                typing && pressed@.len() > 0 && !survives(pressed@[0]@) ==> found(
                    self@,
                    context,
                    chord_views(pressed@),
                    typing,
                ) is Nothing,
                found(self@, context, chord_views(pressed@), typing) == found_along(
                    self@,
                    chain@,
                    i as int,
                    chord_views(pressed@),
                    typing,
                ),
            decreases chain@.len() - i,
        {
            let here = self.lookup_in(chain[i], pressed, typing);
            match here {
                Found::Nothing => {},
                _ => {
                    return here;
                },
            }
            i += 1;
        }
        Found::Nothing
    }
}

proof fn lemma_filter_len(entries: Seq<EntryView>, pred: spec_fn(EntryView) -> bool)
    ensures
        entries.filter(pred).len() <= entries.len(),
        (entries.filter(pred).len() != entries.len()) == exists|i: int|
            0 <= i < entries.len() && !pred(#[trigger] entries[i]),
    decreases entries.len(),
{
    reveal(Seq::filter);
    if entries.len() > 0 {
        let rest = entries.drop_last();
        lemma_filter_len(rest, pred);
        if exists|i: int| 0 <= i < rest.len() && !pred(#[trigger] rest[i]) {
            let i = choose|i: int| 0 <= i < rest.len() && !pred(#[trigger] rest[i]);
            assert(!pred(entries[i]));
        }
        if exists|i: int| 0 <= i < entries.len() && !pred(#[trigger] entries[i]) {
            let i = choose|i: int| 0 <= i < entries.len() && !pred(#[trigger] entries[i]);
            if i < rest.len() {
                assert(!pred(rest[i]));
            }
        }
        if !pred(entries.last()) {
            assert(!pred(entries[entries.len() - 1]));
        }
    }
}

/// The chord currently bound to a command, for rendering a native
/// accelerator.
///
/// A native menu is not in any one context, so a global binding wins;
/// otherwise the first context binding stands in. Only a single-chord binding
/// qualifies: `g g` cannot be drawn as an accelerator, and showing its first
/// half would be a lie. `None` means the menu item simply shows no key.
pub fn trigger_for_command(keymap: &Keymap, command: &str) -> (out: Option<Chord>)
    ensures
        match out {
            Some(chord) => trigger_from(keymap@, command@, 0, None) == Some(chord@),
            None => trigger_from(keymap@, command@, 0, None) is None,
        },
{
    let entries = keymap.entries();
    let mut fallback: Option<Chord> = None;
    let mut i: usize = 0;
    while i < entries.len()
        invariant
            i <= entries@.len(),
            shown(entries@) == keymap@,
            entries@.len() == keymap@.len(),
            trigger_from(keymap@, command@, 0, None) == trigger_from(
                keymap@,
                command@,
                i as int,
                match fallback {
                    Some(chord) => Some(chord@),
                    None => None,
                },
            ),
        decreases entries@.len() - i,
    {
        let entry = &entries[i];
        assert(keymap@[i as int] == shown_view(*entry));
        if same_text(entry.2, command) && entry.1.len() == 1 {
            if entry.0 == KeyContext::Global {
                return Some(*entry.1.first());
            }
            if fallback.is_none() {
                fallback = Some(*entry.1.first());
            }
        }
        i += 1;
    }
    fallback
}

/// Typing always wins: while a text field has focus, presses that start with
/// a chord the field would take find nothing, in any context and whatever is
/// bound.
pub proof fn lemma_typing_wins(
    entries: Seq<EntryView>,
    context: KeyContext,
    pressed: Seq<ChordView>,
)
    requires
        forall|i: int| 0 <= i < entries.len() ==> (#[trigger] entries[i]).1.len() > 0,
        pressed.len() > 0,
        !survives(pressed[0]),
    ensures
        found(entries, context, pressed, true) is Nothing,
{
    lemma_typing_wins_along(entries, chain_of(context), 0, pressed);
}

proof fn lemma_typing_wins_along(
    entries: Seq<EntryView>,
    chain: Seq<KeyContext>,
    from: int,
    pressed: Seq<ChordView>,
)
    requires
        forall|i: int| 0 <= i < entries.len() ==> (#[trigger] entries[i]).1.len() > 0,
        pressed.len() > 0,
        !survives(pressed[0]),
        0 <= from,
    ensures
        found_along(entries, chain, from, pressed, true) is Nothing,
    decreases chain.len() - from,
{
    if from < chain.len() {
        lemma_no_exact(entries, chain[from], pressed, 0);
        assert forall|i: int| 0 <= i < entries.len() implies !(takes_part(
            #[trigger] entries[i],
            chain[from],
            true,
        ) && goes_on(entries[i].1, pressed)) by {
            if goes_on(entries[i].1, pressed) {
                assert(entries[i].1.take(pressed.len() as int)[0] == pressed[0]);
            }
        }
        lemma_typing_wins_along(entries, chain, from + 1, pressed);
    }
}

proof fn lemma_no_exact(
    entries: Seq<EntryView>,
    context: KeyContext,
    pressed: Seq<ChordView>,
    from: int,
)
    requires
        pressed.len() > 0,
        !survives(pressed[0]),
        0 <= from,
    ensures
        exact_in(entries, context, pressed, true, from) is None,
    decreases entries.len() - from,
{
    if from < entries.len() {
        lemma_no_exact(entries, context, pressed, from + 1);
    }
}

/// A command that was just bound runs when its chords are pressed in its
/// context, whatever was bound there before.
pub proof fn lemma_bound_command_runs(
    entries: Seq<EntryView>,
    context: KeyContext,
    chords: Seq<ChordView>,
    command: Seq<char>,
)
    ensures
        found(rebound(entries, context, chords, command), context, chords, false)
            == FoundView::Exact(command),
{
    let after = rebound(entries, context, chords, command);
    let kept = entries.filter(not_bound_to(context, chords));
    lemma_kept(entries, context, chords);
    lemma_exact_is_last(after, context, chords, false, 0);
    assert(chain_of(context)[0] == context);
}

/// A binding taken out runs nothing in its context any more.
pub proof fn lemma_unbound_runs_nothing(
    entries: Seq<EntryView>,
    context: KeyContext,
    chords: Seq<ChordView>,
    typing: bool,
)
    ensures
        exact_in(entries.filter(not_bound_to(context, chords)), context, chords, typing, 0) is None,
{
    lemma_kept(entries, context, chords);
    lemma_exact_absent(entries.filter(not_bound_to(context, chords)), context, chords, typing, 0);
}

proof fn lemma_kept(entries: Seq<EntryView>, context: KeyContext, chords: Seq<ChordView>)
    ensures
        forall|i: int|
            0 <= i < entries.filter(not_bound_to(context, chords)).len() ==> !((
            #[trigger] entries.filter(not_bound_to(context, chords))[i]).0 == context
                && entries.filter(not_bound_to(context, chords))[i].1 == chords),
    decreases entries.len(),
{
    reveal(Seq::filter);
    if entries.len() > 0 {
        lemma_kept(entries.drop_last(), context, chords);
    }
}

proof fn lemma_exact_absent(
    entries: Seq<EntryView>,
    context: KeyContext,
    chords: Seq<ChordView>,
    typing: bool,
    from: int,
)
    requires
        0 <= from,
        forall|i: int|
            0 <= i < entries.len() ==> !((#[trigger] entries[i]).0 == context && entries[i].1
                == chords),
    ensures
        exact_in(entries, context, chords, typing, from) is None,
    decreases entries.len() - from,
{
    if from < entries.len() {
        lemma_exact_absent(entries, context, chords, typing, from + 1);
    }
}

proof fn lemma_exact_is_last(
    entries: Seq<EntryView>,
    context: KeyContext,
    chords: Seq<ChordView>,
    typing: bool,
    from: int,
)
    requires
        0 <= from < entries.len(),
        forall|i: int|
            0 <= i < entries.len() - 1 ==> !((#[trigger] entries[i]).0 == context && entries[i].1
                == chords),
        takes_part(entries.last(), context, typing),
        entries.last().1 == chords,
    ensures
        exact_in(entries, context, chords, typing, from) == Some(entries.last().2),
    decreases entries.len() - from,
{
    if from < entries.len() - 1 {
        lemma_exact_is_last(entries, context, chords, typing, from + 1);
    }
}

// ---------------------------------------------------------------------------
// From the command registry
// ---------------------------------------------------------------------------

/// One thing to bind: where, the binding as written, and the command.
pub type Request = (KeyContext, Seq<char>, Seq<char>);

/// A table being built, and what went wrong.
pub struct BuildView {
    /// The entries so far.
    pub entries: Seq<EntryView>,
    /// What could not be bound, as sentences.
    pub problems: Seq<Seq<char>>,
}

/// What is said of a binding that cannot be read.
pub open spec fn bind_problem(request: Request, error: ParseErrorView) -> Seq<char> {
    "`"@ + request.1 + "` cannot be used for `"@ + request.2 + "`: "@ + error_text(error)
}

/// One request carried out.
pub open spec fn bound_one(state: BuildView, request: Request) -> BuildView {
    match read_binding(request.1) {
        Ok(chords) => BuildView {
            entries: rebound(state.entries, request.0, chords, request.2),
            ..state
        },
        Err(error) => BuildView {
            problems: state.problems.push(bind_problem(request, error)),
            ..state
        },
    }
}

/// Every request carried out, in order.
pub open spec fn bound_all(state: BuildView, requests: Seq<Request>) -> BuildView
    decreases requests.len(),
{
    if requests.len() == 0 {
        state
    } else {
        bound_one(bound_all(state, requests.drop_last()), requests.last())
    }
}

/// The contexts a command is bound in: the global one alone when it is
/// reachable everywhere.
pub open spec fn contexts_of(action: BoundAction) -> Seq<KeyContext> {
    if action.anywhere {
        seq![KeyContext::Global]
    } else {
        action.contexts@.map_values(|context: Context| key_context(context))
    }
}

/// `binding` in each of `contexts`.
pub open spec fn requests_in(
    contexts: Seq<KeyContext>,
    binding: Seq<char>,
    id: Seq<char>,
) -> Seq<Request> {
    contexts.map_values(|context: KeyContext| (context, binding, id))
}

/// The first `n` bindings of `action`, each in each of its contexts.
pub open spec fn requests_of(action: BoundAction, n: int) -> Seq<Request>
    decreases n,
{
    if n <= 0 {
        Seq::empty()
    } else {
        requests_of(action, n - 1) + requests_in(
            contexts_of(action),
            action.bindings@[n - 1]@,
            action.id@,
        )
    }
}

/// Every binding of the first `n` actions.
pub open spec fn requests_from(actions: Seq<BoundAction>, n: int) -> Seq<Request>
    decreases n,
{
    if n <= 0 {
        Seq::empty()
    } else {
        requests_from(actions, n - 1) + requests_of(
            actions[n - 1],
            actions[n - 1].bindings@.len() as int,
        )
    }
}

/// The table the registry makes, and what went wrong.
pub open spec fn built_from(actions: Seq<BoundAction>) -> BuildView {
    bound_all(
        BuildView { entries: Seq::empty(), problems: Seq::empty() },
        requests_from(actions, actions.len() as int),
    )
}

proof fn lemma_bound_all(state: BuildView, first: Seq<Request>, second: Seq<Request>)
    ensures
        bound_all(state, first + second) == bound_all(bound_all(state, first), second),
    decreases second.len(),
{
    if second.len() == 0 {
        assert(first + second =~= first);
    } else {
        let whole = first + second;
        assert(whole.drop_last() =~= first + second.drop_last());
        assert(whole.last() == second.last());
        lemma_bound_all(state, first, second.drop_last());
    }
}

/// The contexts a command is bound in.
fn action_contexts(action: &BoundAction) -> (out: Vec<KeyContext>)
    ensures
        out@ == contexts_of(*action),
{
    if action.anywhere {
        let out = vec![KeyContext::Global];
        assert(out@ =~= contexts_of(*action));
        return out;
    }
    let mut out: Vec<KeyContext> = Vec::new();
    let mut i: usize = 0;
    while i < action.contexts.len()
        invariant
            !action.anywhere,
            i <= action.contexts@.len(),
            out@ == contexts_of(*action).take(i as int),
        decreases action.contexts@.len() - i,
    {
        out.push(KeyContext::from(action.contexts[i]));
        i += 1;
        assert(out@ =~= contexts_of(*action).take(i as int));
    }
    assert(out@ =~= contexts_of(*action));
    out
}

impl Keymap {
    /// Bind one thing, noting what is wrong with it if it cannot be read.
    fn bind_or_note(
        &mut self,
        context: KeyContext,
        binding: &str,
        id: &str,
        problems: &mut Vec<String>,
    )
        ensures
            (BuildView { entries: final(self)@, problems: texts(final(problems)@) }) == bound_one(
                BuildView { entries: old(self)@, problems: texts(old(problems)@) },
                (context, binding@, id@),
            ),
    {
        let ghost noted = texts(problems@);
        match self.bind(context, binding, id) {
            Ok(_) => {},
            Err(error) => {
                let mut problem = "`".to_owned();
                problem.append(binding);
                problem.append("` cannot be used for `");
                problem.append(id);
                problem.append("`: ");
                problem.append(error.to_string().as_str());
                let ghost said = problem@;
                problems.push(problem);
                proof {
                    assert(said =~= bind_problem((context, binding@, id@), error@));
                    assert(texts(problems@) =~= noted.push(said));
                }
            },
        }
    }

    /// Builds the whole binding table from the command registry, which has
    /// already resolved the user's overrides and dropped collisions.
    ///
    /// A command reachable in every context is bound once, globally, so a
    /// fallback context can still claim the key for something more specific.
    ///
    /// Returns the table and whatever could not be parsed. A binding this
    /// build cannot read costs its command a key and is reported; it never
    /// stops the application.
    pub fn from_commands(commands: &CommandKeymap) -> (out: (Self, Vec<String>))
        ensures
            (BuildView { entries: out.0@, problems: texts(out.1@) }) == built_from(
                commands.actions@,
            ),
    {
        let mut keymap = Keymap::new();
        let mut problems: Vec<String> = Vec::new();
        let ghost empty = BuildView { entries: Seq::empty(), problems: Seq::empty() };
        let mut a: usize = 0;
        assert(texts(problems@) =~= Seq::<Seq<char>>::empty());
        assert(keymap@ =~= Seq::<EntryView>::empty());
        while a < commands.actions.len()
            invariant
                a <= commands.actions@.len(),
                (BuildView { entries: keymap@, problems: texts(problems@) }) == bound_all(
                    empty,
                    requests_from(commands.actions@, a as int),
                ),
            decreases commands.actions@.len() - a,
        {
            let action = &commands.actions[a];
            let contexts = action_contexts(action);
            let ghost before = requests_from(commands.actions@, a as int);
            let mut b: usize = 0;
            assert(before + Seq::<Request>::empty() =~= before);
            while b < action.bindings.len()
                invariant
                    contexts@ == contexts_of(*action),
                    b <= action.bindings@.len(),
                    (BuildView { entries: keymap@, problems: texts(problems@) }) == bound_all(
                        empty,
                        before + requests_of(*action, b as int),
                    ),
                decreases action.bindings@.len() - b,
            {
                let binding = action.bindings[b].as_str();
                let ghost done = before + requests_of(*action, b as int);
                let ghost wanted = requests_in(contexts@, binding@, action.id@);
                let mut c: usize = 0;
                assert(done + wanted.take(0) =~= done);
                while c < contexts.len()
                    invariant
                        wanted == requests_in(contexts@, binding@, action.id@),
                        c <= contexts@.len(),
                        (BuildView { entries: keymap@, problems: texts(problems@) }) == bound_all(
                            empty,
                            done + wanted.take(c as int),
                        ),
                    decreases contexts@.len() - c,
                {
                    keymap.bind_or_note(contexts[c], binding, action.id.as_str(), &mut problems);
                    c += 1;
                    proof {
                        let now = done + wanted.take(c as int);
                        assert(now.drop_last() =~= done + wanted.take(c - 1));
                        assert(now.last() == wanted[c - 1]);
                    }
                }
                b += 1;
                proof {
                    assert(wanted.take(contexts@.len() as int) =~= wanted);
                    assert(before + requests_of(*action, b as int) =~= done + wanted);
                }
            }
            a += 1;
        }
        (keymap, problems)
    }
}

} // verus!
