//! What a press finds: which bindings can matter where, and which of them wins.
use vstd::prelude::*;
use crate::keymap::chord::{chord_from_event, chord_of, chords_text, error_text, goes_on, holds, key_named};
use crate::keymap::chord::{modifier_named, read_chord, read_chords, read_modifiers, survives, ChordView, KeyView};
use crate::keymap::resolver::{shadow_problem, ResolverView};
use crate::keymap::table::{bind_problem, context_name, is_shadowed};
use crate::keymap::table::{bound_all, bound_one, built_from, contexts_of, exact_in, first_for, found, found_along};
use crate::keymap::table::{found_in, key_context, not_bound_to, prefix_in, rebound, requests_from, requests_in};
use crate::keymap::table::{requests_of, takes_part, trigger_from, BuildView, EntryView, FoundView, KeyContext, Request};
use crate::keymap::chord::{read_binding, ParseErrorView};
use crate::model::{BoundAction, Context};
use crate::text::{ascii_lower, control, has_text, has_white_space, joined, lemma_joined_splits_back, lemma_within};
use crate::text::{lemma_words, white_space, words_of};

verus! {

/// `entry` has a claim on `pressed`: it is bound to just that, or to something
/// that starts that way. While typing only what a text field leaves has.
pub open spec fn claims(entry: EntryView, pressed: Seq<ChordView>, typing: bool) -> bool {
    &&& entry.1 == pressed || (entry.1.len() > pressed.len() && entry.1.take(
        pressed.len() as int,
    ) == pressed)
    &&& typing ==> survives(entry.1[0])
}

/// A binding in `other` can matter where `context` has the keyboard: it is that
/// context or the global one, or a pane the context is layered over -- the
/// reading pane over the conversation, and both over the list.
pub open spec fn can_matter(context: KeyContext, other: KeyContext) -> bool {
    ||| other == context
    ||| other is Global
    ||| other is List && (context is Reader || context is Conversation)
    ||| other is Conversation && context is Reader
}

// ---------------------------------------------------------------------------
// One context
// ---------------------------------------------------------------------------

proof fn lemma_exact(
    entries: Seq<EntryView>,
    context: KeyContext,
    pressed: Seq<ChordView>,
    typing: bool,
    from: int,
)
    requires
        0 <= from,
    ensures
        match exact_in(entries, context, pressed, typing, from) {
            Some(command) => exists|i: int|
                from <= i < entries.len() && takes_part(#[trigger] entries[i], context, typing)
                    && entries[i].1 == pressed && entries[i].2 == command && forall|j: int|
                    from <= j < i ==> !(takes_part(#[trigger] entries[j], context, typing)
                        && entries[j].1 == pressed),
            None => forall|i: int|
                from <= i < entries.len() ==> !(takes_part(#[trigger] entries[i], context, typing)
                    && entries[i].1 == pressed),
        },
    decreases entries.len() - from,
{
    if from < entries.len() {
        if takes_part(entries[from], context, typing) && entries[from].1 == pressed {
            assert(entries[from].2 == exact_in(entries, context, pressed, typing, from)->0);
        } else {
            lemma_exact(entries, context, pressed, typing, from + 1);
            if exact_in(entries, context, pressed, typing, from + 1) is Some {
                let i = choose|i: int|
                    from + 1 <= i < entries.len() && takes_part(
                        #[trigger] entries[i],
                        context,
                        typing,
                    ) && entries[i].1 == pressed && entries[i].2 == exact_in(
                        entries,
                        context,
                        pressed,
                        typing,
                        from + 1,
                    )->0 && forall|j: int|
                        from + 1 <= j < i ==> !(takes_part(#[trigger] entries[j], context, typing)
                            && entries[j].1 == pressed);
                assert(takes_part(entries[i], context, typing));
            }
        }
    }
}

proof fn lemma_found_in(
    entries: Seq<EntryView>,
    context: KeyContext,
    pressed: Seq<ChordView>,
    typing: bool,
)
    ensures
        found_in(entries, context, pressed, typing) is Nothing <==> forall|i: int|
            0 <= i < entries.len() && (#[trigger] entries[i]).0 == context ==> !claims(
                entries[i],
                pressed,
                typing,
            ),
{
    lemma_exact(entries, context, pressed, typing, 0);
    if found_in(entries, context, pressed, typing) is Nothing {
        assert forall|i: int| 0 <= i < entries.len() && (#[trigger] entries[i]).0
            == context implies !claims(entries[i], pressed, typing) by {
            assert(!(takes_part(entries[i], context, typing) && entries[i].1 == pressed));
            assert(!(takes_part(entries[i], context, typing) && goes_on(entries[i].1, pressed)));
        }
    } else if forall|i: int|
        0 <= i < entries.len() && (#[trigger] entries[i]).0 == context ==> !claims(
            entries[i],
            pressed,
            typing,
        ) {
        match exact_in(entries, context, pressed, typing, 0) {
            Some(command) => {
                let i = choose|i: int|
                    0 <= i < entries.len() && takes_part(#[trigger] entries[i], context, typing)
                        && entries[i].1 == pressed && entries[i].2 == command && forall|j: int|
                        0 <= j < i ==> !(takes_part(#[trigger] entries[j], context, typing)
                            && entries[j].1 == pressed);
                assert(claims(entries[i], pressed, typing));
            },
            None => {
                let i = choose|i: int|
                    0 <= i < entries.len() && takes_part(#[trigger] entries[i], context, typing)
                        && goes_on(entries[i].1, pressed);
                assert(claims(entries[i], pressed, typing));
            },
        }
    }
}

// ---------------------------------------------------------------------------
// Which context decides
// ---------------------------------------------------------------------------

/// The context that has the keyboard decides before any other: when one of its
/// bindings has a claim, a binding to just those presses runs, the first of
/// them, and with only longer ones the sequence has started.
pub proof fn lemma_nearest_claim_decides(
    entries: Seq<EntryView>,
    context: KeyContext,
    pressed: Seq<ChordView>,
    typing: bool,
    k: int,
)
    requires
        0 <= k < entries.len(),
        entries[k].0 == context,
        claims(entries[k], pressed, typing),
    ensures
        match found(entries, context, pressed, typing) {
            FoundView::Exact(command) => exists|i: int|
                0 <= i < entries.len() && (#[trigger] entries[i]).0 == context && entries[i].1
                    == pressed && (typing ==> survives(pressed[0])) && entries[i].2 == command
                    && forall|j: int|
                    0 <= j < i ==> !((#[trigger] entries[j]).0 == context && entries[j].1 == pressed),
            FoundView::Prefix => forall|i: int|
                0 <= i < entries.len() ==> !((#[trigger] entries[i]).0 == context && entries[i].1
                    == pressed && (typing ==> survives(pressed[0]))),
            FoundView::Nothing => false,
        },
{
    lemma_found_in(entries, context, pressed, typing);
    lemma_exact(entries, context, pressed, typing, 0);
    match found(entries, context, pressed, typing) {
        FoundView::Exact(command) => {
            let i = choose|i: int|
                0 <= i < entries.len() && takes_part(#[trigger] entries[i], context, typing)
                    && entries[i].1 == pressed && entries[i].2 == command && forall|j: int|
                    0 <= j < i ==> !(takes_part(#[trigger] entries[j], context, typing)
                        && entries[j].1 == pressed);
            assert(entries[i].0 == context);
            assert forall|j: int| 0 <= j < i implies !((#[trigger] entries[j]).0 == context
                && entries[j].1 == pressed) by {
                assert(!(takes_part(entries[j], context, typing) && entries[j].1 == pressed));
            }
        },
        FoundView::Prefix => {
            assert forall|i: int| 0 <= i < entries.len() implies !((#[trigger] entries[i]).0
                == context && entries[i].1 == pressed && (typing ==> survives(pressed[0]))) by {
                assert(!(takes_part(entries[i], context, typing) && entries[i].1 == pressed));
            }
        },
        FoundView::Nothing => {},
    }
}

/// A press that nothing in its context has a claim on means what it means one
/// layer down: in the reading pane what it means in the conversation, in the
/// conversation what it means in the list, and anywhere else what it means
/// globally. Globally it then means nothing.
pub proof fn lemma_falls_back_one_layer(
    entries: Seq<EntryView>,
    context: KeyContext,
    pressed: Seq<ChordView>,
    typing: bool,
)
    requires
        forall|i: int|
            0 <= i < entries.len() && (#[trigger] entries[i]).0 == context ==> !claims(
                entries[i],
                pressed,
                typing,
            ),
    ensures
        context is Global ==> found(entries, context, pressed, typing) is Nothing,
        context is Reader ==> found(entries, context, pressed, typing) == found(
            entries,
            KeyContext::Conversation,
            pressed,
            typing,
        ),
        context is Conversation ==> found(entries, context, pressed, typing) == found(
            entries,
            KeyContext::List,
            pressed,
            typing,
        ),
        !(context is Global || context is Reader || context is Conversation) ==> found(
            entries,
            context,
            pressed,
            typing,
        ) == found(entries, KeyContext::Global, pressed, typing),
{
    reveal_with_fuel(found_along, 6);
    lemma_found_in(entries, context, pressed, typing);
}

/// Nothing is found exactly when nothing that can matter has a claim.
pub proof fn lemma_nothing_means_no_claim(
    entries: Seq<EntryView>,
    context: KeyContext,
    pressed: Seq<ChordView>,
    typing: bool,
)
    ensures
        found(entries, context, pressed, typing) is Nothing <==> forall|i: int|
            0 <= i < entries.len() && can_matter(context, (#[trigger] entries[i]).0) ==> !claims(
                entries[i],
                pressed,
                typing,
            ),
{
    reveal_with_fuel(found_along, 6);
    lemma_found_in(entries, context, pressed, typing);
    lemma_found_in(entries, KeyContext::Global, pressed, typing);
    lemma_found_in(entries, KeyContext::List, pressed, typing);
    lemma_found_in(entries, KeyContext::Conversation, pressed, typing);
}

// ---------------------------------------------------------------------------
// What cannot matter
// ---------------------------------------------------------------------------

/// Being an entry that can matter in `context`.
pub open spec fn matters_in(context: KeyContext) -> spec_fn(EntryView) -> bool {
    |entry: EntryView| can_matter(context, entry.0)
}

proof fn lemma_exact_grows(
    entries: Seq<EntryView>,
    entry: EntryView,
    context: KeyContext,
    pressed: Seq<ChordView>,
    typing: bool,
    from: int,
)
    requires
        0 <= from <= entries.len(),
    ensures
        exact_in(entries.push(entry), context, pressed, typing, from) == (match exact_in(
            entries,
            context,
            pressed,
            typing,
            from,
        ) {
            Some(command) => Some(command),
            None => if takes_part(entry, context, typing) && entry.1 == pressed {
                Some(entry.2)
            } else {
                None
            },
        }),
    decreases entries.len() - from,
{
    let more = entries.push(entry);
    if from < entries.len() {
        assert(more[from] == entries[from]);
        lemma_exact_grows(entries, entry, context, pressed, typing, from + 1);
    } else {
        assert(more[from] == entry);
        assert(exact_in(more, context, pressed, typing, from + 1) is None);
    }
}

proof fn lemma_prefix_grows(
    entries: Seq<EntryView>,
    entry: EntryView,
    context: KeyContext,
    pressed: Seq<ChordView>,
    typing: bool,
)
    ensures
        prefix_in(entries.push(entry), context, pressed, typing) == (prefix_in(
            entries,
            context,
            pressed,
            typing,
        ) || (takes_part(entry, context, typing) && goes_on(entry.1, pressed))),
{
    let more = entries.push(entry);
    if prefix_in(entries, context, pressed, typing) {
        let i = choose|i: int|
            0 <= i < entries.len() && takes_part(#[trigger] entries[i], context, typing) && goes_on(
                entries[i].1,
                pressed,
            );
        assert(takes_part(more[i], context, typing));
    }
    if takes_part(entry, context, typing) && goes_on(entry.1, pressed) {
        assert(takes_part(more[entries.len() as int], context, typing));
    }
    if prefix_in(more, context, pressed, typing) {
        let i = choose|i: int|
            0 <= i < more.len() && takes_part(#[trigger] more[i], context, typing) && goes_on(
                more[i].1,
                pressed,
            );
        if i < entries.len() {
            assert(takes_part(entries[i], context, typing));
        }
    }
}

proof fn lemma_found_in_part(
    entries: Seq<EntryView>,
    part: spec_fn(EntryView) -> bool,
    context: KeyContext,
    pressed: Seq<ChordView>,
    typing: bool,
)
    requires
        forall|entry: EntryView| entry.0 == context ==> #[trigger] part(entry),
    ensures
        exact_in(entries.filter(part), context, pressed, typing, 0) == exact_in(
            entries,
            context,
            pressed,
            typing,
            0,
        ),
        prefix_in(entries.filter(part), context, pressed, typing) == prefix_in(
            entries,
            context,
            pressed,
            typing,
        ),
    decreases entries.len(),
{
    reveal(Seq::filter);
    if entries.len() > 0 {
        let rest = entries.drop_last();
        let last = entries.last();
        assert(entries =~= rest.push(last));
        lemma_found_in_part(rest, part, context, pressed, typing);
        lemma_exact_grows(rest, last, context, pressed, typing, 0);
        lemma_prefix_grows(rest, last, context, pressed, typing);
        lemma_exact_grows(rest.filter(part), last, context, pressed, typing, 0);
        lemma_prefix_grows(rest.filter(part), last, context, pressed, typing);
    } else {
        assert(entries.filter(part) =~= entries);
    }
}

/// Only what can matter matters: a press finds the same over the whole table
/// as over its own context, the panes that is layered over, and the global
/// bindings. In the composer, the search bar, the palette, the folder list,
/// the parts panel and the two settings lists no binding of the list, the
/// conversation or the reading pane changes anything.
pub proof fn lemma_only_layers_matter(
    entries: Seq<EntryView>,
    context: KeyContext,
    pressed: Seq<ChordView>,
    typing: bool,
)
    ensures
        found(entries, context, pressed, typing) == found(
            entries.filter(matters_in(context)),
            context,
            pressed,
            typing,
        ),
        !(context is List || context is Conversation || context is Reader) ==> found(
            entries,
            context,
            pressed,
            typing,
        ) == found(
            entries.filter(|entry: EntryView| entry.0 == context || entry.0 is Global),
            context,
            pressed,
            typing,
        ),
{
    let part = matters_in(context);
    reveal_with_fuel(found_along, 6);
    lemma_found_in_part(entries, part, context, pressed, typing);
    lemma_found_in_part(entries, part, KeyContext::Global, pressed, typing);
    if context is Conversation || context is Reader {
        lemma_found_in_part(entries, part, KeyContext::List, pressed, typing);
    }
    if context is Reader {
        lemma_found_in_part(entries, part, KeyContext::Conversation, pressed, typing);
    }
    if !(context is List || context is Conversation || context is Reader) {
        let own = |entry: EntryView| entry.0 == context || entry.0 is Global;
        lemma_found_in_part(entries, own, context, pressed, typing);
        lemma_found_in_part(entries, own, KeyContext::Global, pressed, typing);
    }
}

/// The same of a press: what it runs or starts is decided by the bindings that
/// can matter where it was made, and by no others.
pub proof fn lemma_press_is_decided_by_its_layers(
    resolver: ResolverView,
    chord: ChordView,
    context: KeyContext,
    typing: bool,
    now: u64,
)
    ensures
        resolver.pressed(chord, context, typing, now).0 == (ResolverView {
            entries: resolver.entries.filter(matters_in(context)),
            ..resolver
        }).pressed(chord, context, typing, now).0,
{
    lemma_only_layers_matter(
        resolver.entries,
        context,
        resolver.pending_at(now).push(chord),
        typing,
    );
}

/// A press that runs a command ends the sequence; one that starts or goes on
/// with a sequence keeps what was pressed until the time for it is up; and no
/// press changes the table.
pub proof fn lemma_what_a_press_leaves(
    resolver: ResolverView,
    chord: ChordView,
    context: KeyContext,
    typing: bool,
    now: u64,
    later: u64,
)
    requires
        later >= now,
    ensures
        ({
            let (outcome, after) = resolver.pressed(chord, context, typing, now);
            &&& after.entries == resolver.entries && after.timeout == resolver.timeout
            &&& !(outcome is Pending) ==> after.pending_at(later).len() == 0
            &&& outcome is Pending ==> after.pending_at(later) == (if later >= now
                + resolver.timeout {
                Seq::empty()
            } else {
                resolver.pending_at(now).push(chord)
            })
        }),
{
}

// ---------------------------------------------------------------------------
// Reading the table
// ---------------------------------------------------------------------------

/// `entry` binds `command` in `context`.
pub open spec fn is_bound(entry: EntryView, context: KeyContext, command: Seq<char>) -> bool {
    entry.0 == context && entry.2 == command
}

/// Entry `i` is the first from `from` on that binds `command` in `context`.
pub open spec fn first_bound(
    entries: Seq<EntryView>,
    context: KeyContext,
    command: Seq<char>,
    from: int,
    i: int,
) -> bool {
    &&& from <= i < entries.len()
    &&& is_bound(entries[i], context, command)
    &&& forall|j: int| from <= j < i ==> !is_bound(#[trigger] entries[j], context, command)
}

proof fn lemma_first_for(
    entries: Seq<EntryView>,
    context: KeyContext,
    command: Seq<char>,
    from: int,
)
    requires
        0 <= from,
    ensures
        match first_for(entries, context, command, from) {
            Some(chords) => exists|i: int| #[trigger]
                first_bound(entries, context, command, from, i) && entries[i].1 == chords,
            None => forall|i: int|
                from <= i < entries.len() ==> !is_bound(#[trigger] entries[i], context, command),
        },
    decreases entries.len() - from,
{
    if from < entries.len() {
        if is_bound(entries[from], context, command) {
            assert(first_bound(entries, context, command, from, from));
        } else {
            lemma_first_for(entries, context, command, from + 1);
            if first_for(entries, context, command, from + 1) is Some {
                let i = choose|i: int| #[trigger]
                    first_bound(entries, context, command, from + 1, i) && Some(entries[i].1)
                        == first_for(entries, context, command, from + 1);
                assert(first_bound(entries, context, command, from, i));
            }
        }
    }
}

/// The binding shown for a command in a context is the first one it has there,
/// and none is shown exactly when it has none.
pub proof fn lemma_binding_is_the_first(
    entries: Seq<EntryView>,
    context: KeyContext,
    command: Seq<char>,
)
    ensures
        match first_for(entries, context, command, 0) {
            Some(chords) => exists|i: int| #[trigger]
                first_bound(entries, context, command, 0, i) && entries[i].1 == chords,
            None => forall|i: int|
                0 <= i < entries.len() ==> !is_bound(#[trigger] entries[i], context, command),
        },
{
    lemma_first_for(entries, context, command, 0);
}

/// `entry` binds `command` to one chord, which a menu can draw.
pub open spec fn drawable(entry: EntryView, command: Seq<char>) -> bool {
    entry.2 == command && entry.1.len() == 1
}

/// `entry` binds `command` to one chord, globally.
pub open spec fn drawable_anywhere(entry: EntryView, command: Seq<char>) -> bool {
    drawable(entry, command) && entry.0 is Global
}

/// Entry `i` is the first from `from` on that a menu can draw for `command`,
/// of the global ones if `anywhere`.
pub open spec fn first_drawable(
    entries: Seq<EntryView>,
    command: Seq<char>,
    anywhere: bool,
    from: int,
    i: int,
) -> bool {
    &&& from <= i < entries.len()
    &&& drawable(entries[i], command)
    &&& anywhere ==> entries[i].0 is Global
    &&& forall|j: int|
        from <= j < i ==> !(drawable(#[trigger] entries[j], command) && (anywhere ==> entries[j].0
            is Global))
}

/// No global binding of `command` from `from` on is of one chord.
pub open spec fn no_global(entries: Seq<EntryView>, command: Seq<char>, from: int) -> bool {
    forall|j: int|
        from <= j < entries.len() ==> !drawable_anywhere(#[trigger] entries[j], command)
}

proof fn lemma_trigger(
    entries: Seq<EntryView>,
    command: Seq<char>,
    from: int,
    fallback: Option<ChordView>,
)
    requires
        0 <= from,
    ensures
        match trigger_from(entries, command, from, fallback) {
            Some(chord) => {
                ||| exists|i: int| #[trigger]
                    first_drawable(entries, command, true, from, i) && entries[i].1[0] == chord
                ||| fallback == Some(chord) && no_global(entries, command, from)
                ||| fallback is None && no_global(entries, command, from) && exists|i: int|
                    #[trigger] first_drawable(entries, command, false, from, i) && entries[i].1[0]
                        == chord
            },
            None => fallback is None && forall|i: int|
                from <= i < entries.len() ==> !drawable(#[trigger] entries[i], command),
        },
    decreases entries.len() - from,
{
    if from < entries.len() {
        let here = entries[from];
        let out = trigger_from(entries, command, from, fallback);
        let next = if drawable(here, command) && fallback is None {
            Some(here.1[0])
        } else {
            fallback
        };
        if drawable_anywhere(here, command) {
            assert(first_drawable(entries, command, true, from, from));
        } else {
            lemma_trigger(entries, command, from + 1, next);
            assert(out == trigger_from(entries, command, from + 1, next));
            if let Some(chord) = out {
                if exists|i: int| #[trigger]
                    first_drawable(entries, command, true, from + 1, i) && entries[i].1[0] == chord {
                    let i = choose|i: int| #[trigger]
                        first_drawable(entries, command, true, from + 1, i) && entries[i].1[0] == chord;
                    assert(first_drawable(entries, command, true, from, i));
                } else if drawable(here, command) && fallback is None {
                    assert(next == Some(chord));
                    assert(no_global(entries, command, from));
                    assert(first_drawable(entries, command, false, from, from));
                } else if next == Some(chord) {
                    assert(no_global(entries, command, from));
                } else {
                    let i = choose|i: int| #[trigger]
                        first_drawable(entries, command, false, from + 1, i) && entries[i].1[0]
                            == chord;
                    assert(first_drawable(entries, command, false, from, i));
                    assert(no_global(entries, command, from));
                }
            }
        }
    }
}

/// A menu draws the first global binding of one chord a command has, and the
/// first other one only where there is no global one; it draws nothing exactly
/// when the command has no binding of one chord.
pub proof fn lemma_menu_draws_a_live_key(entries: Seq<EntryView>, command: Seq<char>)
    ensures
        match trigger_from(entries, command, 0, None) {
            Some(chord) => if no_global(entries, command, 0) {
                exists|i: int| #[trigger]
                    first_drawable(entries, command, false, 0, i) && entries[i].1[0] == chord
            } else {
                exists|i: int| #[trigger]
                    first_drawable(entries, command, true, 0, i) && entries[i].1[0] == chord
            },
            None => forall|i: int|
                0 <= i < entries.len() ==> !drawable(#[trigger] entries[i], command),
        },
{
    lemma_trigger(entries, command, 0, None);
    if let Some(chord) = trigger_from(entries, command, 0, None) {
        if exists|i: int| #[trigger]
            first_drawable(entries, command, true, 0, i) && entries[i].1[0] == chord {
            let i = choose|i: int| #[trigger]
                first_drawable(entries, command, true, 0, i) && entries[i].1[0] == chord;
            assert(drawable_anywhere(entries[i], command));
            assert(!no_global(entries, command, 0));
        }
    }
}

// ---------------------------------------------------------------------------
// From the registry
// ---------------------------------------------------------------------------

/// Each of the runtime's contexts is the resolver's context of the same name,
/// and none of them is the global one.
pub proof fn lemma_contexts_correspond(context: Context, other: Context)
    ensures
        !(key_context(context) is Global),
        key_context(context) == key_context(other) ==> context == other,
        key_context(context) is List <==> context is List,
        key_context(context) is Conversation <==> context is Conversation,
        key_context(context) is Reader <==> context is Reader,
        key_context(context) is Composer <==> context is Composer,
        key_context(context) is Search <==> context is Search,
        key_context(context) is Palette <==> context is Palette,
        key_context(context) is Sidebar <==> context is Sidebar,
        key_context(context) is Parts <==> context is Parts,
        key_context(context) is Accounts <==> context is Accounts,
        key_context(context) is Keys <==> context is Keys,
{
}

/// `request` asks for something `action` was given: one of its bindings, for
/// its command, globally if it is reachable everywhere and else in one of its
/// contexts.
pub open spec fn asked_by(request: Request, action: BoundAction) -> bool {
    &&& request.2 == action.id@
    &&& exists|b: int| 0 <= b < action.bindings@.len() && (#[trigger] action.bindings@[b])@ == request.1
    &&& if action.anywhere {
        request.0 is Global
    } else {
        exists|c: int|
            0 <= c < action.contexts@.len() && key_context(#[trigger] action.contexts@[c])
                == request.0
    }
}

proof fn lemma_requests_of(action: BoundAction, n: int, k: int)
    requires
        0 <= n <= action.bindings@.len(),
        0 <= k < requests_of(action, n).len(),
    ensures
        asked_by(requests_of(action, n)[k], action),
    decreases n,
{
    let before = requests_of(action, n - 1);
    let here = requests_in(contexts_of(action), action.bindings@[n - 1]@, action.id@);
    let all = requests_of(action, n);
    if k < before.len() {
        lemma_requests_of(action, n - 1, k);
        assert(all[k] == before[k]);
    } else {
        let c = k - before.len();
        assert(all[k] == here[c]);
        assert(action.bindings@[n - 1]@ == all[k].1);
        if !action.anywhere {
            assert(key_context(action.contexts@[c]) == all[k].0);
        }
    }
}

proof fn lemma_requests_from(actions: Seq<BoundAction>, n: int, k: int)
    requires
        0 <= n <= actions.len(),
        0 <= k < requests_from(actions, n).len(),
    ensures
        exists|a: int|
            0 <= a < actions.len() && asked_by(requests_from(actions, n)[k], #[trigger] actions[a]),
    decreases n,
{
    let before = requests_from(actions, n - 1);
    let here = requests_of(actions[n - 1], actions[n - 1].bindings@.len() as int);
    let all = requests_from(actions, n);
    if k < before.len() {
        lemma_requests_from(actions, n - 1, k);
        assert(all[k] == before[k]);
    } else {
        lemma_requests_of(actions[n - 1], actions[n - 1].bindings@.len() as int, k - before.len());
        assert(all[k] == here[k - before.len()]);
        assert(asked_by(all[k], actions[n - 1]));
    }
}

proof fn lemma_rebound_members(
    entries: Seq<EntryView>,
    context: KeyContext,
    chords: Seq<ChordView>,
    k: int,
)
    requires
        0 <= k < entries.filter(not_bound_to(context, chords)).len(),
    ensures
        entries.contains(entries.filter(not_bound_to(context, chords))[k]),
    decreases entries.len(),
{
    reveal(Seq::filter);
    let rest = entries.drop_last();
    let kept = rest.filter(not_bound_to(context, chords));
    if k < kept.len() {
        lemma_rebound_members(rest, context, chords, k);
        let entry = kept[k];
        let i = choose|i: int| 0 <= i < rest.len() && rest[i] == entry;
        assert(entries[i] == entry);
    } else {
        assert(entries[entries.len() - 1] == entries.filter(not_bound_to(context, chords))[k]);
    }
}

/// `text` reads as `chords`.
pub open spec fn reads(text: Seq<char>, chords: Seq<ChordView>) -> bool {
    read_binding(text) == Ok::<Seq<ChordView>, ParseErrorView>(chords)
}

/// `entry` is what `request` asks for.
pub open spec fn entry_for(entry: EntryView, request: Request) -> bool {
    entry.0 == request.0 && entry.2 == request.2 && reads(request.1, entry.1)
}

proof fn lemma_bound_entries(requests: Seq<Request>, k: int)
    requires
        0 <= k < bound_all(
            BuildView { entries: Seq::empty(), problems: Seq::empty() },
            requests,
        ).entries.len(),
    ensures
        exists|r: int|
            0 <= r < requests.len() && entry_for(
                bound_all(
                    BuildView { entries: Seq::empty(), problems: Seq::empty() },
                    requests,
                ).entries[k],
                #[trigger] requests[r],
            ),
    decreases requests.len(),
{
    let empty = BuildView { entries: Seq::empty(), problems: Seq::empty() };
    if requests.len() > 0 {
        let rest = requests.drop_last();
        let request = requests.last();
        let before = bound_all(empty, rest);
        let after = bound_all(empty, requests);
        assert(after == bound_one(before, request));
        assert(requests[requests.len() - 1] == request);
        let entry = after.entries[k];
        match read_binding(request.1) {
            Ok(chords) => {
                let kept = before.entries.filter(not_bound_to(request.0, chords));
                assert(after.entries == rebound(before.entries, request.0, chords, request.2));
                if k < kept.len() {
                    lemma_rebound_members(before.entries, request.0, chords, k);
                    let j = choose|j: int| 0 <= j < before.entries.len() && before.entries[j] == entry;
                    lemma_bound_entries(rest, j);
                    let r = choose|r: int|
                        0 <= r < rest.len() && entry_for(before.entries[j], #[trigger] rest[r]);
                    assert(requests[r] == rest[r]);
                } else {
                    assert(entry_for(entry, requests[requests.len() - 1]));
                }
            },
            Err(_) => {
                lemma_bound_entries(rest, k);
                let r = choose|r: int| 0 <= r < rest.len() && entry_for(entry, #[trigger] rest[r]);
                assert(requests[r] == rest[r]);
            },
        }
    }
}

/// Nothing is in the table that the registry did not ask for: every entry is
/// one of a command's bindings, read, in a context the command is reachable in
/// -- the global one for a command reachable everywhere.
pub proof fn lemma_table_is_the_registrys(actions: Seq<BoundAction>, k: int)
    requires
        0 <= k < built_from(actions).entries.len(),
    ensures
        exists|a: int, request: Request|
            0 <= a < actions.len() && #[trigger] asked_by(request, actions[a]) && entry_for(
                built_from(actions).entries[k],
                request,
            ),
{
    let requests = requests_from(actions, actions.len() as int);
    lemma_bound_entries(requests, k);
    let r = choose|r: int|
        0 <= r < requests.len() && entry_for(built_from(actions).entries[k], #[trigger] requests[r]);
    lemma_requests_from(actions, actions.len() as int, r);
    let a = choose|a: int| 0 <= a < actions.len() && asked_by(requests[r], #[trigger] actions[a]);
    assert(asked_by(requests[r], actions[a]));
}

proof fn lemma_bound_stays(requests: Seq<Request>, r: int, chords: Seq<ChordView>)
    requires
        0 <= r < requests.len(),
        reads(requests[r].1, chords),
        forall|j: int|
            r < j < requests.len() ==> !((#[trigger] requests[j]).0 == requests[r].0
                && reads(requests[j].1, chords)),
    ensures
        bound_all(
            BuildView { entries: Seq::empty(), problems: Seq::empty() },
            requests,
        ).entries.contains((requests[r].0, chords, requests[r].2)),
    decreases requests.len(),
{
    let empty = BuildView { entries: Seq::empty(), problems: Seq::empty() };
    let rest = requests.drop_last();
    let before = bound_all(empty, rest);
    let after = bound_all(empty, requests);
    let entry = (requests[r].0, chords, requests[r].2);
    if r == requests.len() - 1 {
        assert(after.entries.last() == entry);
        assert(after.entries[after.entries.len() - 1] == entry);
    } else {
        let last = requests[requests.len() - 1];
        assert forall|j: int| r < j < rest.len() implies !((#[trigger] rest[j]).0 == rest[r].0
            && reads(rest[j].1, chords)) by {
            assert(rest[j] == requests[j]);
        }
        lemma_bound_stays(rest, r, chords);
        assert(before.entries.contains(entry));
        match read_binding(last.1) {
            Ok(other) => {
                lemma_kept_member(before.entries, not_bound_to(last.0, other), entry);
                let kept = before.entries.filter(not_bound_to(last.0, other));
                let i = choose|i: int| 0 <= i < kept.len() && kept[i] == entry;
                assert(after.entries[i] == entry);
            },
            Err(_) => {},
        }
    }
}

proof fn lemma_kept_member(entries: Seq<EntryView>, pred: spec_fn(EntryView) -> bool, entry: EntryView)
    requires
        entries.contains(entry),
        pred(entry),
    ensures
        entries.filter(pred).contains(entry),
    decreases entries.len(),
{
    reveal(Seq::filter);
    let rest = entries.drop_last();
    let i = choose|i: int| 0 <= i < entries.len() && entries[i] == entry;
    if i < rest.len() {
        assert(rest[i] == entry);
        lemma_kept_member(rest, pred, entry);
        let k = choose|k: int| 0 <= k < rest.filter(pred).len() && rest.filter(pred)[k] == entry;
        assert(entries.filter(pred)[k] == entry);
    } else {
        assert(entries.filter(pred).last() == entry);
        assert(entries.filter(pred)[entries.filter(pred).len() - 1] == entry);
    }
}

proof fn lemma_problems_counted(requests: Seq<Request>)
    ensures
        bound_all(
            BuildView { entries: Seq::empty(), problems: Seq::empty() },
            requests,
        ).problems.len() == unreadable(requests),
    decreases requests.len(),
{
    if requests.len() > 0 {
        lemma_problems_counted(requests.drop_last());
    }
}

/// How many of the requests cannot be read.
pub open spec fn unreadable(requests: Seq<Request>) -> nat
    decreases requests.len(),
{
    if requests.len() == 0 {
        0
    } else {
        unreadable(requests.drop_last()) + (if read_binding(requests.last().1) is Err {
            1nat
        } else {
            0
        })
    }
}

/// A binding that can be read is in the table, unless a later one took the same
/// presses in the same context; and each one that cannot be read is reported,
/// once.
pub proof fn lemma_registry_is_carried_out(actions: Seq<BoundAction>, r: int, chords: Seq<ChordView>)
    requires
        ({
            let requests = requests_from(actions, actions.len() as int);
            &&& 0 <= r < requests.len()
            &&& reads(requests[r].1, chords)
            &&& forall|j: int|
                r < j < requests.len() ==> !((#[trigger] requests[j]).0 == requests[r].0
                    && reads(requests[j].1, chords))
        }),
    ensures
        ({
            let requests = requests_from(actions, actions.len() as int);
            &&& built_from(actions).entries.contains((requests[r].0, chords, requests[r].2))
            &&& built_from(actions).problems.len() == unreadable(requests)
        }),
{
    let requests = requests_from(actions, actions.len() as int);
    lemma_bound_stays(requests, r, chords);
    lemma_problems_counted(requests);
}

/// Every binding of every action is asked for, in each of its contexts.
pub proof fn lemma_every_binding_is_asked_for(actions: Seq<BoundAction>, a: int, request: Request)
    requires
        0 <= a < actions.len(),
        asked_by(request, actions[a]),
    ensures
        requests_from(actions, actions.len() as int).contains(request),
{
    lemma_asked_of(actions[a], request);
    lemma_asked_from(actions, actions.len() as int, a, request);
}

proof fn lemma_asked_of(action: BoundAction, request: Request)
    requires
        asked_by(request, action),
    ensures
        requests_of(action, action.bindings@.len() as int).contains(request),
{
    let b = choose|b: int| 0 <= b < action.bindings@.len() && (#[trigger] action.bindings@[b])@ == request.1;
    let here = requests_in(contexts_of(action), action.bindings@[b]@, action.id@);
    let c = if action.anywhere {
        0int
    } else {
        choose|c: int|
            0 <= c < action.contexts@.len() && key_context(#[trigger] action.contexts@[c])
                == request.0
    };
    assert(contexts_of(action)[c] == request.0);
    assert(here[c] == request);
    lemma_asked_up_to(action, action.bindings@.len() as int, b, c, request);
}

proof fn lemma_asked_up_to(action: BoundAction, n: int, b: int, c: int, request: Request)
    requires
        0 <= b < n <= action.bindings@.len(),
        0 <= c < contexts_of(action).len(),
        requests_in(contexts_of(action), action.bindings@[b]@, action.id@)[c] == request,
    ensures
        requests_of(action, n).contains(request),
    decreases n,
{
    let before = requests_of(action, n - 1);
    let all = requests_of(action, n);
    if b == n - 1 {
        assert(all[before.len() + c] == request);
    } else {
        lemma_asked_up_to(action, n - 1, b, c, request);
        let k = choose|k: int| 0 <= k < before.len() && before[k] == request;
        assert(all[k] == request);
    }
}

proof fn lemma_asked_from(actions: Seq<BoundAction>, n: int, a: int, request: Request)
    requires
        0 <= a < n <= actions.len(),
        requests_of(actions[a], actions[a].bindings@.len() as int).contains(request),
    ensures
        requests_from(actions, n).contains(request),
    decreases n,
{
    let before = requests_from(actions, n - 1);
    let here = requests_of(actions[n - 1], actions[n - 1].bindings@.len() as int);
    let all = requests_from(actions, n);
    if a == n - 1 {
        let k = choose|k: int| 0 <= k < here.len() && here[k] == request;
        assert(all[before.len() + k] == request);
    } else {
        lemma_asked_from(actions, n - 1, a, request);
        let k = choose|k: int| 0 <= k < before.len() && before[k] == request;
        assert(all[k] == request);
    }
}

// ---------------------------------------------------------------------------
// Bindings that can never fire
// ---------------------------------------------------------------------------

/// A binding can never fire exactly when a shorter one in its own context is
/// how it starts, chord by chord.
pub proof fn lemma_what_is_shadowed(entries: Seq<EntryView>, entry: EntryView)
    ensures
        is_shadowed(entries, entry) <==> exists|i: int|
            0 <= i < entries.len() && (#[trigger] entries[i]).0 == entry.0 && entries[i].1.len()
                < entry.1.len() && forall|k: int|
                0 <= k < entries[i].1.len() ==> entries[i].1[k] == #[trigger] entry.1[k],
{
    if is_shadowed(entries, entry) {
        let i = choose|i: int|
            0 <= i < entries.len() && (#[trigger] entries[i]).0 == entry.0 && goes_on(
                entry.1,
                entries[i].1,
            );
        let n = entries[i].1.len() as int;
        assert forall|k: int| 0 <= k < n implies entries[i].1[k] == #[trigger] entry.1[k] by {
            assert(entry.1.take(n)[k] == entry.1[k]);
        }
    }
    if exists|i: int|
        0 <= i < entries.len() && (#[trigger] entries[i]).0 == entry.0 && entries[i].1.len()
            < entry.1.len() && forall|k: int|
            0 <= k < entries[i].1.len() ==> entries[i].1[k] == #[trigger] entry.1[k] {
        let i = choose|i: int|
            0 <= i < entries.len() && (#[trigger] entries[i]).0 == entry.0 && entries[i].1.len()
                < entry.1.len() && forall|k: int|
                0 <= k < entries[i].1.len() ==> entries[i].1[k] == #[trigger] entry.1[k];
        assert(entry.1.take(entries[i].1.len() as int) =~= entries[i].1);
        assert(goes_on(entry.1, entries[i].1));
    }
}

/// Binding a key leaves every other entry as it was, and puts the new one in
/// place of whatever the key did there.
pub proof fn lemma_rebinding_replaces_one(
    entries: Seq<EntryView>,
    context: KeyContext,
    chords: Seq<ChordView>,
    command: Seq<char>,
    entry: EntryView,
)
    ensures
        entry.0 != context || entry.1 != chords ==> (rebound(
            entries,
            context,
            chords,
            command,
        ).contains(entry) <==> entries.contains(entry)),
        entry.0 == context && entry.1 == chords ==> (rebound(
            entries,
            context,
            chords,
            command,
        ).contains(entry) <==> entry.2 == command),
{
    let kept = entries.filter(not_bound_to(context, chords));
    let now = rebound(entries, context, chords, command);
    let added: EntryView = (context, chords, command);
    assert(now[kept.len() as int] == added);
    lemma_filtered(entries, not_bound_to(context, chords), entry);
    if kept.contains(entry) {
        let k = choose|k: int| 0 <= k < kept.len() && kept[k] == entry;
        assert(now[k] == entry);
    }
    if now.contains(entry) {
        let k = choose|k: int| 0 <= k < now.len() && now[k] == entry;
        if k < kept.len() {
            assert(kept[k] == entry);
        }
    }
}

proof fn lemma_filtered(entries: Seq<EntryView>, pred: spec_fn(EntryView) -> bool, entry: EntryView)
    ensures
        entries.filter(pred).contains(entry) <==> entries.contains(entry) && pred(entry),
    decreases entries.len(),
{
    reveal(Seq::filter);
    if entries.len() > 0 {
        let rest = entries.drop_last();
        lemma_filtered(rest, pred, entry);
        let before = rest.filter(pred);
        let now = entries.filter(pred);
        assert(entries[entries.len() - 1] == entries.last());
        if entries.contains(entry) {
            let i = choose|i: int| 0 <= i < entries.len() && entries[i] == entry;
            if i < rest.len() {
                assert(rest[i] == entry);
            }
        }
        if rest.contains(entry) {
            let i = choose|i: int| 0 <= i < rest.len() && rest[i] == entry;
            assert(entries[i] == entry);
        }
        if before.contains(entry) {
            let i = choose|i: int| 0 <= i < before.len() && before[i] == entry;
            assert(now[i] == entry);
        }
        if pred(entries.last()) {
            assert(now[before.len() as int] == entries.last());
        }
        if now.contains(entry) {
            let i = choose|i: int| 0 <= i < now.len() && now[i] == entry;
            if i < before.len() {
                assert(before[i] == entry);
            }
        }
    }
}

// ---------------------------------------------------------------------------
// What a press is
// ---------------------------------------------------------------------------

/// Shift and a letter are the capital, without the shift; on a key that types
/// nothing shift stays what it is.
pub proof fn lemma_shift_is_the_capital(c: char, held: u8, name: Seq<char>)
    ensures
        'a' <= c && c <= 'z' && holds(held, 4) ==> chord_of(KeyView::Char(c), held) == (ChordView {
            key: KeyView::Char((c as u32 - 32) as char),
            modifiers: held & !4u8,
        }),
        c <= '\u{7f}' && !('a' <= c && c <= 'z') && holds(held, 4) ==> chord_of(KeyView::Char(c), held)
            == (ChordView { key: KeyView::Char(c), modifiers: held & !4u8 }),
        !holds(held, 4) ==> chord_of(KeyView::Char(c), held) == (ChordView {
            key: KeyView::Char(c),
            modifiers: held,
        }),
        chord_of(KeyView::Named(name), held) == (ChordView {
            key: KeyView::Named(name),
            modifiers: held,
        }),
        chord_of(KeyView::Char(c), held).modifiers & 4 == 0,
{
    assert((held & !4u8) & 4 == 0) by (bit_vector);
    assert(held & 4 == 4 || held & 4 == 0) by (bit_vector);
}

/// A key that types a character is that character, whatever it is called; the
/// space bar goes by its name; and a key that types nothing, or a control, is
/// what it is called, or nothing when that is no key.
pub proof fn lemma_what_an_event_is(
    c: char,
    name: Option<Seq<char>>,
    other: Option<Seq<char>>,
    held: u8,
)
    ensures
        c != ' ' && !control(c) ==> chord_from_event(Some(c), name, held) == Some(
            chord_of(KeyView::Char(c), held),
        ),
        !control(c) ==> chord_from_event(Some(c), name, held) == chord_from_event(
            Some(c),
            other,
            held,
        ),
        chord_from_event(Some(' '), name, held) == Some(chord_of(KeyView::Named("Space"@), held)),
        control(c) ==> chord_from_event(Some(c), name, held) == chord_from_event(None, name, held),
        chord_from_event(None, None, held) is None,
        name matches Some(called) ==> (chord_from_event(None, name, held) is Some <==> key_named(
            called,
        ) is Some),
        name matches Some(called) ==> (key_named(called) matches Some(key) ==> chord_from_event(
            None,
            name,
            held,
        ) == Some(chord_of(key, held))),
{
}

/// A modifier goes by more names than one, in any case, and each name is one
/// modifier's alone.
pub proof fn lemma_names_of_modifiers(name: Seq<char>, other: Seq<char>)
    ensures
        ascii_lower(name) == ascii_lower(other) ==> modifier_named(name) == modifier_named(other),
        ascii_lower(name) == "ctrl"@ || ascii_lower(name) == "control"@ ==> modifier_named(name)
            == Some(1u8),
        ascii_lower(name) == "alt"@ ==> modifier_named(name) == Some(2u8),
        ascii_lower(name) == "shift"@ ==> modifier_named(name) == Some(4u8),
        ascii_lower(name) == "super"@ || ascii_lower(name) == "meta"@ || ascii_lower(name) == "cmd"@
            || ascii_lower(name) == "command"@ ==> modifier_named(name) == Some(8u8),
{
    reveal_strlit("ctrl");
    reveal_strlit("control");
    reveal_strlit("alt");
    reveal_strlit("shift");
    reveal_strlit("super");
    reveal_strlit("meta");
    reveal_strlit("cmd");
    reveal_strlit("command");
    assert("ctrl"@[0] == 'c' && "control"@[0] == 'c' && "alt"@[0] == 'a' && "shift"@[1] == 'h'
        && "super"@[1] == 'u' && "meta"@[0] == 'm' && "cmd"@.len() == 3 && "command"@[2] == 'm'
        && "control"@[2] == 'n' && "ctrl"@.len() == 4 && "shift"@.len() == 5 && "super"@.len() == 5
        && "alt"@.len() == 3 && "meta"@.len() == 4 && "control"@.len() == 7 && "command"@.len()
        == 7);
}

/// What is wrong with a chord is said of the part that is wrong: a modifier
/// before the key it goes with, `mod` as itself, a key that is missing by the
/// whole chord and one that is not known by its name.
pub proof fn lemma_what_is_wrong_with_a_chord(modifier: Seq<char>, key: Seq<char>)
    requires
        !modifier.contains('+'),
        !key.contains('+'),
        modifier.len() > 0,
    ensures
        ({
            let text = modifier + seq!['+'] + key;
            let read = read_chord(text);
            &&& ascii_lower(modifier) == ascii_lower("mod"@) ==> read == Err::<ChordView, _>(
                ParseErrorView::UnexpandedMod,
            )
            &&& ascii_lower(modifier) != ascii_lower("mod"@) && modifier_named(modifier) is None
                ==> read == Err::<ChordView, _>(ParseErrorView::UnknownModifier(modifier))
            &&& ascii_lower(modifier) != ascii_lower("mod"@) && modifier_named(modifier) is Some
                && key.len() == 0 ==> read == Err::<ChordView, _>(ParseErrorView::NoKey(text))
            &&& ascii_lower(modifier) != ascii_lower("mod"@) && modifier_named(modifier) is Some
                && key.len() > 0 && key_named(key) is None ==> read == Err::<ChordView, _>(
                ParseErrorView::UnknownKey(key),
            )
            &&& ascii_lower(modifier) != ascii_lower("mod"@) && modifier_named(modifier) is Some
                && key.len() > 0 && key_named(key) is Some ==> read == Ok::<_, ParseErrorView>(
                chord_of(key_named(key)->0, modifier_named(modifier)->0),
            )
            &&& read_chord(Seq::empty()) == Err::<ChordView, _>(ParseErrorView::Empty)
        }),
{
    let text = modifier + seq!['+'] + key;
    let parts = seq![modifier, key];
    let none: Seq<Seq<char>> = Seq::empty();
    assert(joined(parts, seq!['+']) =~= text) by {
        assert(parts.drop_last() =~= seq![modifier]);
        assert(joined(seq![modifier], seq!['+']) == modifier);
    }
    assert forall|i: int| 0 <= i < parts.len() implies !(#[trigger] parts[i]).contains('+') by {
        if i == 0 {
            assert(parts[i] == modifier);
        } else {
            assert(parts[i] == key);
        }
    }
    lemma_joined_splits_back(parts, '+');
    reveal_strlit("+");
    assert(text != "+"@) by {
        assert(text.len() > 1);
    }
    let names = parts.drop_last();
    assert(names =~= seq![modifier]);
    assert(names.drop_last() =~= none);
    assert(names.last() == modifier);
    assert(read_modifiers(names.drop_last()) == Ok::<u8, ParseErrorView>(0u8));
    if let Some(held) = modifier_named(modifier) {
        assert(0u8 | held == held) by (bit_vector);
    }
}

/// The chords of two words, given what each of them reads as.
spec fn both_read(
    first: Result<ChordView, ParseErrorView>,
    second: Result<ChordView, ParseErrorView>,
) -> Result<Seq<ChordView>, ParseErrorView> {
    match first {
        Err(error) => Err(error),
        Ok(one) => match second {
            Err(error) => Err(error),
            Ok(two) => Ok(seq![one, two]),
        },
    }
}

proof fn lemma_two_words_read(words: Seq<Seq<char>>, first: Seq<char>, second: Seq<char>)
    requires
        words == seq![first, second],
    ensures
        read_chords(words) == both_read(read_chord(first), read_chord(second)),
{
    let none: Seq<Seq<char>> = Seq::empty();
    let front = words.drop_last();
    assert(words.last() == second);
    assert(front.last() == first);
    assert(front.drop_last() =~= none);
    assert(read_chords(none) == Ok::<_, ParseErrorView>(Seq::<ChordView>::empty()));
    assert(read_chords(front.drop_last()) == Ok::<_, ParseErrorView>(Seq::<ChordView>::empty()));
    let read = read_chords(front);
    assert(read == match read_chord(first) {
        Ok(one) => Ok::<_, ParseErrorView>(Seq::<ChordView>::empty().push(one)),
        Err(error) => Err(error),
    });
    if read_chord(first) is Ok && read_chord(second) is Ok {
        let one = read_chord(first)->Ok_0;
        let two = read_chord(second)->Ok_0;
        assert(Seq::<ChordView>::empty().push(one).push(two) =~= seq![one, two]);
    }
}

/// A binding of nothing is none at all; of two chords it is the first and then
/// the second, and the first that is wrong is what is said.
pub proof fn lemma_bindings_read_in_order(first: Seq<char>, space: char, second: Seq<char>)
    requires
        white_space(space),
        first.len() > 0 && !has_white_space(first),
        second.len() > 0 && !has_white_space(second),
    ensures
        read_binding(Seq::empty()) == Err::<Seq<ChordView>, _>(ParseErrorView::Empty),
        read_binding(first + seq![space] + second) == (match read_chord(first) {
            Err(error) => Err(error),
            Ok(one) => match read_chord(second) {
                Err(error) => Err(error),
                Ok(two) => Ok::<_, ParseErrorView>(seq![one, two]),
            },
        }),
{
    let words = words_of(first + seq![space] + second);
    lemma_two_words(first, space, second);
    lemma_two_words_read(words, first, second);
    let none: Seq<char> = Seq::empty();
    assert(words_of(none) =~= Seq::<Seq<char>>::empty());
    assert(read_chords(words_of(none)) == Ok::<_, ParseErrorView>(Seq::<ChordView>::empty()));
}

proof fn lemma_two_words(first: Seq<char>, space: char, second: Seq<char>)
    requires
        white_space(space),
        first.len() > 0 && !has_white_space(first),
        second.len() > 0 && !has_white_space(second),
    ensures
        words_of(first + seq![space] + second) == seq![first, second],
{
    lemma_words(first, space, second);
    lemma_words(second, space, Seq::empty());
    assert(words_of(first + seq![space] + second) =~= seq![first, second]);
}

/// Whatever is wrong is said with what was written.
pub proof fn lemma_errors_name_what_was_written(text: Seq<char>, request: Request, error: ParseErrorView)
    ensures
        has_text(error_text(ParseErrorView::UnknownModifier(text)), text),
        has_text(error_text(ParseErrorView::NoKey(text)), text),
        has_text(error_text(ParseErrorView::UnknownKey(text)), text),
        has_text(bind_problem(request, error), request.1),
        has_text(bind_problem(request, error), request.2),
        has_text(bind_problem(request, error), error_text(error)),
{
    lemma_within("`"@, text, "` is not a modifier; use mod, ctrl, alt, shift or super"@);
    lemma_within("`"@, text, "` ends with a modifier and no key"@);
    lemma_within("`"@, text, "` is not a key name"@);
    let none: Seq<char> = Seq::empty();
    let middle = "` cannot be used for `"@;
    let said = error_text(error);
    let all = bind_problem(request, error);
    lemma_within("`"@, request.1, middle + request.2 + "`: "@ + said);
    assert(all =~= "`"@ + request.1 + (middle + request.2 + "`: "@ + said));
    lemma_within("`"@ + request.1 + middle, request.2, "`: "@ + said);
    assert(all =~= "`"@ + request.1 + middle + request.2 + ("`: "@ + said));
    lemma_within("`"@ + request.1 + middle + request.2 + "`: "@, said, none);
    assert(all =~= "`"@ + request.1 + middle + request.2 + "`: "@ + said + none);
}

/// What can never fire is said by its keys, where it is bound and what it was
/// to run.
pub proof fn lemma_shadowed_is_said(entry: EntryView)
    ensures
        has_text(shadow_problem(entry), "`"@ + chords_text(entry.1) + "` in "@ + context_name(entry.0)),
        has_text(shadow_problem(entry), entry.2),
{
    let none: Seq<char> = Seq::empty();
    let where_bound = "`"@ + chords_text(entry.1) + "` in "@ + context_name(entry.0);
    let middle = " can never fire -- a shorter binding matches first, so `"@;
    let end = "` is unreachable"@;
    let all = shadow_problem(entry);
    lemma_within(none, where_bound, middle + entry.2 + end);
    assert(all =~= none + where_bound + (middle + entry.2 + end));
    lemma_within(where_bound + middle, entry.2, end);
    assert(all =~= where_bound + middle + entry.2 + end);
}

} // verus!
