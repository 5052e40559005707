//! Key hints: the key a surface names beside the thing it does.
//!
//! A hint is built from the keymap and a command, and a command with no
//! binding produces no hint rather than a blank one. The only other way to
//! make one is [`fixed`], for a key that is not a command at all.
use vstd::prelude::*;
use crate::model::CommandKeymap;
use crate::text::{join, joined, same_text, text_opt, texts};

verus! {

/// One key, and what it does.
#[derive(Debug, Clone, PartialEq, Eq)]
pub struct Hint {
    /// The key, as the registry spells it: `e`, `ctrl+Return`, `j/k`.
    pub key: String,
    /// What it does, in the surface's words: `reply`, `Compose`.
    pub label: String,
}

/// A hint, as text: the key and what it does.
pub open spec fn hint_view(hint: Hint) -> (Seq<char>, Seq<char>) {
    (hint.key@, hint.label@)
}

/// A hint that may not be there, as text.
pub open spec fn hint_opt(hint: Option<Hint>) -> Option<(Seq<char>, Seq<char>)> {
    match hint {
        Some(hint) => Some(hint_view(hint)),
        None => None,
    }
}

/// The primary key of a command.
pub open spec fn primary(bindings: Seq<String>) -> Option<Seq<char>> {
    if bindings.len() > 0 {
        Some(bindings[0]@)
    } else {
        None
    }
}

/// `label` beside a key, when there is one.
pub open spec fn labelled(key: Option<Seq<char>>, label: Seq<char>) -> Option<
    (Seq<char>, Seq<char>),
> {
    match key {
        Some(key) => Some((key, label)),
        None => None,
    }
}

/// The hint for `command`, or `None` when nothing is bound to it.
///
/// The caller then draws nothing -- a blank cap would read as a key that
/// exists and does nothing.
pub fn hint(keymap: &CommandKeymap, command: &str, label: &str) -> (out: Option<Hint>)
    ensures
        hint_opt(out) == labelled(primary(keymap.bindings_of(command@)), label@),
{
    match key(keymap, command) {
        Some(key) => Some(Hint { key, label: label.to_owned() }),
        None => None,
    }
}

/// The key a hint names when `preferred` is wanted: that one while the keymap
/// binds it, else the primary.
pub open spec fn preferred_key(bindings: Seq<String>, preferred: Seq<char>) -> Option<Seq<char>> {
    if texts(bindings).contains(preferred) {
        Some(preferred)
    } else {
        primary(bindings)
    }
}

/// As [`hint`], naming `preferred` when it is one of `command`'s keys.
///
/// The preference is only honoured while the keymap actually binds it, so a
/// rebind that takes it away falls back to the primary rather than naming a
/// key that no longer does this.
pub fn hint_as(
    keymap: &CommandKeymap,
    command: &str,
    preferred: &str,
    label: &str,
) -> (out: Option<Hint>)
    ensures
        hint_opt(out) == labelled(
            preferred_key(keymap.bindings_of(command@), preferred@),
            label@,
        ),
{
    let bindings = keymap.bindings(command);
    let ghost all = keymap.bindings_of(command@);
    let mut i: usize = 0;
    while i < bindings.len()
        invariant
            all == keymap.bindings_of(command@),
            bindings@.len() == all.len(),
            forall|j: int| 0 <= j < bindings@.len() ==> (#[trigger] bindings@[j])@ == all[j]@,
            i <= bindings@.len(),
            forall|j: int| 0 <= j < i ==> (#[trigger] all[j])@ != preferred@,
        decreases bindings@.len() - i,
    {
        if same_text(bindings[i].as_str(), preferred) {
            assert(bindings@[i as int]@ == all[i as int]@);
            assert(texts(all)[i as int] == preferred@);
            return Some(Hint { key: preferred.to_owned(), label: label.to_owned() });
        }
        assert(bindings@[i as int]@ == all[i as int]@);
        i += 1;
    }
    assert forall|j: int| 0 <= j < texts(all).len() implies texts(all)[j] != preferred@ by {
        assert(all[j]@ != preferred@);
    }
    hint(keymap, command, label)
}

/// Just the key for `command`, for a control that draws its own label.
pub fn key(keymap: &CommandKeymap, command: &str) -> (out: Option<String>)
    ensures
        text_opt(out) == primary(keymap.bindings_of(command@)),
{
    let bindings = keymap.bindings(command);
    if bindings.len() > 0 {
        Some(bindings[0].clone())
    } else {
        None
    }
}

/// The key of a pair: both halves, or the one that is bound.
pub open spec fn paired(first: Option<Seq<char>>, second: Option<Seq<char>>) -> Option<Seq<char>> {
    match (first, second) {
        (Some(a), Some(b)) => Some(a + "/"@ + b),
        (Some(one), None) => Some(one),
        (None, Some(one)) => Some(one),
        (None, None) => None,
    }
}

/// Two commands that are one idea -- next and previous -- as one hint:
/// `j/k walk`.
///
/// Either half alone still teaches something, so a pair with one side unbound
/// shows the side that is bound rather than nothing.
pub fn pair(keymap: &CommandKeymap, first: &str, second: &str, label: &str) -> (out: Option<Hint>)
    ensures
        hint_opt(out) == labelled(
            paired(
                primary(keymap.bindings_of(first@)),
                primary(keymap.bindings_of(second@)),
            ),
            label@,
        ),
{
    let key = match (key(keymap, first), key(keymap, second)) {
        (Some(a), Some(b)) => {
            let mut both = a;
            both.append("/");
            both.append(b.as_str());
            both
        },
        (Some(one), None) => one,
        (None, Some(one)) => one,
        (None, None) => {
            return None;
        },
    };
    Some(Hint { key, label: label.to_owned() })
}

/// A hint for a key that is not a command.
///
/// `because` says why no command could carry it, so the claim is written
/// where it is made.
pub fn fixed(key: &str, label: &str, because: &'static str) -> (out: Hint)
    requires
        because@.len() > 0,
    ensures
        hint_view(out) == (key@, label@),
{
    Hint { key: key.to_owned(), label: label.to_owned() }
}

/// What one hint says: the key first, then what it does.
pub open spec fn hint_text(hint: Hint) -> Seq<char> {
    hint.key@ + " "@ + hint.label@
}

/// A row of hints as one line of text: `j/k walk · Return open · s save`.
///
/// The key first, because the key is the thing being taught and the eye finds
/// it at the start of each clause.
pub fn line(hints: &[Hint]) -> (out: String)
    ensures
        out@ == joined(hints@.map_values(|hint: Hint| hint_text(hint)), " · "@),
{
    let mut parts: Vec<String> = Vec::new();
    let mut i: usize = 0;
    while i < hints.len()
        invariant
            i <= hints@.len(),
            parts@.len() == i,
            forall|j: int| 0 <= j < i ==> (#[trigger] parts@[j])@ == hint_text(hints@[j]),
        decreases hints@.len() - i,
    {
        let mut part = hints[i].key.clone();
        part.append(" ");
        part.append(hints[i].label.as_str());
        parts.push(part);
        i += 1;
    }
    assert(texts(parts@) =~= hints@.map_values(|hint: Hint| hint_text(hint)));
    join(parts.as_slice(), " · ")
}

/// A hint only ever names a key that runs its command, and there is one
/// whenever the command has a key at all.
pub proof fn lemma_a_hint_names_a_live_key(bindings: Seq<String>, preferred: Seq<char>)
    ensures
        primary(bindings) is Some <==> bindings.len() > 0,
        preferred_key(bindings, preferred) is Some <==> bindings.len() > 0,
        primary(bindings) matches Some(key) ==> texts(bindings).contains(key),
        preferred_key(bindings, preferred) matches Some(key) ==> texts(bindings).contains(key),
{
    if bindings.len() > 0 {
        assert(texts(bindings)[0] == bindings[0]@);
    }
}

/// The key that is wanted is the one named while the command has it, and the
/// command's first key otherwise; nothing is named beside a label that no key
/// runs.
pub proof fn lemma_which_key_is_named(bindings: Seq<String>, preferred: Seq<char>, label: Seq<char>)
    ensures
        texts(bindings).contains(preferred) ==> labelled(preferred_key(bindings, preferred), label)
            == Some((preferred, label)),
        !texts(bindings).contains(preferred) && bindings.len() > 0 ==> labelled(
            preferred_key(bindings, preferred),
            label,
        ) == Some((bindings[0]@, label)),
        bindings.len() > 0 ==> labelled(primary(bindings), label) == Some((bindings[0]@, label)),
        bindings.len() == 0 ==> labelled(primary(bindings), label) is None && labelled(
            preferred_key(bindings, preferred),
            label,
        ) is None,
{
}

/// A pair names both halves where both are bound, the one that is bound where
/// one is, and nothing only where neither is.
pub proof fn lemma_either_half_teaches(first: Seq<String>, second: Seq<String>)
    ensures
        ({
            let named = paired(primary(first), primary(second));
            &&& first.len() > 0 && second.len() > 0 ==> named == Some(
                first[0]@ + "/"@ + second[0]@,
            )
            &&& first.len() > 0 && second.len() == 0 ==> named == Some(first[0]@)
            &&& first.len() == 0 && second.len() > 0 ==> named == Some(second[0]@)
            &&& first.len() == 0 && second.len() == 0 ==> named is None
        }),
{
}

/// A hint reads key first, then what the key does, one space apart; and a row
/// of hints is one hint after another, a dot between each two.
pub proof fn lemma_a_row_of_hints(hints: Seq<Hint>, next: Hint)
    ensures
        ({
            let key = next.key@;
            let said = hint_text(next);
            let text = |hint: Hint| hint_text(hint);
            let row = joined(hints.map_values(text), " · "@);
            let longer = joined(hints.push(next).map_values(text), " · "@);
            &&& said.take(key.len() as int) == key
            &&& said[key.len() as int] == ' '
            &&& said.skip(key.len() as int + 1) == next.label@
            &&& hints.len() == 0 ==> row.len() == 0 && longer == said
            &&& hints.len() > 0 ==> longer == row + " · "@ + said
        }),
{
    reveal_strlit(" ");
    let key = next.key@;
    let said = hint_text(next);
    assert(said.take(key.len() as int) =~= key);
    assert(said.skip(key.len() as int + 1) =~= next.label@);
    let text = |hint: Hint| hint_text(hint);
    let all = hints.push(next).map_values(text);
    assert(all.drop_last() =~= hints.map_values(text));
    assert(all.last() == said);
    if hints.len() == 0 {
        assert(all =~= seq![said]);
    }
}

} // verus!
