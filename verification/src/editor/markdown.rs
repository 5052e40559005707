//! Which typed sequences become which formatting command.
//!
//! Markdown as *input*, never as the draft's format: `**bold**` is a way of
//! reaching the bold command with the keyboard rather than a dialect the
//! message is written in. Every sequence maps to formatting an existing
//! command already produces.
use vstd::prelude::*;
use crate::text::has_prefix;

verus! {

/// Where a sequence is recognised.
#[derive(Clone, Copy, Debug, PartialEq, Eq, Structural)]
pub enum Trigger {
    /// Recognised at the start of a block, when the marker is followed by a
    /// space -- `- `, `> `. The marker and the space are consumed.
    LinePrefix,
    /// Recognised when the closing marker is typed around a run of text on
    /// one line -- `**bold**`. Both markers are consumed.
    Wrapping,
}

/// One typed sequence and the command it reaches.
#[derive(Clone, Copy, Debug, PartialEq, Eq)]
pub struct Sequence {
    /// What is typed. For [`Trigger::LinePrefix`] the trailing space is
    /// implied and not written here; for [`Trigger::Wrapping`] this is the
    /// marker that appears on both sides.
    pub marker: &'static str,
    /// The id of the command this produces.
    pub command: &'static str,
    /// Where it is recognised.
    pub trigger: Trigger,
}

/// A sequence, as text.
pub struct SequenceView {
    /// What is typed.
    pub marker: Seq<char>,
    /// The command's id.
    pub command: Seq<char>,
    /// Where it is recognised.
    pub trigger: Trigger,
}

impl View for Sequence {
    type V = SequenceView;

    open spec fn view(&self) -> SequenceView {
        SequenceView { marker: self.marker@, command: self.command@, trigger: self.trigger }
    }
}

/// A row of the table.
pub open spec fn row(marker: Seq<char>, command: Seq<char>, trigger: Trigger) -> SequenceView {
    SequenceView { marker, command, trigger }
}

/// Every supported sequence.
pub open spec fn sequence_table() -> Seq<SequenceView> {
    seq![
        row("**"@, "bold"@, Trigger::Wrapping),
        row("*"@, "italic"@, Trigger::Wrapping),
        row("_"@, "italic"@, Trigger::Wrapping),
        row("-"@, "bullet_list"@, Trigger::LinePrefix),
        row("*"@, "bullet_list"@, Trigger::LinePrefix),
        row("1."@, "numbered_list"@, Trigger::LinePrefix),
        row(">"@, "quote_block"@, Trigger::LinePrefix),
    ]
}

/// Every supported sequence.
///
/// Ordered longest marker first within each trigger, because a recogniser
/// that checks `*` before `**` never sees `**` -- the ordering is part of the
/// contract rather than an implementation detail of one frontend.
pub fn sequences() -> (out: Vec<Sequence>)
    ensures
        out@.len() == sequence_table().len(),
        forall|i: int| 0 <= i < out@.len() ==> (#[trigger] out@[i])@ == sequence_table()[i],
{
    vec![
        Sequence { marker: "**", command: "bold", trigger: Trigger::Wrapping },
        Sequence { marker: "*", command: "italic", trigger: Trigger::Wrapping },
        Sequence { marker: "_", command: "italic", trigger: Trigger::Wrapping },
        Sequence { marker: "-", command: "bullet_list", trigger: Trigger::LinePrefix },
        Sequence { marker: "*", command: "bullet_list", trigger: Trigger::LinePrefix },
        Sequence { marker: "1.", command: "numbered_list", trigger: Trigger::LinePrefix },
        Sequence { marker: ">", command: "quote_block", trigger: Trigger::LinePrefix },
    ]
}

/// No sequence is hidden behind an earlier one of the same kind: a longer
/// marker is listed before the shorter ones it starts with.
pub proof fn lemma_no_sequence_is_hidden(earlier: int, later: int)
    requires
        0 <= earlier < later < sequence_table().len(),
        sequence_table()[earlier].trigger == sequence_table()[later].trigger,
    ensures
        !has_prefix(sequence_table()[later].marker, sequence_table()[earlier].marker),
{
    reveal_strlit("**");
    reveal_strlit("*");
    reveal_strlit("_");
    reveal_strlit("-");
    reveal_strlit("1.");
    reveal_strlit(">");
    let table = sequence_table();
    assert(table[0].marker[0] == '*' && table[0].marker.len() == 2);
    assert(table[1].marker[0] == '*' && table[1].marker.len() == 1);
    assert(table[2].marker[0] == '_' && table[2].marker.len() == 1);
    assert(table[3].marker[0] == '-' && table[3].marker.len() == 1);
    assert(table[4].marker[0] == '*' && table[4].marker.len() == 1);
    assert(table[5].marker[0] == '1' && table[5].marker.len() == 2);
    assert(table[6].marker[0] == '>' && table[6].marker.len() == 1);
    let short = table[earlier].marker;
    let long = table[later].marker;
    if has_prefix(long, short) {
        assert(short.len() > 0);
        assert(long.take(short.len() as int)[0] == long[0]);
        assert(short[0] == long[0]);
    }
}

} // verus!
