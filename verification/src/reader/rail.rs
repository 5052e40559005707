//! Which message you are reading, and what the rail says about the rest.
//!
//! The conversation rail lists every message in a thread and marks the one on
//! screen. The rail's entire value is the marked row being correct, and
//! correct is not "the last one you clicked".
use vstd::prelude::*;

verus! {

/// The first message with the greatest visible area, among those visible.
pub open spec fn is_current(visible: Seq<u64>, index: int) -> bool {
    &&& 0 <= index < visible.len()
    &&& visible[index] > 0
    &&& forall|i: int| 0 <= i < visible.len() ==> #[trigger] visible[i] <= visible[index]
    &&& forall|i: int| 0 <= i < index ==> #[trigger] visible[i] < visible[index]
}

/// Which message the reader is looking at, given how much of each is visible:
/// any measure that orders areas, zero for a message not on screen.
///
/// **Greatest visible area, not greatest visible fraction**: what a person is
/// reading is the thing filling the screen. Ties go to the **earlier**
/// message, so the mark never jumps ahead of the reader. `None` when nothing
/// is visible at all.
pub fn current(visible: &[u64]) -> (out: Option<usize>)
    ensures
        match out {
            Some(index) => is_current(visible@, index as int),
            None => forall|i: int| 0 <= i < visible@.len() ==> #[trigger] visible@[i] == 0,
        },
{
    let mut best: Option<usize> = None;
    let mut i: usize = 0;
    while i < visible.len()
        invariant
            i <= visible@.len(),
            match best {
                Some(index) => index < i && is_current(visible@.take(i as int), index as int),
                None => forall|j: int| 0 <= j < i ==> #[trigger] visible@[j] == 0,
            },
        decreases visible@.len() - i,
    {
        let ghost seen = visible@.take(i as int);
        let ghost now = visible@.take(i + 1);
        let area: u64 = visible[i];
        let better = match best {
            Some(index) => area > visible[index],
            None => area > 0,
        };
        proof {
            assert forall|j: int| 0 <= j < i implies now[j] == #[trigger] seen[j] by {}
        }
        if better {
            best = Some(i);
        }
        i += 1;
    }
    assert(visible@.take(visible@.len() as int) =~= visible@);
    best
}

/// There is at most one message being read.
pub proof fn lemma_one_current(visible: Seq<u64>, a: int, b: int)
    requires
        is_current(visible, a),
        is_current(visible, b),
    ensures
        a == b,
{
}

/// How long a message has to be before its length is worth showing.
///
/// A count on every row is noise; a count on the long ones is information.
pub const LENGTH_THRESHOLD: u32 = 40;

/// What one rail row says.
#[derive(Debug, Clone, PartialEq, Eq)]
pub struct Row {
    /// One-based, as a person counts.
    pub position: usize,
    /// Who wrote it.
    pub sender: String,
    /// Its length, when there is one and it is worth saying.
    pub length: Option<u32>,
}

/// The length worth saying.
pub open spec fn length_shown(lengths: Seq<Option<u32>>, index: int) -> Option<u32> {
    if index < lengths.len() {
        match lengths[index] {
            Some(lines) => if lines >= LENGTH_THRESHOLD {
                Some(lines)
            } else {
                None
            },
            None => None,
        }
    } else {
        None
    }
}

/// The rail's rows for a thread.
///
/// `lengths` is per message and `None` where the body is not local yet, which
/// is shown as no length rather than as zero. Every message has a row the
/// moment the conversation is known.
pub fn rows(senders: &[String], lengths: &[Option<u32>]) -> (out: Vec<Row>)
    ensures
        out@.len() == senders@.len(),
        forall|i: int|
            0 <= i < out@.len() ==> {
                let row = #[trigger] out@[i];
                row.position == i + 1 && row.sender@ == senders@[i]@ && row.length == length_shown(
                    lengths@,
                    i,
                )
            },
{
    let mut out: Vec<Row> = Vec::new();
    let mut i: usize = 0;
    while i < senders.len()
        invariant
            i <= senders@.len(),
            out@.len() == i,
            forall|j: int|
                0 <= j < i ==> {
                    let row = #[trigger] out@[j];
                    row.position == j + 1 && row.sender@ == senders@[j]@ && row.length
                        == length_shown(lengths@, j)
                },
        decreases senders@.len() - i,
    {
        let length = if i < lengths.len() {
            match lengths[i] {
                Some(lines) => if lines >= LENGTH_THRESHOLD {
                    Some(lines)
                } else {
                    None
                },
                None => None,
            }
        } else {
            None
        };
        out.push(Row { position: i + 1, sender: senders[i].clone(), length });
        i += 1;
    }
    out
}

/// Of two messages that fill as much of the screen the earlier is the one
/// being read, of any others the one that fills more; and one is, as soon as
/// anything is on screen.
pub proof fn lemma_which_is_being_read(visible: Seq<u64>, a: int, b: int)
    requires
        0 <= a < visible.len(),
        0 <= b < visible.len(),
    ensures
        visible[a] < visible[b] ==> !is_current(visible, a),
        visible[a] == visible[b] && a < b ==> !is_current(visible, b),
        visible[a] == 0 ==> !is_current(visible, a),
        visible[a] > 0 ==> exists|index: int| is_current(visible, index),
{
    if visible[a] > 0 {
        let index = lemma_some_current(visible, visible.len() as int, a);
        assert(visible.take(visible.len() as int) =~= visible);
        assert(is_current(visible, index));
    }
}

proof fn lemma_some_current(visible: Seq<u64>, n: int, a: int) -> (index: int)
    requires
        0 <= a < n <= visible.len(),
        visible[a] > 0,
    ensures
        is_current(visible.take(n), index),
    decreases n,
{
    let now = visible.take(n);
    let last = n - 1;
    if exists|i: int| 0 <= i < last && #[trigger] visible[i] > 0 {
        let i = choose|i: int| 0 <= i < last && #[trigger] visible[i] > 0;
        let best = lemma_some_current(visible, last, i);
        let before = visible.take(last);
        assert forall|j: int| 0 <= j < last implies #[trigger] now[j] == before[j] by {}
        if visible[last] > visible[best] {
            assert(is_current(now, last));
            last
        } else {
            assert(is_current(now, best));
            best
        }
    } else {
        assert(is_current(now, last));
        last
    }
}

/// A length is said exactly where it is known and of forty lines or more, and
/// as it is.
pub proof fn lemma_which_lengths_are_said(lengths: Seq<Option<u32>>, index: int, lines: u32)
    requires
        0 <= index,
    ensures
        length_shown(lengths, index) == Some(lines) <==> index < lengths.len() && lengths[index]
            == Some(lines) && lines >= 40,
{
}

} // verus!
