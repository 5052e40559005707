//! What a message is made of: its MIME tree, and the rules for showing and
//! saving one part of it.
//!
//! Everything here is a reading of metadata the store already has, so a panel
//! can be complete and correct for a message nothing has been fetched for.
//! Nothing here can fetch: it takes rows and returns words.
use vstd::prelude::*;
use crate::format::{human_size, size_text};
use crate::model::{Attachment, AttachmentId, Disposition, MessageBody};
use crate::text::{ascii_lower, chars_of, control, copy_opt, decimal, decimal_of, has_prefix, is_blank};
use crate::text::{all_ascii, first_index, is_control, lemma_decimal_differs, lemma_decimal_digits};
use crate::text::{has_text, joined, lemma_first_and_last, lemma_joined_splits_back, lemma_numbers_read_back};
use crate::text::{lemma_padding_comes_off, occurs_at, white_space};
use crate::text::{last_index, lowercase, number_in, read_number, rfind_char};
use crate::text::{same_ignoring_case, same_text, split_at_char, split_char, starts_with, text_of};
use crate::text::{text_opt, texts, to_ascii_lower, to_lowercase, trim, trimmed, unsigned};

verus! {

/// Resolves a `Content-ID` to the bytes it names.
///
/// *What a `Content-ID` may resolve to* is a security property rather than a
/// rendering detail, so it is stated once and every frontend is handed the
/// same answer. An implementation is a local lookup, never a call that blocks
/// on I/O.
pub trait BlobSource {
    /// The source can be asked for this id. Any source can, unless it says
    /// otherwise.
    open spec fn can_resolve(&self, content_id: &str) -> bool {
        true
    }

    /// The part's bytes and MIME type, or `None` if no part carries this id.
    fn resolve(&self, content_id: &str) -> (out: Option<(Vec<u8>, String)>)
        requires
            self.can_resolve(content_id),
    ;

    /// The same, for a reference that names *which message* it belongs to.
    ///
    /// The default ignores the scope, which is right for a source that only
    /// ever holds one message's parts. A source that holds a conversation's
    /// must override it, and a scope it does not recognise must resolve to
    /// nothing rather than to whatever it has.
    fn resolve_in(&self, scope: Option<&str>, content_id: &str) -> (out: Option<(Vec<u8>, String)>)
        requires
            self.can_resolve(content_id),
        default_ensures
            call_ensures(Self::resolve, (self, content_id), out),
    {
        self.resolve(content_id)
    }
}

/// A lookup is a source.
impl<F: Fn(&str) -> Option<(Vec<u8>, String)>> BlobSource for F {
    open spec fn can_resolve(&self, content_id: &str) -> bool {
        self.requires((content_id,))
    }

    fn resolve(&self, content_id: &str) -> (out: Option<(Vec<u8>, String)>)
        ensures
            self.ensures((content_id,), out),
    {
        self(content_id)
    }
}

/// One node of the tree, flattened into the order the keyboard walks it.
#[derive(Clone, Debug, PartialEq, Eq)]
pub struct Node {
    /// The part id -- `2.1`. Empty for the root.
    pub part_id: String,
    /// How deep it sits; the root is 0.
    pub depth: usize,
    /// `text/html`, `image/png`, `multipart/mixed`.
    pub mime: String,
    /// The name the sender gave it, if any.
    pub filename: Option<String>,
    /// Size in bytes as the server declared it. `0` for a container.
    pub size: u64,
    /// Whether the bytes are already in the blob store.
    pub downloaded: bool,
    /// Whether this is the last child of its parent, for `└` rather than `├`.
    pub last: bool,
    /// The attachment row this came from; `None` for the root.
    pub attachment: Option<AttachmentId>,
    /// The `Content-ID` the body may reference this part by, if it has one.
    pub content_id: Option<String>,
    /// Whether the message means this part to be shown in place rather than
    /// offered as an attachment: a disposition that says so, or a
    /// `Content-ID` the markup can point at. A label, never a filter.
    pub inline: bool,
}

/// The name a sender gave, without the white space around it; nothing when
/// that leaves nothing.
pub open spec fn given_name(filename: Option<Seq<char>>) -> Option<Seq<char>> {
    match filename {
        Some(name) => if trimmed(name).len() > 0 {
            Some(trimmed(name))
        } else {
            None
        },
        None => None,
    }
}

impl Node {
    /// The part holds bytes worth saving.
    pub open spec fn holds_bytes(&self) -> bool {
        !has_prefix(self.mime@, "multipart/"@) && self.attachment is Some
    }

    /// What the row calls this part: its filename, or its type when the
    /// sender did not name it.
    pub fn label(&self) -> (out: String)
        ensures
            out@ == (match given_name(text_opt(self.filename)) {
                Some(name) => name,
                None => self.mime@,
            }),
    {
        if let Some(filename) = &self.filename {
            let name = trim(filename.as_str());
            if name.as_str().unicode_len() > 0 {
                return name;
            }
        }
        self.mime.clone()
    }

    /// Whether this part holds bytes worth saving, as opposed to being a
    /// container for other parts.
    pub fn is_leaf(&self) -> (out: bool)
        ensures
            out == self.holds_bytes(),
    {
        !starts_with(self.mime.as_str(), "multipart/") && self.attachment.is_some()
    }
}

// ---------------------------------------------------------------------------
// Paths
// ---------------------------------------------------------------------------

/// The segments are all numbers.
pub open spec fn all_numbers(segments: Seq<Seq<char>>) -> bool {
    forall|i: int|
        0 <= i < segments.len() ==> number_in(#[trigger] segments[i], u32::MAX as nat) is Some
}

/// A part id read as a path: `"2.1"` becomes `[2, 1]`. Empty when there is no
/// id, or one that is not a path of numbers.
pub open spec fn path_of(part: Attachment) -> Seq<u32> {
    match part.part_id {
        Some(id) => {
            let segments = split_at_char(id@, '.');
            if all_numbers(segments) {
                Seq::new(
                    segments.len(),
                    |i: int| number_in(segments[i], u32::MAX as nat)->0 as u32,
                )
            } else {
                Seq::empty()
            }
        },
        None => Seq::empty(),
    }
}

/// The parts' paths.
pub open spec fn paths_of(parts: Seq<Attachment>) -> Seq<Seq<u32>> {
    Seq::new(parts.len(), |i: int| path_of(parts[i]))
}

/// A part id read as a path.
///
/// A part with no id at all, or one that is not a path of numbers, gives
/// nothing and is dropped -- the tree draws what the server described, and a
/// row nothing can be fetched for is a row that leads nowhere.
fn read_path(part: &Attachment) -> (out: Vec<u32>)
    ensures
        out@ == path_of(*part),
{
    let mut path: Vec<u32> = Vec::new();
    if let Some(id) = &part.part_id {
        let segments = split_char(id.as_str(), '.');
        let ghost all = split_at_char(id@, '.');
        let mut i: usize = 0;
        while i < segments.len()
            invariant
                texts(segments@) == all,
                all == split_at_char(id@, '.'),
                part.part_id == Some(*id),
                i <= segments@.len(),
                path@.len() == i,
                forall|k: int|
                    0 <= k < i ==> number_in(#[trigger] all[k], u32::MAX as nat) == Some(
                        path@[k] as nat,
                    ),
            decreases segments@.len() - i,
        {
            assert(all[i as int] == segments@[i as int]@);
            match read_number(segments[i].as_str(), u32::MAX) {
                Some(number) => path.push(number),
                None => {
                    assert(!all_numbers(all));
                    return Vec::new();
                },
            }
            i += 1;
        }
        assert(all.len() == segments@.len());
        assert(path@ =~= path_of(*part));
    }
    path
}

/// `a` comes before `b`: their first difference is a smaller number in `a`,
/// or `a` ends there.
pub open spec fn path_before(a: Seq<u32>, b: Seq<u32>) -> bool
    decreases b.len(),
{
    if b.len() == 0 {
        false
    } else if a.len() == 0 {
        true
    } else if a[0] != b[0] {
        a[0] < b[0]
    } else {
        path_before(a.skip(1), b.skip(1))
    }
}

/// Whether `a` comes before `b`.
fn comes_before(a: &Vec<u32>, b: &Vec<u32>) -> (out: bool)
    ensures
        out == path_before(a@, b@),
{
    let mut i: usize = 0;
    assert(a@.skip(0) =~= a@);
    assert(b@.skip(0) =~= b@);
    while i < a.len() && i < b.len() && a[i] == b[i]
        invariant
            i <= a@.len(),
            i <= b@.len(),
            path_before(a@, b@) == path_before(a@.skip(i as int), b@.skip(i as int)),
        decreases a@.len() - i,
    {
        assert(a@.skip(i as int).skip(1) =~= a@.skip(i + 1));
        assert(b@.skip(i as int).skip(1) =~= b@.skip(i + 1));
        i += 1;
    }
    if i >= b.len() {
        false
    } else if i >= a.len() {
        true
    } else {
        a[i] < b[i]
    }
}

/// The order of paths is a total order.
proof fn lemma_path_order(a: Seq<u32>, b: Seq<u32>, c: Seq<u32>)
    ensures
        !path_before(a, a),
        path_before(a, b) ==> !path_before(b, a),
        path_before(a, b) && path_before(b, c) ==> path_before(a, c),
        a != b ==> path_before(a, b) || path_before(b, a),
    decreases a.len() + b.len() + c.len(),
{
    if a.len() > 0 && b.len() > 0 && c.len() > 0 {
        lemma_path_order(a.skip(1), b.skip(1), c.skip(1));
        if a[0] == b[0] && a != b {
            assert(a.skip(1) != b.skip(1)) by {
                if a.skip(1) == b.skip(1) {
                    assert(a =~= seq![a[0]] + a.skip(1));
                    assert(b =~= seq![b[0]] + b.skip(1));
                }
            }
        }
    } else {
        if a.len() > 0 {
            lemma_path_irreflexive(a);
        }
        if a.len() > 0 && b.len() > 0 {
            lemma_path_pair(a, b);
        } else if a.len() == 0 && b.len() == 0 {
            assert(a =~= b);
        }
    }
}

proof fn lemma_path_irreflexive(a: Seq<u32>)
    ensures
        !path_before(a, a),
    decreases a.len(),
{
    if a.len() > 0 {
        lemma_path_irreflexive(a.skip(1));
    }
}

proof fn lemma_path_pair(a: Seq<u32>, b: Seq<u32>)
    ensures
        path_before(a, b) ==> !path_before(b, a),
        a != b ==> path_before(a, b) || path_before(b, a),
    decreases a.len() + b.len(),
{
    if a.len() > 0 && b.len() > 0 {
        lemma_path_pair(a.skip(1), b.skip(1));
        if a[0] == b[0] && a != b {
            assert(a.skip(1) != b.skip(1)) by {
                if a.skip(1) == b.skip(1) {
                    assert(a =~= seq![a[0]] + a.skip(1));
                    assert(b =~= seq![b[0]] + b.skip(1));
                }
            }
        }
    } else if a.len() == 0 && b.len() == 0 {
        assert(a =~= b);
    }
}

// ---------------------------------------------------------------------------
// The walk
// ---------------------------------------------------------------------------

/// `order` with `item` put after everything its path does not come before.
pub open spec fn seated(order: Seq<int>, paths: Seq<Seq<u32>>, item: int) -> Seq<int>
    decreases order.len(),
{
    if order.len() == 0 {
        seq![item]
    } else if !path_before(paths[item], paths[order.last()]) {
        order.push(item)
    } else {
        seated(order.drop_last(), paths, item).push(order.last())
    }
}

/// The order the first `n` parts are walked in: by path, those with the same
/// path as they came. Parts without a path are left out.
pub open spec fn walk(paths: Seq<Seq<u32>>, n: int) -> Seq<int>
    decreases n,
{
    if n <= 0 {
        Seq::empty()
    } else if paths[n - 1].len() == 0 {
        walk(paths, n - 1)
    } else {
        seated(walk(paths, n - 1), paths, n - 1)
    }
}

/// `a` is walked before `b`: its path comes first, or the paths are the same
/// and it came first.
pub open spec fn walked_before(paths: Seq<Seq<u32>>, a: int, b: int) -> bool {
    path_before(paths[a], paths[b]) || (paths[a] == paths[b] && a < b)
}

/// Seating is inserting at the slot the paths say.
proof fn lemma_seated_is_insert(order: Seq<int>, paths: Seq<Seq<u32>>, item: int, slot: int)
    requires
        0 <= slot <= order.len(),
        slot > 0 ==> !path_before(paths[item], paths[order[slot - 1]]),
        forall|i: int|
            slot <= i < order.len() ==> path_before(paths[item], paths[#[trigger] order[i]]),
    ensures
        seated(order, paths, item) == order.insert(slot, item),
    decreases order.len(),
{
    if order.len() == 0 || slot == order.len() {
        assert(seated(order, paths, item) =~= order.insert(slot, item));
    } else {
        let rest = order.drop_last();
        assert(path_before(paths[item], paths[order[order.len() - 1]]));
        lemma_seated_is_insert(rest, paths, item, slot);
        assert(seated(order, paths, item) =~= order.insert(slot, item));
    }
}

proof fn lemma_walk_slot(order: Seq<int>, paths: Seq<Seq<u32>>, item: int) -> (slot: int)
    requires
        forall|i: int, j: int|
            0 <= i < j < order.len() ==> walked_before(
                paths,
                #[trigger] order[i],
                #[trigger] order[j],
            ),
    ensures
        0 <= slot <= order.len(),
        seated(order, paths, item) == order.insert(slot, item),
        forall|i: int|
            0 <= i < slot ==> !path_before(paths[item], paths[#[trigger] order[i]]),
        forall|i: int|
            slot <= i < order.len() ==> path_before(paths[item], paths[#[trigger] order[i]]),
    decreases order.len(),
{
    if order.len() == 0 {
        assert(seated(order, paths, item) =~= order.insert(0, item));
        0
    } else if !path_before(paths[item], paths[order.last()]) {
        assert(seated(order, paths, item) =~= order.insert(order.len() as int, item));
        assert forall|i: int| 0 <= i < order.len() implies !path_before(
            paths[item],
            paths[#[trigger] order[i]],
        ) by {
            if i < order.len() - 1 {
                assert(walked_before(paths, order[i], order[order.len() - 1]));
                lemma_path_order(paths[item], paths[order[i]], paths[order.last()]);
            }
        }
        order.len() as int
    } else {
        let rest = order.drop_last();
        assert forall|i: int, j: int| 0 <= i < j < rest.len() implies walked_before(
            paths,
            #[trigger] rest[i],
            #[trigger] rest[j],
        ) by {
            assert(walked_before(paths, order[i], order[j]));
        }
        let slot = lemma_walk_slot(rest, paths, item);
        assert(seated(order, paths, item) =~= order.insert(slot, item));
        assert forall|i: int| 0 <= i < slot implies !path_before(
            paths[item],
            paths[#[trigger] order[i]],
        ) by {
            assert(!path_before(paths[item], paths[rest[i]]));
        }
        assert forall|i: int| slot <= i < order.len() implies path_before(
            paths[item],
            paths[#[trigger] order[i]],
        ) by {
            if i < rest.len() {
                assert(path_before(paths[item], paths[rest[i]]));
            }
        }
        slot
    }
}

/// The walk holds every part that has a path, once, and goes by path: a part
/// comes before the parts below it, `2.9` before `2.10`, and parts with the
/// same path as they came.
pub proof fn lemma_walk_goes_by_path(paths: Seq<Seq<u32>>, n: int)
    requires
        0 <= n <= paths.len(),
    ensures
        forall|i: int|
            0 <= i < walk(paths, n).len() ==> 0 <= #[trigger] walk(paths, n)[i] < n
                && paths[walk(paths, n)[i]].len() > 0,
        forall|i: int, j: int|
            0 <= i < j < walk(paths, n).len() ==> walked_before(
                paths,
                #[trigger] walk(paths, n)[i],
                #[trigger] walk(paths, n)[j],
            ),
        forall|item: int|
            0 <= item < n && paths[item].len() > 0 ==> #[trigger] walk(paths, n).contains(item),
    decreases n,
{
    if n > 0 {
        lemma_walk_goes_by_path(paths, n - 1);
        let before = walk(paths, n - 1);
        let now = walk(paths, n);
        let item = n - 1;
        if paths[item].len() > 0 {
            let slot = lemma_walk_slot(before, paths, item);
            assert(now == before.insert(slot, item));
            assert forall|i: int| 0 <= i < now.len() implies 0 <= #[trigger] now[i] < n
                && paths[now[i]].len() > 0 by {
                if i < slot {
                    assert(now[i] == before[i]);
                } else if i > slot {
                    assert(now[i] == before[i - 1]);
                }
            }
            assert forall|i: int, j: int| 0 <= i < j < now.len() implies walked_before(
                paths,
                #[trigger] now[i],
                #[trigger] now[j],
            ) by {
                let a = if i < slot {
                    i
                } else {
                    i - 1
                };
                let b = if j < slot {
                    j
                } else {
                    j - 1
                };
                if i == slot {
                    assert(now[j] == before[b]);
                } else if j == slot {
                    assert(now[i] == before[a]);
                    lemma_path_order(paths[before[a]], paths[item], paths[item]);
                } else {
                    assert(walked_before(paths, before[a], before[b]));
                    assert(now[i] == before[a]);
                    assert(now[j] == before[b]);
                }
            }
            assert forall|x: int| 0 <= x < n && paths[x].len() > 0 implies #[trigger] now.contains(
                x,
            ) by {
                if x == item {
                    assert(now[slot] == item);
                } else {
                    assert(before.contains(x));
                    let k = choose|k: int| 0 <= k < before.len() && before[k] == x;
                    if k < slot {
                        assert(now[k] == x);
                    } else {
                        assert(now[k + 1] == x);
                    }
                }
            }
        }
    }
}

/// The order the parts are walked in.
fn walk_order(paths: &Vec<Vec<u32>>, Ghost(views): Ghost<Seq<Seq<u32>>>) -> (order: Vec<usize>)
    requires
        views.len() == paths@.len(),
        forall|i: int| 0 <= i < paths@.len() ==> views[i] == #[trigger] paths@[i]@,
    ensures
        order@.map_values(|i: usize| i as int) == walk(views, views.len() as int),
        order@.len() == walk(views, views.len() as int).len(),
        forall|i: int|
            0 <= i < order@.len() ==> #[trigger] order@[i] < paths@.len()
                && views[order@[i] as int].len() > 0,
{
    let mut order: Vec<usize> = Vec::new();
    let mut item: usize = 0;
    assert(order@.map_values(|i: usize| i as int) =~= Seq::<int>::empty());
    while item < paths.len()
        invariant
            views.len() == paths@.len(),
            forall|i: int| 0 <= i < paths@.len() ==> views[i] == #[trigger] paths@[i]@,
            item <= paths@.len(),
            forall|i: int|
                0 <= i < order@.len() ==> #[trigger] order@[i] < item
                    && views[order@[i] as int].len() > 0,
            order@.map_values(|i: usize| i as int) == walk(views, item as int),
        decreases paths@.len() - item,
    {
        let ghost held = order@.map_values(|i: usize| i as int);
        if paths[item].len() > 0 {
            let mut slot: usize = order.len();
            while slot > 0 && comes_before(&paths[item], &paths[order[slot - 1]])
                invariant
                    slot <= order@.len(),
                    item < paths@.len(),
                    views.len() == paths@.len(),
                    forall|i: int| 0 <= i < paths@.len() ==> views[i] == #[trigger] paths@[i]@,
                    forall|i: int|
                        0 <= i < order@.len() ==> #[trigger] order@[i] < item
                            && views[order@[i] as int].len() > 0,
                    forall|i: int|
                        slot <= i < order@.len() ==> path_before(
                            views[item as int],
                            views[#[trigger] order@[i] as int],
                        ),
                decreases slot,
            {
                slot -= 1;
            }
            proof {
                assert forall|i: int| slot <= i < held.len() implies path_before(
                    views[item as int],
                    views[#[trigger] held[i]],
                ) by {
                    assert(path_before(views[item as int], views[order@[i] as int]));
                }
                lemma_seated_is_insert(held, views, item as int, slot as int);
            }
            order.insert(slot, item);
            assert(order@.map_values(|i: usize| i as int) =~= held.insert(slot as int, item as int));
        }
        item += 1;
    }
    order
}

/// `other` hangs off the parent of `path`, and not by way of `path` itself.
pub open spec fn beside(path: Seq<u32>, other: Seq<u32>) -> bool {
    let n = path.len() as int;
    &&& other.len() >= n > 0
    &&& other.take(n - 1) == path.take(n - 1)
    &&& (other.len() == n || other[n - 1] != path[n - 1])
}

/// The row `i` of the walk is the last child of its parent: no later row hangs
/// off the same one, its own descendants apart.
pub open spec fn closes_branch(paths: Seq<Seq<u32>>, order: Seq<int>, i: int) -> bool {
    forall|j: int| i < j < order.len() ==> !beside(paths[order[i]], #[trigger] paths[order[j]])
}

/// Whether `other` hangs off the parent of `path`.
fn is_beside(path: &Vec<u32>, other: &Vec<u32>) -> (out: bool)
    ensures
        out == beside(path@, other@),
{
    let n: usize = path.len();
    if n == 0 || other.len() < n {
        return false;
    }
    let mut i: usize = 0;
    while i < n - 1
        invariant
            n == path@.len(),
            0 < n <= other@.len(),
            i <= n - 1,
            forall|k: int| 0 <= k < i ==> path@[k] == other@[k],
        decreases n - i,
    {
        if path[i] != other[i] {
            proof {
                let at = i as int;
                assert(path@.take(n - 1)[at] != other@.take(n - 1)[at]);
            }
            return false;
        }
        i += 1;
    }
    assert(other@.take(n - 1) =~= path@.take(n - 1));
    other.len() == n || other[n - 1] != path[n - 1]
}

/// What all the parts weigh.
pub open spec fn total_size(parts: Seq<Attachment>) -> nat
    decreases parts.len(),
{
    if parts.len() == 0 {
        0
    } else {
        total_size(parts.drop_last()) + parts.last().size as nat
    }
}

proof fn lemma_total_grows(parts: Seq<Attachment>, n: int)
    requires
        0 <= n <= parts.len(),
    ensures
        total_size(parts.take(n)) <= total_size(parts),
    decreases parts.len(),
{
    if n < parts.len() {
        assert(parts.drop_last().take(n) =~= parts.take(n));
        lemma_total_grows(parts.drop_last(), n);
    } else {
        assert(parts.take(n) =~= parts);
    }
}

/// `node` is the message itself: of type `root`, weighing `size`.
pub open spec fn is_root(node: Node, root: Seq<char>, size: nat, last: bool) -> bool {
    &&& node.part_id@.len() == 0
    &&& node.depth == 0
    &&& node.mime@ == root
    &&& node.filename is None
    &&& node.size == size
    &&& !node.downloaded
    &&& node.last == last
    &&& node.attachment is None
    &&& node.content_id is None
    &&& !node.inline
}

/// `node` shows `part`, so deep.
pub open spec fn shows(node: Node, part: Attachment, depth: nat, last: bool) -> bool {
    &&& part.part_id matches Some(id) && node.part_id@ == id@
    &&& node.depth == depth
    &&& node.mime@ == part.mime_type@
    &&& text_opt(node.filename) == text_opt(part.filename)
    &&& node.size == part.size
    &&& node.downloaded == part.downloaded
    &&& node.last == last
    &&& node.attachment == Some(part.id)
    &&& text_opt(node.content_id) == text_opt(part.content_id)
    &&& node.inline == (part.disposition is Inline || part.content_id is Some)
}

/// Reads `parts` as a tree, flattened in walk order.
///
/// `root` is the message's own content type, which is a property of the
/// message rather than of any part; [`root_type`] works it out. A message with
/// no parts still gets its root node: a tree with one entry is a true answer,
/// where an empty panel would look broken.
///
/// Parts are ordered by their id read as a path of numbers, so `2.10` sorts
/// after `2.9` rather than before it the way a string compare would.
pub fn tree(root: &str, parts: &[Attachment]) -> (out: Vec<Node>)
    requires
        total_size(parts@) <= u64::MAX,
    ensures
        ({
            let paths = paths_of(parts@);
            let order = walk(paths, paths.len() as int);
            &&& out@.len() == order.len() + 1
            &&& is_root(out@[0], root@, total_size(parts@), order.len() == 0)
            &&& forall|i: int|
                0 <= i < order.len() ==> shows(
                    #[trigger] out@[i + 1],
                    parts@[order[i]],
                    paths[order[i]].len(),
                    closes_branch(paths, order, i),
                )
        }),
{
    let ghost views = paths_of(parts@);
    let mut paths: Vec<Vec<u32>> = Vec::new();
    let mut size: u64 = 0;
    let mut i: usize = 0;
    while i < parts.len()
        invariant
            i <= parts@.len(),
            total_size(parts@) <= u64::MAX,
            views == paths_of(parts@),
            paths@.len() == i,
            forall|k: int| 0 <= k < i ==> views[k] == #[trigger] paths@[k]@,
            size == total_size(parts@.take(i as int)),
        decreases parts@.len() - i,
    {
        proof {
            lemma_total_grows(parts@, i + 1);
            assert(parts@.take(i + 1).drop_last() =~= parts@.take(i as int));
        }
        paths.push(read_path(&parts[i]));
        size += parts[i].size;
        i += 1;
    }
    assert(parts@.take(parts@.len() as int) =~= parts@);
    let order = walk_order(&paths, Ghost(views));
    let ghost rows = walk(views, views.len() as int);
    let mut nodes: Vec<Node> = Vec::new();
    nodes.push(
        Node {
            part_id: String::new(),
            depth: 0,
            mime: root.to_owned(),
            filename: None,
            size,
            downloaded: false,
            last: order.len() == 0,
            attachment: None,
            content_id: None,
            inline: false,
        },
    );
    let mut row: usize = 0;
    while row < order.len()
        invariant
            row <= order@.len(),
            views == paths_of(parts@),
            rows == walk(views, views.len() as int),
            paths@.len() == parts@.len(),
            forall|k: int| 0 <= k < paths@.len() ==> views[k] == #[trigger] paths@[k]@,
            order@.len() == rows.len(),
            order@.map_values(|i: usize| i as int) == rows,
            forall|k: int|
                0 <= k < order@.len() ==> #[trigger] order@[k] < paths@.len()
                    && views[order@[k] as int].len() > 0,
            nodes@.len() == row + 1,
            is_root(nodes@[0], root@, total_size(parts@), rows.len() == 0),
            forall|k: int|
                0 <= k < row ==> shows(
                    #[trigger] nodes@[k + 1],
                    parts@[rows[k]],
                    views[rows[k]].len(),
                    closes_branch(views, rows, k),
                ),
        decreases order@.len() - row,
    {
        let at: usize = order[row];
        assert(rows[row as int] == order@[row as int] as int);
        let mut last = true;
        let mut later: usize = row + 1;
        while later < order.len()
            invariant
                row < later <= order@.len(),
                at == order@[row as int],
                rows[row as int] == at,
                paths@.len() == parts@.len(),
                views.len() == paths@.len(),
                forall|k: int| 0 <= k < paths@.len() ==> views[k] == #[trigger] paths@[k]@,
                order@.len() == rows.len(),
                order@.map_values(|i: usize| i as int) == rows,
                forall|k: int|
                    0 <= k < order@.len() ==> #[trigger] order@[k] < paths@.len()
                        && views[order@[k] as int].len() > 0,
                last == forall|j: int|
                    row < j < later ==> !beside(views[rows[row as int]], #[trigger] views[rows[j]]),
            decreases order@.len() - later,
        {
            assert(rows[later as int] == order@[later as int] as int);
            if is_beside(&paths[at], &paths[order[later]]) {
                assert(beside(views[rows[row as int]], views[rows[later as int]]));
                last = false;
            }
            later += 1;
        }
        let part = &parts[at];
        let depth: usize = paths[at].len();
        assert(views[at as int] == path_of(parts@[at as int]));
        let part_id = match &part.part_id {
            Some(id) => id.clone(),
            None => String::new(),
        };
        let inline = match part.disposition {
            Disposition::Inline => true,
            Disposition::Attachment => part.content_id.is_some(),
        };
        nodes.push(
            Node {
                part_id,
                depth,
                mime: part.mime_type.clone(),
                filename: copy_opt(&part.filename),
                size: part.size,
                downloaded: part.downloaded,
                last,
                attachment: Some(part.id),
                content_id: copy_opt(&part.content_id),
                inline,
            },
        );
        row += 1;
    }
    nodes
}

// ---------------------------------------------------------------------------
// What the rows say
// ---------------------------------------------------------------------------

/// The message's own type, worked out from what is recorded.
pub open spec fn derived_type(has_parts: bool, has_text: bool, has_html: bool) -> Seq<char> {
    if has_parts {
        "multipart/mixed"@
    } else if has_text && has_html {
        "multipart/alternative"@
    } else if has_html {
        "text/html"@
    } else {
        "text/plain"@
    }
}

/// The message's own content type -- the row the parts tree hangs off.
///
/// `stored` is the honest answer whenever a sync has filled it in. Without it
/// a plausible shape is worked out from what *is* recorded: a message with
/// parts is `multipart/mixed`, one with two bodies `multipart/alternative`,
/// and one with neither is whichever body it has.
pub fn root_type(stored: Option<&str>, body: &MessageBody, parts: &[Attachment]) -> (out: String)
    ensures
        out@ == (match stored {
            Some(content_type) => content_type@,
            None => derived_type(parts@.len() > 0, body.text is Some, body.html is Some),
        }),
{
    if let Some(content_type) = stored {
        return content_type.to_owned();
    }
    if parts.len() > 0 {
        "multipart/mixed".to_owned()
    } else if body.text.is_some() && body.html.is_some() {
        "multipart/alternative".to_owned()
    } else if body.html.is_some() {
        "text/html".to_owned()
    } else {
        "text/plain".to_owned()
    }
}

/// Two spaces for each of `n` levels.
pub open spec fn indent(n: nat) -> Seq<char>
    decreases n,
{
    if n == 0 {
        Seq::empty()
    } else {
        indent((n - 1) as nat) + "  "@
    }
}

/// The box drawing in front of a row.
pub open spec fn branch(depth: nat, last: bool) -> Seq<char> {
    if depth == 0 {
        Seq::empty()
    } else {
        indent((depth - 1) as nat) + (if last {
            "└ "@
        } else {
            "├ "@
        })
    }
}

/// The box-drawing prefix down the left of the tree.
///
/// Two spaces per level of nesting, then `├ ` or `└ `. The root has none.
pub fn prefix(node: &Node) -> (out: String)
    ensures
        out@ == branch(node.depth as nat, node.last),
{
    let mut out = String::new();
    if node.depth == 0 {
        assert(out@ =~= Seq::<char>::empty());
        return out;
    }
    let mut level: usize = 0;
    assert(out@ =~= indent(0));
    while level < node.depth - 1
        invariant
            node.depth > 0,
            level <= node.depth - 1,
            out@ == indent(level as nat),
        decreases node.depth - level,
    {
        out.append("  ");
        level += 1;
    }
    if node.last {
        out.append("└ ");
    } else {
        out.append("├ ");
    }
    out
}

/// The header line.
pub open spec fn summary_line(mime: Seq<char>, parts: nat, size: nat) -> Seq<char> {
    let count = if parts == 1 {
        "1 part"@
    } else {
        decimal(parts) + " parts"@
    };
    mime + " · "@ + count + " · "@ + size_text(size)
}

/// The header line: `multipart/mixed · 4 parts · 1.2 MB`.
///
/// The count is of parts, not of nodes -- the root is the message, not a part
/// of it.
pub fn summary(nodes: &[Node]) -> (out: String)
    ensures
        out@ == (if nodes@.len() == 0 {
            Seq::<char>::empty()
        } else {
            summary_line(nodes@[0].mime@, (nodes@.len() - 1) as nat, nodes@[0].size as nat)
        }),
{
    if nodes.len() == 0 {
        let out = String::new();
        assert(out@ =~= Seq::<char>::empty());
        return out;
    }
    let parts: usize = nodes.len() - 1;
    let mut out = nodes[0].mime.clone();
    out.append(" · ");
    if parts == 1 {
        out.append("1 part");
    } else {
        let mut count = decimal_of(parts as u64);
        count.append(" parts");
        out.append(count.as_str());
    }
    out.append(" · ");
    out.append(human_size(nodes[0].size).as_str());
    out
}

/// What the detail pane says about one part: `text/html · 6 KB`.
pub fn detail(node: &Node) -> (out: String)
    ensures
        out@ == (if node.depth == 0 || node.size == 0 {
            node.mime@
        } else {
            node.mime@ + " · "@ + size_text(node.size as nat)
        }),
{
    let mut out = node.mime.clone();
    if node.depth == 0 || node.size == 0 {
        return out;
    }
    out.append(" · ");
    out.append(human_size(node.size).as_str());
    out
}

/// Whether a part is one that can be shown inline rather than only saved.
///
/// Images and PDFs, and nothing else. Everything else is bytes the
/// application has no business interpreting.
pub fn previewable(mime: &str) -> (out: bool)
    ensures
        out == ({
            let mime = ascii_lower(trimmed(mime@));
            has_prefix(mime, "image/"@) || mime == "application/pdf"@
        }),
{
    let mime = to_ascii_lower(trim(mime).as_str());
    starts_with(mime.as_str(), "image/") || same_text(mime.as_str(), "application/pdf")
}

/// What the detail pane says about a part nothing has fetched.
pub const NOT_FETCHED: &'static str =
    "Described by the server, not downloaded. Nothing here has touched the network.";

/// What it says about a container.
pub const CONTAINER: &'static str = "A container for the parts below it. Nothing to save.";

/// A part of type `text/html`, in any case.
pub open spec fn is_markup(mime: Seq<char>) -> bool {
    ascii_lower(trimmed(mime)) == ascii_lower("text/html"@)
}

/// `n` of something: nothing for none, the singular for one.
pub open spec fn counted(n: nat, one: Seq<char>, many: Seq<char>) -> Seq<char> {
    if n == 0 {
        Seq::empty()
    } else if n == 1 {
        one
    } else {
        decimal(n) + many
    }
}

/// `n` of something.
fn count_of(n: u32, one: &str, many: &str) -> (out: String)
    ensures
        out@ == counted(n as nat, one@, many@),
{
    if n == 0 {
        let out = String::new();
        assert(out@ =~= Seq::<char>::empty());
        out
    } else if n == 1 {
        one.to_owned()
    } else {
        let mut out = decimal_of(n as u64);
        out.append(many);
        out
    }
}

/// Why a markup part is being held back.
pub open spec fn held_back_line(mime: Seq<char>, remote_images: nat, trackers: nat) -> Option<
    Seq<char>,
> {
    if !is_markup(mime) || remote_images + trackers == 0 {
        None
    } else {
        let images = counted(remote_images, "1 remote image"@, " remote images"@);
        let beacons = counted(trackers, "1 likely tracker"@, " likely trackers"@);
        let what = if remote_images > 0 && trackers > 0 {
            images + " and "@ + beacons
        } else if remote_images > 0 {
            images
        } else {
            beacons
        };
        Some(
            "HTML part held back — "@ + what
                + " would load. The plain-text part is showing instead."@,
        )
    }
}

/// Why a part is being held back, or `None` when it is not.
///
/// Only the markup parts: an `image/png` attachment references nothing and
/// cannot phone home, so holding it back would be theatre. This is also what
/// decides whether "Render once" is offered at all.
///
/// "Likely", always: the count comes from a size heuristic, and the word is
/// the difference between a signal and a claim.
pub fn held_back_note(mime: &str, remote_images: u32, trackers: u32) -> (out: Option<String>)
    requires
        is_markup(mime@) ==> remote_images + trackers <= u32::MAX,
    ensures
        text_opt(out) == held_back_line(mime@, remote_images as nat, trackers as nat),
{
    if !same_ignoring_case(trim(mime).as_str(), "text/html") {
        return None;
    }
    if remote_images + trackers == 0 {
        return None;
    }
    let mut what = count_of(remote_images, "1 remote image", " remote images");
    let beacons = count_of(trackers, "1 likely tracker", " likely trackers");
    if remote_images > 0 && trackers > 0 {
        what.append(" and ");
        what.append(beacons.as_str());
    } else if remote_images == 0 {
        what = beacons;
    }
    let mut out = "HTML part held back — ".to_owned();
    out.append(what.as_str());
    out.append(" would load. The plain-text part is showing instead.");
    Some(out)
}

/// The sentence beside the part the cursor is on.
pub open spec fn note_line(node: Node, remote_images: nat, trackers: nat) -> Seq<char> {
    match held_back_line(node.mime@, remote_images, trackers) {
        Some(held_back) => held_back,
        None => if !node.holds_bytes() {
            CONTAINER@
        } else if !node.downloaded {
            NOT_FETCHED@
        } else {
            (match text_opt(node.filename) {
                Some(name) => name,
                None => node.mime@,
            }) + " · already downloaded"@
        },
    }
}

/// The sentence beside the part the cursor is on.
///
/// The ordering matters: a held-back HTML part is *also* downloaded, and
/// saying "already downloaded" about it would answer a question nobody asked
/// while leaving the one they did ask unanswered.
pub fn note(node: &Node, remote_images: u32, trackers: u32) -> (out: String)
    requires
        is_markup(node.mime@) ==> remote_images + trackers <= u32::MAX,
    ensures
        out@ == note_line(*node, remote_images as nat, trackers as nat),
{
    if let Some(held_back) = held_back_note(node.mime.as_str(), remote_images, trackers) {
        return held_back;
    }
    if !node.is_leaf() {
        return CONTAINER.to_owned();
    }
    if !node.downloaded {
        return NOT_FETCHED.to_owned();
    }
    let mut out = match &node.filename {
        Some(name) => name.clone(),
        None => node.mime.clone(),
    };
    out.append(" · already downloaded");
    out
}

/// How a part reads aloud.
pub open spec fn spoken_line(node: Node) -> Seq<char> {
    if node.depth == 0 {
        node.mime@ + ", the whole message"@
    } else {
        let name = match node.filename {
            Some(name) => if trimmed(name@).len() > 0 {
                name@ + ", "@ + node.mime@
            } else {
                node.mime@
            },
            None => node.mime@,
        };
        if !node.holds_bytes() {
            name + ", a container"@
        } else {
            name + ", "@ + size_text(node.size as nat) + ", "@ + (if node.downloaded {
                "downloaded"@
            } else {
                "not downloaded"@
            })
        }
    }
}

/// How a part reads to a screen reader: what it is, how big, and whether
/// anything has actually been downloaded.
pub fn spoken(node: &Node) -> (out: String)
    ensures
        out@ == spoken_line(*node),
{
    if node.depth == 0 {
        let mut out = node.mime.clone();
        out.append(", the whole message");
        return out;
    }
    let mut out = node.mime.clone();
    if let Some(name) = &node.filename {
        if !is_blank(name.as_str()) {
            out = name.clone();
            out.append(", ");
            out.append(node.mime.as_str());
        }
    }
    if !node.is_leaf() {
        out.append(", a container");
        return out;
    }
    out.append(", ");
    out.append(human_size(node.size).as_str());
    out.append(", ");
    if node.downloaded {
        out.append("downloaded");
    } else {
        out.append("not downloaded");
    }
    out
}

// ---------------------------------------------------------------------------
// Saving
// ---------------------------------------------------------------------------

/// A path separator.
pub open spec fn is_separator(c: char) -> bool {
    c == '/' || c == '\\'
}

/// `s` with each separator a dash and each control character left out.
pub open spec fn laundered(s: Seq<char>) -> Seq<char>
    decreases s.len(),
{
    if s.len() == 0 {
        Seq::empty()
    } else {
        let rest = laundered(s.drop_last());
        let c = s.last();
        if is_separator(c) {
            rest.push('-')
        } else if control(c) {
            rest
        } else {
            rest.push(c)
        }
    }
}

/// A character that may not stand at either end of a file name.
pub open spec fn is_edge(c: char) -> bool {
    c == '.' || c == ' '
}

/// `s` without the dots and spaces it starts with.
pub open spec fn unedged_start(s: Seq<char>) -> Seq<char>
    decreases s.len(),
{
    if s.len() > 0 && is_edge(s[0]) {
        unedged_start(s.skip(1))
    } else {
        s
    }
}

/// `s` without the dots and spaces it ends with.
pub open spec fn unedged_end(s: Seq<char>) -> Seq<char>
    decreases s.len(),
{
    if s.len() > 0 && is_edge(s.last()) {
        unedged_end(s.drop_last())
    } else {
        s
    }
}

/// What the sender wrote as far as it is fit to name a file.
pub open spec fn cleaned(name: Seq<char>) -> Seq<char> {
    unedged_end(unedged_start(laundered(name)))
}

/// The sender's own name for a part, when it is usable.
pub open spec fn usable_name(filename: Option<Seq<char>>) -> Option<Seq<char>> {
    match given_name(filename) {
        Some(name) => if cleaned(name).len() > 0 {
            Some(cleaned(name))
        } else {
            None
        },
        None => None,
    }
}

/// What a type suggests as an extension, as far as it is fit to stand in a
/// file name: the sender wrote the type too.
pub open spec fn extension_of(mime: Seq<char>) -> Seq<char> {
    match last_index(mime, '/') {
        Some(at) => cleaned(mime.skip(at + 1)),
        None => "bin"@,
    }
}

/// A name for a part that has none of its own.
pub open spec fn made_name(part_id: Seq<char>, mime: Seq<char>) -> Seq<char> {
    "part-"@ + (if part_id.len() == 0 {
        "message"@
    } else {
        part_id
    }) + "."@ + extension_of(mime)
}

/// The file name a part is saved under.
pub open spec fn file_name(node: Node) -> Seq<char> {
    match usable_name(text_opt(node.filename)) {
        Some(name) => name,
        None => made_name(node.part_id@, node.mime@),
    }
}

/// What the sender wrote as far as it is fit to name a file.
fn clean(name: &str) -> (out: String)
    ensures
        out@ == cleaned(name@),
{
    let chars = chars_of(name);
    let mut kept: Vec<char> = Vec::new();
    let mut i: usize = 0;
    assert(kept@ =~= Seq::<char>::empty());
    while i < chars.len()
        invariant
            i <= chars@.len(),
            kept@ == laundered(chars@.take(i as int)),
        decreases chars@.len() - i,
    {
        assert(chars@.take(i + 1).drop_last() =~= chars@.take(i as int));
        let c = chars[i];
        // A separator becomes a dash: the sender meant a character to be
        // there. A control character is dropped, because the sender did not
        // mean anything by it that a reader could see.
        if c == '/' || c == '\\' {
            kept.push('-');
        } else if !is_control(c) {
            kept.push(c);
        }
        i += 1;
    }
    assert(chars@.take(chars@.len() as int) =~= chars@);
    let mut from: usize = 0;
    assert(kept@.skip(0) =~= kept@);
    while from < kept.len() && (kept[from] == '.' || kept[from] == ' ')
        invariant
            from <= kept@.len(),
            unedged_start(kept@.skip(from as int)) == unedged_start(kept@),
        decreases kept@.len() - from,
    {
        assert(kept@.skip(from as int).skip(1) =~= kept@.skip(from + 1));
        from += 1;
    }
    let mut to: usize = kept.len();
    assert(kept@.subrange(from as int, to as int) =~= kept@.skip(from as int));
    while to > from && (kept[to - 1] == '.' || kept[to - 1] == ' ')
        invariant
            from <= to <= kept@.len(),
            unedged_end(kept@.subrange(from as int, to as int)) == unedged_end(
                unedged_start(kept@),
            ),
        decreases to,
    {
        assert(kept@.subrange(from as int, to as int).drop_last() =~= kept@.subrange(
            from as int,
            to - 1,
        ));
        to -= 1;
    }
    text_of(&kept, from, to)
}

/// A filename safe to write `node` out under.
///
/// The sender's name when there is one, with any path separators taken out --
/// a part called `../../.bashrc` must not be able to steer where a save
/// lands. Otherwise the part id and a guess at an extension, cleaned the same
/// way, so no caller ever has to invent a name for an unnamed part.
pub fn save_name(node: &Node) -> (out: String)
    ensures
        out@ == file_name(*node),
{
    if let Some(filename) = &node.filename {
        let name = trim(filename.as_str());
        if name.as_str().unicode_len() > 0 {
            let cleaned_name = clean(name.as_str());
            if cleaned_name.as_str().unicode_len() > 0 {
                return cleaned_name;
            }
        }
    }
    let mut out = "part-".to_owned();
    if node.part_id.as_str().unicode_len() == 0 {
        out.append("message");
    } else {
        out.append(node.part_id.as_str());
    }
    out.append(".");
    let mime = chars_of(node.mime.as_str());
    match rfind_char(&mime, '/') {
        Some(at) => {
            let extension = text_of(&mime, at + 1, mime.len());
            assert(extension@ =~= mime@.skip(at + 1));
            out.append(clean(extension.as_str()).as_str());
        },
        None => out.append("bin"),
    }
    out
}

/// `invoice.pdf` and 2 become `invoice-2.pdf`.
pub open spec fn numbered(name: Seq<char>, nth: nat) -> Seq<char> {
    match last_index(name, '.') {
        Some(at) => if at > 0 {
            name.take(at) + "-"@ + decimal(nth) + "."@ + name.skip(at + 1)
        } else {
            name + "-"@ + decimal(nth)
        },
        None => name + "-"@ + decimal(nth),
    }
}

/// `invoice.pdf` and 2 become `invoice-2.pdf`.
///
/// Before the extension rather than after it: `invoice.pdf-2` opens in
/// nothing, and the point of the suffix is to keep both files usable.
/// A name with no extension simply takes the suffix at the end.
pub fn suffixed(name: &str, nth: u32) -> (out: String)
    ensures
        out@ == numbered(name@, nth as nat),
{
    let chars = chars_of(name);
    let len: usize = chars.len();
    match rfind_char(&chars, '.') {
        Some(at) => if at > 0 {
            let mut out = text_of(&chars, 0, at);
            assert(out@ =~= name@.take(at as int));
            out.append("-");
            out.append(decimal_of(nth as u64).as_str());
            out.append(".");
            let extension = text_of(&chars, at + 1, len);
            assert(extension@ =~= name@.skip(at + 1));
            out.append(extension.as_str());
            return out;
        },
        None => {},
    }
    let mut out = name.to_owned();
    out.append("-");
    out.append(decimal_of(nth as u64).as_str());
    out
}

/// `name`, in whatever case, is one of `names`.
pub open spec fn taken(names: Seq<Seq<char>>, name: Seq<char>) -> bool {
    exists|i: int| 0 <= i < names.len() && lowercase(#[trigger] names[i]) == lowercase(name)
}

/// The first of the names numbered from `nth` on that is not taken; the plain
/// name when the numbers run out.
pub open spec fn first_free(names: Seq<Seq<char>>, wanted: Seq<char>, nth: nat) -> Seq<char>
    decreases u32::MAX + 1 - nth,
{
    if nth > u32::MAX {
        wanted
    } else if !taken(names, numbered(wanted, nth)) {
        numbered(wanted, nth)
    } else {
        first_free(names, wanted, nth + 1)
    }
}

/// A name for a part wanted as `wanted`, with `names` used already.
pub open spec fn next_name(names: Seq<Seq<char>>, wanted: Seq<char>) -> Seq<char> {
    if taken(names, wanted) {
        first_free(names, wanted, 2)
    } else {
        wanted
    }
}

/// A name for each of `nodes`, in order.
pub open spec fn file_names(nodes: Seq<Node>) -> Seq<Seq<char>>
    decreases nodes.len(),
{
    if nodes.len() == 0 {
        Seq::empty()
    } else {
        let names = file_names(nodes.drop_last());
        names.push(next_name(names, file_name(nodes.last())))
    }
}

/// Whether the folded name is one of `folded`.
fn is_taken(folded: &Vec<String>, name: &str, Ghost(names): Ghost<Seq<Seq<char>>>) -> (out: bool)
    requires
        folded@.len() == names.len(),
        forall|i: int| 0 <= i < names.len() ==> (#[trigger] folded@[i])@ == lowercase(names[i]),
    ensures
        out == taken(names, name@),
{
    let wanted = to_lowercase(name);
    let mut i: usize = 0;
    while i < folded.len()
        invariant
            i <= folded@.len(),
            wanted@ == lowercase(name@),
            folded@.len() == names.len(),
            forall|k: int| 0 <= k < names.len() ==> (#[trigger] folded@[k])@ == lowercase(names[k]),
            forall|k: int| 0 <= k < i ==> lowercase(#[trigger] names[k]) != lowercase(name@),
        decreases folded@.len() - i,
    {
        assert(folded@[i as int]@ == lowercase(names[i as int]));
        if same_text(folded[i].as_str(), wanted.as_str()) {
            return true;
        }
        i += 1;
    }
    false
}

/// A name for every one of `nodes`, no two of them the same.
///
/// Nothing stops a message carrying two parts that both call themselves
/// `invoice.pdf`, and writing them one after another would leave a directory
/// with one invoice in it. So a repeat is suffixed: `invoice.pdf`,
/// `invoice-2.pdf`, `invoice-3.pdf`. The first of a set keeps its plain name.
///
/// **Compared without case**, because the filesystem may be: "save all"
/// writes the same number of files on every platform.
pub fn save_names(nodes: &[Node]) -> (out: Vec<String>)
    ensures
        texts(out@) == file_names(nodes@),
{
    let mut folded: Vec<String> = Vec::new();
    let mut names: Vec<String> = Vec::new();
    let ghost mut views: Seq<Seq<char>> = Seq::empty();
    let mut i: usize = 0;
    while i < nodes.len()
        invariant
            i <= nodes@.len(),
            views == file_names(nodes@.take(i as int)),
            views == texts(names@),
            folded@.len() == views.len(),
            forall|k: int| 0 <= k < views.len() ==> (#[trigger] folded@[k])@ == lowercase(views[k]),
        decreases nodes@.len() - i,
    {
        assert(nodes@.take(i + 1).drop_last() =~= nodes@.take(i as int));
        let wanted = save_name(&nodes[i]);
        let ghost plain = wanted@;
        let name = if is_taken(&folded, wanted.as_str(), Ghost(views)) {
            // From two, because the unsuffixed name is the first one.
            let mut nth: u32 = 2;
            let mut found: Option<String> = None;
            let mut searching = true;
            while searching
                invariant
                    2 <= nth,
                    wanted@ == plain,
                    folded@.len() == views.len(),
                    forall|k: int|
                        0 <= k < views.len() ==> (#[trigger] folded@[k])@ == lowercase(views[k]),
                    searching ==> found is None && first_free(views, plain, nth as nat)
                        == first_free(views, plain, 2),
                    !searching ==> match found {
                        Some(name) => name@ == first_free(views, plain, 2),
                        None => plain == first_free(views, plain, 2),
                    },
                decreases
                        u32::MAX - nth,
                        if searching {
                            1int
                        } else {
                            0int
                        },
            {
                let candidate = suffixed(wanted.as_str(), nth);
                if !is_taken(&folded, candidate.as_str(), Ghost(views)) {
                    found = Some(candidate);
                    searching = false;
                } else if nth == u32::MAX {
                    assert(first_free(views, plain, nth as nat + 1) == plain);
                    searching = false;
                } else {
                    nth += 1;
                }
            }
            match found {
                Some(name) => name,
                None => wanted,
            }
        } else {
            wanted
        };
        folded.push(to_lowercase(name.as_str()));
        proof {
            views = views.push(name@);
        }
        names.push(name);
        i += 1;
        assert(views =~= texts(names@));
    }
    assert(nodes@.take(nodes@.len() as int) =~= nodes@);
    names
}

/// What to say when "save all" could not get every part, or `None` when it
/// could. A count rather than which ones: one sentence for the batch.
pub fn save_all_failure(failed: usize) -> (out: Option<String>)
    ensures
        text_opt(out) == (if failed == 0 {
            None
        } else if failed == 1 {
            Some("1 part could not be saved"@)
        } else {
            Some(decimal(failed as nat) + " parts could not be saved"@)
        }),
{
    if failed == 0 {
        return None;
    }
    if failed == 1 {
        return Some("1 part could not be saved".to_owned());
    }
    let mut out = decimal_of(failed as u64);
    out.append(" parts could not be saved");
    Some(out)
}

// ---------------------------------------------------------------------------
// Walking
// ---------------------------------------------------------------------------

/// Which row a freshly opened parts panel puts its cursor on.
///
/// The first *part*, not the message: starting on the container would cost a
/// keystroke every single time. A message with no parts at all has only the
/// root, and the cursor goes there because there is nowhere else.
pub fn first_part(count: usize) -> (out: usize)
    ensures
        out == (if count > 1 {
            1int
        } else {
            0
        }),
{
    if count > 1 {
        1
    } else {
        0
    }
}

/// Where the cursor goes when the walk keys are pressed.
///
/// **Clamps rather than wraps.** A tree is a thing you read down. `count` is
/// the number of rows including the root, so a `count` of 0 -- no tree drawn
/// yet -- leaves the cursor at 0.
pub fn step(current: usize, forward: bool, count: usize) -> (out: usize)
    ensures
        count == 0 ==> out == 0,
        count > 0 ==> out == ({
            let to = if forward {
                current + 1
            } else if current > 0 {
                current - 1
            } else {
                0
            };
            if to < count {
                to
            } else {
                count - 1
            }
        }),
{
    if count == 0 {
        return 0;
    }
    let last: usize = count - 1;
    if forward {
        if current < last {
            current + 1
        } else {
            last
        }
    } else if current == 0 {
        0
    } else if current - 1 < last {
        current - 1
    } else {
        last
    }
}

// ---------------------------------------------------------------------------
// Laws
// ---------------------------------------------------------------------------

/// A text fit to stand in a file name: no separator and no control character.
pub open spec fn fit(s: Seq<char>) -> bool {
    forall|i: int| 0 <= i < s.len() ==> !is_separator(#[trigger] s[i]) && !control(s[i])
}

proof fn lemma_laundered_is_fit(s: Seq<char>)
    ensures
        fit(laundered(s)),
    decreases s.len(),
{
    if s.len() > 0 {
        lemma_laundered_is_fit(s.drop_last());
    }
}

proof fn lemma_unedged(s: Seq<char>)
    ensures
        fit(s) ==> fit(unedged_start(s)),
        unedged_start(s).len() > 0 ==> !is_edge(unedged_start(s)[0]),
        fit(s) ==> fit(unedged_end(s)),
        unedged_end(s).len() > 0 ==> !is_edge(unedged_end(s).last()),
        unedged_end(s).len() > 0 ==> unedged_end(s)[0] == s[0],
    decreases s.len(),
{
    if s.len() > 0 {
        if is_edge(s[0]) {
            lemma_unedged(s.skip(1));
        }
        if is_edge(s.last()) {
            lemma_unedged(s.drop_last());
        }
    }
}

/// A part id: a path of numbers, or nothing for the message itself.
pub open spec fn is_part_id(id: Seq<char>) -> bool {
    id.len() == 0 || all_numbers(split_at_char(id, '.'))
}

proof fn lemma_number_is_fit(s: Seq<char>)
    requires
        number_in(s, u32::MAX as nat) is Some,
    ensures
        fit(s),
{
    let digits = unsigned(s);
    assert forall|i: int| 0 <= i < s.len() implies !is_separator(#[trigger] s[i]) && !control(s[i]) by {
        if digits.len() < s.len() {
            if i > 0 {
                assert(digits[i - 1] == s[i]);
            }
        } else {
            assert(digits[i] == s[i]);
        }
    }
}

proof fn lemma_part_id_is_fit(id: Seq<char>)
    requires
        all_numbers(split_at_char(id, '.')),
    ensures
        fit(id),
    decreases id.len(),
{
    let segments = split_at_char(id, '.');
    match first_index(id, '.') {
        Some(at) => {
            lemma_first_index(id, '.');
            let rest = split_at_char(id.skip(at + 1), '.');
            assert(segments[0] == id.take(at));
            lemma_number_is_fit(segments[0]);
            assert forall|i: int| 0 <= i < rest.len() implies number_in(
                #[trigger] rest[i],
                u32::MAX as nat,
            ) is Some by {
                assert(segments[i + 1] == rest[i]);
            }
            lemma_part_id_is_fit(id.skip(at + 1));
            assert forall|i: int| 0 <= i < id.len() implies !is_separator(#[trigger] id[i])
                && !control(id[i]) by {
                if i < at {
                    assert(id.take(at)[i] == id[i]);
                } else if i > at {
                    assert(id.skip(at + 1)[i - at - 1] == id[i]);
                }
            }
        },
        None => {
            assert(segments[0] == id);
            lemma_number_is_fit(segments[0]);
        },
    }
}

proof fn lemma_first_index(s: Seq<char>, c: char)
    ensures
        first_index(s, c) matches Some(at) ==> 0 <= at < s.len() && s[at] == c,
    decreases s.len(),
{
    if s.len() > 0 && s[0] != c {
        lemma_first_index(s.skip(1), c);
    }
}

proof fn lemma_cleaned_is_fit(name: Seq<char>)
    ensures
        fit(cleaned(name)),
        cleaned(name).len() > 0 ==> !is_edge(cleaned(name)[0]),
{
    lemma_laundered_is_fit(name);
    lemma_unedged(laundered(name));
    lemma_unedged(unedged_start(laundered(name)));
}

/// A save name is never empty, never starts with a dot or a space, and cannot
/// steer a save out of its folder: it holds no separator, and no control
/// character either. That is so whatever the sender called the part, and
/// whatever type the sender gave it.
pub proof fn lemma_save_name_is_fit(node: Node)
    requires
        is_part_id(node.part_id@),
    ensures
        file_name(node).len() > 0,
        !is_edge(file_name(node)[0]),
        fit(file_name(node)),
{
    reveal_strlit("part-");
    reveal_strlit("message");
    reveal_strlit(".");
    reveal_strlit("bin");
    if usable_name(text_opt(node.filename)) is Some {
        lemma_cleaned_is_fit(given_name(text_opt(node.filename))->0);
    } else {
        let id = if node.part_id@.len() == 0 {
            "message"@
        } else {
            node.part_id@
        };
        if node.part_id@.len() > 0 {
            lemma_part_id_is_fit(id);
        }
        assert(fit(id));
        let extension = extension_of(node.mime@);
        match last_index(node.mime@, '/') {
            Some(at) => lemma_cleaned_is_fit(node.mime@.skip(at + 1)),
            None => {},
        }
        assert(fit(extension));
        let name = file_name(node);
        assert(name =~= "part-"@ + id + "."@ + extension);
        assert forall|i: int| 0 <= i < name.len() implies !is_separator(#[trigger] name[i])
            && !control(name[i]) by {
            let a = "part-"@.len() as int;
            let b = a + id.len();
            if i < a {
            } else if i < b {
                assert(name[i] == id[i - a]);
            } else if i == b {
                assert(name[i] == '.');
            } else {
                assert(name[i] == extension[i - b - 1]);
            }
        }
    }
}

/// Every number was tried for the last of `nodes` and none was free.
pub open spec fn ran_out(nodes: Seq<Node>) -> bool {
    let names = file_names(nodes.drop_last());
    let wanted = file_name(nodes.last());
    taken(names, wanted) && forall|nth: nat|
        2 <= nth <= u32::MAX ==> taken(names, #[trigger] numbered(wanted, nth))
}

proof fn lemma_first_free(names: Seq<Seq<char>>, wanted: Seq<char>, nth: nat)
    ensures
        (exists|n: nat| nth <= n <= u32::MAX && !taken(names, #[trigger] numbered(wanted, n)))
            ==> !taken(names, first_free(names, wanted, nth)),
    decreases u32::MAX + 1 - nth,
{
    if nth <= u32::MAX && taken(names, numbered(wanted, nth)) {
        lemma_first_free(names, wanted, nth + 1);
        if exists|n: nat| nth <= n <= u32::MAX && !taken(names, #[trigger] numbered(wanted, n)) {
            let n = choose|n: nat|
                nth <= n <= u32::MAX && !taken(names, #[trigger] numbered(wanted, n));
            assert(nth + 1 <= n);
        }
    }
}

/// "Save all" gets everything: there is a name for each part, and no two of
/// them are the same in any case. Short of four billion parts of one name,
/// that is -- then the numbers run out.
pub proof fn lemma_save_names_differ(nodes: Seq<Node>)
    ensures
        file_names(nodes).len() == nodes.len(),
        (forall|n: int| 0 < n <= nodes.len() ==> !ran_out(#[trigger] nodes.take(n))) ==> forall|
            i: int,
            j: int,
        |
            0 <= i < j < nodes.len() ==> lowercase(#[trigger] file_names(nodes)[i]) != lowercase(
                #[trigger] file_names(nodes)[j],
            ),
    decreases nodes.len(),
{
    if nodes.len() > 0 {
        let rest = nodes.drop_last();
        lemma_save_names_differ(rest);
        if forall|n: int| 0 < n <= nodes.len() ==> !ran_out(#[trigger] nodes.take(n)) {
            assert forall|n: int| 0 < n <= rest.len() implies !ran_out(#[trigger] rest.take(n)) by {
                assert(rest.take(n) =~= nodes.take(n));
            }
            assert(nodes.take(nodes.len() as int) =~= nodes);
            assert(!ran_out(nodes));
            let names = file_names(rest);
            let wanted = file_name(nodes.last());
            lemma_first_free(names, wanted, 2);
            assert(!taken(names, next_name(names, wanted)));
        }
    }
}

/// What a numbered name is made of around its number.
spec fn around(name: Seq<char>) -> (Seq<char>, Seq<char>) {
    match last_index(name, '.') {
        Some(at) => if at > 0 {
            (name.take(at) + "-"@, "."@ + name.skip(at + 1))
        } else {
            (name + "-"@, Seq::empty())
        },
        None => (name + "-"@, Seq::empty()),
    }
}

proof fn lemma_numbered_differ(name: Seq<char>, a: nat, b: nat)
    requires
        all_ascii(name),
        lowercase(numbered(name, a)) == lowercase(numbered(name, b)),
    ensures
        a == b,
{
    let (front, back) = around(name);
    lemma_last_index(name, '.');
    lemma_numbered_is_ascii(name, a);
    lemma_numbered_is_ascii(name, b);
    let x = numbered(name, a);
    let y = numbered(name, b);
    assert(x =~= front + decimal(a) + back);
    assert(y =~= front + decimal(b) + back);
    assert(ascii_lower(x).len() == ascii_lower(y).len());
    lemma_decimal_digits(a);
    lemma_decimal_digits(b);
    assert forall|i: int| 0 <= i < decimal(a).len() implies decimal(a)[i] == decimal(b)[i] by {
        let at = front.len() + i;
        assert(x[at] == decimal(a)[i]);
        assert(y[at] == decimal(b)[i]);
        assert(ascii_lower(x)[at] == ascii_lower(y)[at]);
    }
    assert(decimal(a) =~= decimal(b));
    lemma_decimal_differs(a, b);
}

proof fn lemma_numbered_is_ascii(name: Seq<char>, nth: nat)
    requires
        all_ascii(name),
    ensures
        all_ascii(numbered(name, nth)),
{
    let (front, back) = around(name);
    let whole = numbered(name, nth);
    lemma_last_index(name, '.');
    lemma_decimal_digits(nth);
    reveal_strlit("-");
    reveal_strlit(".");
    assert(whole =~= front + decimal(nth) + back);
    assert(all_ascii(front));
    assert(all_ascii(back));
    assert forall|i: int| 0 <= i < whole.len() implies #[trigger] whole[i] <= '\u{7f}' by {
        let a = front.len() as int;
        let b = a + decimal(nth).len();
        if i < a {
            assert(whole[i] == front[i]);
        } else if i < b {
            assert(whole[i] == decimal(nth)[i - a]);
        } else {
            assert(whole[i] == back[i - b]);
        }
    }
}

proof fn lemma_last_index(s: Seq<char>, c: char)
    ensures
        last_index(s, c) matches Some(at) ==> 0 <= at < s.len() && s[at] == c,
    decreases s.len(),
{
    if s.len() > 0 && s.last() != c {
        lemma_last_index(s.drop_last(), c);
    }
}

/// The first of `names` that takes `wanted` with the number `nth`.
spec fn holder(names: Seq<Seq<char>>, wanted: Seq<char>, nth: nat) -> int {
    choose|i: int|
        0 <= i < names.len() && lowercase(#[trigger] names[i]) == lowercase(numbered(wanted, nth))
}

/// The names that take `wanted` with the first `count` numbers.
spec fn holders(names: Seq<Seq<char>>, wanted: Seq<char>, count: nat) -> Set<int>
    decreases count,
{
    if count == 0 {
        Set::empty()
    } else {
        holders(names, wanted, (count - 1) as nat).insert(holder(names, wanted, count + 1))
    }
}

proof fn lemma_each_number_takes_a_name(names: Seq<Seq<char>>, wanted: Seq<char>, count: nat)
    requires
        all_ascii(wanted),
        forall|nth: nat| 2 <= nth <= count + 1 ==> taken(names, #[trigger] numbered(wanted, nth)),
    ensures
        holders(names, wanted, count).finite(),
        holders(names, wanted, count).len() == count,
        forall|i: int| #[trigger]
            holders(names, wanted, count).contains(i) ==> 0 <= i < names.len() && exists|nth: nat|
                2 <= nth <= count + 1 && lowercase(names[i]) == lowercase(
                    #[trigger] numbered(wanted, nth),
                ),
    decreases count,
{
    if count > 0 {
        let before = holders(names, wanted, (count - 1) as nat);
        let here = holder(names, wanted, count + 1);
        lemma_each_number_takes_a_name(names, wanted, (count - 1) as nat);
        assert(taken(names, numbered(wanted, count + 1)));
        assert(lowercase(names[here]) == lowercase(numbered(wanted, count + 1)));
        if before.contains(here) {
            let nth = choose|nth: nat|
                2 <= nth <= count && lowercase(names[here]) == lowercase(
                    #[trigger] numbered(wanted, nth),
                );
            lemma_numbered_differ(wanted, nth, count + 1);
        }
    }
}

proof fn lemma_numbers_last(nodes: Seq<Node>)
    requires
        0 < nodes.len() < u32::MAX,
        all_ascii(file_name(nodes.last())),
    ensures
        !ran_out(nodes),
{
    let names = file_names(nodes.drop_last());
    let wanted = file_name(nodes.last());
    lemma_save_names_differ(nodes.drop_last());
    if ran_out(nodes) {
        let count = (u32::MAX - 1) as nat;
        lemma_each_number_takes_a_name(names, wanted, count);
        let places = vstd::set_lib::set_int_range(0, names.len() as int);
        vstd::set_lib::lemma_int_range(0, names.len() as int);
        assert(holders(names, wanted, count).subset_of(places));
        vstd::set_lib::lemma_len_subset(holders(names, wanted, count), places);
    }
}

/// "Save all" gets everything: no two of fewer than four billion parts whose
/// names are ASCII get the same name, in any case.
pub proof fn lemma_ascii_save_names_differ(nodes: Seq<Node>)
    requires
        nodes.len() < u32::MAX,
        forall|i: int| 0 <= i < nodes.len() ==> all_ascii(file_name(#[trigger] nodes[i])),
    ensures
        file_names(nodes).len() == nodes.len(),
        forall|i: int, j: int|
            0 <= i < j < nodes.len() ==> lowercase(#[trigger] file_names(nodes)[i]) != lowercase(
                #[trigger] file_names(nodes)[j],
            ),
{
    assert forall|n: int| 0 < n <= nodes.len() implies !ran_out(#[trigger] nodes.take(n)) by {
        assert(nodes.take(n).last() == nodes[n - 1]);
        lemma_numbers_last(nodes.take(n));
    }
    lemma_save_names_differ(nodes);
}

/// The first part of a name keeps that name.
pub proof fn lemma_first_keeps_its_name(nodes: Seq<Node>, i: int)
    requires
        0 <= i < nodes.len(),
    ensures
        i < file_names(nodes).len(),
        !taken(file_names(nodes.take(i)), file_name(nodes[i])) ==> file_names(nodes)[i]
            == file_name(nodes[i]),
    decreases nodes.len(),
{
    lemma_save_names_differ(nodes);
    lemma_save_names_differ(nodes.drop_last());
    if i < nodes.len() - 1 {
        lemma_first_keeps_its_name(nodes.drop_last(), i);
        assert(nodes.drop_last().take(i) =~= nodes.take(i));
    } else {
        assert(nodes.take(i) =~= nodes.drop_last());
    }
}

/// A part id is read as the numbers it writes, dots between them.
pub proof fn lemma_part_ids_read_back(part: Attachment, path: Seq<u32>)
    requires
        path.len() > 0,
        part.part_id is Some,
        part.part_id->0@ == joined(
            Seq::new(path.len(), |i: int| decimal(path[i] as nat)),
            seq!['.'],
        ),
    ensures
        path_of(part) == path,
{
    let parts = Seq::new(path.len(), |i: int| decimal(path[i] as nat));
    assert forall|i: int| 0 <= i < parts.len() implies !(#[trigger] parts[i]).contains('.') by {
        lemma_decimal_digits(path[i] as nat);
        if parts[i].contains('.') {
            let k = choose|k: int| 0 <= k < parts[i].len() && parts[i][k] == '.';
            assert('0' <= decimal(path[i] as nat)[k]);
        }
    }
    lemma_joined_splits_back(parts, '.');
    assert forall|i: int| 0 <= i < parts.len() implies number_in(
        #[trigger] parts[i],
        u32::MAX as nat,
    ) == Some(path[i] as nat) by {
        lemma_numbers_read_back(path[i] as nat, u32::MAX as nat);
    }
    assert(path_of(part) =~= path);
}

/// Paths go by their first difference: a smaller number comes first, and so
/// does the path that ends there.
pub proof fn lemma_first_difference_decides(a: Seq<u32>, b: Seq<u32>, k: int)
    requires
        0 <= k <= a.len(),
        k <= b.len(),
        a.take(k) == b.take(k),
    ensures
        k < a.len() && k < b.len() && a[k] < b[k] ==> path_before(a, b) && !path_before(b, a),
        k == a.len() && k < b.len() ==> path_before(a, b) && !path_before(b, a),
        k == a.len() && k == b.len() ==> !path_before(a, b),
    decreases k,
{
    if k > 0 {
        assert(a.take(k)[0] == a[0] && b.take(k)[0] == b[0]);
        assert(a.skip(1).take(k - 1) =~= a.take(k).skip(1));
        assert(b.skip(1).take(k - 1) =~= b.take(k).skip(1));
        lemma_first_difference_decides(a.skip(1), b.skip(1), k - 1);
    }
}

/// A row is not the last of its branch while another child of the same parent
/// is to come, or anything that hangs off one; the last row of all is; and
/// neither what hangs off a row itself nor what hangs elsewhere keeps it from
/// being the last.
pub proof fn lemma_last_of_its_branch(
    paths: Seq<Seq<u32>>,
    order: Seq<int>,
    i: int,
    parent: Seq<u32>,
    a: u32,
    b: u32,
    j: int,
)
    requires
        0 <= i < order.len(),
        paths[order[i]] == parent.push(a),
    ensures
        i < j < order.len() && paths[order[j]] == parent.push(b) ==> !closes_branch(paths, order, i),
        i < j < order.len() && parent.push(b).is_prefix_of(paths[order[j]]) && a != b
            ==> !closes_branch(paths, order, i),
        i == order.len() - 1 ==> closes_branch(paths, order, i),
        (forall|k: int|
            i < k < order.len() ==> !(parent.is_prefix_of(#[trigger] paths[order[k]])))
            ==> closes_branch(paths, order, i),
        (forall|k: int|
            i < k < order.len() ==> (#[trigger] paths[order[k]]).len() > parent.len() + 1
                && paths[order[k]].take(parent.len() as int + 1) == parent.push(a)) ==> closes_branch(
            paths,
            order,
            i,
        ),
{
    let path = paths[order[i]];
    let n = path.len() as int;
    if i < j < order.len() && paths[order[j]] == parent.push(b) {
        let other = paths[order[j]];
        assert(other.take(n - 1) =~= parent);
        assert(path.take(n - 1) =~= parent);
        assert(beside(path, other));
    }
    assert(path.take(n - 1) =~= parent);
    if i < j < order.len() && parent.push(b).is_prefix_of(paths[order[j]]) && a != b {
        let other = paths[order[j]];
        assert(other.take(n) =~= parent.push(b));
        assert(other.take(n)[n - 1] == b);
        assert(other.take(n - 1) =~= other.take(n).take(n - 1));
        assert(other.take(n - 1) =~= parent);
        assert(beside(path, other));
    }
    if forall|k: int|
        i < k < order.len() ==> !(parent.is_prefix_of(#[trigger] paths[order[k]])) {
        assert forall|k: int| i < k < order.len() implies !beside(
            path,
            #[trigger] paths[order[k]],
        ) by {
            let other = paths[order[k]];
            if beside(path, other) {
                assert(other.take(n - 1) == parent);
                assert(parent =~= other.subrange(0, n - 1));
            }
        }
    }
    if forall|k: int|
        i < k < order.len() ==> (#[trigger] paths[order[k]]).len() > parent.len() + 1
            && paths[order[k]].take(parent.len() as int + 1) == parent.push(a) {
        assert forall|k: int| i < k < order.len() implies !beside(
            path,
            #[trigger] paths[order[k]],
        ) by {
            let other = paths[order[k]];
            assert(other.take(n)[n - 1] == other[n - 1]);
            assert(path[n - 1] == a);
        }
    }
}

/// The whole weighs what its parts do together.
pub proof fn lemma_sizes_add_up(first: Seq<Attachment>, rest: Seq<Attachment>, part: Attachment)
    ensures
        total_size(first + rest) == total_size(first) + total_size(rest),
        total_size(seq![part]) == part.size,
    decreases rest.len(),
{
    assert(seq![part].drop_last() =~= Seq::<Attachment>::empty());
    assert(total_size(seq![part].drop_last()) == 0);
    if rest.len() == 0 {
        assert(first + rest =~= first);
    } else {
        lemma_sizes_add_up(first, rest.drop_last(), part);
        assert((first + rest).drop_last() =~= first + rest.drop_last());
        assert((first + rest).last() == rest.last());
    }
}

/// A row says of its part what the part is: its own id, type, name, size and
/// where it is kept; and that it is meant to be shown in place when it was
/// sent so or can be pointed at.
pub proof fn lemma_what_a_row_says(node: Node, part: Attachment, depth: nat, last: bool)
    requires
        shows(node, part, depth, last),
    ensures
        node.part_id@ == part.part_id->0@,
        node.mime@ == part.mime_type@,
        node.size == part.size,
        node.downloaded == part.downloaded,
        node.attachment == Some(part.id),
        node.filename is Some <==> part.filename is Some,
        part.content_id is Some ==> node.inline,
        part.disposition is Inline ==> node.inline,
        node.inline ==> part.content_id is Some || part.disposition is Inline,
        node.depth == depth && node.last == last,
        !is_root(node, node.mime@, node.size as nat, last),
{
}

/// Bytes worth saving are those of a part that is no container.
pub proof fn lemma_what_can_be_saved(node: Node)
    ensures
        node.attachment is None ==> !node.holds_bytes(),
        node.mime@.len() >= 10 && node.mime@.take(10) == "multipart/"@ ==> !node.holds_bytes(),
        node.attachment is Some && (node.mime@.len() < 10 || node.mime@.take(10) != "multipart/"@)
            ==> node.holds_bytes(),
{
    reveal_strlit("multipart/");
    if node.mime@.len() >= 10 {
        assert(node.mime@.subrange(0, 10) =~= node.mime@.take(10));
    }
}

/// What a message is called without being told: by its parts where it has
/// any, by both of its bodies where it has two, and by the one it has where it
/// has one.
pub proof fn lemma_what_a_message_is(has_text: bool, has_html: bool)
    ensures
        derived_type(true, has_text, has_html) == "multipart/mixed"@,
        derived_type(false, true, true) == "multipart/alternative"@,
        derived_type(false, false, true) == "text/html"@,
        derived_type(false, true, false) == "text/plain"@,
        derived_type(false, false, false) == "text/plain"@,
{
}

/// The drawing in front of a row takes two characters a level, and shows by
/// its corner whether the row is the last of its branch.
pub proof fn lemma_branch_drawing(depth: nat, last: bool)
    ensures
        branch(depth, last).len() == 2 * depth,
        depth > 0 ==> (branch(depth, last)[2 * depth - 2] == '└' <==> last),
        depth > 0 ==> (branch(depth, last)[2 * depth - 2] == '├' <==> !last),
        forall|i: int|
            0 <= i < 2 * depth && i != 2 * depth - 2 ==> #[trigger] branch(depth, last)[i] == ' ',
{
    reveal_strlit("└ ");
    reveal_strlit("├ ");
    if depth > 0 {
        lemma_indent((depth - 1) as nat);
    }
}

proof fn lemma_indent(n: nat)
    ensures
        indent(n).len() == 2 * n,
        forall|i: int| 0 <= i < 2 * n ==> #[trigger] indent(n)[i] == ' ',
    decreases n,
{
    reveal_strlit("  ");
    if n > 0 {
        lemma_indent((n - 1) as nat);
    }
}

/// The line over the tree says the type, how many parts there are, one of them
/// as one, and what they weigh.
pub proof fn lemma_what_the_header_line_says(mime: Seq<char>, parts: nat, size: nat)
    ensures
        summary_line(mime, parts, size) == mime + " · "@ + (decimal(parts) + (if parts == 1 {
            " part"@
        } else {
            " parts"@
        })) + " · "@ + size_text(size),
{
    reveal_strlit("1 part");
    reveal_strlit(" part");
    if parts == 1 {
        assert(decimal(1) =~= seq!['1']);
        assert("1 part"@ =~= decimal(1) + " part"@);
    }
}

proof fn lemma_counted_says(n: nat, one: Seq<char>, many: Seq<char>, what: Seq<char>)
    requires
        n > 0,
        one == seq!['1'] + what,
        has_prefix(many, what),
    ensures
        has_prefix(counted(n, one, many), decimal(n) + what),
{
    let said = counted(n, one, many);
    let expected = decimal(n) + what;
    assert(many.subrange(0, what.len() as int) == what);
    if n == 1 {
        assert(decimal(1) =~= seq!['1']);
        assert(said.subrange(0, expected.len() as int) =~= expected);
    } else {
        assert forall|i: int| 0 <= i < expected.len() implies said[i] == expected[i] by {
            if i >= decimal(n).len() {
                let k = i - decimal(n).len();
                assert(many.subrange(0, what.len() as int)[k] == many[k]);
            }
        }
        assert(said.subrange(0, expected.len() as int) =~= expected);
    }
}

/// A markup part is held back exactly when something in it would load, and
/// the sentence counts what: the images, the likely trackers, or both.
pub proof fn lemma_why_a_part_is_held_back(mime: Seq<char>, images: nat, trackers: nat)
    ensures
        held_back_line(mime, images, trackers) is Some <==> ascii_lower(trimmed(mime))
            == ascii_lower("text/html"@) && (images > 0 || trackers > 0),
        held_back_line(mime, images, trackers) is Some && images > 0 ==> has_text(
            held_back_line(mime, images, trackers)->0,
            decimal(images) + " remote image"@,
        ),
        held_back_line(mime, images, trackers) is Some && trackers > 0 ==> has_text(
            held_back_line(mime, images, trackers)->0,
            decimal(trackers) + " likely tracker"@,
        ),
        held_back_line(mime, images, trackers) is Some && images > 0 && trackers > 0 ==> has_text(
            held_back_line(mime, images, trackers)->0,
            " and "@,
        ),
{
    if let Some(line) = held_back_line(mime, images, trackers) {
        let head = "HTML part held back — "@;
        let tail = " would load. The plain-text part is showing instead."@;
        let one = counted(images, "1 remote image"@, " remote images"@);
        let two = counted(trackers, "1 likely tracker"@, " likely trackers"@);
        let both = " and "@;
        reveal_strlit("1 remote image");
        reveal_strlit(" remote images");
        reveal_strlit(" remote image");
        reveal_strlit("1 likely tracker");
        reveal_strlit(" likely trackers");
        reveal_strlit(" likely tracker");
        assert("1 remote image"@ =~= seq!['1'] + " remote image"@);
        assert("1 likely tracker"@ =~= seq!['1'] + " likely tracker"@);
        assert(" remote images"@.subrange(0, 13) =~= " remote image"@);
        assert(" likely trackers"@.subrange(0, 15) =~= " likely tracker"@);
        if images > 0 {
            lemma_counted_says(images, "1 remote image"@, " remote images"@, " remote image"@);
            let rest = if trackers > 0 {
                both + two + tail
            } else {
                tail
            };
            assert(line =~= head + one + rest);
            lemma_prefix_within(head, one, rest, decimal(images) + " remote image"@);
        }
        if trackers > 0 {
            lemma_counted_says(trackers, "1 likely tracker"@, " likely trackers"@, " likely tracker"@);
            let ahead = if images > 0 {
                head + one + both
            } else {
                head
            };
            assert(line =~= ahead + two + tail);
            lemma_prefix_within(ahead, two, tail, decimal(trackers) + " likely tracker"@);
        }
        if images > 0 && trackers > 0 {
            assert(line =~= (head + one) + both + (two + tail));
            assert(both.subrange(0, both.len() as int) =~= both);
            lemma_prefix_within(head + one, both, two + tail, both);
        }
    }
}

proof fn lemma_prefix_within(before: Seq<char>, s: Seq<char>, after: Seq<char>, prefix: Seq<char>)
    requires
        has_prefix(s, prefix),
    ensures
        has_text(before + s + after, prefix),
{
    let all = before + s + after;
    let at = before.len() as int;
    assert(s.subrange(0, prefix.len() as int) == prefix);
    assert(all.subrange(at, at + prefix.len()) =~= s.subrange(0, prefix.len() as int));
    assert(occurs_at(all, prefix, at));
}

/// What stands beside a part answers the first question about it: why it is
/// held back, then that it is only a container, then that nothing was
/// fetched, and only then that it is there.
pub proof fn lemma_what_stands_beside_a_part(node: Node, images: nat, trackers: nat)
    ensures
        held_back_line(node.mime@, images, trackers) matches Some(line) ==> note_line(
            node,
            images,
            trackers,
        ) == line,
        held_back_line(node.mime@, images, trackers) is None && node.attachment is None ==> note_line(
            node,
            images,
            trackers,
        ) == "A container for the parts below it. Nothing to save."@,
        held_back_line(node.mime@, images, trackers) is None && node.holds_bytes()
            && !node.downloaded ==> note_line(node, images, trackers)
            == "Described by the server, not downloaded. Nothing here has touched the network."@,
        held_back_line(node.mime@, images, trackers) is None && node.holds_bytes()
            && node.downloaded ==> note_line(node, images, trackers) == (if node.filename is Some {
            node.filename->0@
        } else {
            node.mime@
        }) + " · already downloaded"@,
{
}

/// Read aloud, a part says what it is, by name where it has one, how big it
/// is and whether it is there.
pub proof fn lemma_how_a_part_reads(node: Node)
    ensures
        node.depth == 0 ==> spoken_line(node) == node.mime@ + ", the whole message"@,
        node.depth > 0 && node.holds_bytes() && node.filename is None ==> spoken_line(node)
            == node.mime@ + ", "@ + size_text(node.size as nat) + ", "@ + (if node.downloaded {
            "downloaded"@
        } else {
            "not downloaded"@
        }),
        node.depth > 0 && node.holds_bytes() && node.filename is Some && trimmed(
            node.filename->0@,
        ).len() > 0 ==> spoken_line(node) == node.filename->0@ + ", "@ + node.mime@ + ", "@ + size_text(
            node.size as nat,
        ) + ", "@ + (if node.downloaded {
            "downloaded"@
        } else {
            "not downloaded"@
        }),
        node.depth > 0 && node.attachment is None && node.filename is None ==> spoken_line(node)
            == node.mime@ + ", a container"@,
{
}

proof fn lemma_laundered_keeps(s: Seq<char>)
    requires
        fit(s),
    ensures
        laundered(s) == s,
    decreases s.len(),
{
    if s.len() > 0 {
        let rest = s.drop_last();
        assert(!is_separator(s[s.len() - 1]) && !control(s[s.len() - 1]));
        assert forall|i: int| 0 <= i < rest.len() implies !is_separator(#[trigger] rest[i])
            && !control(rest[i]) by {
            assert(s[i] == rest[i]);
        }
        lemma_laundered_keeps(rest);
        assert(laundered(s) =~= s);
    } else {
        assert(laundered(s) =~= s);
    }
}

/// Cleaning goes character by character: a separator becomes a dash, a control
/// is left out, every other stays.
pub proof fn lemma_laundered_one_by_one(a: Seq<char>, b: Seq<char>, c: char)
    ensures
        laundered(a + b) == laundered(a) + laundered(b),
        c == '/' || c == '\\' ==> laundered(seq![c]) == seq!['-'],
        control(c) ==> laundered(seq![c]).len() == 0,
        !control(c) && c != '/' && c != '\\' ==> laundered(seq![c]) == seq![c],
    decreases b.len(),
{
    assert(laundered(seq![c].drop_last()) =~= Seq::<char>::empty());
    assert(seq![c].last() == c);
    if is_separator(c) {
        assert(laundered(seq![c]) =~= seq!['-']);
    } else if !control(c) {
        assert(laundered(seq![c]) =~= seq![c]);
    }
    if b.len() == 0 {
        assert(a + b =~= a);
        assert(laundered(a) + laundered(b) =~= laundered(a));
    } else {
        lemma_laundered_one_by_one(a, b.drop_last(), c);
        assert((a + b).drop_last() =~= a + b.drop_last());
        assert((a + b).last() == b.last());
        assert(laundered(a + b) =~= laundered(a) + laundered(b));
    }
}

proof fn lemma_edges_come_off(before: Seq<char>, s: Seq<char>, after: Seq<char>)
    requires
        s.len() > 0 && !is_edge(s[0]) && !is_edge(s.last()),
        forall|i: int| 0 <= i < before.len() ==> is_edge(#[trigger] before[i]),
        forall|i: int| 0 <= i < after.len() ==> is_edge(#[trigger] after[i]),
    ensures
        unedged_end(unedged_start(before + s + after)) == s,
    decreases before.len() + after.len(),
{
    let all = before + s + after;
    if before.len() > 0 {
        assert(is_edge(before[0]));
        assert(all[0] == before[0]);
        let fewer = before.skip(1);
        assert forall|i: int| 0 <= i < fewer.len() implies is_edge(#[trigger] fewer[i]) by {
            assert(before[i + 1] == fewer[i]);
        }
        assert(all.skip(1) =~= fewer + s + after);
        lemma_edges_come_off(fewer, s, after);
    } else {
        assert(all =~= s + after);
        assert(all[0] == s[0]);
        assert(unedged_start(all) == all);
        if after.len() > 0 {
            let fewer = after.drop_last();
            assert(is_edge(after[after.len() - 1]));
            assert(all.last() == after[after.len() - 1]);
            assert forall|i: int| 0 <= i < fewer.len() implies is_edge(#[trigger] fewer[i]) by {
                assert(after[i] == fewer[i]);
            }
            let shorter = before + s + fewer;
            assert(all.drop_last() =~= shorter);
            lemma_edges_come_off(before, s, fewer);
            assert(shorter[0] == s[0]);
            assert(unedged_start(shorter) == shorter);
        } else {
            assert(all =~= s);
        }
    }
}

/// A name that is fit to name a file is kept, but for the dots and spaces
/// around it.
pub proof fn lemma_a_fit_name_is_kept(
    node: Node,
    before: Seq<char>,
    name: Seq<char>,
    after: Seq<char>,
)
    requires
        node.filename is Some,
        node.filename->0@ == before + name + after,
        fit(name),
        name.len() > 0 && !is_edge(name[0]) && !is_edge(name.last()),
        forall|i: int| 0 <= i < before.len() ==> #[trigger] before[i] == '.',
        forall|i: int| 0 <= i < after.len() ==> #[trigger] after[i] == '.',
        !white_space(name[0]) && !white_space(name.last()),
    ensures
        file_name(node) == name,
{
    let all = before + name + after;
    let none: Seq<char> = Seq::empty();
    assert(!white_space(all[0])) by {
        if before.len() > 0 {
            assert(all[0] == before[0]);
        } else {
            assert(all[0] == name[0]);
        }
    }
    assert(!white_space(all.last())) by {
        if after.len() > 0 {
            assert(all.last() == after[after.len() - 1]);
        } else {
            assert(all.last() == name.last());
        }
    }
    lemma_padding_comes_off(none, all, none);
    assert(none + all + none =~= all);
    assert forall|i: int| 0 <= i < all.len() implies !is_separator(#[trigger] all[i]) && !control(
        all[i],
    ) by {
        if i < before.len() {
            assert(all[i] == before[i]);
        } else if i < before.len() + name.len() {
            assert(all[i] == name[i - before.len()]);
        } else {
            assert(all[i] == after[i - before.len() - name.len()]);
        }
    }
    lemma_laundered_keeps(all);
    lemma_edges_come_off(before, name, after);
}

/// A part without a name is saved under its id and what its type suggests; a
/// type that suggests nothing gives plain bytes.
pub proof fn lemma_made_names(part_id: Seq<char>, kind: Seq<char>, subtype: Seq<char>)
    requires
        subtype.len() > 0 && !is_edge(subtype[0]) && !is_edge(subtype.last()),
        fit(subtype),
        !kind.contains('/'),
    ensures
        part_id.len() > 0 ==> made_name(part_id, kind + seq!['/'] + subtype) == "part-"@ + part_id
            + "."@ + subtype,
        made_name(Seq::empty(), kind + seq!['/'] + subtype) == "part-"@ + "message"@ + "."@ + subtype,
        part_id.len() > 0 ==> made_name(part_id, kind) == "part-"@ + part_id + "."@ + "bin"@,
{
    let mime = kind + seq!['/'] + subtype;
    let at = kind.len() as int;
    lemma_first_and_last(mime, '/');
    lemma_first_and_last(kind, '/');
    assert(mime[at] == '/');
    assert forall|i: int| at < i < mime.len() implies #[trigger] mime[i] != '/' by {
        assert(subtype[i - at - 1] == mime[i]);
    }
    assert(last_index(mime, '/') == Some(at));
    assert(mime.skip(at + 1) =~= subtype);
    lemma_laundered_keeps(subtype);
    let none: Seq<char> = Seq::empty();
    lemma_edges_come_off(none, subtype, none);
    assert(none + subtype + none =~= subtype);
}

/// A number goes before the extension, and at the end where there is none; a
/// name that only starts with a dot has none.
pub proof fn lemma_where_the_number_goes(stem: Seq<char>, extension: Seq<char>, nth: nat)
    requires
        !extension.contains('.'),
    ensures
        stem.len() > 0 ==> numbered(stem + seq!['.'] + extension, nth) == stem + "-"@ + decimal(nth)
            + "."@ + extension,
        numbered(seq!['.'] + extension, nth) == seq!['.'] + extension + "-"@ + decimal(nth),
        numbered(extension, nth) == extension + "-"@ + decimal(nth),
{
    let name = stem + seq!['.'] + extension;
    let at = stem.len() as int;
    lemma_first_and_last(name, '.');
    lemma_first_and_last(extension, '.');
    assert(name[at] == '.');
    assert forall|i: int| at < i < name.len() implies #[trigger] name[i] != '.' by {
        assert(extension[i - at - 1] == name[i]);
    }
    assert(last_index(name, '.') == Some(at));
    assert(name.take(at) =~= stem);
    assert(name.skip(at + 1) =~= extension);
    let hidden = seq!['.'] + extension;
    lemma_first_and_last(hidden, '.');
    assert(hidden[0] == '.');
    assert forall|i: int| 0 < i < hidden.len() implies #[trigger] hidden[i] != '.' by {
        assert(extension[i - 1] == hidden[i]);
    }
    assert(last_index(hidden, '.') == Some(0int));
}

/// A repeat is numbered with the first number from two on that is free.
pub proof fn lemma_first_free_number(names: Seq<Seq<char>>, wanted: Seq<char>, nth: nat)
    requires
        2 <= nth <= u32::MAX,
        taken(names, wanted),
        !taken(names, numbered(wanted, nth)),
        forall|n: nat| 2 <= n < nth ==> taken(names, #[trigger] numbered(wanted, n)),
    ensures
        next_name(names, wanted) == numbered(wanted, nth),
{
    lemma_free_from(names, wanted, 2, nth);
}

proof fn lemma_free_from(names: Seq<Seq<char>>, wanted: Seq<char>, from: nat, nth: nat)
    requires
        2 <= from <= nth <= u32::MAX,
        !taken(names, numbered(wanted, nth)),
        forall|n: nat| 2 <= n < nth ==> taken(names, #[trigger] numbered(wanted, n)),
    ensures
        first_free(names, wanted, from) == numbered(wanted, nth),
    decreases nth - from,
{
    if from < nth {
        lemma_free_from(names, wanted, from + 1, nth);
    }
}

} // verus!
