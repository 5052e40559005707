//! What moving between messages costs, counted rather than timed.
//!
//! A shared machine cannot defend sixteen milliseconds, but "how many times
//! did this happen" is the same number everywhere. Counters are never reset:
//! a reader takes a `before`, acts, and looks at the difference.
use vstd::prelude::*;

verus! {

/// The counters of one thread.
#[derive(Debug, Clone, Copy, PartialEq, Eq, Structural)]
pub struct Cost {
    /// Documents assembled.
    pub documents: u64,
    /// Bytes in them, all told.
    pub document_bytes: u64,
    /// Bytes in the largest of them.
    pub largest_document: u64,
    /// Documents handed to a rendering surface.
    pub renders: u64,
    /// Rendering surfaces created.
    pub surfaces_created: u64,
    /// Rendering surfaces released.
    pub surfaces_released: u64,
}

/// `a` and `b` together, as far as the counter goes.
pub open spec fn capped(a: u64, b: u64) -> u64 {
    if a + b > u64::MAX {
        u64::MAX
    } else {
        (a + b) as u64
    }
}

impl Default for Cost {
    fn default() -> (out: Self)
        ensures
            out == (Cost {
                documents: 0,
                document_bytes: 0,
                largest_document: 0,
                renders: 0,
                surfaces_created: 0,
                surfaces_released: 0,
            }),
    {
        Cost {
            documents: 0,
            document_bytes: 0,
            largest_document: 0,
            renders: 0,
            surfaces_created: 0,
            surfaces_released: 0,
        }
    }
}

/// One document was assembled, of `bytes` bytes.
pub fn note_document(cost: &mut Cost, bytes: u64)
    ensures
        *final(cost) == (Cost {
            documents: capped(old(cost).documents, 1),
            document_bytes: capped(old(cost).document_bytes, bytes),
            largest_document: if old(cost).largest_document > bytes {
                old(cost).largest_document
            } else {
                bytes
            },
            ..*old(cost)
        }),
{
    cost.documents = cost.documents.saturating_add(1);
    cost.document_bytes = cost.document_bytes.saturating_add(bytes);
    if bytes > cost.largest_document {
        cost.largest_document = bytes;
    }
}

/// A document was handed to a rendering surface.
///
/// Called by a frontend at its single load choke point; if a frontend grows a
/// second path to the engine, this counter is what makes that visible.
pub fn note_render(cost: &mut Cost)
    ensures
        *final(cost) == (Cost { renders: capped(old(cost).renders, 1), ..*old(cost) }),
{
    cost.renders = cost.renders.saturating_add(1);
}

/// A rendering surface was created.
pub fn note_surface_created(cost: &mut Cost)
    ensures
        *final(cost) == (Cost {
            surfaces_created: capped(old(cost).surfaces_created, 1),
            ..*old(cost)
        }),
{
    cost.surfaces_created = cost.surfaces_created.saturating_add(1);
}

/// A rendering surface was released: what matters is whether the engine
/// process behind it can go.
pub fn note_surface_released(cost: &mut Cost)
    ensures
        *final(cost) == (Cost {
            surfaces_released: capped(old(cost).surfaces_released, 1),
            ..*old(cost)
        }),
{
    cost.surfaces_released = cost.surfaces_released.saturating_add(1);
}

/// A counter never goes back, and is exact until it can count no further.
pub proof fn lemma_counters_only_grow(a: u64, b: u64)
    ensures
        capped(a, b) >= a,
        capped(a, b) >= b,
        a + b <= u64::MAX ==> capped(a, b) == a + b,
        capped(a, b) == capped(b, a),
{
}

} // verus!
