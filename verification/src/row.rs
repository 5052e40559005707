//! The list row's geometry, per density.
//!
//! Plain numbers in logical pixels: "compact" has to mean the same thing in
//! every frontend. Type and colour are not here — those come from each
//! toolkit's cascade.
use vstd::prelude::*;
use crate::model::Density;

verus! {

/// The row geometry for one density, in logical pixels.
#[derive(Clone, Copy, Debug, PartialEq, Eq, Structural)]
pub struct Metrics {
    /// Space above and below the row's content.
    pub pad_y: u32,
    /// How far in the content starts, accent edge included, so a row does
    /// not shift sideways when the selection lands on it.
    pub inset: u32,
    /// The avatar chip, square.
    pub avatar: u32,
    /// Between the avatar and the text column.
    pub gap: u32,
    /// Between the sender line and the subject.
    pub subject_gap: u32,
    /// Between the snippet and the key hints the focused row reveals.
    pub hints_gap: u32,
    /// Whether the snippet line is drawn at all.
    pub snippet: bool,
}

/// The geometry a density asks for.
pub open spec fn metrics_of(density: Density) -> Metrics {
    match density {
        Density::Airy => Metrics {
            pad_y: 11,
            inset: 21,
            avatar: 30,
            gap: 12,
            subject_gap: 3,
            hints_gap: 7,
            snippet: true,
        },
        Density::Comfortable => Metrics {
            pad_y: 8,
            inset: 18,
            avatar: 26,
            gap: 10,
            subject_gap: 2,
            hints_gap: 5,
            snippet: true,
        },
        Density::Compact => Metrics {
            pad_y: 5,
            inset: 15,
            avatar: 22,
            gap: 9,
            subject_gap: 1,
            hints_gap: 4,
            snippet: false,
        },
    }
}

impl Metrics {
    /// The geometry `density` asks for.
    pub fn for_density(density: Density) -> (out: Self)
        ensures
            out == metrics_of(density),
    {
        match density {
            Density::Airy => Metrics {
                pad_y: 11,
                inset: 21,
                avatar: 30,
                gap: 12,
                subject_gap: 3,
                hints_gap: 7,
                snippet: true,
            },
            Density::Comfortable => Metrics {
                pad_y: 8,
                inset: 18,
                avatar: 26,
                gap: 10,
                subject_gap: 2,
                hints_gap: 5,
                snippet: true,
            },
            // The tightest setting is for triage, where the question is how
            // many subjects fit on screen. The snippet is the line that
            // costs the most and answers it least.
            Density::Compact => Metrics {
                pad_y: 5,
                inset: 15,
                avatar: 22,
                gap: 9,
                subject_gap: 1,
                hints_gap: 4,
                snippet: false,
            },
        }
    }
}

/// A tighter density takes less room in every measure.
pub proof fn lemma_tighter_is_smaller(tighter: Density, roomier: Density)
    requires
        tighter is Compact && !(roomier is Compact) || tighter is Comfortable && roomier is Airy,
    ensures
        metrics_of(tighter).pad_y < metrics_of(roomier).pad_y,
        metrics_of(tighter).inset < metrics_of(roomier).inset,
        metrics_of(tighter).avatar < metrics_of(roomier).avatar,
        metrics_of(tighter).gap < metrics_of(roomier).gap,
        metrics_of(tighter).subject_gap < metrics_of(roomier).subject_gap,
        metrics_of(tighter).hints_gap < metrics_of(roomier).hints_gap,
{
}

/// The measures of a row go together: going from one density to another, the
/// edges of a row and its avatar change in step with the space around it, and
/// so do the two gaps. The snippet is what only the tightest density leaves
/// out.
pub proof fn lemma_measures_go_together(one: Density, other: Density)
    ensures
        ({
            let a = metrics_of(one);
            let b = metrics_of(other);
            &&& a.inset - b.inset == a.pad_y - b.pad_y
            &&& 3 * (a.subject_gap - b.subject_gap) == a.pad_y - b.pad_y
            &&& 3 * (a.avatar - b.avatar) == 4 * (a.pad_y - b.pad_y)
            &&& a.gap - b.gap == a.hints_gap - b.hints_gap
            &&& a.hints_gap < a.pad_y < a.inset < a.avatar
            &&& a.subject_gap < a.hints_gap < a.gap < a.inset
            &&& a.snippet <==> !(one is Compact)
        }),
{
}

} // verus!
