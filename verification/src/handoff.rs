//! Which editor a draft hands off to, and what to do when it is not one.
//!
//! Whether the platform can find an application by the configured name is an
//! input here, because only the platform knows. What follows from it is the
//! part worth having in one place: a name the platform cannot open as an
//! application is a command, a command needs a terminal, and no frontend can
//! open one. Saying that plainly is the point.
use vstd::prelude::*;
use crate::text::{trim, trimmed};

verus! {

/// What the hand-off should do with the configured editor.
#[derive(Debug, Clone, PartialEq, Eq)]
pub enum Target {
    /// Nothing is configured: open the file the way this platform opens a
    /// text file.
    PlatformDefault,
    /// Open it with this application.
    Application(String),
    /// A program that wants a terminal, which no frontend can give it.
    NeedsTerminal(String),
}

/// What to do about `configured`, given whether the platform found an
/// application by that name.
///
/// A blank setting is the platform's default whatever `is_application` says:
/// an empty string is "I have not chosen".
pub fn target(configured: &str, is_application: bool) -> (out: Target)
    ensures
        match out {
            Target::PlatformDefault => trimmed(configured@).len() == 0,
            Target::Application(name) => trimmed(configured@).len() > 0 && is_application && name@
                == trimmed(configured@),
            Target::NeedsTerminal(name) => trimmed(configured@).len() > 0 && !is_application
                && name@ == trimmed(configured@),
        },
{
    let name = trim(configured);
    if name.as_str().unicode_len() == 0 {
        return Target::PlatformDefault;
    }
    if is_application {
        Target::Application(name)
    } else {
        Target::NeedsTerminal(name)
    }
}

/// What to tell somebody whose editor needs a terminal: names the program and
/// says what to do instead.
pub fn terminal_advice(program: &str) -> (out: String)
    ensures
        out@ == program@
            + " runs in a terminal, and Postio cannot open one for it. Choose an editor that opens in a window of its own, or clear this setting to use whatever already opens a text file here."@,
{
    let mut out = program.to_owned();
    out.append(
        " runs in a terminal, and Postio cannot open one for it. Choose an editor that opens in a window of its own, or clear this setting to use whatever already opens a text file here.",
    );
    out
}

/// What the hand-off button should say, given the setting.
///
/// Named when there is a name. Unnamed when nothing is chosen — inventing one
/// in the label would be a promise it cannot keep.
pub fn button_label(configured: &str) -> (out: String)
    ensures
        out@ == (if trimmed(configured@).len() == 0 {
            "Edit elsewhere"@
        } else {
            "Open in "@ + trimmed(configured@)
        }),
{
    let name = trim(configured);
    if name.as_str().unicode_len() == 0 {
        "Edit elsewhere".to_owned()
    } else {
        let mut out = "Open in ".to_owned();
        out.append(name.as_str());
        out
    }
}

} // verus!
