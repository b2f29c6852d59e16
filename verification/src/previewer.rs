//! Which message the previewer is sent when the cursor, the preview or its
//! content changes.
use vstd::prelude::*;

use crate::render::StyledText;
use crate::text::is_empty;

verus! {

/// What the previewer is told to do.
#[derive(Debug, Clone, PartialEq, Eq)]
pub enum PreviewMessage {
    /// Run the command and show its output.
    Run(String),
    /// Show the text.
    Show(StyledText),
    /// Show the key binding help.
    Help,
    /// Drop the text that was set.
    Unset,
    /// Stop the running command.
    Stop,
}

/// What was asked to be shown: a template (already formatted for the
/// current item into a command), or a text.
#[derive(Debug, Clone, PartialEq, Eq)]
pub enum PreviewPayload {
    Command(String),
    Text(StyledText),
}

/// Whether no line of the text holds a span.
pub open spec fn text_empty(t: StyledText) -> bool {
    forall|k: int| 0 <= k < t@.len() ==> (#[trigger] t@[k]).len() == 0
}

/// The message for a change of cursor, preview or sync: none while a set
/// payload is pending; running the command when the preview shows and the
/// command is not empty; else stopping.
pub fn preview_on_change(set_pending: bool, visible: bool, cmd: &str) -> (r: Option<PreviewMessage>)
    ensures
        set_pending ==> r is None,
        !set_pending && visible && cmd@.len() > 0 ==> (r matches Some(PreviewMessage::Run(s)) && s@ == cmd@),
        !set_pending && !(visible && cmd@.len() > 0) ==> r == Some(PreviewMessage::Stop),
{
    if set_pending {
        None
    } else if visible && cmd.unicode_len() > 0 {
        let cs = crate::strings::chars_of(cmd);
        let s = crate::strings::string_of(&cs, 0, cs.len());
        proof {
            assert(s@ =~= cmd@);
        }
        Some(PreviewMessage::Run(s))
    } else {
        Some(PreviewMessage::Stop)
    }
}

/// The message for a payload set on the preview: none while the preview is
/// hidden; with no payload, `Unset`; a text is shown (the help when it is
/// empty); a command is run unless empty, when the previewer stops.
pub fn preview_on_set(visible: bool, payload: Option<PreviewPayload>) -> (r: Option<PreviewMessage>)
    ensures
        !visible ==> r is None,
        visible ==> match payload {
            None => r == Some(PreviewMessage::Unset),
            Some(PreviewPayload::Text(t)) => if text_empty(t) {
                r == Some(PreviewMessage::Help)
            } else {
                r == Some(PreviewMessage::Show(t))
            },
            Some(PreviewPayload::Command(c)) => if c@.len() == 0 {
                r == Some(PreviewMessage::Stop)
            } else {
                r == Some(PreviewMessage::Run(c))
            },
        },
{
    if !visible {
        return None;
    }
    match payload {
        None => Some(PreviewMessage::Unset),
        Some(PreviewPayload::Text(t)) => {
            if is_empty(&t) {
                Some(PreviewMessage::Help)
            } else {
                Some(PreviewMessage::Show(t))
            }
        },
        Some(PreviewPayload::Command(c)) => {
            if c.unicode_len() == 0 {
                Some(PreviewMessage::Stop)
            } else {
                Some(PreviewMessage::Run(c))
            }
        },
    }
}

} // verus!
