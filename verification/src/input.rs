//! What is typed at the prompt: which keys count, and how the typed line
//! becomes the two documents of a comparison.

use crate::error::DiffError;
use crate::json::JsonView;
use crate::pair::{documents, Pair};
use vstd::prelude::*;

verus! {

/// What a key does to the line that is being typed.
#[derive(Debug, Clone, Copy, PartialEq, Eq, Structural)]
pub enum KeyAction {
    /// The line is complete.
    Finish,
    /// The character is shown and joins the line.
    Append(char),
    /// The key is passed over.
    Ignore,
}

/// What the key with this code does: Enter (10) and Escape (27) complete
/// the line, a printable ASCII character (32 to 126) joins it, and any
/// other key is passed over.
pub open spec fn action_of(code: int) -> KeyAction {
    if code == 10 || code == 27 {
        KeyAction::Finish
    } else if 32 <= code <= 126 {
        KeyAction::Append(code as char)
    } else {
        KeyAction::Ignore
    }
}

/// Decides what the key with this code does.
pub fn key_action(code: i32) -> (action: KeyAction)
    ensures
        action == action_of(code as int),
{
    if code == 10 || code == 27 {
        KeyAction::Finish
    } else if 32 <= code && code <= 126 {
        KeyAction::Append(code as u8 as char)
    } else {
        KeyAction::Ignore
    }
}

/// The text that `unescape` makes of a text with backslash escapes; none
/// where it finds an escape that it does not know or cannot complete.
pub uninterp spec fn unescaped(text: Seq<char>) -> Option<Seq<char>>;

/// `unescape::unescape`: replaces each backslash escape by the character
/// that it stands for. The outcome is a function of the text alone; the
/// contract gives it the name [`unescaped`] and claims nothing more of it.
#[verifier::external_body]
fn unescape_text(s: &str) -> (plain: Option<String>)
    ensures
        match plain {
            Some(p) => unescaped(s@) == Some(p@),
            None => unescaped(s@) is None,
        },
{
    unescape::unescape(s)
}

/// Reads the two documents of a typed line: resolves its backslash escapes
/// and reads the pair from what comes of it. There is no result where an
/// escape cannot be resolved.
pub fn read_pair(typed: &str) -> (result: Option<Result<Pair, DiffError>>)
    ensures
        match result {
            None => unescaped(typed@) is None,
            Some(Ok(pair)) => unescaped(typed@) matches Some(plain) && documents(plain) == Ok::<
                (JsonView, JsonView),
                DiffError,
            >((pair.a@, pair.b@)),
            Some(Err(e)) => unescaped(typed@) matches Some(plain) && documents(plain) == Err::<
                (JsonView, JsonView),
                DiffError,
            >(e),
        },
{
    match unescape_text(typed) {
        Some(plain) => Some(Pair::new(plain.as_str())),
        None => None,
    }
}

} // verus!
