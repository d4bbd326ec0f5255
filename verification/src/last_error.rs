//! The slot that holds the message of the last failed call, for callers that
//! report a status code and fetch the message afterwards.

use vstd::prelude::*;
use vstd::string::*;

verus! {

/// The message of the last failure, if one is held.
#[derive(Debug, Clone)]
pub struct LastError {
    pub message: Option<String>,
}

/// The text holds a NUL character and so cannot be handed out as a C string.
pub open spec fn holds_nul(text: Seq<char>) -> bool {
    exists|i: int| 0 <= i < text.len() && text[i] == '\0'
}

impl LastError {
    /// The held message.
    pub open spec fn text(self) -> Option<Seq<char>> {
        match self.message {
            Some(m) => Some(m@),
            None => None,
        }
    }

    /// A slot that holds no message.
    pub fn new() -> (r: LastError)
        ensures
            r.text() is None,
    {
        LastError { message: None }
    }
}

/// Holds `msg` as the last error. A message with a NUL character in it cannot
/// be handed out and leaves the slot empty.
pub fn set_last_error(slot: &mut LastError, msg: String)
    ensures
        final(slot).text() == if holds_nul(msg@) {
            None
        } else {
            Some(msg@)
        },
{
    let n = msg.as_str().unicode_len();
    let mut i: usize = 0;
    while i < n
        invariant
            i <= n,
            n == msg@.len(),
            forall|j: int| 0 <= j < i ==> msg@[j] != '\0',
        decreases n - i,
    {
        if msg.as_str().get_char(i) == '\0' {
            slot.message = None;
            return ;
        }
        i += 1;
    }
    slot.message = Some(msg);
}

/// Empties the slot.
pub fn clear_last_error(slot: &mut LastError)
    ensures
        final(slot).text() is None,
{
    slot.message = None;
}

} // verus!
