//! Requests about chats.

use vstd::prelude::*;

verus! {

/// Asks for the chats. With `is_pinned` set, only the chats that are pinned,
/// or only those that are not, are wanted.
#[derive(Debug, Clone, Copy, PartialEq, Eq, Structural)]
pub struct ListChats {
    pub is_pinned: Option<bool>,
}

} // verus!
