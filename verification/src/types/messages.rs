//! The chat message record, as far as components read it.

use vstd::prelude::*;

verus! {

/// A chat message. `content` is the text of the message, if it has any.
#[derive(Debug, PartialEq, Eq)]
pub struct Message {
    pub content: Option<String>,
}

/// What a [`Message`] holds, as a mathematical value.
pub struct MessageView {
    pub content: Option<Seq<char>>,
}

impl View for Message {
    type V = MessageView;

    open spec fn view(&self) -> MessageView {
        MessageView {
            content: match self.content {
                Some(text) => Some(text@),
                None => None,
            },
        }
    }
}

impl DeepView for Message {
    type V = MessageView;

    open spec fn deep_view(&self) -> MessageView {
        self@
    }
}

impl Clone for Message {
    fn clone(&self) -> (copy: Self)
        ensures
            copy == *self,
    {
        Message {
            content: match &self.content {
                Some(text) => Some(text.clone()),
                None => None,
            },
        }
    }
}

} // verus!
