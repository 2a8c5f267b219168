//! The component that takes the text out of a chat message.

use vstd::prelude::*;

use super::{Attribute, AttributeType, AttributeView, Error, ErrorView, Value, ValueView};
use crate::text::str_eq;
use crate::types::messages::{Message, MessageView};

verus! {

/// Reads a chat message from its input `message` and offers the content of that
/// message on its output `text`.
#[derive(Debug, PartialEq, Eq)]
pub struct ChatMessage {
    message: Option<Message>,
    text: Option<String>,
}

/// The state of a [`ChatMessage`], as a mathematical value.
pub struct ChatMessageView {
    pub message: Option<MessageView>,
    pub text: Option<Seq<char>>,
}

impl ChatMessageView {
    /// The state of a component that was given nothing and has not run.
    pub open spec fn empty() -> ChatMessageView {
        ChatMessageView { message: None, text: None }
    }

    /// Binding `value` to the input called `name`: only `message` exists, and it
    /// takes a message.
    pub open spec fn set_attribute(self, name: Seq<char>, value: ValueView) -> Result<
        ChatMessageView,
        ErrorView,
    > {
        if name == "message"@ {
            match value {
                ValueView::Message(message) => Ok(
                    ChatMessageView { message: Some(message), text: self.text },
                ),
                _ => Err(ErrorView::IncorrectValueType(AttributeType::Message)),
            }
        } else {
            Err(ErrorView::AttributeNotFound(name))
        }
    }

    /// The text that a run would produce: the content of the bound message.
    pub open spec fn readable(self) -> Option<Seq<char>> {
        match self.message {
            Some(message) => message.content,
            None => None,
        }
    }

    /// Running the component: the content of the bound message becomes the
    /// output text. Without a message, or without content in it, the required
    /// input `message` is missing.
    pub open spec fn execute(self) -> Result<ChatMessageView, ErrorView> {
        match self.readable() {
            Some(text) => Ok(ChatMessageView { message: self.message, text: Some(text) }),
            None => Err(ErrorView::MissingRequiredAttribute("message"@)),
        }
    }

    /// The one input, `message`, with what is bound to it.
    pub open spec fn inputs(self) -> Seq<AttributeView> {
        seq![
            AttributeView {
                kind: AttributeType::Message,
                name: "message"@,
                value: match self.message {
                    Some(message) => Some(ValueView::Message(message)),
                    None => None,
                },
                is_required: true,
            },
        ]
    }

    /// The one output, `text`, with what the last run produced.
    pub open spec fn outputs(self) -> Seq<AttributeView> {
        seq![
            AttributeView {
                kind: AttributeType::String,
                name: "text"@,
                value: match self.text {
                    Some(text) => Some(ValueView::String(text)),
                    None => None,
                },
                is_required: false,
            },
        ]
    }
}

impl View for ChatMessage {
    type V = ChatMessageView;

    closed spec fn view(&self) -> ChatMessageView {
        ChatMessageView {
            message: match self.message {
                Some(message) => Some(message@),
                None => None,
            },
            text: match self.text {
                Some(text) => Some(text@),
                None => None,
            },
        }
    }
}

impl DeepView for ChatMessage {
    type V = ChatMessageView;

    open spec fn deep_view(&self) -> ChatMessageView {
        self@
    }
}

impl Default for ChatMessage {
    fn default() -> (fresh: Self)
        ensures
            fresh@ == ChatMessageView::empty(),
    {
        ChatMessage { message: None, text: None }
    }
}

impl Clone for ChatMessage {
    fn clone(&self) -> (copy: Self)
        ensures
            copy == *self,
    {
        ChatMessage {
            message: match &self.message {
                Some(message) => Some(message.clone()),
                None => None,
            },
            text: match &self.text {
                Some(text) => Some(text.clone()),
                None => None,
            },
        }
    }
}

impl ChatMessage {
    /// Derives the output text from the bound message. Fails, and changes
    /// nothing, when no message is bound or the message has no content.
    pub fn execute(&mut self) -> (done: Result<(), Error>)
        ensures
            old(self)@.execute() == (match done {
                Ok(()) => Ok(final(self)@),
                Err(error) => Err(error@),
            }),
            done is Err ==> *final(self) == *old(self),
    {
        let produced = match &self.message {
            Some(message) => match &message.content {
                Some(text) => Some(text.clone()),
                None => None,
            },
            None => None,
        };
        match produced {
            Some(text) => {
                self.text = Some(text);
                Ok(())
            },
            None => Err(Error::MissingRequiredAttribute("message".to_string())),
        }
    }

    /// Binds `value` to the input called `name`. Fails, and changes nothing,
    /// when there is no such input or the value is of another kind.
    pub fn set_attribute(&mut self, name: &str, value: Value) -> (done: Result<(), Error>)
        ensures
            old(self)@.set_attribute(name@, value@) == (match done {
                Ok(()) => Ok(final(self)@),
                Err(error) => Err(error@),
            }),
            done is Err ==> *final(self) == *old(self),
    {
        if str_eq(name, "message") {
            match value {
                Value::Message(message) => {
                    self.message = Some(message);
                    Ok(())
                },
                _ => Err(Error::IncorrectValueType(AttributeType::Message)),
            }
        } else {
            Err(Error::AttributeNotFound(name.to_string()))
        }
    }

    /// The declared inputs with their current values.
    pub fn inputs(&self) -> (declared: Vec<Attribute>)
        ensures
            declared.deep_view() == self@.inputs(),
    {
        let attribute = Attribute {
            _type: AttributeType::Message,
            name: "message".to_string(),
            value: match &self.message {
                Some(message) => Some(Value::Message(message.clone())),
                None => None,
            },
            is_required: true,
        };
        let mut declared: Vec<Attribute> = Vec::new();
        declared.push(attribute);
        assert(declared.deep_view() =~= self@.inputs());
        declared
    }

    /// The declared outputs with their current values.
    pub fn outputs(&self) -> (declared: Vec<Attribute>)
        ensures
            declared.deep_view() == self@.outputs(),
    {
        let attribute = Attribute {
            _type: AttributeType::String,
            name: "text".to_string(),
            value: match &self.text {
                Some(text) => Some(Value::String(text.clone())),
                None => None,
            },
            is_required: false,
        };
        let mut declared: Vec<Attribute> = Vec::new();
        declared.push(attribute);
        assert(declared.deep_view() =~= self@.outputs());
        declared
    }
}

} // verus!
