//! Components, the values they exchange, the errors they raise, and the
//! graph that runs them.
//!
//! [`model`] says what running a graph means, [`graph`] does it, [`walk`]
//! shows that what is done is what the model says, and [`laws`] proves what
//! follows from the model for every graph.

pub mod chat_message;
pub mod graph;
pub mod laws;
pub mod model;
pub mod walk;

use vstd::prelude::*;

use self::chat_message::{ChatMessage, ChatMessageView};
pub use self::graph::{Edge, Graph, Node};
use crate::types::messages::{Message, MessageView};

verus! {

/// The kind of datum an attribute carries. It mirrors the variants of [`Value`].
#[derive(Debug, Clone, Copy, PartialEq, Eq, Structural)]
pub enum AttributeType {
    Message,
    String,
}

/// A datum that crosses a component boundary.
#[derive(Debug, PartialEq, Eq)]
pub enum Value {
    Message(Message),
    String(String),
}

/// What a [`Value`] holds, as a mathematical value.
pub enum ValueView {
    Message(MessageView),
    String(Seq<char>),
}

impl ValueView {
    /// The kind tag of this value.
    pub open spec fn kind(self) -> AttributeType {
        match self {
            ValueView::Message(_) => AttributeType::Message,
            ValueView::String(_) => AttributeType::String,
        }
    }
}

impl View for Value {
    type V = ValueView;

    open spec fn view(&self) -> ValueView {
        match self {
            Value::Message(message) => ValueView::Message(message@),
            Value::String(text) => ValueView::String(text@),
        }
    }
}

impl DeepView for Value {
    type V = ValueView;

    open spec fn deep_view(&self) -> ValueView {
        self@
    }
}

impl Clone for Value {
    fn clone(&self) -> (copy: Self)
        ensures
            copy == *self,
    {
        match self {
            Value::Message(message) => Value::Message(message.clone()),
            Value::String(text) => Value::String(text.clone()),
        }
    }
}

/// A named, typed declaration point on a component, with its current value.
#[derive(Debug, PartialEq, Eq)]
pub struct Attribute {
    pub _type: AttributeType,
    pub name: String,
    pub value: Option<Value>,
    pub is_required: bool,
}

/// What an [`Attribute`] holds, as a mathematical value.
pub struct AttributeView {
    pub kind: AttributeType,
    pub name: Seq<char>,
    pub value: Option<ValueView>,
    pub is_required: bool,
}

impl View for Attribute {
    type V = AttributeView;

    open spec fn view(&self) -> AttributeView {
        AttributeView {
            kind: self._type,
            name: self.name@,
            value: match self.value {
                Some(value) => Some(value@),
                None => None,
            },
            is_required: self.is_required,
        }
    }
}

impl DeepView for Attribute {
    type V = AttributeView;

    open spec fn deep_view(&self) -> AttributeView {
        self@
    }
}

/// Why a component refused to run or to take a value.
#[derive(Debug, PartialEq, Eq)]
pub enum Error {
    /// A required input, named here, had no value when the component ran.
    MissingRequiredAttribute(String),
    /// The component declares no input of this name.
    AttributeNotFound(String),
    /// The value offered is not of the kind the input declares, which is given here.
    IncorrectValueType(AttributeType),
}

/// What an [`Error`] holds, as a mathematical value.
pub enum ErrorView {
    MissingRequiredAttribute(Seq<char>),
    AttributeNotFound(Seq<char>),
    IncorrectValueType(AttributeType),
}

impl ErrorView {
    /// The text that describes this error to a reader.
    pub open spec fn message(self) -> Seq<char> {
        match self {
            ErrorView::MissingRequiredAttribute(name) => "missing required attribute: "@ + name,
            ErrorView::AttributeNotFound(name) => "attribute not found: "@ + name,
            ErrorView::IncorrectValueType(AttributeType::Message) =>
                "incorrect value type, expected: Message"@,
            ErrorView::IncorrectValueType(AttributeType::String) =>
                "incorrect value type, expected: String"@,
        }
    }
}

impl View for Error {
    type V = ErrorView;

    open spec fn view(&self) -> ErrorView {
        match self {
            Error::MissingRequiredAttribute(name) => ErrorView::MissingRequiredAttribute(name@),
            Error::AttributeNotFound(name) => ErrorView::AttributeNotFound(name@),
            Error::IncorrectValueType(expected) => ErrorView::IncorrectValueType(*expected),
        }
    }
}

impl DeepView for Error {
    type V = ErrorView;

    open spec fn deep_view(&self) -> ErrorView {
        self@
    }
}

impl Error {
    /// The text that describes this error to a reader.
    pub fn message(&self) -> (text: String)
        ensures
            text@ == self@.message(),
    {
        match self {
            Error::MissingRequiredAttribute(name) => String::from_str(
                "missing required attribute: ",
            ).concat(name.as_str()),
            Error::AttributeNotFound(name) => String::from_str("attribute not found: ").concat(
                name.as_str(),
            ),
            Error::IncorrectValueType(AttributeType::Message) => String::from_str(
                "incorrect value type, expected: Message",
            ),
            Error::IncorrectValueType(AttributeType::String) => String::from_str(
                "incorrect value type, expected: String",
            ),
        }
    }
}

/// A unit of computation with typed, named inputs and outputs. The set of
/// kinds is closed: every use matches on all of them.
#[derive(Debug, PartialEq, Eq)]
pub enum Component {
    ChatMessage(ChatMessage),
}

/// The state of a [`Component`], as a mathematical value.
pub enum ComponentView {
    ChatMessage(ChatMessageView),
}

impl ComponentView {
    /// Binding `value` to the input called `name`.
    pub open spec fn set_attribute(self, name: Seq<char>, value: ValueView) -> Result<
        ComponentView,
        ErrorView,
    > {
        match self {
            ComponentView::ChatMessage(component) => match component.set_attribute(name, value) {
                Ok(bound) => Ok(ComponentView::ChatMessage(bound)),
                Err(error) => Err(error),
            },
        }
    }

    /// Running the component on the inputs bound so far.
    pub open spec fn execute(self) -> Result<ComponentView, ErrorView> {
        match self {
            ComponentView::ChatMessage(component) => match component.execute() {
                Ok(ran) => Ok(ComponentView::ChatMessage(ran)),
                Err(error) => Err(error),
            },
        }
    }

    /// The declared inputs with their current values.
    pub open spec fn inputs(self) -> Seq<AttributeView> {
        match self {
            ComponentView::ChatMessage(component) => component.inputs(),
        }
    }

    /// The declared outputs with their current values.
    pub open spec fn outputs(self) -> Seq<AttributeView> {
        match self {
            ComponentView::ChatMessage(component) => component.outputs(),
        }
    }
}

impl View for Component {
    type V = ComponentView;

    open spec fn view(&self) -> ComponentView {
        match self {
            Component::ChatMessage(component) => ComponentView::ChatMessage(component@),
        }
    }
}

impl DeepView for Component {
    type V = ComponentView;

    open spec fn deep_view(&self) -> ComponentView {
        self@
    }
}

impl Clone for Component {
    fn clone(&self) -> (copy: Self)
        ensures
            copy == *self,
    {
        match self {
            Component::ChatMessage(component) => Component::ChatMessage(component.clone()),
        }
    }
}

impl Component {
    /// Runs the component on the inputs bound so far. On failure the component
    /// is left as it was.
    pub fn execute(&mut self) -> (done: Result<(), Error>)
        ensures
            old(self)@.execute() == (match done {
                Ok(()) => Ok(final(self)@),
                Err(error) => Err(error@),
            }),
            done is Err ==> *final(self) == *old(self),
    {
        match self {
            Component::ChatMessage(component) => component.execute(),
        }
    }

    /// Binds `value` to the input called `name`. On failure the component is
    /// left as it was.
    pub fn set_attribute(&mut self, name: &str, value: Value) -> (done: Result<(), Error>)
        ensures
            old(self)@.set_attribute(name@, value@) == (match done {
                Ok(()) => Ok(final(self)@),
                Err(error) => Err(error@),
            }),
            done is Err ==> *final(self) == *old(self),
    {
        match self {
            Component::ChatMessage(component) => component.set_attribute(name, value),
        }
    }

    /// The declared inputs with their current values. The component is not changed.
    pub fn inputs(&mut self) -> (declared: Vec<Attribute>)
        ensures
            declared.deep_view() == old(self)@.inputs(),
            *final(self) == *old(self),
    {
        match self {
            Component::ChatMessage(component) => component.inputs(),
        }
    }

    /// The declared outputs with their current values. The component is not changed.
    pub fn outputs(&mut self) -> (declared: Vec<Attribute>)
        ensures
            declared.deep_view() == old(self)@.outputs(),
            *final(self) == *old(self),
    {
        match self {
            Component::ChatMessage(component) => component.outputs(),
        }
    }
}

} // verus!
