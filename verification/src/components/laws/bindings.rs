//! How binding and running a component go by what the component declares.

use vstd::prelude::*;

use super::super::{AttributeView, ComponentView, ErrorView, ValueView};

verus! {

/// Binding goes by what the component declares. It succeeds for the name of
/// a declared input and a value of that input's kind: the input then holds
/// the value, and nothing else about the inputs or outputs changes. A name
/// that no input has is reported as not found, and a value of another kind
/// than the input's as of the incorrect type, with the kind that was
/// expected.
pub proof fn lemma_set_attribute_goes_by_the_inputs(
    component: ComponentView,
    name: Seq<char>,
    value: ValueView,
)
    ensures
        match component.set_attribute(name, value) {
            Ok(bound) => exists|i: int|
                {
                    &&& 0 <= i < component.inputs().len()
                    &&& (#[trigger] component.inputs()[i]).name == name
                    &&& component.inputs()[i].kind == value.kind()
                    &&& bound.inputs() == component.inputs().update(
                        i,
                        AttributeView {
                            kind: component.inputs()[i].kind,
                            name,
                            value: Some(value),
                            is_required: component.inputs()[i].is_required,
                        },
                    )
                    &&& bound.outputs() == component.outputs()
                },
            Err(ErrorView::AttributeNotFound(missing)) => missing == name && forall|i: int|
                0 <= i < component.inputs().len() ==> (#[trigger] component.inputs()[i]).name
                    != name,
            Err(ErrorView::IncorrectValueType(expected)) => exists|i: int|
                {
                    &&& 0 <= i < component.inputs().len()
                    &&& (#[trigger] component.inputs()[i]).name == name
                    &&& component.inputs()[i].kind == expected
                    &&& value.kind() != expected
                },
            Err(ErrorView::MissingRequiredAttribute(_)) => false,
        },
{
    match component.set_attribute(name, value) {
        Ok(bound) => {
            assert(component.inputs()[0].name == name);
            assert(bound.inputs() =~= component.inputs().update(
                0,
                AttributeView {
                    kind: component.inputs()[0].kind,
                    name,
                    value: Some(value),
                    is_required: component.inputs()[0].is_required,
                },
            ));
        },
        Err(ErrorView::IncorrectValueType(expected)) => {
            assert(component.inputs()[0].name == name);
        },
        _ => {},
    }
}

/// A value of another kind than the input declares is refused as of the
/// incorrect type, with the kind that the input declares.
pub proof fn lemma_value_of_another_kind_is_refused(
    component: ComponentView,
    i: int,
    value: ValueView,
)
    requires
        0 <= i < component.inputs().len(),
        value.kind() != component.inputs()[i].kind,
    ensures
        component.set_attribute(component.inputs()[i].name, value) == Err::<ComponentView, _>(
            ErrorView::IncorrectValueType(component.inputs()[i].kind),
        ),
{
}

/// A name that no input has is refused as not found.
pub proof fn lemma_unknown_name_is_refused(
    component: ComponentView,
    name: Seq<char>,
    value: ValueView,
)
    requires
        forall|i: int| 0 <= i < component.inputs().len() ==> component.inputs()[i].name != name,
    ensures
        component.set_attribute(name, value) == Err::<ComponentView, _>(
            ErrorView::AttributeNotFound(name),
        ),
{
    assert(component.inputs()[0].name != name);
}

/// A value of the kind that the input declares is bound: the input then
/// holds exactly this value.
pub proof fn lemma_value_of_the_declared_kind_is_bound(
    component: ComponentView,
    i: int,
    value: ValueView,
)
    requires
        0 <= i < component.inputs().len(),
        value.kind() == component.inputs()[i].kind,
    ensures
        component.set_attribute(component.inputs()[i].name, value) is Ok,
        component.set_attribute(component.inputs()[i].name, value)->Ok_0.inputs()[i].value
            == Some(value),
{
}

/// Running reads the inputs and writes the outputs: it fails only by naming a
/// required input as missing, and when it succeeds the inputs are as before,
/// the outputs are the same by name and kind, and each of them holds a value.
pub proof fn lemma_execute_goes_by_the_inputs(component: ComponentView)
    ensures
        match component.execute() {
            Ok(ran) => {
                &&& ran.inputs() == component.inputs()
                &&& ran.outputs().len() == component.outputs().len()
                &&& forall|o: int|
                    0 <= o < ran.outputs().len() ==> {
                        &&& (#[trigger] ran.outputs()[o]).name == component.outputs()[o].name
                        &&& ran.outputs()[o].kind == component.outputs()[o].kind
                        &&& ran.outputs()[o].value is Some
                    }
            },
            Err(ErrorView::MissingRequiredAttribute(missing)) => exists|i: int|
                0 <= i < component.inputs().len() && (#[trigger] component.inputs()[i]).name
                    == missing && component.inputs()[i].is_required,
            Err(_) => false,
        },
{
    match component.execute() {
        Ok(ran) => {},
        Err(_) => {
            assert(component.inputs()[0].is_required);
        },
    }
}

/// A component with a required input that has no value cannot run: it fails
/// and names that input as missing.
pub proof fn lemma_unset_required_input_is_missing(component: ComponentView, i: int)
    requires
        0 <= i < component.inputs().len(),
        component.inputs()[i].is_required,
        component.inputs()[i].value is None,
    ensures
        component.execute() == Err::<ComponentView, _>(
            ErrorView::MissingRequiredAttribute(component.inputs()[i].name),
        ),
{
}

/// Whether no two of `attributes` have the same name.
pub open spec fn distinctly_named(attributes: Seq<AttributeView>) -> bool {
    forall|i: int, j: int|
        0 <= i < j < attributes.len() ==> (#[trigger] attributes[i]).name != (
        #[trigger] attributes[j]).name
}

/// Whether every value that `attributes` hold is of the kind that its
/// attribute declares.
pub open spec fn well_typed(attributes: Seq<AttributeView>) -> bool {
    forall|i: int|
        0 <= i < attributes.len() && (#[trigger] attributes[i]).value is Some
            ==> attributes[i].value->0.kind() == attributes[i].kind
}

/// What a component declares is sound, whatever state it is in: no two
/// inputs have the same name, no two outputs have, and every value on an
/// input or an output is of the kind that is declared for it.
pub proof fn lemma_declarations_are_sound(component: ComponentView)
    ensures
        distinctly_named(component.inputs()),
        distinctly_named(component.outputs()),
        well_typed(component.inputs()),
        well_typed(component.outputs()),
{
}

} // verus!
