//! What holds of a declaration that `verify_types` accepts.
use vstd::prelude::*;
use crate::parse::{
    attributes_of,
    field_before,
    field_role,
    index_of_name,
    invalid_field_from,
    irregular_argument_from,
    named_before,
    repeated_argument_from,
    repeated_field_from,
    type_role,
    unknown_argument_from,
    verified_types,
};
use crate::schedule::lemma_bounded_length;
use crate::expression::NodeId;
use crate::syntax::{Argument, Attribute, Field, Function, Record};

verus! {

/// Whether no two attributes have the same name.
pub open spec fn distinct_names(attributes: Seq<Attribute>) -> bool {
    forall|i: int, j: int|
        0 <= i < j < attributes.len() ==> (#[trigger] attributes[i]).name@ != (
        #[trigger] attributes[j]).name@
}

/// Whether no two arguments are bound to the same name.
pub open spec fn distinct_arguments(inputs: Seq<Argument>) -> bool {
    forall|i: int, j: int|
        0 <= i < j < inputs.len() && (#[trigger] inputs[i]) is Named && (
        #[trigger] inputs[j]) is Named ==> inputs[i]->Named_0@ != inputs[j]->Named_0@
}

/// Whether an argument is bound to the name.
pub open spec fn named_by(inputs: Seq<Argument>, name: Seq<char>) -> bool {
    exists|j: int|
        0 <= j < inputs.len() && (#[trigger] inputs[j]) is Named && inputs[j]->Named_0@ == name
}

/// Where a name is found is a position of an attribute of that name; a name that is
/// not found is the name of no attribute.
pub proof fn lemma_index_of_name(attributes: Seq<Attribute>, name: Seq<char>)
    ensures
        match index_of_name(attributes, name) {
            Some(index) => 0 <= index < attributes.len() && attributes[index].name@ == name,
            None => forall|i: int|
                0 <= i < attributes.len() ==> (#[trigger] attributes[i]).name@ != name,
        },
    decreases attributes.len(),
{
    if attributes.len() > 0 {
        let rest = attributes.drop_last();
        lemma_index_of_name(rest, name);
        if attributes.last().name@ != name && index_of_name(rest, name) is None {
            assert forall|i: int| 0 <= i < attributes.len() implies (
            #[trigger] attributes[i]).name@ != name by {
                if i < rest.len() {
                    assert(rest[i] == attributes[i]);
                }
            }
        }
    }
}

/// The attributes are the fields, one for one.
pub proof fn lemma_attributes_are_fields(fields: Seq<Field>)
    ensures
        attributes_of(fields).len() == fields.len(),
        forall|i: int|
            0 <= i < fields.len() ==> (#[trigger] attributes_of(fields)[i]) == (Attribute {
                name: fields[i].name,
                role: field_role(fields[i]),
            }),
    decreases fields.len(),
{
    if fields.len() > 0 {
        let rest = fields.drop_last();
        lemma_attributes_are_fields(rest);
        assert forall|i: int| 0 <= i < fields.len() implies (#[trigger] attributes_of(fields)[i])
            == (Attribute { name: fields[i].name, role: field_role(fields[i]) }) by {
            if i < rest.len() {
                assert(rest[i] == fields[i]);
            }
        }
    }
}

proof fn lemma_field_before(fields: Seq<Field>, name: Seq<char>, at: int, upto: int)
    requires
        0 <= at < upto <= fields.len(),
        fields[at].name@ == name,
    ensures
        field_before(fields, name, upto),
    decreases upto - at,
{
    if at + 1 < upto {
        lemma_field_before(fields, name, at, upto - 1);
    }
}

proof fn lemma_field_not_repeated(fields: Seq<Field>, from: int, at: int)
    requires
        0 <= from <= at < fields.len(),
        repeated_field_from(fields, from) is None,
    ensures
        !field_before(fields, fields[at].name@, at),
    decreases at - from,
{
    if from < at {
        lemma_field_not_repeated(fields, from + 1, at);
    }
}

/// The attributes of a record of which no field repeats a name have names that
/// differ from one another.
pub proof fn lemma_attributes_distinct(fields: Seq<Field>)
    requires
        repeated_field_from(fields, 0) is None,
    ensures
        distinct_names(attributes_of(fields)),
{
    let attributes = attributes_of(fields);
    lemma_attributes_are_fields(fields);
    assert forall|i: int, j: int| 0 <= i < j < attributes.len() implies (
    #[trigger] attributes[i]).name@ != (#[trigger] attributes[j]).name@ by {
        if fields[i].name@ == fields[j].name@ {
            lemma_field_before(fields, fields[j].name@, i, j);
            lemma_field_not_repeated(fields, 0, j);
        }
    }
}

/// A list without repetition of positions below a bound that has as many entries as
/// the bound holds every position.
proof fn lemma_every_position(places: Seq<NodeId>, size: nat, wanted: NodeId)
    requires
        places.len() == size,
        wanted < size,
        forall|k: int| 0 <= k < places.len() ==> #[trigger] places[k] < size,
        forall|j: int, k: int| 0 <= j < k < places.len() ==> places[j] != places[k],
    ensures
        places.contains(wanted),
{
    if !places.contains(wanted) {
        let moved = Seq::new(
            places.len(),
            |k: int|
                if places[k] > wanted {
                    (places[k] - 1) as usize
                } else {
                    places[k]
                },
        );
        assert forall|k: int| 0 <= k < moved.len() implies #[trigger] moved[k] < size - 1 by {
            assert(places[k] < size);
            if places[k] == wanted {
                assert(places.contains(wanted));
            }
        }
        assert forall|j: int, k: int| 0 <= j < k < moved.len() implies moved[j] != moved[k] by {
            assert(places[j] != places[k]);
            if places[j] == wanted || places[k] == wanted {
                assert(places.contains(wanted));
            }
        }
        lemma_bounded_length(moved, (size - 1) as nat);
    }
}

proof fn lemma_named_before(inputs: Seq<Argument>, name: Seq<char>, at: int, upto: int)
    requires
        0 <= at < upto <= inputs.len(),
        inputs[at] is Named,
        inputs[at]->Named_0@ == name,
    ensures
        named_before(inputs, name, upto),
    decreases upto - at,
{
    if at + 1 < upto {
        lemma_named_before(inputs, name, at, upto - 1);
    }
}

proof fn lemma_not_repeated(inputs: Seq<Argument>, from: int, at: int)
    requires
        0 <= from <= at < inputs.len(),
        repeated_argument_from(inputs, from) is None,
        inputs[at] is Named,
    ensures
        !named_before(inputs, inputs[at]->Named_0@, at),
    decreases at - from,
{
    if from < at {
        lemma_not_repeated(inputs, from + 1, at);
    }
}

/// Arguments of which none repeats the name of an earlier one have names that
/// differ from one another.
pub proof fn lemma_no_repeat_distinct(inputs: Seq<Argument>)
    requires
        repeated_argument_from(inputs, 0) is None,
    ensures
        distinct_arguments(inputs),
{
    assert forall|i: int, j: int|
        0 <= i < j < inputs.len() && (#[trigger] inputs[i]) is Named && (
        #[trigger] inputs[j]) is Named implies inputs[i]->Named_0@ != inputs[j]->Named_0@ by {
        if inputs[i]->Named_0@ == inputs[j]->Named_0@ {
            lemma_named_before(inputs, inputs[j]->Named_0@, i, j);
            lemma_not_repeated(inputs, 0, j);
        }
    }
}

/// The attributes of an accepted record are its fields, one for one and in order.
/// The arguments of an accepted function are a permutation of the names of the
/// fields: they are bound to identifiers, their names differ from one another, they
/// are as many as the fields, each names a field, and every field is named by an
/// argument.
pub proof fn lemma_arguments_permute(record: Record, function: Function)
    requires
        verified_types(record, function) is Ok,
        function.inputs@.len() <= usize::MAX,
    ensures
        record.fields is Named,
        verified_types(record, function)->Ok_0 == attributes_of(record.fields->Named_0@),
        verified_types(record, function)->Ok_0.len() == record.fields->Named_0@.len(),
        forall|i: int|
            0 <= i < record.fields->Named_0@.len() ==> (#[trigger] verified_types(
                record,
                function,
            )->Ok_0[i]) == (Attribute {
                name: record.fields->Named_0@[i].name,
                role: type_role(record.fields->Named_0@[i].ty)->Some_0,
            }),
        distinct_names(verified_types(record, function)->Ok_0),
        function.inputs@.len() == verified_types(record, function)->Ok_0.len(),
        forall|j: int|
            0 <= j < function.inputs@.len() ==> (#[trigger] function.inputs@[j]) is Named
                && index_of_name(
                verified_types(record, function)->Ok_0,
                function.inputs@[j]->Named_0@,
            ) is Some,
        distinct_arguments(function.inputs@),
        forall|i: int|
            0 <= i < verified_types(record, function)->Ok_0.len() ==> named_by(
                function.inputs@,
                (#[trigger] verified_types(record, function)->Ok_0[i]).name@,
            ),
{
    let attributes = verified_types(record, function)->Ok_0;
    let inputs = function.inputs@;
    let fields = record.fields->Named_0@;
    assert(attributes == attributes_of(fields));
    lemma_attributes_distinct(fields);
    lemma_attributes_are_fields(fields);
    assert forall|i: int| 0 <= i < fields.len() implies (#[trigger] attributes[i]) == (Attribute {
        name: fields[i].name,
        role: type_role(fields[i].ty)->Some_0,
    }) by {
        lemma_valid_field(fields, 0, i);
    }
    assert forall|j: int| 0 <= j < inputs.len() implies (#[trigger] inputs[j]) is Named
        && index_of_name(attributes, inputs[j]->Named_0@) is Some by {
        lemma_all_regular(inputs, 0, j);
        lemma_all_known(attributes, inputs, 0, j);
    }
    lemma_no_repeat_distinct(inputs);
    {
        let places = Seq::new(
            inputs.len(),
            |j: int| index_of_name(attributes, inputs[j]->Named_0@)->Some_0 as usize,
        );
        assert forall|k: int| 0 <= k < places.len() implies #[trigger] places[k]
            < attributes.len() && attributes[places[k] as int].name@ == inputs[k]->Named_0@ by {
            lemma_index_of_name(attributes, inputs[k]->Named_0@);
        }
        assert forall|j: int, k: int| 0 <= j < k < places.len() implies places[j] != places[k] by {
            assert(places[j] < attributes.len() && attributes[places[j] as int].name@
                == inputs[j]->Named_0@);
            assert(places[k] < attributes.len() && attributes[places[k] as int].name@
                == inputs[k]->Named_0@);
            assert(inputs[j] is Named && inputs[k] is Named);
        }
        assert forall|i: int| 0 <= i < attributes.len() implies named_by(
            inputs,
            (#[trigger] attributes[i]).name@,
        ) by {
            lemma_every_position(places, attributes.len(), i as usize);
            let j = choose|j: int| 0 <= j < places.len() && places[j] == i as usize;
            assert(places[j] < attributes.len() && attributes[places[j] as int].name@
                == inputs[j]->Named_0@);
            assert(inputs[j] is Named);
        }
    }
}

proof fn lemma_all_regular(inputs: Seq<Argument>, from: int, at: int)
    requires
        0 <= from <= at < inputs.len(),
        irregular_argument_from(inputs, from) is None,
    ensures
        inputs[at] is Named,
    decreases at - from,
{
    if from < at {
        lemma_all_regular(inputs, from + 1, at);
    }
}

proof fn lemma_all_known(attributes: Seq<Attribute>, inputs: Seq<Argument>, from: int, at: int)
    requires
        0 <= from <= at < inputs.len(),
        unknown_argument_from(attributes, inputs, from) is None,
        inputs[at] is Named,
    ensures
        index_of_name(attributes, inputs[at]->Named_0@) is Some,
    decreases at - from,
{
    if from < at {
        lemma_all_known(attributes, inputs, from + 1, at);
    }
}

proof fn lemma_valid_field(fields: Seq<Field>, from: int, at: int)
    requires
        0 <= from <= at < fields.len(),
        invalid_field_from(fields, from) is None,
    ensures
        type_role(fields[at].ty) is Some,
    decreases at - from,
{
    if from < at {
        lemma_valid_field(fields, from + 1, at);
    }
}

} // verus!
