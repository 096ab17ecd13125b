//! The items of a model: one record and the functions `distribution`, `likelihood`
//! and `norm`.
use vstd::prelude::*;
use crate::error::{Fault, ModelError, Place};
use crate::syntax::{Function, Item, Record};
use crate::text::same_text;

verus! {

/// The items of a model, each in its place.
#[derive(Debug)]
pub struct PdfInput<'a> {
    /// The record that declares the attributes.
    pub pdf_struct: &'a Record,
    /// The density.
    pub distribution: &'a Function,
    /// The logarithm of the density, where the model gives it.
    pub likelihood: Option<&'a Function>,
    /// The normalisation, where the model gives it.
    pub norm: Option<&'a Function>,
    /// The position of the record among the items.
    pub pdf_struct_item: usize,
    /// The position of the density among the items.
    pub distribution_item: usize,
    /// The position of the logarithm of the density among the items, where the
    /// model gives it; else zero.
    pub likelihood_item: usize,
}

/// The mathematical value of the items of a model.
pub struct PdfView {
    pub pdf_struct: Record,
    pub distribution: Function,
    pub likelihood: Option<Function>,
    pub norm: Option<Function>,
    pub pdf_struct_item: usize,
    pub distribution_item: usize,
    pub likelihood_item: usize,
}

impl<'a> View for PdfInput<'a> {
    type V = PdfView;

    open spec fn view(&self) -> PdfView {
        PdfView {
            pdf_struct: *self.pdf_struct,
            distribution: *self.distribution,
            likelihood: match self.likelihood {
                Some(function) => Some(*function),
                None => None,
            },
            norm: match self.norm {
                Some(function) => Some(*function),
                None => None,
            },
            pdf_struct_item: self.pdf_struct_item,
            distribution_item: self.distribution_item,
            likelihood_item: self.likelihood_item,
        }
    }
}

/// Whether a model has a place for a function of the given name.
pub open spec fn is_member(name: Seq<char>) -> bool {
    name == "distribution"@ || name == "likelihood"@ || name == "norm"@
}

/// The first record from `from` on.
pub open spec fn first_record_from(items: Seq<Item>, from: int) -> Option<int>
    decreases items.len() - from,
{
    if from < 0 || from >= items.len() {
        None
    } else if items[from] is Record {
        Some(from)
    } else {
        first_record_from(items, from + 1)
    }
}

/// The first function of the given name from `from` on.
pub open spec fn first_function_from(items: Seq<Item>, name: Seq<char>, from: int) -> Option<int>
    decreases items.len() - from,
{
    if from < 0 || from >= items.len() {
        None
    } else if items[from] is Function && items[from]->Function_0.name@ == name {
        Some(from)
    } else {
        first_function_from(items, name, from + 1)
    }
}

/// The fault of the item at position `index`, given the items before it: a second
/// record, a function that the model has no place for or has defined before, or an
/// item that is neither a record nor a function.
pub open spec fn offence(items: Seq<Item>, index: int) -> Option<Fault> {
    match items[index] {
        Item::Record(_) => if first_record_from(items, 0) != Some(index) {
            Some(Fault::AggregateArityError)
        } else {
            None
        },
        Item::Function(function) => if !is_member(function.name@) {
            Some(Fault::UnknownMember(function.name))
        } else if first_function_from(items, function.name@, 0) != Some(index) {
            Some(Fault::DuplicateDefinition(function.name))
        } else {
            None
        },
        Item::Other => Some(Fault::UnsupportedConstruct),
    }
}

/// The first item from `from` on that is at fault.
pub open spec fn first_offence_from(items: Seq<Item>, from: int) -> Option<int>
    decreases items.len() - from,
{
    if from < 0 || from >= items.len() {
        None
    } else if offence(items, from) is Some {
        Some(from)
    } else {
        first_offence_from(items, from + 1)
    }
}

/// The function of the given name, where the items hold one.
pub open spec fn member(items: Seq<Item>, name: Seq<char>) -> Option<Function> {
    match first_function_from(items, name, 0) {
        Some(index) => Some(items[index]->Function_0),
        None => None,
    }
}

/// The position of the first function of the given name, or zero.
pub open spec fn member_item(items: Seq<Item>, name: Seq<char>) -> usize {
    match first_function_from(items, name, 0) {
        Some(index) => index as usize,
        None => 0,
    }
}

/// What `PdfInput::parse` answers: the fault of the first item at fault, at that
/// item; else the lack of a record; else the lack of a density; else the items in
/// their places.
pub open spec fn parsed(items: Seq<Item>) -> Result<PdfView, ModelError> {
    match first_offence_from(items, 0) {
        Some(index) => Err(
            ModelError {
                fault: offence(items, index)->Some_0,
                place: Place::Within(index as usize, Box::new(Place::Here)),
            },
        ),
        None => match first_record_from(items, 0) {
            None => Err(ModelError::here(Fault::AggregateArityError)),
            Some(record) => match member(items, "distribution"@) {
                None => Err(ModelError::here(Fault::MissingDistribution)),
                Some(distribution) => Ok(
                    PdfView {
                        pdf_struct: items[record]->Record_0,
                        distribution,
                        likelihood: member(items, "likelihood"@),
                        norm: member(items, "norm"@),
                        pdf_struct_item: record as usize,
                        distribution_item: member_item(items, "distribution"@),
                        likelihood_item: member_item(items, "likelihood"@),
                    },
                ),
            },
        },
    }
}

/// Whether the slot holds the first function of the name that stands before `index`.
pub open spec fn slot_holds(
    slot: Option<&Function>,
    at: usize,
    items: Seq<Item>,
    name: Seq<char>,
    index: int,
) -> bool {
    match slot {
        Some(function) => first_function_from(items, name, 0) matches Some(found) && found < index
            && items[found] == Item::Function(*function) && at == found,
        None => first_function_from(items, name, 0) == first_function_from(items, name, index)
            && at == 0,
    }
}

proof fn lemma_names_differ()
    ensures
        "distribution"@ != "likelihood"@,
        "distribution"@ != "norm"@,
        "likelihood"@ != "norm"@,
{
    reveal_strlit("distribution");
    reveal_strlit("likelihood");
    reveal_strlit("norm");
    assert("distribution"@.len() == 12);
    assert("likelihood"@.len() == 10);
    assert("norm"@.len() == 4);
}

impl<'a> PdfInput<'a> {
    /// Sorts the items of a model into their places.
    pub fn parse(items: &'a Vec<Item>) -> (input: Result<PdfInput<'a>, ModelError>)
        ensures
            match input {
                Ok(input) => parsed(items@) == Ok::<PdfView, ModelError>(input@),
                Err(error) => parsed(items@) == Err::<PdfView, ModelError>(error),
            },
    {
        let mut pdf_struct: Option<&'a Record> = None;
        let mut distribution: Option<&'a Function> = None;
        let mut likelihood: Option<&'a Function> = None;
        let mut norm: Option<&'a Function> = None;
        let mut pdf_struct_item: usize = 0;
        let mut distribution_item: usize = 0;
        let mut likelihood_item: usize = 0;
        let mut norm_item: usize = 0;
        let mut index: usize = 0;
        proof {
            lemma_names_differ();
        }
        while index < items.len()
            invariant
                index <= items@.len(),
                first_offence_from(items@, 0) == first_offence_from(items@, index as int),
                match pdf_struct {
                    Some(record) => first_record_from(items@, 0) matches Some(found) && found
                        < index && items@[found] == Item::Record(*record) && pdf_struct_item
                        == found,
                    None => first_record_from(items@, 0) == first_record_from(
                        items@,
                        index as int,
                    ),
                },
                slot_holds(distribution, distribution_item, items@, "distribution"@, index as int),
                slot_holds(likelihood, likelihood_item, items@, "likelihood"@, index as int),
                slot_holds(norm, norm_item, items@, "norm"@, index as int),
                "distribution"@ != "likelihood"@,
                "distribution"@ != "norm"@,
                "likelihood"@ != "norm"@,
            decreases items@.len() - index,
        {
            match &items[index] {
                Item::Record(record) => {
                    if pdf_struct.is_some() {
                        return Err(ModelError::new(Fault::AggregateArityError).nested(index));
                    }
                    pdf_struct = Some(record);
                    pdf_struct_item = index;
                },
                Item::Function(function) => {
                    if same_text(function.name.as_str(), "distribution") {
                        if distribution.is_some() {
                            let fault = Fault::DuplicateDefinition(function.name.clone());
                            return Err(ModelError::new(fault).nested(index));
                        }
                        distribution = Some(function);
                        distribution_item = index;
                    } else if same_text(function.name.as_str(), "likelihood") {
                        if likelihood.is_some() {
                            let fault = Fault::DuplicateDefinition(function.name.clone());
                            return Err(ModelError::new(fault).nested(index));
                        }
                        likelihood = Some(function);
                        likelihood_item = index;
                    } else if same_text(function.name.as_str(), "norm") {
                        if norm.is_some() {
                            let fault = Fault::DuplicateDefinition(function.name.clone());
                            return Err(ModelError::new(fault).nested(index));
                        }
                        norm = Some(function);
                        norm_item = index;
                    } else {
                        let fault = Fault::UnknownMember(function.name.clone());
                        return Err(ModelError::new(fault).nested(index));
                    }
                },
                Item::Other => {
                    return Err(ModelError::new(Fault::UnsupportedConstruct).nested(index));
                },
            }
            index += 1;
        }
        let pdf_struct = match pdf_struct {
            Some(record) => record,
            None => {
                return Err(ModelError::new(Fault::AggregateArityError));
            },
        };
        let distribution = match distribution {
            Some(function) => function,
            None => {
                return Err(ModelError::new(Fault::MissingDistribution));
            },
        };
        Ok(
            PdfInput {
                pdf_struct,
                distribution,
                likelihood,
                norm,
                pdf_struct_item,
                distribution_item,
                likelihood_item,
            },
        )
    }
}

} // verus!
