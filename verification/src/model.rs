//! Translation of a whole model.
use vstd::prelude::*;
use vstd::pervasive::unreached;
use crate::builtin::Builtin;
use crate::error::{ModelError, Place};
use crate::expression::{Node, NodeView, identifier, inserted};
use crate::parse::{build_graph, built_graph};
use crate::pdf::{PdfInput, parsed};
use crate::syntax::Item;
use crate::translation::{plan, routine_text, translate};

verus! {

/// The routines that translation adds to a model.
#[derive(Debug, PartialEq, Eq)]
pub struct GeneratedModel {
    /// The text of `_value_and_gradient`: the density and its gradient.
    pub value_and_gradient: String,
    /// The text of `_likelihood`: the logarithm of the density and its gradient.
    pub likelihood: String,
}

/// A fault of a declaration, placed in the model: the record and the function of the
/// declaration are the items of the given positions.
pub open spec fn relocated(error: ModelError, record: usize, function: usize) -> ModelError {
    ModelError {
        fault: error.fault,
        place: match error.place {
            Place::Within(part, inner) => if part == 0 {
                Place::Within(record, inner)
            } else {
                Place::Within(function, inner)
            },
            Place::Here => Place::Within(function, Box::new(Place::Here)),
        },
    }
}

/// Places a fault of a declaration in the model.
fn relocate(error: ModelError, record: usize, function: usize) -> (placed: ModelError)
    ensures
        placed == relocated(error, record, function),
{
    let place = match error.place {
        Place::Within(part, inner) => {
            if part == 0 {
                Place::Within(record, inner)
            } else {
                Place::Within(function, inner)
            }
        },
        Place::Here => Place::Within(function, Box::new(Place::Here)),
    };
    ModelError { fault: error.fault, place }
}

/// The texts of the two routines of a model, or its first fault.  The routine
/// `_value_and_gradient` evaluates the density.  The routine `_likelihood` evaluates
/// the function `likelihood` where the model has one; else it evaluates the logarithm
/// of the density, on the graph of the density.
pub open spec fn defined_model(items: Seq<Item>) -> Result<(Seq<char>, Seq<char>), ModelError> {
    match parsed(items) {
        Err(error) => Err(error),
        Ok(input) => match built_graph(input.pdf_struct, input.distribution) {
            Err(error) => Err(relocated(error, input.pdf_struct_item, input.distribution_item)),
            Ok((nodes, root)) => {
                let value = routine_text(plan(nodes, root), "_value_and_gradient"@);
                match input.likelihood {
                    Some(function) => match built_graph(input.pdf_struct, function) {
                        Err(error) => Err(
                            relocated(error, input.pdf_struct_item, input.likelihood_item),
                        ),
                        Ok((log_nodes, log_root)) => Ok(
                            (value, routine_text(plan(log_nodes, log_root), "_likelihood"@)),
                        ),
                    },
                    None => {
                        let log = NodeView::Builtin(Builtin::Log, root);
                        Ok(
                            (
                                value,
                                routine_text(
                                    plan(inserted(nodes, log), identifier(nodes, log)),
                                    "_likelihood"@,
                                ),
                            ),
                        )
                    },
                }
            },
        },
    }
}

/// Whether the outcome is the one that translation owes for the items.
pub open spec fn describes(generated: Result<GeneratedModel, ModelError>, items: Seq<Item>) -> bool {
    match generated {
        Ok(model) => defined_model(items) == Ok::<(Seq<char>, Seq<char>), ModelError>(
            (model.value_and_gradient@, model.likelihood@),
        ),
        Err(error) => defined_model(items) == Err::<(Seq<char>, Seq<char>), ModelError>(error),
    }
}

/// Translation is deterministic: two outcomes for the same items report the same
/// fault or hold the same two texts, character for character.
pub proof fn lemma_deterministic(
    items: Seq<Item>,
    first: Result<GeneratedModel, ModelError>,
    second: Result<GeneratedModel, ModelError>,
)
    requires
        describes(first, items),
        describes(second, items),
    ensures
        match (first, second) {
            (Ok(one), Ok(other)) => one.value_and_gradient@ == other.value_and_gradient@
                && one.likelihood@ == other.likelihood@,
            (Err(one), Err(other)) => one == other,
            _ => false,
        },
{
}

/// Translates a model: checks its items, builds the graph of its density and emits
/// the routines `_value_and_gradient` and `_likelihood`.
pub fn define_model(items: &Vec<Item>) -> (generated: Result<GeneratedModel, ModelError>)
    ensures
        describes(generated, items@),
{
    let input = match PdfInput::parse(items) {
        Ok(input) => input,
        Err(error) => {
            return Err(error);
        },
    };
    let (mut value, root) = match build_graph(input.pdf_struct, input.distribution) {
        Ok(built) => built,
        Err(error) => {
            return Err(relocate(error, input.pdf_struct_item, input.distribution_item));
        },
    };
    let value_and_gradient = match translate(&value, root, "_value_and_gradient") {
        Ok(text) => text,
        Err(_) => unreached(),
    };
    let likelihood = match input.likelihood {
        Some(function) => {
            let (graph, log_root) = match build_graph(input.pdf_struct, function) {
                Ok(built) => built,
                Err(error) => {
                    return Err(relocate(error, input.pdf_struct_item, input.likelihood_item));
                },
            };
            match translate(&graph, log_root, "_likelihood") {
                Ok(text) => text,
                Err(_) => unreached(),
            }
        },
        None => {
            let log = Node::new_builtin(Builtin::Log, root);
            let ghost nodes = value@;
            let index = match value.insert(log) {
                Ok(index) => index,
                Err(_) => unreached(),
            };
            assert(index < value@.len()) by {
                if nodes.contains(log@) {
                    let i = choose|i: int| 0 <= i < nodes.len() && nodes[i] == log@;
                }
            }
            match translate(&value, index, "_likelihood") {
                Ok(text) => text,
                Err(_) => unreached(),
            }
        },
    };
    Ok(GeneratedModel { value_and_gradient, likelihood })
}

} // verus!
