//! The failures that translation can report.
use vstd::prelude::*;

verus! {

/// A violated invariant of the expression graph.  These are faults of the caller
/// of the graph, kept apart from the errors in a model that its author can mend.
#[derive(Debug, Clone, Copy, PartialEq, Eq, Structural, Hash)]
pub enum GraphError {
    /// A node id that does not name a node of the graph.
    InvalidNodeId,
    /// A variable whose name the graph already holds in the other role.
    ConflictingVariable,
}

/// A position in the input, as the way down to it from where one stands: `Here`, or
/// the part of the given number and the way on inside it.
///
/// The parts are numbered as follows.
/// * In a model: its items.
/// * In a declaration, which is a record together with a function: the record is
///   part 0, the function part 1.
/// * In a record: its fields.
/// * In a function: the list of arguments is part 0 and each argument a part of it;
///   the body is part 1 and each statement a part of it.
/// * In a statement: its expression is part 0.
/// * In an expression: its operands from left to right, the receiver of a method
///   call before its argument.
#[derive(Debug, PartialEq, Eq)]
pub enum Place {
    Here,
    Within(usize, Box<Place>),
}

/// What is wrong with a model.
#[derive(Debug, PartialEq, Eq)]
#[allow(inconsistent_fields)]
pub enum Fault {
    /// An attribute whose type is neither `Parameter` nor `Data`.  `found` is the
    /// name of the type, where it has one.
    InvalidAttributeType { name: String, found: Option<String> },
    /// A function that takes another number of arguments than the record has attributes.
    ArityMismatch { expected: usize, found: usize },
    /// A function argument that is no attribute of the record.
    UnknownArgument(String),
    /// A function that takes a method receiver.
    ReceiverNotAllowed,
    /// A record whose fields have no names.
    UnnamedFields,
    /// An identifier that is neither bound by a `let` nor an argument.
    UnboundName(String),
    /// A cast to another type than `Float`.
    UnsupportedCast,
    /// A statement, an expression or an item outside the dialect.
    UnsupportedConstruct,
    /// A name that is defined twice: a function of the model, a field of the record
    /// or an argument of a function.
    DuplicateDefinition(String),
    /// A function that a model has no place for.
    UnknownMember(String),
    /// A model without a `distribution` function.
    MissingDistribution,
    /// A model that does not declare exactly one record.
    AggregateArityError,
}

/// A fault in a model that its author can mend, and the place of the fault.
#[derive(Debug, PartialEq, Eq)]
pub struct ModelError {
    pub fault: Fault,
    pub place: Place,
}

impl ModelError {
    /// The fault at the place where one stands.
    pub open spec fn here(fault: Fault) -> ModelError {
        ModelError { fault, place: Place::Here }
    }

    /// The same fault, seen from one level further out: inside the part `index`.
    pub open spec fn within(self, index: usize) -> ModelError {
        ModelError { fault: self.fault, place: Place::Within(index, Box::new(self.place)) }
    }

    /// Reports a fault at the place where one stands.
    pub fn new(fault: Fault) -> (error: ModelError)
        ensures
            error == ModelError::here(fault),
    {
        ModelError { fault, place: Place::Here }
    }

    /// Reports the fault from one level further out.
    pub fn nested(self, index: usize) -> (error: ModelError)
        ensures
            error == self.within(index),
    {
        ModelError { fault: self.fault, place: Place::Within(index, Box::new(self.place)) }
    }
}

/// The result with its fault, if it has one, seen from inside the part `index`.
pub open spec fn nest<T>(result: Result<T, ModelError>, index: usize) -> Result<T, ModelError> {
    match result {
        Ok(value) => Ok(value),
        Err(error) => Err(error.within(index)),
    }
}

} // verus!
