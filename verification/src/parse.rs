//! From the declaration of a model to its expression graph.
use vstd::prelude::*;
use vstd::pervasive::unreached;
use crate::{Float, FloatConsts};
use crate::binary_operation::BinaryOperation;
use crate::builtin::Builtin;
use crate::constant::{Constant, check_finite, is_finite};
use crate::denotation::unfold;
use crate::error::{Fault, ModelError, Place, nest};
use crate::expression::{
    ExpressionGraph,
    Node,
    NodeId,
    NodeView,
    admissible,
    children_below,
    conflicting,
    identifier,
    inserted,
    lemma_push_well_formed,
    position,
    well_formed,
};
use crate::lowering::{
    denote_body,
    finite_constants,
    lemma_built_graph_denotes,
    lemma_built_graph_finite,
};
use crate::signature::{distinct_arguments, lemma_no_repeat_distinct};
use crate::syntax::{
    Argument,
    Arguments,
    Attribute,
    BinaryOperator,
    Expr,
    Field,
    Fields,
    Function,
    Record,
    Role,
    Stmt,
    UnaryOperator,
};
use crate::text::same_text;

verus! {

/// The role that the type of a field stands for.
pub open spec fn type_role(ty: Option<String>) -> Option<Role> {
    match ty {
        Some(name) => if name@ == "Parameter"@ {
            Some(Role::Parameter)
        } else if name@ == "Data"@ {
            Some(Role::Data)
        } else {
            None
        },
        None => None,
    }
}

/// The position of the attribute of the given name.
pub open spec fn index_of_name(attributes: Seq<Attribute>, name: Seq<char>) -> Option<int>
    decreases attributes.len(),
{
    if attributes.len() == 0 {
        None
    } else if attributes.last().name@ == name {
        Some(attributes.len() - 1)
    } else {
        index_of_name(attributes.drop_last(), name)
    }
}

/// The role of the attribute of the given name.
pub open spec fn role_of(attributes: Seq<Attribute>, name: Seq<char>) -> Option<Role> {
    match index_of_name(attributes, name) {
        Some(index) => Some(attributes[index].role),
        None => None,
    }
}

/// The role of a field whose type stands for one.
pub open spec fn field_role(field: Field) -> Role {
    match type_role(field.ty) {
        Some(role) => role,
        None => Role::Data,
    }
}

/// The attributes that the fields declare: one for each field, in the order of
/// declaration, with the name of the field and the role of its type.
pub open spec fn attributes_of(fields: Seq<Field>) -> Seq<Attribute>
    decreases fields.len(),
{
    if fields.len() == 0 {
        Seq::empty()
    } else {
        attributes_of(fields.drop_last()).push(
            Attribute { name: fields.last().name, role: field_role(fields.last()) },
        )
    }
}

/// The first field from `from` on whose type stands for no role.
pub open spec fn invalid_field_from(fields: Seq<Field>, from: int) -> Option<int>
    decreases fields.len() - from,
{
    if from < 0 || from >= fields.len() {
        None
    } else if type_role(fields[from].ty) is None {
        Some(from)
    } else {
        invalid_field_from(fields, from + 1)
    }
}

/// The first argument from `from` on that is not bound to an identifier.
pub open spec fn irregular_argument_from(inputs: Seq<Argument>, from: int) -> Option<int>
    decreases inputs.len() - from,
{
    if from < 0 || from >= inputs.len() {
        None
    } else if !(inputs[from] is Named) {
        Some(from)
    } else {
        irregular_argument_from(inputs, from + 1)
    }
}

/// The first argument from `from` on that names no attribute.
pub open spec fn unknown_argument_from(
    attributes: Seq<Attribute>,
    inputs: Seq<Argument>,
    from: int,
) -> Option<int>
    decreases inputs.len() - from,
{
    if from < 0 || from >= inputs.len() {
        None
    } else if inputs[from] is Named && index_of_name(attributes, inputs[from]->Named_0@) is None {
        Some(from)
    } else {
        unknown_argument_from(attributes, inputs, from + 1)
    }
}

/// Whether a field before position `upto` has the name.
pub open spec fn field_before(fields: Seq<Field>, name: Seq<char>, upto: int) -> bool
    decreases upto,
{
    0 < upto <= fields.len() && (fields[upto - 1].name@ == name || field_before(
        fields,
        name,
        upto - 1,
    ))
}

/// The first field from `from` on that has the name of an earlier one.
pub open spec fn repeated_field_from(fields: Seq<Field>, from: int) -> Option<int>
    decreases fields.len() - from,
{
    if from < 0 || from >= fields.len() {
        None
    } else if field_before(fields, fields[from].name@, from) {
        Some(from)
    } else {
        repeated_field_from(fields, from + 1)
    }
}

/// Whether an argument before position `upto` is bound to the name.
pub open spec fn named_before(inputs: Seq<Argument>, name: Seq<char>, upto: int) -> bool
    decreases upto,
{
    0 < upto <= inputs.len() && ((inputs[upto - 1] is Named && inputs[upto - 1]->Named_0@ == name)
        || named_before(inputs, name, upto - 1))
}

/// The first argument from `from` on that is bound to the name of an earlier one.
pub open spec fn repeated_argument_from(inputs: Seq<Argument>, from: int) -> Option<int>
    decreases inputs.len() - from,
{
    if from < 0 || from >= inputs.len() {
        None
    } else if inputs[from] is Named && named_before(inputs, inputs[from]->Named_0@, from) {
        Some(from)
    } else {
        repeated_argument_from(inputs, from + 1)
    }
}

/// The part `index` and the way on inside it.
pub open spec fn part(index: usize, inner: Place) -> Place {
    Place::Within(index, Box::new(inner))
}

/// The place of the record in a declaration.
pub open spec fn record_place() -> Place {
    part(0, Place::Here)
}

/// The place of a field of the record in a declaration.
pub open spec fn field_place(index: usize) -> Place {
    part(0, part(index, Place::Here))
}

/// The place of the function in a declaration.
pub open spec fn function_place() -> Place {
    part(1, Place::Here)
}

/// The place of an argument of the function in a declaration.
pub open spec fn argument_place(index: usize) -> Place {
    part(1, part(0, part(index, Place::Here)))
}

/// What `verify_types` answers.  The checks come in this order: the fields are named;
/// every field is a parameter or a datum; every argument is bound to an identifier;
/// there are as many arguments as fields; every argument names a field; no field
/// repeats the name of an earlier one; no argument repeats the name of an earlier
/// one.  The arguments of an accepted function are therefore a permutation of the
/// names of the fields.
pub open spec fn verified_types(record: Record, function: Function) -> Result<
    Seq<Attribute>,
    ModelError,
> {
    match record.fields {
        Fields::Unnamed => Err(ModelError { fault: Fault::UnnamedFields, place: record_place() }),
        Fields::Named(fields) => match invalid_field_from(fields@, 0) {
            Some(index) => Err(
                ModelError {
                    fault: Fault::InvalidAttributeType {
                        name: fields@[index].name,
                        found: fields@[index].ty,
                    },
                    place: field_place(index as usize),
                },
            ),
            None => match verified_signature(attributes_of(fields@), function) {
                Err(error) => Err(error),
                Ok(attributes) => verified_names(fields@, function, attributes),
            },
        },
    }
}

/// The checks of the arguments against the attributes: every argument is bound to
/// an identifier, there are as many arguments as attributes, and every argument
/// names an attribute.
pub open spec fn verified_signature(attributes: Seq<Attribute>, function: Function) -> Result<
    Seq<Attribute>,
    ModelError,
> {
    match irregular_argument_from(function.inputs@, 0) {
        Some(index) => if function.inputs@[index] is Receiver {
            Err(
                ModelError {
                    fault: Fault::ReceiverNotAllowed,
                    place: argument_place(index as usize),
                },
            )
        } else {
            Err(
                ModelError {
                    fault: Fault::UnsupportedConstruct,
                    place: argument_place(index as usize),
                },
            )
        },
        None => if attributes.len() != function.inputs@.len() {
            Err(
                ModelError {
                    fault: Fault::ArityMismatch {
                        expected: attributes.len() as usize,
                        found: function.inputs@.len() as usize,
                    },
                    place: function_place(),
                },
            )
        } else {
            match unknown_argument_from(attributes, function.inputs@, 0) {
                Some(index) => Err(
                    ModelError {
                        fault: Fault::UnknownArgument(function.inputs@[index]->Named_0),
                        place: argument_place(index as usize),
                    },
                ),
                None => Ok(attributes),
            }
        },
    }
}

/// The last checks, which make the arguments a permutation of the fields: no field
/// and no argument repeats the name of an earlier one.
pub open spec fn verified_names(
    fields: Seq<Field>,
    function: Function,
    attributes: Seq<Attribute>,
) -> Result<Seq<Attribute>, ModelError> {
    match repeated_field_from(fields, 0) {
        Some(index) => Err(
            ModelError {
                fault: Fault::DuplicateDefinition(fields[index].name),
                place: field_place(index as usize),
            },
        ),
        None => match repeated_argument_from(function.inputs@, 0) {
            Some(index) => Err(
                ModelError {
                    fault: Fault::DuplicateDefinition(function.inputs@[index]->Named_0),
                    place: argument_place(index as usize),
                },
            ),
            None => Ok(attributes),
        },
    }
}

/// Reads the role off the type of a field.
pub fn role_of_type(ty: &Option<String>) -> (role: Option<Role>)
    ensures
        role == type_role(*ty),
{
    match ty {
        Some(name) => {
            if same_text(name.as_str(), "Parameter") {
                Some(Role::Parameter)
            } else if same_text(name.as_str(), "Data") {
                Some(Role::Data)
            } else {
                None
            }
        },
        None => None,
    }
}

/// Finds the attribute of the given name.
pub fn find_attribute(attributes: &Vec<Attribute>, name: &str) -> (index: Option<usize>)
    ensures
        match index {
            Some(index) => index_of_name(attributes@, name@) == Some(index as int),
            None => index_of_name(attributes@, name@) is None,
        },
        index matches Some(index) ==> index < attributes@.len() && attributes@[index as int].name@
            == name@,
{
    let mut index = attributes.len();
    assert(attributes@.take(index as int) =~= attributes@);
    while index > 0
        invariant
            index <= attributes@.len(),
            index_of_name(attributes@, name@) == index_of_name(
                attributes@.take(index as int),
                name@,
            ),
        decreases index,
    {
        let ghost seen = attributes@.take(index as int);
        assert(seen.drop_last() =~= attributes@.take(index as int - 1));
        index -= 1;
        if same_text(attributes[index].name.as_str(), name) {
            return Some(index);
        }
    }
    None
}

/// Collects the attributes that the fields declare.
fn collect_attributes(fields: &Vec<Field>) -> (attributes: Vec<Attribute>)
    requires
        invalid_field_from(fields@, 0) is None,
    ensures
        attributes@ == attributes_of(fields@),
{
    let mut attributes: Vec<Attribute> = Vec::new();
    let mut index: usize = 0;
    assert(fields@.take(0) =~= Seq::<Field>::empty());
    while index < fields.len()
        invariant
            index <= fields@.len(),
            invalid_field_from(fields@, 0) == invalid_field_from(fields@, index as int),
            invalid_field_from(fields@, 0) is None,
            attributes@ == attributes_of(fields@.take(index as int)),
        decreases fields@.len() - index,
    {
        let ghost seen = fields@.take(index as int);
        let ghost next = fields@.take(index as int + 1);
        assert(next.drop_last() =~= seen);
        assert(next.last() == fields@[index as int]);
        let field = &fields[index];
        let role = match role_of_type(&field.ty) {
            Some(role) => role,
            None => Role::Data,
        };
        attributes.push(Attribute { name: field.name.clone(), role });
        index += 1;
    }
    assert(fields@.take(index as int) =~= fields@);
    attributes
}

/// Decides whether a field before position `upto` has the name.
fn field_named_before(fields: &Vec<Field>, name: &str, upto: usize) -> (found: bool)
    requires
        upto <= fields@.len(),
    ensures
        found == field_before(fields@, name@, upto as int),
{
    let mut found = false;
    let mut index: usize = 0;
    while index < upto
        invariant
            index <= upto <= fields@.len(),
            found == field_before(fields@, name@, index as int),
        decreases upto - index,
    {
        if same_text(fields[index].name.as_str(), name) {
            found = true;
        }
        index += 1;
    }
    found
}

/// Decides whether an argument before position `upto` is bound to the name.
fn argument_named_before(inputs: &Vec<Argument>, name: &str, upto: usize) -> (found: bool)
    requires
        upto <= inputs@.len(),
    ensures
        found == named_before(inputs@, name@, upto as int),
{
    let mut found = false;
    let mut index: usize = 0;
    while index < upto
        invariant
            index <= upto <= inputs@.len(),
            found == named_before(inputs@, name@, index as int),
        decreases upto - index,
    {
        match &inputs[index] {
            Argument::Named(earlier) => {
                if same_text(earlier.as_str(), name) {
                    found = true;
                }
            },
            _ => {},
        }
        index += 1;
    }
    found
}

/// Checks the declaration of a model against the signature of one of its functions
/// and returns the attributes with their roles, in the order of declaration.  The
/// arguments of an accepted function are a permutation of the names of the
/// attributes.
#[verifier::loop_isolation(false)]
pub fn verify_types(pdf_struct: &Record, value_function: &Function) -> (types: Result<
    Vec<Attribute>,
    ModelError,
>)
    ensures
        match types {
            Ok(attributes) => verified_types(*pdf_struct, *value_function) == Ok::<
                Seq<Attribute>,
                ModelError,
            >(attributes@),
            Err(error) => verified_types(*pdf_struct, *value_function) == Err::<
                Seq<Attribute>,
                ModelError,
            >(error),
        },
        types is Ok ==> distinct_arguments(value_function.inputs@),
{
    let fields = match &pdf_struct.fields {
        Fields::Named(fields) => fields,
        Fields::Unnamed => {
            return Err(ModelError::new(Fault::UnnamedFields).nested(0));
        },
    };
    let mut index: usize = 0;
    while index < fields.len()
        invariant
            index <= fields@.len(),
            invalid_field_from(fields@, 0) == invalid_field_from(fields@, index as int),
        decreases fields@.len() - index,
    {
        let field = &fields[index];
        if role_of_type(&field.ty).is_none() {
            let found = match &field.ty {
                Some(name) => Some(name.clone()),
                None => None,
            };
            let fault = Fault::InvalidAttributeType { name: field.name.clone(), found };
            return Err(ModelError::new(fault).nested(index).nested(0));
        }
        index += 1;
    }
    let inputs = &value_function.inputs;
    let mut index: usize = 0;
    while index < inputs.len()
        invariant
            index <= inputs@.len(),
            irregular_argument_from(inputs@, 0) == irregular_argument_from(inputs@, index as int),
        decreases inputs@.len() - index,
    {
        match &inputs[index] {
            Argument::Named(_) => {},
            Argument::Receiver => {
                return Err(
                    ModelError::new(Fault::ReceiverNotAllowed).nested(index).nested(0).nested(1),
                );
            },
            Argument::Pattern => {
                return Err(
                    ModelError::new(Fault::UnsupportedConstruct).nested(index).nested(0).nested(1),
                );
            },
        }
        index += 1;
    }
    let attributes = collect_attributes(fields);
    if inputs.len() != attributes.len() {
        let fault = Fault::ArityMismatch { expected: attributes.len(), found: inputs.len() };
        return Err(ModelError::new(fault).nested(1));
    }
    let mut index: usize = 0;
    while index < inputs.len()
        invariant
            index <= inputs@.len(),
            unknown_argument_from(attributes@, inputs@, 0) == unknown_argument_from(
                attributes@,
                inputs@,
                index as int,
            ),
        decreases inputs@.len() - index,
    {
        match &inputs[index] {
            Argument::Named(name) => {
                if find_attribute(&attributes, name.as_str()).is_none() {
                    let fault = Fault::UnknownArgument(name.clone());
                    return Err(ModelError::new(fault).nested(index).nested(0).nested(1));
                }
            },
            _ => {},
        }
        index += 1;
    }
    let mut index: usize = 0;
    while index < fields.len()
        invariant
            index <= fields@.len(),
            repeated_field_from(fields@, 0) == repeated_field_from(fields@, index as int),
        decreases fields@.len() - index,
    {
        if field_named_before(fields, fields[index].name.as_str(), index) {
            let fault = Fault::DuplicateDefinition(fields[index].name.clone());
            return Err(ModelError::new(fault).nested(index).nested(0));
        }
        index += 1;
    }
    let mut index: usize = 0;
    while index < inputs.len()
        invariant
            index <= inputs@.len(),
            repeated_argument_from(inputs@, 0) == repeated_argument_from(inputs@, index as int),
        decreases inputs@.len() - index,
    {
        match &inputs[index] {
            Argument::Named(name) => {
                if argument_named_before(inputs, name.as_str(), index) {
                    let fault = Fault::DuplicateDefinition(name.clone());
                    return Err(ModelError::new(fault).nested(index).nested(0).nested(1));
                }
            },
            _ => {},
        }
        index += 1;
    }
    proof {
        lemma_no_repeat_distinct(inputs@);
    }
    Ok(attributes)
}

/// A name that a `let` statement has bound to a node.
#[derive(Debug, PartialEq, Eq)]
pub struct Binding {
    pub name: String,
    pub id: NodeId,
}

/// The node that the latest binding of the name names.
pub open spec fn bound_id(env: Seq<Binding>, name: Seq<char>) -> Option<NodeId>
    decreases env.len(),
{
    if env.len() == 0 {
        None
    } else if env.last().name@ == name {
        Some(env.last().id)
    } else {
        bound_id(env.drop_last(), name)
    }
}

/// Whether every binding names a node of a graph of the given size.
pub open spec fn bindings_valid(env: Seq<Binding>, size: nat) -> bool {
    forall|i: int| 0 <= i < env.len() ==> (#[trigger] env[i]).id < size
}

/// The flag of a variable of the given role.
pub open spec fn is_fixed(role: Role) -> bool {
    role == Role::Data
}

/// Whether the node, if it is a variable, is an attribute in its declared role.
pub open spec fn agrees(node: NodeView, attributes: Seq<Attribute>) -> bool {
    node is Variable ==> (role_of(attributes, node->name) matches Some(role) && is_fixed(role)
        == node->fixed)
}

/// Whether every variable of the graph is an attribute in its declared role.
pub open spec fn consistent(nodes: Seq<NodeView>, attributes: Seq<Attribute>) -> bool {
    forall|i: int| 0 <= i < nodes.len() ==> agrees(#[trigger] nodes[i], attributes)
}

/// Whether `longer` starts with the nodes of `shorter`.
pub open spec fn grown_from(longer: Seq<NodeView>, shorter: Seq<NodeView>) -> bool {
    &&& shorter.len() <= longer.len()
    &&& forall|i: int| 0 <= i < shorter.len() ==> longer[i] == shorter[i]
}

/// The operation that a binary operator of the host language stands for.
pub open spec fn operation(op: BinaryOperator) -> Option<BinaryOperation> {
    match op {
        BinaryOperator::Add => Some(BinaryOperation::Add),
        BinaryOperator::Sub => Some(BinaryOperation::Sub),
        BinaryOperator::Mul => Some(BinaryOperation::Mul),
        BinaryOperator::Div => Some(BinaryOperation::Div),
        BinaryOperator::Other => None,
    }
}

/// The power operation that a method name stands for.
pub open spec fn power(method: Seq<char>) -> Option<BinaryOperation> {
    if method == "powi"@ {
        Some(BinaryOperation::PowI)
    } else if method == "powf"@ {
        Some(BinaryOperation::PowF)
    } else {
        None
    }
}

/// The node of a path: a bound name, an argument, or a constant of `Float`.
pub open spec fn lowered_path(
    nodes: Seq<NodeView>,
    env: Seq<Binding>,
    attributes: Seq<Attribute>,
    segments: Seq<String>,
) -> Result<NodeView, ModelError> {
    if segments.len() == 1 {
        match bound_id(env, segments[0]@) {
            Some(id) => Ok(nodes[id as int]),
            None => match role_of(attributes, segments[0]@) {
                Some(role) => Ok(NodeView::Variable { name: segments[0]@, fixed: is_fixed(role) }),
                None => Err(ModelError::here(Fault::UnboundName(segments[0]))),
            },
        }
    } else if segments.len() == 2 && segments[0]@ == "Float"@ {
        if segments[1]@ == "PI"@ {
            Ok(NodeView::Constant(Constant::Float(0x4009_21FB_5444_2D18)))
        } else if segments[1]@ == "E"@ {
            Ok(NodeView::Constant(Constant::Float(0x4005_BF0A_8B14_5769)))
        } else {
            Err(ModelError::here(Fault::UnsupportedConstruct))
        }
    } else {
        Err(ModelError::here(Fault::UnsupportedConstruct))
    }
}

/// The negation of a lowered operand: a constant folds into the constant of opposite
/// sign; anything else is subtracted from zero.
pub open spec fn lowered_negation(nodes: Seq<NodeView>, operand: NodeView) -> Result<
    (Seq<NodeView>, NodeView),
    ModelError,
> {
    match operand {
        NodeView::Constant(value) => if value.negatable() {
            let folded = NodeView::Constant(value.negation());
            Ok((inserted(nodes, folded), folded))
        } else {
            Err(ModelError::here(Fault::UnsupportedConstruct))
        },
        _ => {
            let zero = NodeView::Constant(Constant::Float(0));
            let held = inserted(nodes, operand);
            Ok(
                (
                    inserted(held, zero),
                    NodeView::BinaryOperation(
                        BinaryOperation::Sub,
                        identifier(held, zero),
                        identifier(nodes, operand),
                    ),
                ),
            )
        },
    }
}

/// The graph after an expression was lowered into it, and the node that stands for
/// the expression.  The node itself is not yet in the graph: whoever uses it inserts
/// it.  Operands are lowered left to right and inserted before their users.
///
/// The two powers differ in their exponents.  The exponent of `powi` must lower to
/// an integer constant: a literal, its negation, or a name bound to one.  Integer
/// arithmetic such as `1 + 1` is refused there, because the emitted routine computes
/// on floating-point numbers only and has no integer operations to offer.  The
/// exponent of `powf` may be any expression, also one that depends on a parameter:
/// the reverse pass hands its adjoint down to the exponent as well as to the base.
pub open spec fn lowered(
    nodes: Seq<NodeView>,
    env: Seq<Binding>,
    attributes: Seq<Attribute>,
    expr: Expr,
) -> Result<(Seq<NodeView>, NodeView), ModelError>
    decreases expr,
{
    match expr {
        Expr::Binary { left, op, right } => match lowered(nodes, env, attributes, *left) {
            Err(error) => Err(error.within(0)),
            Ok((first, left_node)) => match lowered(
                inserted(first, left_node),
                env,
                attributes,
                *right,
            ) {
                Err(error) => Err(error.within(1)),
                Ok((second, right_node)) => match operation(op) {
                    None => Err(ModelError::here(Fault::UnsupportedConstruct)),
                    Some(binop) => Ok(
                        (
                            inserted(second, right_node),
                            NodeView::BinaryOperation(
                                binop,
                                identifier(first, left_node),
                                identifier(second, right_node),
                            ),
                        ),
                    ),
                },
            },
        },
        Expr::Path { segments } => match lowered_path(nodes, env, attributes, segments@) {
            Ok(node) => Ok((nodes, node)),
            Err(error) => Err(error),
        },
        Expr::Float(number) => if is_finite(number) {
            Ok((nodes, NodeView::Constant(Constant::Float(number))))
        } else {
            Err(ModelError::here(Fault::UnsupportedConstruct))
        },
        Expr::Integer(number) => Ok((nodes, NodeView::Constant(Constant::Integer(number)))),
        Expr::Literal => Err(ModelError::here(Fault::UnsupportedConstruct)),
        Expr::Paren(inner) => nest(lowered(nodes, env, attributes, *inner), 0),
        Expr::Unary { op, operand } => match op {
            UnaryOperator::Other => Err(ModelError::here(Fault::UnsupportedConstruct)),
            UnaryOperator::Neg => match lowered(nodes, env, attributes, *operand) {
                Err(error) => Err(error.within(0)),
                Ok((first, node)) => lowered_negation(first, node),
            },
        },
        Expr::Cast { operand, target } => match lowered(nodes, env, attributes, *operand) {
            Err(error) => Err(error.within(0)),
            Ok(done) => if target matches Some(name) && name@ == "Float"@ {
                Ok(done)
            } else {
                Err(ModelError::here(Fault::UnsupportedCast))
            },
        },
        Expr::MethodCall { receiver, method, arguments } => match arguments {
            Arguments::Empty => match Builtin::mapping(method@) {
                None => Err(ModelError::here(Fault::UnsupportedConstruct)),
                Some(builtin) => match lowered(nodes, env, attributes, *receiver) {
                    Err(error) => Err(error.within(0)),
                    Ok((first, node)) => Ok(
                        (inserted(first, node), NodeView::Builtin(builtin, identifier(first, node))),
                    ),
                },
            },
            Arguments::One(argument) => match power(method@) {
                None => Err(ModelError::here(Fault::UnsupportedConstruct)),
                Some(binop) => match lowered(nodes, env, attributes, *receiver) {
                    Err(error) => Err(error.within(0)),
                    Ok((first, base)) => match lowered(first, env, attributes, *argument) {
                        Err(error) => Err(error.within(1)),
                        Ok((second, exponent)) => if binop == BinaryOperation::PowI && !(
                        exponent matches NodeView::Constant(Constant::Integer(_))) {
                            Err(ModelError::here(Fault::UnsupportedConstruct).within(1))
                        } else {
                            let held = inserted(second, base);
                            Ok(
                                (
                                    inserted(held, exponent),
                                    NodeView::BinaryOperation(
                                        binop,
                                        identifier(second, base),
                                        identifier(held, exponent),
                                    ),
                                ),
                            )
                        },
                    },
                },
            },
            Arguments::Many => Err(ModelError::here(Fault::UnsupportedConstruct)),
        },
        Expr::Call { function, arguments } => match (function, arguments) {
            (Some(name), Arguments::One(argument)) => match Builtin::mapping(name@) {
                None => Err(ModelError::here(Fault::UnsupportedConstruct)),
                Some(builtin) => match lowered(nodes, env, attributes, *argument) {
                    Err(error) => Err(error.within(0)),
                    Ok((first, node)) => Ok(
                        (inserted(first, node), NodeView::Builtin(builtin, identifier(first, node))),
                    ),
                },
            },
            _ => Err(ModelError::here(Fault::UnsupportedConstruct)),
        },
        Expr::Return(value) => match value {
            Some(inner) => nest(lowered(nodes, env, attributes, *inner), 0),
            None => Err(ModelError::here(Fault::UnsupportedConstruct)),
        },
        Expr::Other => Err(ModelError::here(Fault::UnsupportedConstruct)),
    }
}

/// Inserting a node whose operands exist and that agrees with the attributes keeps
/// the graph well formed and in agreement, and the node then stands under its id.
pub proof fn lemma_inserted(nodes: Seq<NodeView>, node: NodeView, attributes: Seq<Attribute>)
    requires
        well_formed(nodes),
        consistent(nodes, attributes),
        children_below(node, nodes.len() as int),
        agrees(node, attributes),
        nodes.len() <= usize::MAX,
    ensures
        admissible(nodes, node),
        well_formed(inserted(nodes, node)),
        consistent(inserted(nodes, node), attributes),
        grown_from(inserted(nodes, node), nodes),
        identifier(nodes, node) < inserted(nodes, node).len(),
        inserted(nodes, node)[identifier(nodes, node) as int] == node,
{
    assert(!conflicting(nodes, node)) by {
        if conflicting(nodes, node) {
            let i = choose|i: int|
                0 <= i < nodes.len() && (#[trigger] nodes[i]) is Variable && nodes[i]->name
                    == node->name && nodes[i]->fixed != node->fixed;
            assert(agrees(nodes[i], attributes));
        }
    }
    if nodes.contains(node) {
        let i = choose|i: int| 0 <= i < nodes.len() && nodes[i] == node;
        assert(0 <= position(nodes, node) < nodes.len());
    } else {
        lemma_push_well_formed(nodes, node);
        let grown = nodes.push(node);
        assert forall|i: int| 0 <= i < grown.len() implies agrees(#[trigger] grown[i], attributes) by {
            if i < nodes.len() {
                assert(grown[i] == nodes[i]);
            }
        }
    }
}

/// Finds the node that the latest binding of the name names.
pub fn lookup(env: &Vec<Binding>, name: &str) -> (id: Option<NodeId>)
    ensures
        id == bound_id(env@, name@),
{
    let mut index = env.len();
    assert(env@.take(index as int) =~= env@);
    while index > 0
        invariant
            index <= env@.len(),
            bound_id(env@, name@) == bound_id(env@.take(index as int), name@),
        decreases index,
    {
        let ghost seen = env@.take(index as int);
        assert(seen.drop_last() =~= env@.take(index as int - 1));
        index -= 1;
        if same_text(env[index].name.as_str(), name) {
            return Some(env[index].id);
        }
    }
    None
}

/// Inserts a node that the graph is known to admit.
fn insert_admitted(graph: &mut ExpressionGraph, node: Node, Ghost(attributes): Ghost<
    Seq<Attribute>,
>) -> (id: NodeId)
    requires
        old(graph).wf(),
        consistent(old(graph)@, attributes),
        children_below(node@, old(graph)@.len() as int),
        agrees(node@, attributes),
    ensures
        final(graph).wf(),
        consistent(final(graph)@, attributes),
        grown_from(final(graph)@, old(graph)@),
        final(graph)@ == inserted(old(graph)@, node@),
        id == identifier(old(graph)@, node@),
        id < final(graph)@.len(),
        final(graph)@[id as int] == node@,
{
    proof {
        lemma_inserted(graph@, node@, attributes);
    }
    match graph.insert(node) {
        Ok(id) => id,
        Err(_) => unreached(),
    }
}

/// Lowers a path: a bound name, an argument, or a constant of `Float`.
fn build_path(
    graph: &ExpressionGraph,
    env: &Vec<Binding>,
    attributes: &Vec<Attribute>,
    segments: &Vec<String>,
) -> (node: Result<Node, ModelError>)
    requires
        graph.wf(),
        bindings_valid(env@, graph@.len()),
        consistent(graph@, attributes@),
    ensures
        match node {
            Ok(node) => lowered_path(graph@, env@, attributes@, segments@) == Ok::<
                NodeView,
                ModelError,
            >(node@) && children_below(node@, graph@.len() as int) && agrees(
                node@,
                attributes@,
            ),
            Err(error) => lowered_path(graph@, env@, attributes@, segments@) == Err::<
                NodeView,
                ModelError,
            >(error),
        },
{
    if segments.len() == 1 {
        let name = &segments[0];
        match lookup(env, name.as_str()) {
            Some(id) => {
                proof {
                    lemma_bound_id_valid(env@, name@, graph@.len());
                }
                match graph.get_node(id) {
                    Ok(node) => {
                        assert(children_below(graph@[id as int], id as int));
                        Ok(node)
                    },
                    Err(_) => unreached(),
                }
            },
            None => match find_attribute(attributes, name.as_str()) {
                Some(index) => {
                    let fixed = match attributes[index].role {
                        Role::Data => true,
                        Role::Parameter => false,
                    };
                    Ok(Node::new_variable(name.clone(), fixed))
                },
                None => Err(ModelError::new(Fault::UnboundName(name.clone()))),
            },
        }
    } else if segments.len() == 2 && same_text(segments[0].as_str(), "Float") {
        if same_text(segments[1].as_str(), "PI") {
            Ok(Node::new_float(<Float as FloatConsts>::PI))
        } else if same_text(segments[1].as_str(), "E") {
            Ok(Node::new_float(<Float as FloatConsts>::E))
        } else {
            Err(ModelError::new(Fault::UnsupportedConstruct))
        }
    } else {
        Err(ModelError::new(Fault::UnsupportedConstruct))
    }
}

/// A name that is bound is bound to a node of the graph.
pub proof fn lemma_bound_id_valid(env: Seq<Binding>, name: Seq<char>, size: nat)
    requires
        bindings_valid(env, size),
    ensures
        bound_id(env, name) matches Some(id) ==> id < size,
    decreases env.len(),
{
    if env.len() > 0 {
        assert(env.last() == env[env.len() - 1]);
        if env.last().name@ != name {
            let rest = env.drop_last();
            assert forall|i: int| 0 <= i < rest.len() implies (#[trigger] rest[i]).id < size by {
                assert(rest[i] == env[i]);
            }
            lemma_bound_id_valid(rest, name, size);
        }
    }
}

/// Lowers an expression into the graph and returns the node that stands for it.
/// The node itself is left to the caller to insert.  Names resolve to the latest
/// `let` binding, else to the attribute of that name.
pub fn build_node(
    graph: &mut ExpressionGraph,
    env: &Vec<Binding>,
    attributes: &Vec<Attribute>,
    expr: &Expr,
) -> (node: Result<Node, ModelError>)
    requires
        old(graph).wf(),
        bindings_valid(env@, old(graph)@.len()),
        consistent(old(graph)@, attributes@),
    ensures
        final(graph).wf(),
        consistent(final(graph)@, attributes@),
        grown_from(final(graph)@, old(graph)@),
        match node {
            Ok(node) => lowered(old(graph)@, env@, attributes@, *expr) == Ok::<
                (Seq<NodeView>, NodeView),
                ModelError,
            >((final(graph)@, node@)) && children_below(node@, final(graph)@.len() as int)
                && agrees(node@, attributes@),
            Err(error) => lowered(old(graph)@, env@, attributes@, *expr) == Err::<
                (Seq<NodeView>, NodeView),
                ModelError,
            >(error),
        },
    decreases expr,
{
    match expr {
        Expr::Binary { left, op, right } => {
            let left_node = match build_node(graph, env, attributes, left) {
                Ok(node) => node,
                Err(error) => {
                    return Err(error.nested(0));
                },
            };
            let left_id = insert_admitted(graph, left_node, Ghost(attributes@));
            let right_node = match build_node(graph, env, attributes, right) {
                Ok(node) => node,
                Err(error) => {
                    return Err(error.nested(1));
                },
            };
            let right_id = insert_admitted(graph, right_node, Ghost(attributes@));
            let binop = match op {
                BinaryOperator::Add => BinaryOperation::Add,
                BinaryOperator::Sub => BinaryOperation::Sub,
                BinaryOperator::Mul => BinaryOperation::Mul,
                BinaryOperator::Div => BinaryOperation::Div,
                BinaryOperator::Other => {
                    return Err(ModelError::new(Fault::UnsupportedConstruct));
                },
            };
            Ok(Node::new_binary_operation(binop, left_id, right_id))
        },
        Expr::Path { segments } => build_path(graph, env, attributes, segments),
        Expr::Float(number) => {
            if check_finite(*number) {
                Ok(Node::new_float(*number))
            } else {
                Err(ModelError::new(Fault::UnsupportedConstruct))
            }
        },
        Expr::Integer(number) => Ok(Node::new_integer(*number)),
        Expr::Literal => Err(ModelError::new(Fault::UnsupportedConstruct)),
        Expr::Paren(inner) => match build_node(graph, env, attributes, inner) {
            Ok(node) => Ok(node),
            Err(error) => Err(error.nested(0)),
        },
        Expr::Unary { op, operand } => {
            match op {
                UnaryOperator::Other => Err(ModelError::new(Fault::UnsupportedConstruct)),
                UnaryOperator::Neg => {
                    let inner_node = match build_node(graph, env, attributes, operand) {
                        Ok(node) => node,
                        Err(error) => {
                            return Err(error.nested(0));
                        },
                    };
                    match inner_node {
                        Node::Constant(value) => match value.checked_negate() {
                            Some(opposite) => {
                                insert_admitted(
                                    graph,
                                    Node::Constant(opposite),
                                    Ghost(attributes@),
                                );
                                Ok(Node::Constant(opposite))
                            },
                            None => Err(ModelError::new(Fault::UnsupportedConstruct)),
                        },
                        _ => {
                            let index = insert_admitted(graph, inner_node, Ghost(attributes@));
                            let zero = insert_admitted(
                                graph,
                                Node::new_float(0),
                                Ghost(attributes@),
                            );
                            Ok(Node::new_binary_operation(BinaryOperation::Sub, zero, index))
                        },
                    }
                },
            }
        },
        Expr::Cast { operand, target } => {
            let inner_node = match build_node(graph, env, attributes, operand) {
                Ok(node) => node,
                Err(error) => {
                    return Err(error.nested(0));
                },
            };
            match target {
                Some(name) => {
                    if same_text(name.as_str(), "Float") {
                        Ok(inner_node)
                    } else {
                        Err(ModelError::new(Fault::UnsupportedCast))
                    }
                },
                None => Err(ModelError::new(Fault::UnsupportedCast)),
            }
        },
        Expr::MethodCall { receiver, method, arguments } => {
            match arguments {
                Arguments::Empty => match Builtin::rust_mappings(method.as_str()) {
                    Some(builtin) => {
                        let receiver_node = match build_node(graph, env, attributes, receiver) {
                            Ok(node) => node,
                            Err(error) => {
                                return Err(error.nested(0));
                            },
                        };
                        let receiver_id = insert_admitted(
                            graph,
                            receiver_node,
                            Ghost(attributes@),
                        );
                        Ok(Node::new_builtin(builtin, receiver_id))
                    },
                    None => Err(ModelError::new(Fault::UnsupportedConstruct)),
                },
                Arguments::One(argument) => {
                    let binop = if same_text(method.as_str(), "powi") {
                        BinaryOperation::PowI
                    } else if same_text(method.as_str(), "powf") {
                        BinaryOperation::PowF
                    } else {
                        return Err(ModelError::new(Fault::UnsupportedConstruct));
                    };
                    let left_node = match build_node(graph, env, attributes, receiver) {
                        Ok(node) => node,
                        Err(error) => {
                            return Err(error.nested(0));
                        },
                    };
                    let right_node = match build_node(graph, env, attributes, argument) {
                        Ok(node) => node,
                        Err(error) => {
                            return Err(error.nested(1));
                        },
                    };
                    let integral = match &right_node {
                        Node::Constant(Constant::Integer(_)) => true,
                        _ => false,
                    };
                    if binop == BinaryOperation::PowI && !integral {
                        return Err(ModelError::new(Fault::UnsupportedConstruct).nested(1));
                    }
                    let left = insert_admitted(graph, left_node, Ghost(attributes@));
                    let right = insert_admitted(graph, right_node, Ghost(attributes@));
                    Ok(Node::new_binary_operation(binop, left, right))
                },
                Arguments::Many => Err(ModelError::new(Fault::UnsupportedConstruct)),
            }
        },
        Expr::Call { function, arguments } => {
            match (function, arguments) {
                (Some(name), Arguments::One(argument)) => match Builtin::rust_mappings(
                    name.as_str(),
                ) {
                    Some(builtin) => {
                        let node = match build_node(graph, env, attributes, argument) {
                            Ok(node) => node,
                            Err(error) => {
                                return Err(error.nested(0));
                            },
                        };
                        let arg = insert_admitted(graph, node, Ghost(attributes@));
                        Ok(Node::new_builtin(builtin, arg))
                    },
                    None => Err(ModelError::new(Fault::UnsupportedConstruct)),
                },
                _ => Err(ModelError::new(Fault::UnsupportedConstruct)),
            }
        },
        Expr::Return(value) => match value {
            Some(inner) => match build_node(graph, env, attributes, inner) {
                Ok(node) => Ok(node),
                Err(error) => Err(error.nested(0)),
            },
            None => Err(ModelError::new(Fault::UnsupportedConstruct)),
        },
        Expr::Other => Err(ModelError::new(Fault::UnsupportedConstruct)),
    }
}

/// The graph and the root that the statements from `from` on lower to.  A `let`
/// binds its name to the node of its initialiser; the last statement must be an
/// expression, and its node is the root.
pub open spec fn lowered_body(
    nodes: Seq<NodeView>,
    env: Seq<Binding>,
    attributes: Seq<Attribute>,
    body: Seq<Stmt>,
    from: int,
) -> Result<(Seq<NodeView>, NodeId), ModelError>
    decreases body.len() - from,
{
    if from < 0 || from >= body.len() {
        Err(ModelError::here(Fault::UnsupportedConstruct))
    } else {
        match body[from] {
            Stmt::Local { name: Some(name), init: Some(init) } => match lowered(
                nodes,
                env,
                attributes,
                init,
            ) {
                Err(error) => Err(error.within(0).within(from as usize)),
                Ok((after, node)) => lowered_body(
                    inserted(after, node),
                    env.push(Binding { name, id: identifier(after, node) }),
                    attributes,
                    body,
                    from + 1,
                ),
            },
            Stmt::Expr(expr) => if from == body.len() - 1 {
                match lowered(nodes, env, attributes, expr) {
                    Err(error) => Err(error.within(0).within(from as usize)),
                    Ok((after, node)) => Ok((inserted(after, node), identifier(after, node))),
                }
            } else {
                Err(ModelError::here(Fault::UnsupportedConstruct).within(from as usize))
            },
            _ => Err(ModelError::here(Fault::UnsupportedConstruct).within(from as usize)),
        }
    }
}

/// The graph of a function of the model and the id of its result, or the first
/// fault of the declaration or of the body.
pub open spec fn built_graph(record: Record, function: Function) -> Result<
    (Seq<NodeView>, NodeId),
    ModelError,
> {
    match verified_types(record, function) {
        Err(error) => Err(error),
        Ok(attributes) => nest(
            nest(lowered_body(Seq::empty(), Seq::empty(), attributes, function.body@, 0), 1),
            1,
        ),
    }
}

/// Builds the expression graph of a function of the model.  Returns the graph and
/// the id of the node that stands for the result of the function.  The graph holds
/// only finite constants and only attributes of the record, each in its role, and
/// the root unfolds to the tree that the body stands for.
#[verifier::loop_isolation(false)]
pub fn build_graph(pdf_struct: &Record, value_function: &Function) -> (built: Result<
    (ExpressionGraph, NodeId),
    ModelError,
>)
    ensures
        match built {
            Ok((graph, root)) => built_graph(*pdf_struct, *value_function) == Ok::<
                (Seq<NodeView>, NodeId),
                ModelError,
            >((graph@, root)) && graph.wf() && root < graph@.len() && finite_constants(graph@)
                && consistent(graph@, verified_types(*pdf_struct, *value_function)->Ok_0)
                && denote_body(
                Map::empty(),
                verified_types(*pdf_struct, *value_function)->Ok_0,
                value_function.body@,
                0,
            ) == Some(unfold(graph@, root)),
            Err(error) => built_graph(*pdf_struct, *value_function) == Err::<
                (Seq<NodeView>, NodeId),
                ModelError,
            >(error),
        },
{
    let attributes = match verify_types(pdf_struct, value_function) {
        Ok(attributes) => attributes,
        Err(error) => {
            return Err(error);
        },
    };
    let mut graph = ExpressionGraph::new();
    let mut env: Vec<Binding> = Vec::new();
    let body = &value_function.body;
    let ghost goal = lowered_body(
        Seq::empty(),
        Seq::empty(),
        attributes@,
        value_function.body@,
        0,
    );
    let mut index: usize = 0;
    while index < body.len()
        invariant
            index <= body@.len(),
            graph.wf(),
            bindings_valid(env@, graph@.len()),
            consistent(graph@, attributes@),
            goal == lowered_body(graph@, env@, attributes@, body@, index as int),
        decreases body@.len() - index,
    {
        match &body[index] {
            Stmt::Local { name: Some(name), init: Some(init) } => {
                let node = match build_node(&mut graph, &env, &attributes, init) {
                    Ok(node) => node,
                    Err(error) => {
                        return Err(error.nested(0).nested(index).nested(1).nested(1));
                    },
                };
                let ghost before = env@;
                let id = insert_admitted(&mut graph, node, Ghost(attributes@));
                env.push(Binding { name: name.clone(), id });
                assert(bindings_valid(env@, graph@.len())) by {
                    assert forall|i: int| 0 <= i < env@.len() implies (#[trigger] env@[i]).id
                        < graph@.len() by {
                        if i < before.len() {
                            assert(env@[i] == before[i]);
                        }
                    }
                }
            },
            Stmt::Expr(expr) => {
                if index + 1 != body.len() {
                    return Err(
                        ModelError::new(Fault::UnsupportedConstruct).nested(index).nested(
                            1,
                        ).nested(1),
                    );
                }
                let node = match build_node(&mut graph, &env, &attributes, expr) {
                    Ok(node) => node,
                    Err(error) => {
                        return Err(error.nested(0).nested(index).nested(1).nested(1));
                    },
                };
                let root = insert_admitted(&mut graph, node, Ghost(attributes@));
                proof {
                    lemma_built_graph_denotes(*pdf_struct, *value_function);
                    lemma_built_graph_finite(*pdf_struct, *value_function);
                }
                return Ok((graph, root));
            },
            _ => {
                return Err(
                    ModelError::new(Fault::UnsupportedConstruct).nested(index).nested(1).nested(
                        1,
                    ),
                );
            },
        }
        index += 1;
    }
    Err(ModelError::new(Fault::UnsupportedConstruct).nested(1).nested(1))
}

} // verus!
