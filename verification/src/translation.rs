//! Emission of the forward and reverse passes.
//!
//! A routine is a straight-line program over two families of names: `v<id>` holds the
//! value of node `id`, `a<id>` its adjoint.  The forward pass binds every value once,
//! operands first; the reverse pass seeds the adjoint of the root with one and hands
//! adjoints down from each node to its operands.
use vstd::prelude::*;
use vstd::std_specs::hash::group_hash_axioms;
use vstd::string::StringExecFns;
use std::collections::HashMap;
use crate::binary_operation::BinaryOperation;
use crate::builtin::Builtin;
use crate::constant::Constant;
use crate::error::GraphError;
use crate::expression::{ExpressionGraph, Node, NodeId, NodeView, topological_order};
use crate::schedule::lemma_topological_order;
use crate::soundness::{
    lemma_arity,
    lemma_inputs,
    lemma_plan_sound,
    lemma_slot,
    reachable_inputs,
    sound,
};
use crate::text::{decimal, decimal_text};

verus! {

/// One statement of a routine.
#[derive(Debug, Clone, Copy, PartialEq, Eq, Structural, Hash)]
pub enum Statement {
    /// Binds the value of `target` to a literal.
    Constant { target: NodeId, value: Constant },
    /// Binds the value of `target` to the entry `slot` of the parameter vector.
    Parameter { target: NodeId, slot: usize },
    /// Binds the value of `target` to the entry `slot` of the data vector.
    Datum { target: NodeId, slot: usize },
    /// Binds the value of `target` to a function of the value of `argument`.
    Builtin { target: NodeId, builtin: Builtin, argument: NodeId },
    /// Binds the value of `target` to an operation on the values of `left` and `right`.
    BinaryOperation { target: NodeId, binop: BinaryOperation, left: NodeId, right: NodeId },
    /// Declares the adjoint of `target`: one where `seed` holds, zero otherwise.
    Adjoint { target: NodeId, seed: bool },
    /// Hands the adjoint of `source` down to `argument`.
    BuiltinAdjoint { source: NodeId, builtin: Builtin, argument: NodeId },
    /// Hands the adjoint of `source` down to `left` and `right`.
    BinaryAdjoint { source: NodeId, binop: BinaryOperation, left: NodeId, right: NodeId },
}

/// A routine that computes the value of a root node and its gradient.
#[derive(Debug, Clone, PartialEq, Eq)]
pub struct Routine {
    /// The node whose value the routine returns.
    pub root: NodeId,
    /// The parameter read from each slot of the parameter vector.
    pub parameters: Vec<NodeId>,
    /// The datum read from each slot of the data vector.
    pub data: Vec<NodeId>,
    /// The forward pass: one binding for each scheduled node.
    pub forward: Vec<Statement>,
    /// The declarations of the adjoints, one for each scheduled node.
    pub adjoints: Vec<Statement>,
    /// The reverse pass, from the root down.
    pub reverse: Vec<Statement>,
}

/// The mathematical value of a routine.
pub struct RoutineView {
    pub root: NodeId,
    pub parameters: Seq<NodeId>,
    pub data: Seq<NodeId>,
    pub forward: Seq<Statement>,
    pub adjoints: Seq<Statement>,
    pub reverse: Seq<Statement>,
}

impl View for Routine {
    type V = RoutineView;

    open spec fn view(&self) -> RoutineView {
        RoutineView {
            root: self.root,
            parameters: self.parameters@,
            data: self.data@,
            forward: self.forward@,
            adjoints: self.adjoints@,
            reverse: self.reverse@,
        }
    }
}

/// Whether the node is an input of the given kind: a datum if `fixed`, else a parameter.
pub open spec fn is_input(node: NodeView, fixed: bool) -> bool {
    node is Variable && node->fixed == fixed
}

/// The inputs of one kind among the scheduled nodes, in the order of the schedule.
pub open spec fn inputs(nodes: Seq<NodeView>, order: Seq<NodeId>, fixed: bool) -> Seq<NodeId>
    decreases order.len(),
{
    if order.len() == 0 {
        Seq::empty()
    } else {
        let before = inputs(nodes, order.drop_last(), fixed);
        if is_input(nodes[order.last() as int], fixed) {
            before.push(order.last())
        } else {
            before
        }
    }
}

/// The binding of the node at position `k` of the schedule.  An input reads the next
/// free slot of its vector: the number of inputs of its kind scheduled before it.
pub open spec fn forward_statement(nodes: Seq<NodeView>, order: Seq<NodeId>, k: int) -> Statement {
    let target = order[k];
    match nodes[target as int] {
        NodeView::Constant(value) => Statement::Constant { target, value },
        NodeView::Variable { fixed, .. } => if fixed {
            Statement::Datum { target, slot: inputs(nodes, order.take(k), true).len() as usize }
        } else {
            Statement::Parameter {
                target,
                slot: inputs(nodes, order.take(k), false).len() as usize,
            }
        },
        NodeView::Builtin(builtin, argument) => Statement::Builtin { target, builtin, argument },
        NodeView::BinaryOperation(binop, left, right) => Statement::BinaryOperation {
            target,
            binop,
            left,
            right,
        },
    }
}

/// The adjoint updates that the node `source` causes: none for a constant or an input.
pub open spec fn reverse_step(nodes: Seq<NodeView>, source: NodeId) -> Seq<Statement> {
    match nodes[source as int] {
        NodeView::Builtin(builtin, argument) => seq![
            Statement::BuiltinAdjoint { source, builtin, argument },
        ],
        NodeView::BinaryOperation(binop, left, right) => seq![
            Statement::BinaryAdjoint { source, binop, left, right },
        ],
        _ => Seq::empty(),
    }
}

/// The adjoint updates of the last `count` scheduled nodes, the last node first.
pub open spec fn backward(nodes: Seq<NodeView>, order: Seq<NodeId>, count: nat) -> Seq<Statement>
    decreases count,
{
    if count == 0 || count > order.len() {
        Seq::empty()
    } else {
        backward(nodes, order, (count - 1) as nat) + reverse_step(
            nodes,
            order[order.len() - count],
        )
    }
}

/// The routine for a schedule of the graph that ends in `root`.
pub open spec fn routine_of(nodes: Seq<NodeView>, order: Seq<NodeId>, root: NodeId) -> RoutineView {
    RoutineView {
        root,
        parameters: inputs(nodes, order, false),
        data: inputs(nodes, order, true),
        forward: Seq::new(order.len(), |k: int| forward_statement(nodes, order, k)),
        adjoints: Seq::new(
            order.len(),
            |k: int| Statement::Adjoint { target: order[k], seed: order[k] == root },
        ),
        reverse: backward(nodes, order, order.len()),
    }
}

/// The routine that evaluates `root` and differentiates it with respect to the
/// parameters that it depends on.
pub open spec fn plan(nodes: Seq<NodeView>, root: NodeId) -> RoutineView {
    routine_of(nodes, topological_order(nodes, root), root)
}

/// Whether the map gives every input of one kind among the first `count` scheduled
/// nodes its slot: the number of such inputs scheduled before it.
pub open spec fn numbered(
    map: Map<NodeId, usize>,
    nodes: Seq<NodeView>,
    order: Seq<NodeId>,
    fixed: bool,
    count: int,
) -> bool {
    &&& map.dom().finite()
    &&& map.len() == inputs(nodes, order.take(count), fixed).len()
    &&& forall|id: NodeId|
        map.contains_key(id) <==> inputs(nodes, order.take(count), fixed).contains(id)
    &&& forall|i: int|
        0 <= i < count && is_input(nodes[order[i] as int], fixed) ==> map.contains_key(order[i])
            && map[#[trigger] order[i]] == inputs(nodes, order.take(i), fixed).len()
}

proof fn lemma_numbered_skip(
    map: Map<NodeId, usize>,
    nodes: Seq<NodeView>,
    order: Seq<NodeId>,
    fixed: bool,
    count: int,
)
    requires
        0 <= count < order.len(),
        numbered(map, nodes, order, fixed, count),
        !is_input(nodes[order[count] as int], fixed),
    ensures
        numbered(map, nodes, order, fixed, count + 1),
{
    assert(order.take(count + 1).drop_last() =~= order.take(count));
    assert(order.take(count + 1).last() == order[count]);
}

/// Gives the input at position `count` of the schedule the next free slot.
fn assign_slot(
    map: &mut HashMap<NodeId, usize>,
    target: NodeId,
    Ghost(nodes): Ghost<Seq<NodeView>>,
    Ghost(order): Ghost<Seq<NodeId>>,
    Ghost(fixed): Ghost<bool>,
    Ghost(count): Ghost<int>,
) -> (slot: usize)
    requires
        0 <= count < order.len(),
        order.no_duplicates(),
        order[count] == target,
        is_input(nodes[target as int], fixed),
        numbered(old(map)@, nodes, order, fixed, count),
    ensures
        numbered(final(map)@, nodes, order, fixed, count + 1),
        slot == inputs(nodes, order.take(count), fixed).len(),
{
    broadcast use group_hash_axioms;

    let ghost before = map@;
    let ghost seen = order.take(count);
    let ghost next = order.take(count + 1);
    let slot = map.len();
    map.insert(target, slot);
    proof {
        assert(next.drop_last() =~= seen);
        assert(next.last() == target);
        lemma_inputs(nodes, seen, fixed);
        assert(!before.contains_key(target)) by {
            if seen.contains(target) {
                let k = choose|k: int| 0 <= k < seen.len() && seen[k] == target;
                assert(order[k] == order[count]);
            }
        }
        let grown = inputs(nodes, next, fixed);
        assert(grown == inputs(nodes, seen, fixed).push(target));
        assert(map@.dom() =~= before.dom().insert(target));
        assert forall|id: NodeId| map@.contains_key(id) <==> grown.contains(id) by {
            crate::schedule::lemma_push_contains(inputs(nodes, seen, fixed), target, id);
        }
    }
    slot
}

proof fn lemma_slots_grow(nodes: Seq<NodeView>, order: Seq<NodeId>, fixed: bool, i: int, j: int)
    requires
        0 <= i < j <= order.len(),
        is_input(nodes[order[i] as int], fixed),
    ensures
        inputs(nodes, order.take(i), fixed).len() < inputs(nodes, order.take(j), fixed).len(),
        inputs(nodes, order.take(j), fixed).len() <= inputs(nodes, order, fixed).len(),
    decreases order.len() - j,
{
    let part = order.take(j);
    assert(part.take(i) =~= order.take(i));
    assert(part[i] == order[i]);
    lemma_slot(nodes, part, fixed, i);
    if j < order.len() {
        assert(order.take(j + 1).drop_last() =~= order.take(j));
        lemma_slots_grow(nodes, order, fixed, i, j + 1);
    } else {
        assert(order.take(j) =~= order);
    }
}

proof fn lemma_slot_source(nodes: Seq<NodeView>, order: Seq<NodeId>, fixed: bool, slot: int) -> (at:
    int)
    requires
        0 <= slot < inputs(nodes, order, fixed).len(),
    ensures
        0 <= at < order.len(),
        is_input(nodes[order[at] as int], fixed),
        inputs(nodes, order.take(at), fixed).len() == slot,
        inputs(nodes, order, fixed)[slot] == order[at],
    decreases order.len(),
{
    let rest = order.drop_last();
    if is_input(nodes[order.last() as int], fixed) && slot == inputs(nodes, rest, fixed).len() {
        assert(order.take(order.len() - 1) =~= rest);
        order.len() - 1
    } else {
        let at = lemma_slot_source(nodes, rest, fixed, slot);
        assert(rest.take(at) =~= order.take(at));
        at
    }
}

/// Lists the inputs of one kind by their slots.
fn collect_slots(
    sorted: &Vec<NodeId>,
    map: &HashMap<NodeId, usize>,
    Ghost(nodes): Ghost<Seq<NodeView>>,
    Ghost(fixed): Ghost<bool>,
) -> (ids: Vec<NodeId>)
    requires
        sorted@.no_duplicates(),
        numbered(map@, nodes, sorted@, fixed, sorted@.len() as int),
    ensures
        ids@ == inputs(nodes, sorted@, fixed),
{
    broadcast use group_hash_axioms;

    let ghost order = sorted@;
    let ghost wanted = inputs(nodes, order, fixed);
    assert(order.take(order.len() as int) =~= order);
    let columns = map.len();
    let mut ids: Vec<NodeId> = Vec::new();
    while ids.len() < columns
        invariant
            ids@.len() <= columns,
        decreases columns - ids@.len(),
    {
        ids.push(0);
    }
    let mut index: usize = 0;
    while index < sorted.len()
        invariant
            index <= sorted@.len(),
            sorted@ == order,
            order.no_duplicates(),
            wanted == inputs(nodes, order, fixed),
            numbered(map@, nodes, order, fixed, order.len() as int),
            order.take(order.len() as int) == order,
            ids@.len() == wanted.len(),
            forall|i: int|
                0 <= i < index && is_input(nodes[order[i] as int], fixed) ==> ids@[inputs(
                    nodes,
                    order.take(i),
                    fixed,
                ).len() as int] == #[trigger] order[i],
        decreases sorted@.len() - index,
    {
        let id = sorted[index];
        let ghost before = ids@;
        proof {
            lemma_inputs(nodes, order, fixed);
            assert(order[index as int] == id);
            assert(order.contains(id));
        }
        match map.get(&id) {
            Some(slot) => {
                proof {
                    assert(map@.contains_key(id));
                    assert(wanted.contains(id));
                    lemma_slot(nodes, order, fixed, index as int);
                }
                ids.set(*slot, id);
            },
            None => {
                proof {
                    assert(!map@.contains_key(id));
                    assert(!wanted.contains(id));
                }
            },
        }
        proof {
            assert forall|i: int|
                0 <= i < index + 1 && is_input(nodes[order[i] as int], fixed) implies ids@[inputs(
                nodes,
                order.take(i),
                fixed,
            ).len() as int] == #[trigger] order[i] by {
                if i < index {
                    lemma_slots_grow(nodes, order, fixed, i, index as int);
                    assert(before[inputs(nodes, order.take(i), fixed).len() as int] == order[i]);
                }
            }
        }
        index += 1;
    }
    proof {
        assert forall|slot: int| 0 <= slot < wanted.len() implies ids@[slot] == wanted[slot] by {
            let at = lemma_slot_source(nodes, order, fixed, slot);
            assert(ids@[inputs(nodes, order.take(at), fixed).len() as int] == order[at]);
        }
        assert(ids@ =~= wanted);
    }
    ids
}

/// Schedules the nodes that `output_id` depends on and emits the statements of the
/// forward and the reverse pass.
pub fn assemble(graph: &ExpressionGraph, output_id: NodeId) -> (routine: Result<
    Routine,
    GraphError,
>)
    requires
        graph.wf(),
    ensures
        output_id < graph@.len() ==> routine is Ok && routine->Ok_0@ == plan(graph@, output_id),
        output_id >= graph@.len() ==> routine == Err::<Routine, GraphError>(
            GraphError::InvalidNodeId,
        ),
        routine matches Ok(emitted) ==> sound(emitted@) && emitted@.parameters.len()
            == reachable_inputs(graph@, output_id, false).len() && emitted@.data.len()
            == reachable_inputs(graph@, output_id, true).len(),
{
    let sorted = match graph.topological_sort(output_id) {
        Ok(sorted) => sorted,
        Err(error) => {
            return Err(error);
        },
    };
    let ghost nodes = graph@;
    let ghost order = sorted@;
    proof {
        lemma_topological_order(nodes, output_id);
        lemma_plan_sound(nodes, output_id);
        lemma_arity(nodes, output_id);
    }
    let count = sorted.len();
    let mut parameter_map: HashMap<NodeId, usize> = HashMap::new();
    let mut data_map: HashMap<NodeId, usize> = HashMap::new();
    assert(order.take(0) =~= Seq::<NodeId>::empty());
    let mut forward: Vec<Statement> = Vec::new();
    let mut adjoints: Vec<Statement> = Vec::new();
    let mut index: usize = 0;
    while index < count
        invariant
            index <= count,
            count == sorted@.len(),
            sorted@ == order,
            graph@ == nodes,
            forall|k: int| 0 <= k < order.len() ==> #[trigger] order[k] < nodes.len(),
            order.no_duplicates(),
            numbered(parameter_map@, nodes, order, false, index as int),
            numbered(data_map@, nodes, order, true, index as int),
            forward@.len() == index,
            forall|k: int| 0 <= k < index ==> #[trigger] forward@[k] == forward_statement(nodes, order, k),
            adjoints@.len() == index,
            forall|k: int|
                0 <= k < index ==> #[trigger] adjoints@[k] == (Statement::Adjoint {
                    target: order[k],
                    seed: order[k] == output_id,
                }),
        decreases count - index,
    {
        let target = sorted[index];
        assert(order[index as int] < nodes.len());
        let ghost seen = order.take(index as int);
        let ghost next = order.take(index as int + 1);
        assert(next.drop_last() =~= seen);
        assert(next.last() == target);
        let node = match graph.get_node(target) {
            Ok(node) => node,
            Err(error) => {
                return Err(error);
            },
        };
        proof {
            if !is_input(nodes[target as int], false) {
                lemma_numbered_skip(parameter_map@, nodes, order, false, index as int);
            }
            if !is_input(nodes[target as int], true) {
                lemma_numbered_skip(data_map@, nodes, order, true, index as int);
            }
        }
        let statement = match node {
            Node::Constant(value) => Statement::Constant { target, value },
            Node::Variable(variable) => {
                if variable.fixed {
                    let slot = assign_slot(
                        &mut data_map,
                        target,
                        Ghost(nodes),
                        Ghost(order),
                        Ghost(true),
                        Ghost(index as int),
                    );
                    Statement::Datum { target, slot }
                } else {
                    let slot = assign_slot(
                        &mut parameter_map,
                        target,
                        Ghost(nodes),
                        Ghost(order),
                        Ghost(false),
                        Ghost(index as int),
                    );
                    Statement::Parameter { target, slot }
                }
            },
            Node::Builtin(builtin, argument) => Statement::Builtin { target, builtin, argument },
            Node::BinaryOperation(binop, left, right) => Statement::BinaryOperation {
                target,
                binop,
                left,
                right,
            },
        };
        forward.push(statement);
        adjoints.push(Statement::Adjoint { target, seed: target == output_id });
        index += 1;
    }
    assert(order.take(count as int) =~= order);
    let mut reverse: Vec<Statement> = Vec::new();
    let mut done: usize = 0;
    while done < count
        invariant
            done <= count,
            count == sorted@.len(),
            sorted@ == order,
            graph@ == nodes,
            forall|k: int| 0 <= k < order.len() ==> #[trigger] order[k] < nodes.len(),
            reverse@ == backward(nodes, order, done as nat),
        decreases count - done,
    {
        let source = sorted[count - 1 - done];
        assert(order[count - 1 - done] < nodes.len());
        let node = match graph.get_node(source) {
            Ok(node) => node,
            Err(error) => {
                return Err(error);
            },
        };
        let ghost before = reverse@;
        match node {
            Node::Builtin(builtin, argument) => {
                reverse.push(Statement::BuiltinAdjoint { source, builtin, argument });
            },
            Node::BinaryOperation(binop, left, right) => {
                reverse.push(Statement::BinaryAdjoint { source, binop, left, right });
            },
            Node::Constant(_) | Node::Variable(_) => {},
        }
        assert(reverse@ =~= before + reverse_step(nodes, source));
        done += 1;
    }
    let parameters = collect_slots(&sorted, &parameter_map, Ghost(nodes), Ghost(false));
    let data = collect_slots(&sorted, &data_map, Ghost(nodes), Ghost(true));
    let routine = Routine { root: output_id, parameters, data, forward, adjoints, reverse };
    assert(routine@.forward =~= plan(nodes, output_id).forward);
    assert(routine@.adjoints =~= plan(nodes, output_id).adjoints);
    Ok(routine)
}

/// The name that holds the value of a node.
pub open spec fn value_label(id: NodeId) -> Seq<char> {
    "v"@ + decimal_text(id as nat)
}

/// The name that holds the adjoint of a node.
pub open spec fn adjoint_label(id: NodeId) -> Seq<char> {
    "a"@ + decimal_text(id as nat)
}

/// The expression that writes a constant: a float by its bit pattern, so that no
/// digit is lost, an integer by its decimal numeral.
pub open spec fn constant_text(value: Constant) -> Seq<char> {
    match value {
        Constant::Float(number) => "Float::from_bits("@ + decimal_text(number as nat) + "u64)"@,
        Constant::Integer(number) => if number < 0 {
            "-"@ + decimal_text((-number) as nat) + "i32"@
        } else {
            decimal_text(number as nat) + "i32"@
        },
    }
}

/// The text of a statement.
pub open spec fn statement_text(statement: Statement) -> Seq<char> {
    match statement {
        Statement::Constant { target, value } => "let "@ + value_label(target) + " = "@
            + constant_text(value) + ";"@,
        Statement::Parameter { target, slot } => "let "@ + value_label(target)
            + " = parameters["@ + decimal_text(slot as nat) + "];"@,
        Statement::Datum { target, slot } => "let "@ + value_label(target) + " = data["@
            + decimal_text(slot as nat) + "];"@,
        Statement::Builtin { target, builtin, argument } => builtin.forward_text(
            value_label(target),
            value_label(argument),
        ),
        Statement::BinaryOperation { target, binop, left, right } => binop.forward_text(
            value_label(target),
            value_label(left),
            value_label(right),
        ),
        Statement::Adjoint { target, seed } => if seed {
            "let mut "@ + adjoint_label(target) + " = 1.0;"@
        } else {
            "let mut "@ + adjoint_label(target) + " = 0.0;"@
        },
        Statement::BuiltinAdjoint { source, builtin, argument } => builtin.reverse_text(
            adjoint_label(source),
            value_label(argument),
            adjoint_label(argument),
        ),
        Statement::BinaryAdjoint { source, binop, left, right } => binop.reverse_text(
            adjoint_label(source),
            value_label(left),
            value_label(right),
            adjoint_label(left),
            adjoint_label(right),
        ),
    }
}

/// The text of a run of statements, a space after each.
pub open spec fn block_text(statements: Seq<Statement>) -> Seq<char>
    decreases statements.len(),
{
    if statements.len() == 0 {
        Seq::empty()
    } else {
        block_text(statements.drop_last()) + statement_text(statements.last()) + " "@
    }
}

/// The adjoints of the given nodes, separated by commas.
pub open spec fn gradient_text(ids: Seq<NodeId>) -> Seq<char>
    decreases ids.len(),
{
    if ids.len() == 0 {
        Seq::empty()
    } else if ids.len() == 1 {
        adjoint_label(ids[0])
    } else {
        gradient_text(ids.drop_last()) + ", "@ + adjoint_label(ids.last())
    }
}

/// The text of a routine under a name: a function from the parameter vector and the
/// data vector to the value of the root and the gradient, whose entry `i` is the
/// adjoint of the parameter in slot `i`.
pub open spec fn routine_text(routine: RoutineView, name: Seq<char>) -> Seq<char> {
    "pub fn "@ + name + "(parameters: [Float; "@ + decimal_text(routine.parameters.len())
        + "], data: [Float; "@ + decimal_text(routine.data.len()) + "]) -> (Float, [Float; "@
        + decimal_text(routine.parameters.len()) + "]) { "@ + block_text(routine.forward)
        + block_text(routine.adjoints) + block_text(routine.reverse) + "let final_value = "@
        + value_label(routine.root) + "; let gradient = ["@ + gradient_text(routine.parameters)
        + "]; (final_value, gradient) }"@
}

/// Writes the name of the value of a node.
pub fn value_name(id: NodeId) -> (name: String)
    ensures
        name@ == value_label(id),
{
    let mut name = String::from_str("v");
    let digits = decimal(id as u64);
    name.append(digits.as_str());
    name
}

/// Writes the name of the adjoint of a node.
pub fn adjoint_name(id: NodeId) -> (name: String)
    ensures
        name@ == adjoint_label(id),
{
    let mut name = String::from_str("a");
    let digits = decimal(id as u64);
    name.append(digits.as_str());
    name
}

fn render_constant(value: &Constant) -> (code: String)
    ensures
        code@ == constant_text(*value),
{
    match value {
        Constant::Float(number) => {
            let mut text = String::from_str("Float::from_bits(");
            let digits = decimal(*number);
            text.append(digits.as_str());
            text.append("u64)");
            text
        },
        Constant::Integer(number) => {
            if *number < 0 {
                let magnitude: i64 = -(*number as i64);
                let mut text = String::from_str("-");
                let digits = decimal(magnitude as u64);
                text.append(digits.as_str());
                text.append("i32");
                text
            } else {
                let mut text = decimal(*number as u64);
                text.append("i32");
                text
            }
        },
    }
}

impl Statement {
    /// Writes the statement.
    pub fn render(&self) -> (code: String)
        ensures
            code@ == statement_text(*self),
    {
        match self {
            Statement::Constant { target, value } => {
                let mut text = String::from_str("let ");
                let name = value_name(*target);
                text.append(name.as_str());
                text.append(" = ");
                let literal = render_constant(value);
                text.append(literal.as_str());
                text.append(";");
                text
            },
            Statement::Parameter { target, slot } => {
                let mut text = String::from_str("let ");
                let name = value_name(*target);
                text.append(name.as_str());
                text.append(" = parameters[");
                let digits = decimal(*slot as u64);
                text.append(digits.as_str());
                text.append("];");
                text
            },
            Statement::Datum { target, slot } => {
                let mut text = String::from_str("let ");
                let name = value_name(*target);
                text.append(name.as_str());
                text.append(" = data[");
                let digits = decimal(*slot as u64);
                text.append(digits.as_str());
                text.append("];");
                text
            },
            Statement::Builtin { target, builtin, argument } => {
                let result = value_name(*target);
                let argument_value = value_name(*argument);
                builtin.generate_forward(result.as_str(), argument_value.as_str())
            },
            Statement::BinaryOperation { target, binop, left, right } => {
                let result = value_name(*target);
                let left_value = value_name(*left);
                let right_value = value_name(*right);
                binop.generate_forward(
                    result.as_str(),
                    left_value.as_str(),
                    right_value.as_str(),
                )
            },
            Statement::Adjoint { target, seed } => {
                let mut text = String::from_str("let mut ");
                let name = adjoint_name(*target);
                text.append(name.as_str());
                if *seed {
                    text.append(" = 1.0;");
                } else {
                    text.append(" = 0.0;");
                }
                text
            },
            Statement::BuiltinAdjoint { source, builtin, argument } => {
                let propagate = adjoint_name(*source);
                let argument_value = value_name(*argument);
                let argument_adj = adjoint_name(*argument);
                builtin.generate_reverse(
                    propagate.as_str(),
                    argument_value.as_str(),
                    argument_adj.as_str(),
                )
            },
            Statement::BinaryAdjoint { source, binop, left, right } => {
                let propagate = adjoint_name(*source);
                let left_value = value_name(*left);
                let right_value = value_name(*right);
                let left_adj = adjoint_name(*left);
                let right_adj = adjoint_name(*right);
                binop.generate_reverse(
                    propagate.as_str(),
                    left_value.as_str(),
                    right_value.as_str(),
                    left_adj.as_str(),
                    right_adj.as_str(),
                )
            },
        }
    }
}

fn render_block(statements: &Vec<Statement>) -> (code: String)
    ensures
        code@ == block_text(statements@),
{
    let mut text = String::new();
    let mut index: usize = 0;
    assert(statements@.take(0) =~= Seq::<Statement>::empty());
    while index < statements.len()
        invariant
            index <= statements@.len(),
            text@ == block_text(statements@.take(index as int)),
        decreases statements@.len() - index,
    {
        let ghost seen = statements@.take(index as int);
        let ghost next = statements@.take(index as int + 1);
        assert(next.drop_last() =~= seen);
        assert(next.last() == statements@[index as int]);
        let line = statements[index].render();
        text.append(line.as_str());
        text.append(" ");
        index += 1;
    }
    assert(statements@.take(index as int) =~= statements@);
    text
}

fn render_gradient(ids: &Vec<NodeId>) -> (code: String)
    ensures
        code@ == gradient_text(ids@),
{
    let mut text = String::new();
    let mut index: usize = 0;
    assert(ids@.take(0) =~= Seq::<NodeId>::empty());
    while index < ids.len()
        invariant
            index <= ids@.len(),
            text@ == gradient_text(ids@.take(index as int)),
        decreases ids@.len() - index,
    {
        let ghost seen = ids@.take(index as int);
        let ghost next = ids@.take(index as int + 1);
        assert(next.drop_last() =~= seen);
        assert(next.last() == ids@[index as int]);
        let name = adjoint_name(ids[index]);
        if index > 0 {
            text.append(", ");
            text.append(name.as_str());
        } else {
            assert(next[0] == ids@[0]);
            text.append(name.as_str());
            assert(text@ =~= adjoint_label(ids@[0]));
        }
        index += 1;
    }
    assert(ids@.take(index as int) =~= ids@);
    text
}

impl Routine {
    /// Writes the routine as a function of the given name.
    pub fn render(&self, name: &str) -> (code: String)
        ensures
            code@ == routine_text(self@, name@),
    {
        let parameter_count = decimal(self.parameters.len() as u64);
        let data_count = decimal(self.data.len() as u64);
        let forward = render_block(&self.forward);
        let adjoints = render_block(&self.adjoints);
        let reverse = render_block(&self.reverse);
        let root = value_name(self.root);
        let gradient = render_gradient(&self.parameters);
        let mut text = String::from_str("pub fn ");
        text.append(name);
        text.append("(parameters: [Float; ");
        text.append(parameter_count.as_str());
        text.append("], data: [Float; ");
        text.append(data_count.as_str());
        text.append("]) -> (Float, [Float; ");
        text.append(parameter_count.as_str());
        text.append("]) { ");
        text.append(forward.as_str());
        text.append(adjoints.as_str());
        text.append(reverse.as_str());
        text.append("let final_value = ");
        text.append(root.as_str());
        text.append("; let gradient = [");
        text.append(gradient.as_str());
        text.append("]; (final_value, gradient) }");
        text
    }
}

/// Emits the routine that evaluates the node `output_id` and its gradient, as the
/// text of a function named `signature`.
pub fn translate(graph: &ExpressionGraph, output_id: NodeId, signature: &str) -> (code: Result<
    String,
    GraphError,
>)
    requires
        graph.wf(),
    ensures
        output_id < graph@.len() ==> code is Ok && code->Ok_0@ == routine_text(
            plan(graph@, output_id),
            signature@,
        ),
        output_id >= graph@.len() ==> code == Err::<String, GraphError>(GraphError::InvalidNodeId),
{
    match assemble(graph, output_id) {
        Ok(routine) => Ok(routine.render(signature)),
        Err(error) => Err(error),
    }
}

} // verus!
