//! The value-numbered expression graph.
use vstd::prelude::*;
use vstd::std_specs::hash::group_hash_axioms;
use std::collections::{HashMap, HashSet};
use crate::Float;
use crate::binary_operation::BinaryOperation;
use crate::builtin::Builtin;
use crate::constant::Constant;
use crate::error::GraphError;
use crate::variable::Variable;

verus! {

pub type NodeId = usize;

/// One operation of the graph.  Operands are named by the ids of earlier nodes.
#[derive(Debug, PartialEq, Eq, Hash)]
pub enum Node {
    Constant(Constant),
    Variable(Variable),
    Builtin(Builtin, NodeId),
    BinaryOperation(BinaryOperation, NodeId, NodeId),
}

/// The mathematical value of a node: a variable's name is its sequence of characters.
pub enum NodeView {
    Constant(Constant),
    Variable { name: Seq<char>, fixed: bool },
    Builtin(Builtin, NodeId),
    BinaryOperation(BinaryOperation, NodeId, NodeId),
}

impl View for Node {
    type V = NodeView;

    open spec fn view(&self) -> NodeView {
        match *self {
            Node::Constant(constant) => NodeView::Constant(constant),
            Node::Variable(variable) => NodeView::Variable {
                name: variable.name@,
                fixed: variable.fixed,
            },
            Node::Builtin(builtin, argument) => NodeView::Builtin(builtin, argument),
            Node::BinaryOperation(binop, left, right) => NodeView::BinaryOperation(
                binop,
                left,
                right,
            ),
        }
    }
}

impl Clone for Node {
    fn clone(&self) -> (copy: Self)
        ensures
            copy == *self,
    {
        match self {
            Node::Constant(constant) => Node::Constant(*constant),
            Node::Variable(variable) => Node::Variable(variable.clone()),
            Node::Builtin(builtin, argument) => Node::Builtin(*builtin, *argument),
            Node::BinaryOperation(binop, left, right) => Node::BinaryOperation(
                *binop,
                *left,
                *right,
            ),
        }
    }
}

impl Node {
    pub fn new_float(constant: Float) -> (node: Node)
        ensures
            node == Node::Constant(Constant::Float(constant)),
    {
        Node::Constant(Constant::new_float(constant))
    }

    pub fn new_integer(constant: i32) -> (node: Node)
        ensures
            node == Node::Constant(Constant::Integer(constant)),
    {
        Node::Constant(Constant::new_int(constant))
    }

    pub fn new_variable(name: String, fixed: bool) -> (node: Node)
        ensures
            node == Node::Variable(Variable { name, fixed }),
    {
        Node::Variable(Variable { name, fixed })
    }

    pub fn new_builtin(builtin: Builtin, argument: NodeId) -> (node: Node)
        ensures
            node == Node::Builtin(builtin, argument),
    {
        Node::Builtin(builtin, argument)
    }

    pub fn new_binary_operation(binop: BinaryOperation, left: NodeId, right: NodeId) -> (node:
        Node)
        ensures
            node == Node::BinaryOperation(binop, left, right),
    {
        Node::BinaryOperation(binop, left, right)
    }

    /// Structural equality: the same variant with the same contents.
    pub fn same_as(&self, other: &Node) -> (same: bool)
        ensures
            same == (self@ == other@),
    {
        match (self, other) {
            (Node::Constant(a), Node::Constant(b)) => *a == *b,
            (Node::Variable(a), Node::Variable(b)) => a.fixed == b.fixed && a.name == b.name,
            (Node::Builtin(f, x), Node::Builtin(g, y)) => *f == *g && *x == *y,
            (Node::BinaryOperation(f, a, b), Node::BinaryOperation(g, c, d)) => *f == *g && *a
                == *c && *b == *d,
            _ => false,
        }
    }
}

/// The operand ids of a node, left to right.
pub open spec fn children(node: NodeView) -> Seq<NodeId> {
    match node {
        NodeView::Builtin(_, argument) => seq![argument],
        NodeView::BinaryOperation(_, left, right) => seq![left, right],
        _ => Seq::empty(),
    }
}

/// Whether every operand of the node is an id below `bound`.
pub open spec fn children_below(node: NodeView, bound: int) -> bool {
    match node {
        NodeView::Builtin(_, argument) => argument < bound,
        NodeView::BinaryOperation(_, left, right) => left < bound && right < bound,
        _ => true,
    }
}

/// Every operand of a node is a node that came before it.
pub open spec fn acyclic(nodes: Seq<NodeView>) -> bool {
    forall|i: int| 0 <= i < nodes.len() ==> children_below(#[trigger] nodes[i], i)
}

/// No two ids hold structurally equal nodes.
pub open spec fn value_numbered(nodes: Seq<NodeView>) -> bool {
    forall|i: int, j: int| 0 <= i < j < nodes.len() ==> nodes[i] != nodes[j]
}

/// No two ids hold variables of the same name.
pub open spec fn variables_unique(nodes: Seq<NodeView>) -> bool {
    forall|i: int, j: int|
        0 <= i < nodes.len() && 0 <= j < nodes.len() && (#[trigger] nodes[i]) is Variable && (
        #[trigger] nodes[j]) is Variable && nodes[i]->name == nodes[j]->name ==> i == j
}

/// The invariants of a graph.
pub open spec fn well_formed(nodes: Seq<NodeView>) -> bool {
    &&& acyclic(nodes)
    &&& value_numbered(nodes)
    &&& variables_unique(nodes)
}

/// Whether the graph holds a variable of the node's name in the other role.
pub open spec fn conflicting(nodes: Seq<NodeView>, node: NodeView) -> bool {
    &&& node is Variable
    &&& exists|i: int|
        0 <= i < nodes.len() && (#[trigger] nodes[i]) is Variable && nodes[i]->name == node->name
            && nodes[i]->fixed != node->fixed
}

/// Whether the node may enter the graph: its operands exist and it contradicts no variable.
pub open spec fn admissible(nodes: Seq<NodeView>, node: NodeView) -> bool {
    children_below(node, nodes.len() as int) && !conflicting(nodes, node)
}

/// The id under which the graph holds the node, where it holds it.
pub open spec fn position(nodes: Seq<NodeView>, node: NodeView) -> int {
    choose|i: int| 0 <= i < nodes.len() && nodes[i] == node
}

/// The nodes of the graph after the node was inserted.
pub open spec fn inserted(nodes: Seq<NodeView>, node: NodeView) -> Seq<NodeView> {
    if nodes.contains(node) {
        nodes
    } else {
        nodes.push(node)
    }
}

/// The id that inserting the node returns.
pub open spec fn identifier(nodes: Seq<NodeView>, node: NodeView) -> NodeId {
    if nodes.contains(node) {
        position(nodes, node) as usize
    } else {
        nodes.len() as usize
    }
}

/// What `insert` answers for a node.
pub open spec fn insertion(nodes: Seq<NodeView>, node: NodeView) -> Result<NodeId, GraphError> {
    if !children_below(node, nodes.len() as int) {
        Err(GraphError::InvalidNodeId)
    } else if conflicting(nodes, node) {
        Err(GraphError::ConflictingVariable)
    } else {
        Ok(identifier(nodes, node))
    }
}

/// The depth-first post-order walk from `id` that skips what `order` already holds,
/// appended to `order`.
pub open spec fn visit(nodes: Seq<NodeView>, id: NodeId, order: Seq<NodeId>) -> Seq<NodeId>
    decreases id,
{
    if id >= nodes.len() || order.contains(id) {
        order
    } else {
        match nodes[id as int] {
            NodeView::Builtin(_, argument) => if argument < id {
                visit(nodes, argument, order).push(id)
            } else {
                order.push(id)
            },
            NodeView::BinaryOperation(_, left, right) => if left < id && right < id {
                visit(nodes, right, visit(nodes, left, order)).push(id)
            } else {
                order.push(id)
            },
            _ => order.push(id),
        }
    }
}

/// The ids reachable from `root`, every operand before the node that uses it.
pub open spec fn topological_order(nodes: Seq<NodeView>, root: NodeId) -> Seq<NodeId> {
    visit(nodes, root, Seq::empty())
}

/// Whether the set of visited ids and the order hold the same ids up to `limit`.
/// What the set holds beyond are nodes whose operands are still being walked.
spec fn marks_agree(visited: Set<NodeId>, order: Seq<NodeId>, limit: NodeId) -> bool {
    forall|id: NodeId| id <= limit ==> (visited.contains(id) <==> order.contains(id))
}

/// The key under which the index files a node: its variant, operator and operands,
/// its value, or the characters of its name.  Structurally equal nodes have equal
/// keys, and so have two variables of one name.
spec fn fingerprint_of(node: NodeView) -> u64 {
    match node {
        NodeView::Constant(Constant::Float(number)) => number,
        NodeView::Constant(Constant::Integer(number)) => if number >= 0 {
            number as u64
        } else {
            ((-number) + 0x1_0000_0000) as u64
        },
        NodeView::Variable { name, .. } => (name_key(name) * 4 + 1) as u64,
        NodeView::Builtin(builtin, argument) => ((argument as u64 % 0x1_0000_0000) * 64
            + builtin_code(builtin) * 4 + 2) as u64,
        NodeView::BinaryOperation(binop, left, right) => ((left as u64 % 0x1000_0000)
            * 0x10_0000_0000 + (right as u64 % 0x1000_0000) * 0x100 + binop_code(binop) * 4
            + 3) as u64,
    }
}

/// The key of a name: its characters, mixed one after the other.
spec fn name_key(name: Seq<char>) -> u64
    decreases name.len(),
{
    if name.len() == 0 {
        0
    } else {
        mixed(name_key(name.drop_last()), name.last())
    }
}

/// The key of a name that ends in `last` and whose beginning has the key `key`.
spec fn mixed(key: u64, last: char) -> u64 {
    (((key % 0x800_0000) * 31 + (last as u32 as u64)) % 0x1_0000_0000) as u64
}

/// The number that stands for a builtin in a key.
spec fn builtin_code(builtin: Builtin) -> u64 {
    match builtin {
        Builtin::Sin => 0,
        Builtin::Cos => 1,
        Builtin::Tan => 2,
        Builtin::Exp => 3,
        Builtin::Log => 4,
    }
}

/// The number that stands for an operation in a key.
spec fn binop_code(binop: BinaryOperation) -> u64 {
    match binop {
        BinaryOperation::Add => 0,
        BinaryOperation::Sub => 1,
        BinaryOperation::Mul => 2,
        BinaryOperation::Div => 3,
        BinaryOperation::PowI => 4,
        BinaryOperation::PowF => 5,
    }
}

/// Computes the key of a name in one pass over its characters.
fn fingerprint_name(name: &str) -> (key: u64)
    ensures
        key == name_key(name@),
        key < 0x1_0000_0000,
{
    broadcast use vstd::string::group_string_axioms;

    let mut key: u64 = 0;
    assert(name@.take(0) =~= Seq::<char>::empty());
    for last in it: name.chars()
        invariant
            it.seq() == name@,
            key == name_key(name@.take(it.index() as int)),
            key < 0x1_0000_0000,
    {
        let ghost seen = name@.take(it.index() as int);
        let ghost next = name@.take(it.index() as int + 1);
        assert(next.drop_last() =~= seen);
        assert(next.last() == last);
        key = ((key % 0x800_0000) * 31 + (last as u32 as u64)) % 0x1_0000_0000;
    }
    assert(name@.take(name@.len() as int) =~= name@);
    key
}

/// Computes the key of a node.
fn fingerprint(node: &Node) -> (key: u64)
    ensures
        key == fingerprint_of(node@),
{
    match node {
        Node::Constant(Constant::Float(number)) => *number,
        Node::Constant(Constant::Integer(number)) => {
            if *number >= 0 {
                *number as u64
            } else {
                (-(*number as i64) + 0x1_0000_0000) as u64
            }
        },
        Node::Variable(variable) => {
            let key = fingerprint_name(variable.name.as_str());
            key * 4 + 1
        },
        Node::Builtin(builtin, argument) => {
            let code: u64 = match builtin {
                Builtin::Sin => 0,
                Builtin::Cos => 1,
                Builtin::Tan => 2,
                Builtin::Exp => 3,
                Builtin::Log => 4,
            };
            (*argument as u64 % 0x1_0000_0000) * 64 + code * 4 + 2
        },
        Node::BinaryOperation(binop, left, right) => {
            let code: u64 = match binop {
                BinaryOperation::Add => 0,
                BinaryOperation::Sub => 1,
                BinaryOperation::Mul => 2,
                BinaryOperation::Div => 3,
                BinaryOperation::PowI => 4,
                BinaryOperation::PowF => 5,
            };
            (*left as u64 % 0x1000_0000) * 0x10_0000_0000 + (*right as u64 % 0x1000_0000) * 0x100
                + code * 4 + 3
        },
    }
}

/// Whether the index files every node of the array under its key, and nothing else.
spec fn filed(nodes: Seq<NodeView>, index: Map<u64, Vec<NodeId>>) -> bool {
    &&& forall|i: int|
        0 <= i < nodes.len() ==> index.contains_key(fingerprint_of(#[trigger] nodes[i]))
            && index[fingerprint_of(nodes[i])]@.contains(i as usize)
    &&& forall|key: u64, k: int|
        index.contains_key(key) && 0 <= k < index[key]@.len() ==> (#[trigger] index[key]@[k])
            < nodes.len() && fingerprint_of(nodes[index[key]@[k] as int]) == key
}

/// An append-only array of nodes in which structurally equal nodes share one id.
/// An index from the key of a node to the ids filed under it finds the equal node.
#[derive(Debug)]
pub struct ExpressionGraph {
    nodes: Vec<Node>,
    node_map: HashMap<u64, Vec<NodeId>>,
}

impl View for ExpressionGraph {
    type V = Seq<NodeView>;

    closed spec fn view(&self) -> Seq<NodeView> {
        self.nodes@.map_values(|node: Node| node@)
    }
}

impl ExpressionGraph {
    /// Whether the index agrees with the array.
    pub closed spec fn indexed(&self) -> bool {
        filed(self@, self.node_map@)
    }

    /// The invariants that every graph keeps.
    pub open spec fn wf(&self) -> bool {
        well_formed(self@) && self@.len() <= usize::MAX && self.indexed()
    }

    pub fn new() -> (graph: Self)
        ensures
            graph@ == Seq::<NodeView>::empty(),
            graph.wf(),
    {
        let graph = Self { nodes: Vec::new(), node_map: HashMap::new() };
        assert(graph@ =~= Seq::<NodeView>::empty());
        graph
    }

    /// Looks among the ids filed under the key of the node for an equal node, and for
    /// a variable of the same name in the other role.
    fn search(&self, node: &Node) -> (found: (Option<NodeId>, bool))
        requires
            self.wf(),
        ensures
            match found.0 {
                Some(id) => id < self@.len() && self@[id as int] == node@,
                None => !self@.contains(node@),
            },
            found.0 is None ==> (found.1 <==> conflicting(self@, node@)),
    {
        broadcast use group_hash_axioms;

        let key = fingerprint(node);
        let ghost nodes = self@;
        let mut conflict = false;
        match self.node_map.get(&key) {
            Some(bucket) => {
                let mut k: usize = 0;
                while k < bucket.len()
                    invariant
                        k <= bucket@.len(),
                        self.wf(),
                        nodes == self@,
                        key == fingerprint_of(node@),
                        self.node_map@.contains_key(key),
                        *bucket == self.node_map@[key],
                        forall|j: int| 0 <= j < k ==> nodes[bucket@[j] as int] != node@,
                        conflict <==> (node@ is Variable && exists|j: int|
                            0 <= j < k && (#[trigger] nodes[bucket@[j] as int]) is Variable
                                && nodes[bucket@[j] as int]->name == node@->name
                                && nodes[bucket@[j] as int]->fixed != node@->fixed),
                    decreases bucket@.len() - k,
                {
                    let id = bucket[k];
                    assert(self.node_map@[key]@[k as int] < nodes.len());
                    let current = &self.nodes[id];
                    assert(nodes[id as int] == current@);
                    if current.same_as(node) {
                        return (Some(id), false);
                    }
                    match (current, node) {
                        (Node::Variable(held), Node::Variable(fresh)) => {
                            if held.name == fresh.name {
                                conflict = true;
                            }
                        },
                        _ => {},
                    }
                    k += 1;
                }
                proof {
                    assert forall|i: int| 0 <= i < nodes.len() implies nodes[i] != node@ by {
                        if nodes[i] == node@ {
                            assert(bucket@.contains(i as usize));
                            let j = choose|j: int| 0 <= j < bucket@.len() && bucket@[j] == i as usize;
                            assert(nodes[bucket@[j] as int] != node@);
                        }
                    }
                    if conflicting(nodes, node@) {
                        let i = choose|i: int|
                            0 <= i < nodes.len() && (#[trigger] nodes[i]) is Variable
                                && nodes[i]->name == node@->name && nodes[i]->fixed != node@->fixed;
                        assert(fingerprint_of(nodes[i]) == key);
                        assert(bucket@.contains(i as usize));
                        let j = choose|j: int| 0 <= j < bucket@.len() && bucket@[j] == i as usize;
                        assert(nodes[bucket@[j] as int] is Variable);
                    }
                }
            },
            None => {
                proof {
                    assert forall|i: int| 0 <= i < nodes.len() implies nodes[i] != node@ by {
                        if nodes[i] == node@ {
                            assert(self.node_map@.contains_key(fingerprint_of(nodes[i])));
                        }
                    }
                    if conflicting(nodes, node@) {
                        let i = choose|i: int|
                            0 <= i < nodes.len() && (#[trigger] nodes[i]) is Variable
                                && nodes[i]->name == node@->name && nodes[i]->fixed != node@->fixed;
                        assert(self.node_map@.contains_key(fingerprint_of(nodes[i])));
                    }
                }
            },
        }
        (None, conflict)
    }

    /// Returns the id of the structurally equal node that the graph holds, or appends
    /// the node and returns its new id.  A node that is not admissible leaves the graph
    /// as it was.
    pub fn insert(&mut self, node: Node) -> (id: Result<NodeId, GraphError>)
        requires
            old(self).wf(),
        ensures
            final(self).wf(),
            id == insertion(old(self)@, node@),
            final(self)@ == if admissible(old(self)@, node@) {
                inserted(old(self)@, node@)
            } else {
                old(self)@
            },
    {
        broadcast use group_hash_axioms;

        let ghost before = self@;
        let ghost index = self.node_map@;
        let (found, conflict) = self.search(&node);
        match found {
            Some(id) => {
                proof {
                    lemma_held_is_admissible(before, id as int);
                }
                return Ok(id);
            },
            None => {},
        }
        let count = self.nodes.len();
        let in_range = match &node {
            Node::Builtin(_, argument) => *argument < count,
            Node::BinaryOperation(_, left, right) => *left < count && *right < count,
            _ => true,
        };
        if !in_range {
            return Err(GraphError::InvalidNodeId);
        }
        if conflict {
            return Err(GraphError::ConflictingVariable);
        }
        let key = fingerprint(&node);
        let ghost fresh = node@;
        self.nodes.push(node);
        let mut bucket = match self.node_map.remove(&key) {
            Some(bucket) => bucket,
            None => Vec::new(),
        };
        let ghost held = bucket@;
        bucket.push(count);
        self.node_map.insert(key, bucket);
        assert(self@ =~= before.push(fresh));
        assert(self@.len() == self.nodes.len());
        assert(well_formed(before.push(fresh))) by {
            lemma_push_well_formed(before, fresh);
        }
        assert(filed(self@, self.node_map@)) by {
            let nodes = self@;
            let filing = self.node_map@;
            assert(filing == index.remove(key).insert(key, bucket));
            assert(forall|j: int| 0 <= j < held.len() ==> bucket@[j] == held[j]);
            assert(bucket@[held.len() as int] == count);
            assert forall|i: int| 0 <= i < nodes.len() implies filing.contains_key(
                fingerprint_of(#[trigger] nodes[i]),
            ) && filing[fingerprint_of(nodes[i])]@.contains(i as usize) by {
                if i < before.len() {
                    assert(nodes[i] == before[i]);
                    let other = fingerprint_of(before[i]);
                    assert(index.contains_key(other) && index[other]@.contains(i as usize));
                    if other == key {
                        let j = choose|j: int| 0 <= j < held.len() && held[j] == i as usize;
                        assert(bucket@[j] == i as usize);
                    }
                }
            }
            assert forall|other: u64, k: int|
                filing.contains_key(other) && 0 <= k < filing[other]@.len() implies (
            #[trigger] filing[other]@[k]) < nodes.len() && fingerprint_of(
                nodes[filing[other]@[k] as int],
            ) == other by {
                if other == key {
                    if k < held.len() {
                        assert(index.contains_key(key));
                        assert(index[key]@[k] < before.len());
                        assert(nodes[held[k] as int] == before[held[k] as int]);
                    }
                } else {
                    assert(index.contains_key(other));
                    assert(index[other]@[k] < before.len());
                    assert(nodes[index[other]@[k] as int] == before[index[other]@[k] as int]);
                }
            }
        }
        Ok(count)
    }

    /// The id under which the graph holds the node, if it holds it.
    pub fn get_node_index(&self, node: Node) -> (id: Option<NodeId>)
        requires
            self.wf(),
        ensures
            id == if self@.contains(node@) {
                Some(position(self@, node@) as usize)
            } else {
                None::<NodeId>
            },
    {
        let (found, _) = self.search(&node);
        proof {
            if let Some(id) = found {
                lemma_held_is_admissible(self@, id as int);
            }
        }
        found
    }

    /// The node that the id names.
    pub fn get_node(&self, id: NodeId) -> (node: Result<Node, GraphError>)
        ensures
            id < self@.len() ==> node is Ok && node->Ok_0@ == self@[id as int],
            id >= self@.len() ==> node == Err::<Node, GraphError>(GraphError::InvalidNodeId),
    {
        if id < self.nodes.len() {
            let node = self.nodes[id].clone();
            assert(self@[id as int] == self.nodes@[id as int]@);
            Ok(node)
        } else {
            Err(GraphError::InvalidNodeId)
        }
    }

    /// The number of nodes.
    pub fn len(&self) -> (count: usize)
        ensures
            count == self@.len(),
    {
        self.nodes.len()
    }

    /// The operand ids of the node that the id names, left to right.
    pub fn get_children(&self, id: NodeId) -> (operands: Result<Vec<NodeId>, GraphError>)
        ensures
            id < self@.len() ==> operands is Ok && operands->Ok_0@ == children(self@[id as int]),
            id >= self@.len() ==> operands == Err::<Vec<NodeId>, GraphError>(
                GraphError::InvalidNodeId,
            ),
    {
        if id >= self.nodes.len() {
            return Err(GraphError::InvalidNodeId);
        }
        assert(self@[id as int] == self.nodes@[id as int]@);
        let mut operands: Vec<NodeId> = Vec::new();
        match &self.nodes[id] {
            Node::BinaryOperation(_, left, right) => {
                operands.push(*left);
                operands.push(*right);
            },
            Node::Builtin(_, argument) => {
                operands.push(*argument);
            },
            Node::Constant(_) | Node::Variable(_) => {},
        }
        assert(operands@ =~= children(self@[id as int]));
        Ok(operands)
    }

    fn dfs(&self, node_id: NodeId, visited: &mut HashSet<NodeId>, sorted: &mut Vec<NodeId>)
        requires
            self.wf(),
            node_id < self@.len(),
            marks_agree(old(visited)@, old(sorted)@, node_id),
        ensures
            final(sorted)@ == visit(self@, node_id, old(sorted)@),
            marks_agree(final(visited)@, final(sorted)@, node_id),
            forall|id: NodeId|
                id > node_id ==> final(visited)@.contains(id) == old(visited)@.contains(id)
                    && final(sorted)@.contains(id) == old(sorted)@.contains(id),
        decreases node_id,
    {
        broadcast use group_hash_axioms;

        if visited.contains(&node_id) {
            return ;
        }
        visited.insert(node_id);
        assert(self@[node_id as int] == self.nodes@[node_id as int]@);
        assert(children_below(self@[node_id as int], node_id as int));
        match &self.nodes[node_id] {
            Node::BinaryOperation(_, left, right) => {
                self.dfs(*left, visited, sorted);
                self.dfs(*right, visited, sorted);
            },
            Node::Builtin(_, argument) => {
                self.dfs(*argument, visited, sorted);
            },
            Node::Constant(_) | Node::Variable(_) => {},
        }
        let ghost walked = sorted@;
        sorted.push(node_id);
        assert forall|id: NodeId| sorted@.contains(id) <==> walked.contains(id) || id
            == node_id by {
            if walked.contains(id) {
                let k = choose|k: int| 0 <= k < walked.len() && walked[k] == id;
                assert(sorted@[k] == id);
            }
            if id == node_id {
                assert(sorted@[walked.len() as int] == node_id);
            }
            if sorted@.contains(id) {
                let k = choose|k: int| 0 <= k < sorted@.len() && sorted@[k] == id;
                if k < walked.len() {
                    assert(walked[k] == id);
                }
            }
        }
    }

    /// Lists the ids reachable from `start` so that every operand comes before the
    /// node that uses it: the depth-first post-order walk from `start`.
    pub fn topological_sort(&self, start: NodeId) -> (sorted: Result<Vec<NodeId>, GraphError>)
        requires
            self.wf(),
        ensures
            start < self@.len() ==> sorted is Ok && sorted->Ok_0@ == topological_order(
                self@,
                start,
            ),
            start >= self@.len() ==> sorted == Err::<Vec<NodeId>, GraphError>(
                GraphError::InvalidNodeId,
            ),
    {
        let count = self.nodes.len();
        if start >= count {
            return Err(GraphError::InvalidNodeId);
        }
        let mut visited: HashSet<NodeId> = HashSet::new();
        let mut sorted: Vec<NodeId> = Vec::new();
        self.dfs(start, &mut visited, &mut sorted);
        Ok(sorted)
    }
}

/// Appending an admissible node that the graph does not hold keeps the invariants.
pub proof fn lemma_push_well_formed(nodes: Seq<NodeView>, node: NodeView)
    requires
        well_formed(nodes),
        admissible(nodes, node),
        !nodes.contains(node),
    ensures
        well_formed(nodes.push(node)),
{
    let grown = nodes.push(node);
    assert forall|i: int| 0 <= i < grown.len() implies children_below(#[trigger] grown[i], i) by {
        if i < nodes.len() {
            assert(grown[i] == nodes[i]);
        }
    }
    assert forall|i: int, j: int| 0 <= i < j < grown.len() implies grown[i] != grown[j] by {
        if j < nodes.len() {
            assert(grown[i] == nodes[i] && grown[j] == nodes[j]);
        } else {
            assert(grown[i] == nodes[i]);
            if nodes[i] == node {
                assert(nodes.contains(node));
            }
        }
    }
    assert forall|i: int, j: int|
        0 <= i < grown.len() && 0 <= j < grown.len() && (#[trigger] grown[i]) is Variable && (
        #[trigger] grown[j]) is Variable && grown[i]->name == grown[j]->name implies i == j by {
        if i < nodes.len() && j < nodes.len() {
            assert(grown[i] == nodes[i] && grown[j] == nodes[j]);
        } else if i < nodes.len() {
            assert(grown[i] == nodes[i]);
            if nodes[i]->fixed == node->fixed {
                assert(nodes[i] == node);
                assert(nodes.contains(node));
            }
        } else if j < nodes.len() {
            assert(grown[j] == nodes[j]);
            if nodes[j]->fixed == node->fixed {
                assert(nodes[j] == node);
                assert(nodes.contains(node));
            }
        }
    }
}

/// Inserting a node a second time returns the id that the first insertion gave and
/// leaves the graph as the first insertion left it.
pub proof fn lemma_insert_twice(nodes: Seq<NodeView>, node: NodeView)
    requires
        well_formed(nodes),
        admissible(nodes, node),
        nodes.len() <= usize::MAX,
    ensures
        admissible(inserted(nodes, node), node),
        inserted(inserted(nodes, node), node) == inserted(nodes, node),
        identifier(inserted(nodes, node), node) == identifier(nodes, node),
{
    let after = inserted(nodes, node);
    if nodes.contains(node) {
    } else {
        lemma_push_well_formed(nodes, node);
        assert(after[nodes.len() as int] == node);
        assert(after.contains(node));
        let found = position(after, node);
        assert(0 <= found < after.len() && after[found] == node);
        if found < nodes.len() {
            assert(after[found] != after[nodes.len() as int]);
        }
        assert(!conflicting(after, node)) by {
            if conflicting(after, node) {
                let i = choose|i: int|
                    0 <= i < after.len() && (#[trigger] after[i]) is Variable && after[i]->name
                        == node->name && after[i]->fixed != node->fixed;
                if i < nodes.len() {
                    assert(after[i] == nodes[i]);
                }
            }
        }
    }
}

/// A node that the graph holds is admissible, and it stands under its own id only.
pub proof fn lemma_held_is_admissible(nodes: Seq<NodeView>, id: int)
    requires
        well_formed(nodes),
        0 <= id < nodes.len(),
    ensures
        nodes.contains(nodes[id]),
        position(nodes, nodes[id]) == id,
        admissible(nodes, nodes[id]),
{
    let node = nodes[id];
    assert(nodes.contains(node));
    let found = position(nodes, node);
    assert(0 <= found < nodes.len() && nodes[found] == node);
    if found < id {
        assert(nodes[found] != nodes[id]);
    } else if id < found {
        assert(nodes[id] != nodes[found]);
    }
    assert(children_below(nodes[id], id));
    assert(!conflicting(nodes, node)) by {
        if conflicting(nodes, node) {
            let i = choose|i: int|
                0 <= i < nodes.len() && (#[trigger] nodes[i]) is Variable && nodes[i]->name
                    == node->name && nodes[i]->fixed != node->fixed;
            assert(nodes[id] is Variable);
        }
    }
}

} // verus!
