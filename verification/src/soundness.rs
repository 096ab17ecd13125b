//! What holds of every routine that translation emits.
use vstd::prelude::*;
use crate::expression::{NodeId, NodeView, acyclic, topological_order};
use crate::schedule::{
    earlier,
    lemma_push_contains,
    lemma_topological_order,
    operands_precede,
    reaches,
    scheduled,
};
use crate::translation::{
    RoutineView,
    Statement,
    backward,
    forward_statement,
    inputs,
    is_input,
    plan,
    reverse_step,
};

verus! {

/// The node whose value a forward statement binds.
pub open spec fn bound(statement: Statement) -> Option<NodeId> {
    match statement {
        Statement::Constant { target, .. } => Some(target),
        Statement::Parameter { target, .. } => Some(target),
        Statement::Datum { target, .. } => Some(target),
        Statement::Builtin { target, .. } => Some(target),
        Statement::BinaryOperation { target, .. } => Some(target),
        _ => None,
    }
}

/// The nodes whose values a statement reads.
pub open spec fn reads(statement: Statement) -> Seq<NodeId> {
    match statement {
        Statement::Builtin { argument, .. } => seq![argument],
        Statement::BinaryOperation { left, right, .. } => seq![left, right],
        Statement::BuiltinAdjoint { argument, .. } => seq![argument],
        Statement::BinaryAdjoint { left, right, .. } => seq![left, right],
        _ => Seq::empty(),
    }
}

/// The node whose adjoint a reverse statement hands down.
pub open spec fn source(statement: Statement) -> Option<NodeId> {
    match statement {
        Statement::BuiltinAdjoint { source, .. } => Some(source),
        Statement::BinaryAdjoint { source, .. } => Some(source),
        _ => None,
    }
}

/// The nodes whose adjoints a reverse statement adds to.
pub open spec fn updates(statement: Statement) -> Seq<NodeId> {
    match statement {
        Statement::BuiltinAdjoint { argument, .. } => seq![argument],
        Statement::BinaryAdjoint { left, right, .. } => seq![left, right],
        _ => Seq::empty(),
    }
}

/// Whether a forward statement before position `k` binds the value of `id`.
pub open spec fn bound_before(forward: Seq<Statement>, id: NodeId, k: int) -> bool {
    exists|j: int| 0 <= j < k && j < forward.len() && bound(#[trigger] forward[j]) == Some(id)
}

/// Whether an adjoint declaration of the routine declares the adjoint of `id`.
pub open spec fn declared(adjoints: Seq<Statement>, id: NodeId) -> bool {
    exists|j: int|
        0 <= j < adjoints.len() && (#[trigger] adjoints[j]) is Adjoint && adjoints[j]->Adjoint_target
            == id
}

/// The forward pass binds the value of every node that the root depends on exactly
/// once, and of no other node: structurally equal subexpressions share one id and
/// therefore one binding.
pub proof fn lemma_forward_binds_once(nodes: Seq<NodeView>, root: NodeId)
    requires
        acyclic(nodes),
        root < nodes.len(),
    ensures
        forall|k: int|
            0 <= k < plan(nodes, root).forward.len() ==> bound(
                #[trigger] plan(nodes, root).forward[k],
            ) == Some(topological_order(nodes, root)[k]),
        forall|j: int, k: int|
            0 <= j < k < plan(nodes, root).forward.len() ==> bound(plan(nodes, root).forward[j])
                != bound(plan(nodes, root).forward[k]),
        forall|id: NodeId|
            #[trigger] reaches(nodes, root, id) <==> bound_before(
                plan(nodes, root).forward,
                id,
                plan(nodes, root).forward.len() as int,
            ),
{
    let order = topological_order(nodes, root);
    let forward = plan(nodes, root).forward;
    lemma_topological_order(nodes, root);
    assert forall|k: int| 0 <= k < forward.len() implies bound(#[trigger] forward[k]) == Some(
        order[k],
    ) by {
        assert(forward[k] == forward_statement(nodes, order, k));
    }
    assert forall|id: NodeId| #[trigger]
        reaches(nodes, root, id) <==> bound_before(forward, id, forward.len() as int) by {
        if reaches(nodes, root, id) {
            assert(order.contains(id));
            let k = choose|k: int| 0 <= k < order.len() && order[k] == id;
            assert(bound(forward[k]) == Some(id));
        }
        if bound_before(forward, id, forward.len() as int) {
            let j = choose|j: int|
                0 <= j < forward.len() && bound(#[trigger] forward[j]) == Some(id);
            assert(order[j] == id);
            assert(order.contains(id));
        }
    }
}

/// Every value that a forward statement reads is bound by an earlier statement of
/// the forward pass.
pub proof fn lemma_forward_reads_bound(nodes: Seq<NodeView>, root: NodeId)
    requires
        acyclic(nodes),
        root < nodes.len(),
    ensures
        forall|k: int, i: int|
            0 <= k < plan(nodes, root).forward.len() && 0 <= i < reads(
                plan(nodes, root).forward[k],
            ).len() ==> bound_before(
                plan(nodes, root).forward,
                #[trigger] reads(plan(nodes, root).forward[k])[i],
                k,
            ),
{
    let order = topological_order(nodes, root);
    let forward = plan(nodes, root).forward;
    lemma_topological_order(nodes, root);
    lemma_forward_binds_once(nodes, root);
    assert forall|k: int, i: int|
        0 <= k < forward.len() && 0 <= i < reads(forward[k]).len() implies bound_before(
        forward,
        #[trigger] reads(forward[k])[i],
        k,
    ) by {
        assert(forward[k] == forward_statement(nodes, order, k));
        assert(operands_precede(nodes, order, k));
        let operand = reads(forward[k])[i];
        assert(earlier(order, operand, k));
        let j = choose|j: int| 0 <= j < k && j < order.len() && order[j] == operand;
        assert(bound(forward[j]) == Some(operand));
    }
}

/// What holds of the last `count` steps of the reverse pass over a schedule: each
/// statement hands down the adjoint of a scheduled node to the operands of that node,
/// and the sources come in the reverse of the schedule.
spec fn descending(
    nodes: Seq<NodeView>,
    order: Seq<NodeId>,
    steps: Seq<Statement>,
    positions: Seq<int>,
    floor: int,
) -> bool {
    &&& positions.len() == steps.len()
    &&& forall|i: int|
        0 <= i < steps.len() ==> floor <= #[trigger] positions[i] < order.len() && reverse_step(
            nodes,
            order[positions[i]],
        ) == seq![steps[i]]
    &&& forall|i: int, j: int|
        0 <= i < j < steps.len() ==> #[trigger] positions[i] > #[trigger] positions[j]
}

proof fn lemma_backward_descending(nodes: Seq<NodeView>, order: Seq<NodeId>, count: nat) -> (positions:
    Seq<int>)
    requires
        count <= order.len(),
    ensures
        descending(nodes, order, backward(nodes, order, count), positions, order.len() - count),
    decreases count,
{
    if count == 0 {
        Seq::empty()
    } else {
        let before = lemma_backward_descending(nodes, order, (count - 1) as nat);
        let steps = backward(nodes, order, (count - 1) as nat);
        let position = order.len() - count;
        let step = reverse_step(nodes, order[position]);
        let positions = if step.len() == 0 {
            before
        } else {
            before.push(position)
        };
        let all = backward(nodes, order, count);
        assert(all == steps + step);
        if step.len() == 0 {
            assert(all =~= steps);
        } else {
            assert(step.len() == 1);
            assert(step =~= seq![step[0]]);
            assert(all =~= steps.push(step[0]));
            assert forall|i: int| 0 <= i < all.len() implies position <= #[trigger] positions[i]
                < order.len() && reverse_step(nodes, order[positions[i]]) == seq![all[i]] by {
                if i < steps.len() {
                    assert(positions[i] == before[i]);
                    assert(all[i] == steps[i]);
                }
            }
            assert forall|i: int, j: int| 0 <= i < j < all.len() implies #[trigger] positions[i]
                > #[trigger] positions[j] by {
                if j < steps.len() {
                    assert(positions[i] == before[i] && positions[j] == before[j]);
                } else {
                    assert(positions[i] == before[i]);
                }
            }
        }
        positions
    }
}

/// The adjoint of the root is declared as one, every other adjoint as zero, and no
/// statement of the reverse pass adds to the adjoint of the root: it still holds the
/// seed when the routine ends.
pub proof fn lemma_seed_kept(nodes: Seq<NodeView>, root: NodeId)
    requires
        acyclic(nodes),
        root < nodes.len(),
    ensures
        plan(nodes, root).adjoints.len() == topological_order(nodes, root).len(),
        forall|k: int|
            0 <= k < plan(nodes, root).adjoints.len() ==> #[trigger] plan(nodes, root).adjoints[k]
                == (Statement::Adjoint {
                target: topological_order(nodes, root)[k],
                seed: k == plan(nodes, root).adjoints.len() - 1,
            }),
        forall|i: int, u: int|
            0 <= i < plan(nodes, root).reverse.len() && 0 <= u < updates(
                plan(nodes, root).reverse[i],
            ).len() ==> #[trigger] updates(plan(nodes, root).reverse[i])[u] != root,
{
    let order = topological_order(nodes, root);
    let routine = plan(nodes, root);
    lemma_topological_order(nodes, root);
    assert forall|k: int| 0 <= k < routine.adjoints.len() implies #[trigger] routine.adjoints[k]
        == (Statement::Adjoint { target: order[k], seed: k == routine.adjoints.len() - 1 }) by {
        if k < order.len() - 1 {
            assert(order[k] != order[order.len() - 1]);
        }
    }
    let positions = lemma_backward_descending(nodes, order, order.len());
    assert forall|i: int, u: int|
        0 <= i < routine.reverse.len() && 0 <= u < updates(
            routine.reverse[i],
        ).len() implies #[trigger] updates(routine.reverse[i])[u] != root by {
        let p = positions[i];
        let step = reverse_step(nodes, order[p]);
        assert(step == seq![routine.reverse[i]]);
        assert(step[0] == routine.reverse[i]);
        assert(operands_precede(nodes, order, p));
        let operand = updates(routine.reverse[i])[u];
        assert(earlier(order, operand, p));
        let j = choose|j: int| 0 <= j < p && j < order.len() && order[j] == operand;
        assert(order[j] != order[order.len() - 1]);
    }
}

/// The reverse pass hands the adjoint of a node down only when it is final: no later
/// statement adds to the adjoint of the source of an earlier one.  Every adjoint that
/// the pass touches is declared, and every value that it reads is bound by the
/// forward pass.
pub proof fn lemma_adjoints_final(nodes: Seq<NodeView>, root: NodeId)
    requires
        acyclic(nodes),
        root < nodes.len(),
    ensures
        forall|i: int, j: int, u: int|
            0 <= i < j < plan(nodes, root).reverse.len() && 0 <= u < updates(
                plan(nodes, root).reverse[j],
            ).len() ==> Some(#[trigger] updates(plan(nodes, root).reverse[j])[u]) != source(
                #[trigger] plan(nodes, root).reverse[i],
            ),
        forall|i: int|
            0 <= i < plan(nodes, root).reverse.len() ==> source(
                #[trigger] plan(nodes, root).reverse[i],
            ) is Some && declared(
                plan(nodes, root).adjoints,
                source(plan(nodes, root).reverse[i])->Some_0,
            ),
        forall|i: int, u: int|
            0 <= i < plan(nodes, root).reverse.len() && 0 <= u < updates(
                plan(nodes, root).reverse[i],
            ).len() ==> declared(
                plan(nodes, root).adjoints,
                #[trigger] updates(plan(nodes, root).reverse[i])[u],
            ) && bound_before(
                plan(nodes, root).forward,
                updates(plan(nodes, root).reverse[i])[u],
                plan(nodes, root).forward.len() as int,
            ),
{
    let order = topological_order(nodes, root);
    let routine = plan(nodes, root);
    lemma_topological_order(nodes, root);
    lemma_forward_binds_once(nodes, root);
    let positions = lemma_backward_descending(nodes, order, order.len());
    assert forall|i: int, j: int, u: int|
        0 <= i < j < routine.reverse.len() && 0 <= u < updates(
            routine.reverse[j],
        ).len() implies Some(#[trigger] updates(routine.reverse[j])[u]) != source(
        #[trigger] routine.reverse[i],
    ) by {
        let p = positions[i];
        let q = positions[j];
        assert(p > q);
        assert(reverse_step(nodes, order[p])[0] == routine.reverse[i]);
        assert(reverse_step(nodes, order[q])[0] == routine.reverse[j]);
        assert(operands_precede(nodes, order, q));
        let operand = updates(routine.reverse[j])[u];
        assert(earlier(order, operand, q));
        let k = choose|k: int| 0 <= k < q && k < order.len() && order[k] == operand;
        assert(order[k] != order[p]);
    }
    assert forall|i: int| 0 <= i < routine.reverse.len() implies source(
        #[trigger] routine.reverse[i],
    ) is Some && declared(routine.adjoints, source(routine.reverse[i])->Some_0) by {
        let p = positions[i];
        assert(reverse_step(nodes, order[p])[0] == routine.reverse[i]);
        assert(routine.adjoints[p] is Adjoint);
    }
    assert forall|i: int, u: int|
        0 <= i < routine.reverse.len() && 0 <= u < updates(
            routine.reverse[i],
        ).len() implies declared(routine.adjoints, #[trigger] updates(routine.reverse[i])[u])
        && bound_before(
        routine.forward,
        updates(routine.reverse[i])[u],
        routine.forward.len() as int,
    ) by {
        let p = positions[i];
        assert(reverse_step(nodes, order[p])[0] == routine.reverse[i]);
        assert(operands_precede(nodes, order, p));
        let operand = updates(routine.reverse[i])[u];
        assert(earlier(order, operand, p));
        let k = choose|k: int| 0 <= k < p && k < order.len() && order[k] == operand;
        assert(routine.adjoints[k] is Adjoint);
        assert(bound(routine.forward[k]) == Some(operand));
    }
}

/// The inputs of one kind in a schedule are the scheduled nodes of that kind, each
/// once where the schedule holds each node once.
pub proof fn lemma_inputs(nodes: Seq<NodeView>, order: Seq<NodeId>, fixed: bool)
    ensures
        forall|id: NodeId|
            #![trigger inputs(nodes, order, fixed).contains(id)]
            inputs(nodes, order, fixed).contains(id) <==> order.contains(id) && is_input(
                nodes[id as int],
                fixed,
            ),
        order.no_duplicates() ==> inputs(nodes, order, fixed).no_duplicates(),
        inputs(nodes, order, fixed).len() <= order.len(),
    decreases order.len(),
{
    let found = inputs(nodes, order, fixed);
    if order.len() == 0 {
    } else {
        let rest = order.drop_last();
        let last = order.last();
        let before = inputs(nodes, rest, fixed);
        lemma_inputs(nodes, rest, fixed);
        assert(order =~= rest.push(last));
        assert forall|id: NodeId| #![trigger found.contains(id)]
            found.contains(id) <==> order.contains(id) && is_input(nodes[id as int], fixed) by {
            lemma_push_contains(rest, last, id);
            lemma_push_contains(before, last, id);
        }
        if order.no_duplicates() {
            assert(rest.no_duplicates());
            if is_input(nodes[last as int], fixed) {
                assert(!before.contains(last)) by {
                    if before.contains(last) {
                        assert(rest.contains(last));
                        let k = choose|k: int| 0 <= k < rest.len() && rest[k] == last;
                        assert(order[k] == order[order.len() - 1]);
                    }
                }
                assert forall|i: int, j: int|
                    0 <= i < found.len() && 0 <= j < found.len() && i != j implies found[i]
                    != found[j] by {
                    if i == before.len() {
                        assert(before.contains(found[j]));
                    } else if j == before.len() {
                        assert(before.contains(found[i]));
                    }
                }
            }
        }
    }
}

/// An input that the forward pass reads from a slot stands in that slot of the list
/// of inputs, so the gradient and the parameter vector agree on the slots.
pub proof fn lemma_slot(nodes: Seq<NodeView>, order: Seq<NodeId>, fixed: bool, k: int)
    requires
        0 <= k < order.len(),
        is_input(nodes[order[k] as int], fixed),
    ensures
        inputs(nodes, order.take(k), fixed).len() < inputs(nodes, order, fixed).len(),
        inputs(nodes, order, fixed)[inputs(nodes, order.take(k), fixed).len() as int] == order[k],
    decreases order.len(),
{
    let rest = order.drop_last();
    if k == order.len() - 1 {
        assert(order.take(k) =~= rest);
    } else {
        lemma_slot(nodes, rest, fixed, k);
        assert(rest.take(k) =~= order.take(k));
    }
}

/// The ids of the inputs of one kind that the root depends on.
pub open spec fn reachable_inputs(nodes: Seq<NodeView>, root: NodeId, fixed: bool) -> Set<NodeId> {
    Set::new(|id: NodeId| reaches(nodes, root, id) && is_input(nodes[id as int], fixed))
}

/// The parameter vector has one slot for each distinct parameter that the root
/// depends on, the data vector one for each distinct datum, and each input is read
/// from the slot in which the routine lists it.
pub proof fn lemma_arity(nodes: Seq<NodeView>, root: NodeId)
    requires
        acyclic(nodes),
        root < nodes.len() <= usize::MAX,
    ensures
        reachable_inputs(nodes, root, false).finite(),
        reachable_inputs(nodes, root, true).finite(),
        plan(nodes, root).parameters.len() == reachable_inputs(nodes, root, false).len(),
        plan(nodes, root).data.len() == reachable_inputs(nodes, root, true).len(),
        plan(nodes, root).parameters.no_duplicates(),
        plan(nodes, root).data.no_duplicates(),
        forall|k: int|
            0 <= k < plan(nodes, root).forward.len() ==> match #[trigger] plan(
                nodes,
                root,
            ).forward[k] {
                Statement::Parameter { target, slot } => slot < plan(nodes, root).parameters.len()
                    && plan(nodes, root).parameters[slot as int] == target,
                Statement::Datum { target, slot } => slot < plan(nodes, root).data.len() && plan(
                    nodes,
                    root,
                ).data[slot as int] == target,
                _ => true,
            },
{
    let order = topological_order(nodes, root);
    let routine = plan(nodes, root);
    lemma_topological_order(nodes, root);
    assert(order.no_duplicates());
    lemma_inputs(nodes, order, false);
    lemma_inputs(nodes, order, true);
    assert(routine.parameters.to_set() =~= reachable_inputs(nodes, root, false));
    assert(routine.data.to_set() =~= reachable_inputs(nodes, root, true));
    routine.parameters.unique_seq_to_set();
    routine.data.unique_seq_to_set();
    assert forall|k: int| 0 <= k < routine.forward.len() implies match #[trigger] routine.forward[k] {
        Statement::Parameter { target, slot } => slot < routine.parameters.len()
            && routine.parameters[slot as int] == target,
        Statement::Datum { target, slot } => slot < routine.data.len() && routine.data[slot as int]
            == target,
        _ => true,
    } by {
        assert(routine.forward[k] == forward_statement(nodes, order, k));
        lemma_inputs(nodes, order.take(k), false);
        lemma_inputs(nodes, order.take(k), true);
        if is_input(nodes[order[k] as int], false) {
            lemma_slot(nodes, order, false, k);
        }
        if is_input(nodes[order[k] as int], true) {
            lemma_slot(nodes, order, true, k);
        }
    }
}

/// Single assignment: every statement of the forward pass binds a value, and no two
/// bind the same.
pub open spec fn binds_once(routine: RoutineView) -> bool {
    &&& forall|k: int|
        0 <= k < routine.forward.len() ==> bound(#[trigger] routine.forward[k]) is Some
    &&& forall|j: int, k: int|
        0 <= j < k < routine.forward.len() ==> bound(routine.forward[j]) != bound(
            routine.forward[k],
        )
}

/// Definition before use: every value that a forward statement reads is bound by an
/// earlier one.
pub open spec fn reads_bound(routine: RoutineView) -> bool {
    forall|k: int, i: int|
        0 <= k < routine.forward.len() && 0 <= i < reads(routine.forward[k]).len()
            ==> bound_before(routine.forward, #[trigger] reads(routine.forward[k])[i], k)
}

/// The seed: the adjoint of the root is declared as one, every other adjoint as
/// zero, and no statement of the reverse pass adds to the adjoint of the root.
pub open spec fn seed_kept(routine: RoutineView) -> bool {
    &&& routine.adjoints.len() > 0
    &&& forall|k: int|
        0 <= k < routine.adjoints.len() ==> (#[trigger] routine.adjoints[k]) is Adjoint && (
        routine.adjoints[k]->Adjoint_seed <==> k == routine.adjoints.len() - 1)
    &&& routine.adjoints.last()->Adjoint_target == routine.root
    &&& forall|i: int, u: int|
        0 <= i < routine.reverse.len() && 0 <= u < updates(routine.reverse[i]).len()
            ==> #[trigger] updates(routine.reverse[i])[u] != routine.root
}

/// The discipline of the reverse pass: an adjoint is handed down only when nothing
/// will be added to it any more, and the pass touches only adjoints that are
/// declared and reads only values that the forward pass has bound.
pub open spec fn adjoints_final(routine: RoutineView) -> bool {
    &&& forall|i: int, j: int, u: int|
        0 <= i < j < routine.reverse.len() && 0 <= u < updates(routine.reverse[j]).len()
            ==> Some(#[trigger] updates(routine.reverse[j])[u]) != source(
            #[trigger] routine.reverse[i],
        )
    &&& forall|i: int|
        0 <= i < routine.reverse.len() ==> source(#[trigger] routine.reverse[i]) is Some
            && declared(routine.adjoints, source(routine.reverse[i])->Some_0)
    &&& forall|i: int, u: int|
        0 <= i < routine.reverse.len() && 0 <= u < updates(routine.reverse[i]).len()
            ==> declared(routine.adjoints, #[trigger] updates(routine.reverse[i])[u])
            && bound_before(
            routine.forward,
            updates(routine.reverse[i])[u],
            routine.forward.len() as int,
        )
}

/// The slots: no input has two slots, and every input is read from the slot in
/// which the routine lists it.
pub open spec fn slots_agree(routine: RoutineView) -> bool {
    &&& routine.parameters.no_duplicates()
    &&& routine.data.no_duplicates()
    &&& forall|k: int|
        0 <= k < routine.forward.len() ==> match #[trigger] routine.forward[k] {
            Statement::Parameter { target, slot } => slot < routine.parameters.len()
                && routine.parameters[slot as int] == target,
            Statement::Datum { target, slot } => slot < routine.data.len()
                && routine.data[slot as int] == target,
            _ => true,
        }
}

/// What holds of every routine that is emitted.
pub open spec fn sound(routine: RoutineView) -> bool {
    &&& binds_once(routine)
    &&& reads_bound(routine)
    &&& seed_kept(routine)
    &&& adjoints_final(routine)
    &&& slots_agree(routine)
}

/// The routine of a root of an acyclic graph is sound.
pub proof fn lemma_plan_sound(nodes: Seq<NodeView>, root: NodeId)
    requires
        acyclic(nodes),
        root < nodes.len() <= usize::MAX,
    ensures
        sound(plan(nodes, root)),
{
    lemma_topological_order(nodes, root);
    lemma_forward_binds_once(nodes, root);
    lemma_forward_reads_bound(nodes, root);
    lemma_seed_kept(nodes, root);
    lemma_adjoints_final(nodes, root);
    lemma_arity(nodes, root);
}

} // verus!
