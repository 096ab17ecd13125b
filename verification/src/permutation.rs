//! The order of unrelated bindings does not matter to what is emitted: reordering
//! the statements of a body so that no binding crosses one that it reads, or that
//! reads it, gives the same graph but for the numbering of its nodes.
use vstd::prelude::*;
use crate::denotation::{
    isomorphic,
    lemma_same_tree_isomorphic,
    lemma_same_tree_same_schedule,
    same_trees,
    unfold,
    Term,
};
use crate::expression::topological_order;
use crate::lowering::{denote, denote_body, lemma_built_graph_denotes};
use crate::parse::{built_graph, verified_types};
use crate::syntax::{Arguments, Attribute, Expr, Function, Record, Stmt};

verus! {

/// Whether the expression reads the name.
pub open spec fn mentions(expr: Expr, name: Seq<char>) -> bool
    decreases expr,
{
    match expr {
        Expr::Binary { left, op, right } => mentions(*left, name) || mentions(*right, name),
        Expr::Path { segments } => segments@.len() == 1 && segments@[0]@ == name,
        Expr::Paren(inner) => mentions(*inner, name),
        Expr::Unary { op, operand } => mentions(*operand, name),
        Expr::Cast { operand, target } => mentions(*operand, name),
        Expr::MethodCall { receiver, method, arguments } => mentions(*receiver, name) || (
        arguments matches Arguments::One(argument) && mentions(*argument, name)),
        Expr::Call { function, arguments } => arguments matches Arguments::One(argument)
            && mentions(*argument, name),
        Expr::Return(value) => value matches Some(inner) && mentions(*inner, name),
        _ => false,
    }
}

/// What a name is bound to does not matter to an expression that does not read it.
pub proof fn lemma_unread_binding(
    scope: Map<Seq<char>, Term>,
    attributes: Seq<Attribute>,
    expr: Expr,
    name: Seq<char>,
    term: Term,
)
    requires
        !mentions(expr, name),
    ensures
        denote(scope.insert(name, term), attributes, expr) == denote(scope, attributes, expr),
    decreases expr,
{
    match expr {
        Expr::Binary { left, op, right } => {
            lemma_unread_binding(scope, attributes, *left, name, term);
            lemma_unread_binding(scope, attributes, *right, name, term);
        },
        Expr::Paren(inner) => {
            lemma_unread_binding(scope, attributes, *inner, name, term);
        },
        Expr::Unary { op, operand } => {
            lemma_unread_binding(scope, attributes, *operand, name, term);
        },
        Expr::Cast { operand, target } => {
            lemma_unread_binding(scope, attributes, *operand, name, term);
        },
        Expr::MethodCall { receiver, method, arguments } => {
            lemma_unread_binding(scope, attributes, *receiver, name, term);
            match arguments {
                Arguments::One(argument) => {
                    lemma_unread_binding(scope, attributes, *argument, name, term);
                },
                _ => {},
            }
        },
        Expr::Call { function, arguments } => {
            match arguments {
                Arguments::One(argument) => {
                    lemma_unread_binding(scope, attributes, *argument, name, term);
                },
                _ => {},
            }
        },
        Expr::Return(value) => {
            match value {
                Some(inner) => {
                    lemma_unread_binding(scope, attributes, *inner, name, term);
                },
                None => {},
            }
        },
        _ => {},
    }
}

/// Whether the statements at `k` and `k + 1` are `let` bindings of different names
/// of which neither reads the name that the other binds.
pub open spec fn independent(body: Seq<Stmt>, k: int) -> bool {
    &&& 0 <= k
    &&& k + 1 < body.len()
    &&& unrelated(body[k], body[k + 1])
}

/// Whether the two statements are `let` bindings of different names of which
/// neither reads the name that the other binds.
pub open spec fn unrelated(first: Stmt, second: Stmt) -> bool {
    &&& first matches Stmt::Local { name: Some(one), init: Some(one_init) }
    &&& second matches Stmt::Local { name: Some(other), init: Some(other_init) }
    &&& one@ != other@
    &&& !mentions(one_init, other@)
    &&& !mentions(other_init, one@)
}

/// The body with the statements at `k` and `k + 1` exchanged.
pub open spec fn swapped(body: Seq<Stmt>, k: int) -> Seq<Stmt> {
    body.update(k, body[k + 1]).update(k + 1, body[k])
}

proof fn lemma_same_suffix(
    scope: Map<Seq<char>, Term>,
    attributes: Seq<Attribute>,
    first: Seq<Stmt>,
    second: Seq<Stmt>,
    from: int,
)
    requires
        first.len() == second.len(),
        forall|i: int| from <= i < first.len() ==> first[i] == second[i],
    ensures
        denote_body(scope, attributes, first, from) == denote_body(
            scope,
            attributes,
            second,
            from,
        ),
    decreases first.len() - from,
{
    if 0 <= from < first.len() {
        match first[from] {
            Stmt::Local { name: Some(name), init: Some(init) } => {
                if let Some(term) = denote(scope, attributes, init) {
                    lemma_same_suffix(
                        scope.insert(name@, term),
                        attributes,
                        first,
                        second,
                        from + 1,
                    );
                }
            },
            _ => {},
        }
    }
}

/// Exchanging two independent neighbouring bindings does not change the tree that
/// the body stands for.
pub proof fn lemma_swap_denotes(
    scope: Map<Seq<char>, Term>,
    attributes: Seq<Attribute>,
    body: Seq<Stmt>,
    k: int,
    from: int,
)
    requires
        independent(body, k),
        0 <= from <= k,
    ensures
        denote_body(scope, attributes, swapped(body, k), from) == denote_body(
            scope,
            attributes,
            body,
            from,
        ),
    decreases k - from,
{
    let other = swapped(body, k);
    if from < k {
        assert(other[from] == body[from]);
        match body[from] {
            Stmt::Local { name: Some(name), init: Some(init) } => {
                if let Some(term) = denote(scope, attributes, init) {
                    lemma_swap_denotes(scope.insert(name@, term), attributes, body, k, from + 1);
                }
            },
            _ => {},
        }
    } else {
        let first = body[k]->Local_name->Some_0;
        let first_init = body[k]->Local_init->Some_0;
        let second = body[k + 1]->Local_name->Some_0;
        let second_init = body[k + 1]->Local_init->Some_0;
        assert(other[k] == body[k + 1]);
        assert(other[k + 1] == body[k]);
        let first_term = denote(scope, attributes, first_init);
        let second_term = denote(scope, attributes, second_init);
        if let Some(one) = first_term {
            lemma_unread_binding(scope, attributes, second_init, first@, one);
        }
        if let Some(two) = second_term {
            lemma_unread_binding(scope, attributes, first_init, second@, two);
        }
        if let (Some(one), Some(two)) = (first_term, second_term) {
            let this_way = scope.insert(first@, one).insert(second@, two);
            let that_way = scope.insert(second@, two).insert(first@, one);
            assert(this_way =~= that_way);
            lemma_same_suffix(this_way, attributes, body, other, k + 2);
            assert(denote_body(scope.insert(first@, one), attributes, body, k + 1)
                == denote_body(this_way, attributes, body, k + 2));
            assert(denote_body(scope.insert(second@, two), attributes, other, k + 1)
                == denote_body(that_way, attributes, other, k + 2));
        }
    }
}

/// Exchanging two independent neighbouring `let` bindings of a function leaves the
/// graph of the function the same but for the numbering of its nodes: where both
/// orders can be built, the two roots unfold to the same tree, and the two forward
/// passes bind the same trees in the same order.
pub proof fn lemma_bindings_commute(record: Record, first: Function, second: Function, k: int)
    requires
        first.inputs == second.inputs,
        independent(first.body@, k),
        second.body@ == swapped(first.body@, k),
        built_graph(record, first) is Ok,
        built_graph(record, second) is Ok,
        built_graph(record, first)->Ok_0.0.len() <= usize::MAX,
        built_graph(record, second)->Ok_0.0.len() <= usize::MAX,
    ensures
        unfold(built_graph(record, first)->Ok_0.0, built_graph(record, first)->Ok_0.1) == unfold(
            built_graph(record, second)->Ok_0.0,
            built_graph(record, second)->Ok_0.1,
        ),
        same_trees(
            built_graph(record, first)->Ok_0.0,
            topological_order(
                built_graph(record, first)->Ok_0.0,
                built_graph(record, first)->Ok_0.1,
            ),
            built_graph(record, second)->Ok_0.0,
            topological_order(
                built_graph(record, second)->Ok_0.0,
                built_graph(record, second)->Ok_0.1,
            ),
        ),
{
    lemma_built_graph_denotes(record, first);
    lemma_built_graph_denotes(record, second);
    lemma_bindings_commute_trees(record, first, second, k);
    lemma_same_tree_same_schedule(
        built_graph(record, first)->Ok_0.0,
        built_graph(record, first)->Ok_0.1,
        built_graph(record, second)->Ok_0.0,
        built_graph(record, second)->Ok_0.1,
    );
}

proof fn lemma_bindings_commute_trees(record: Record, first: Function, second: Function, k: int)
    requires
        first.inputs == second.inputs,
        independent(first.body@, k),
        second.body@ == swapped(first.body@, k),
        built_graph(record, first) is Ok,
        built_graph(record, second) is Ok,
        built_graph(record, first)->Ok_0.0.len() <= usize::MAX,
        built_graph(record, second)->Ok_0.0.len() <= usize::MAX,
    ensures
        unfold(built_graph(record, first)->Ok_0.0, built_graph(record, first)->Ok_0.1) == unfold(
            built_graph(record, second)->Ok_0.0,
            built_graph(record, second)->Ok_0.1,
        ),
{
    lemma_built_graph_denotes(record, first);
    lemma_built_graph_denotes(record, second);
    assert(verified_types(record, first) == verified_types(record, second));
    lemma_swap_denotes(
        Map::empty(),
        verified_types(record, first)->Ok_0,
        first.body@,
        k,
        0,
    );
}

/// Whether `second` holds the statements of `first` in another order, statement `i`
/// of `first` at position `to[i]`, such that only unrelated statements have changed
/// their order: no binding was moved across one that it reads or that reads it, and
/// nothing was moved across the statement that gives the result.
pub open spec fn reordered(first: Seq<Stmt>, second: Seq<Stmt>, to: Seq<int>) -> bool {
    &&& first.len() == to.len()
    &&& second.len() == to.len()
    &&& forall|i: int|
        0 <= i < to.len() ==> 0 <= #[trigger] to[i] < to.len() && second[to[i]] == first[i]
    &&& forall|i: int, j: int| 0 <= i < j < to.len() ==> #[trigger] to[i] != #[trigger] to[j]
    &&& forall|i: int, j: int|
        0 <= i < j < to.len() && #[trigger] to[i] > #[trigger] to[j] ==> unrelated(
            first[i],
            first[j],
        )
}

proof fn lemma_bounded_ints(places: Seq<int>, bound: int)
    requires
        forall|k: int| 0 <= k < places.len() ==> 0 <= #[trigger] places[k] < bound,
        forall|j: int, k: int| 0 <= j < k < places.len() ==> places[j] != places[k],
    ensures
        places.len() <= bound || places.len() == 0,
    decreases places.len(),
{
    if places.len() > 0 {
        let last = places.last();
        let rest = places.drop_last();
        let moved = Seq::new(
            rest.len(),
            |k: int|
                if rest[k] > last {
                    rest[k] - 1
                } else {
                    rest[k]
                },
        );
        assert forall|k: int| 0 <= k < moved.len() implies 0 <= #[trigger] moved[k] < bound
            - 1 by {
            assert(rest[k] == places[k]);
            assert(places[k] != places[places.len() - 1]);
        }
        assert forall|j: int, k: int| 0 <= j < k < moved.len() implies moved[j] != moved[k] by {
            assert(rest[j] == places[j] && rest[k] == places[k]);
            assert(places[j] != places[k]);
            assert(places[j] != places[places.len() - 1]);
            assert(places[k] != places[places.len() - 1]);
        }
        lemma_bounded_ints(moved, bound - 1);
    }
}

/// An order of the positions holds every position.
proof fn lemma_source(to: Seq<int>, wanted: int) -> (at: int)
    requires
        0 <= wanted < to.len(),
        forall|k: int| 0 <= k < to.len() ==> 0 <= #[trigger] to[k] < to.len(),
        forall|j: int, k: int| 0 <= j < k < to.len() ==> to[j] != to[k],
    ensures
        0 <= at < to.len(),
        to[at] == wanted,
{
    if exists|k: int| 0 <= k < to.len() && to[k] == wanted {
        choose|k: int| 0 <= k < to.len() && to[k] == wanted
    } else {
        let moved = Seq::new(
            to.len(),
            |k: int|
                if to[k] > wanted {
                    to[k] - 1
                } else {
                    to[k]
                },
        );
        assert forall|k: int| 0 <= k < moved.len() implies 0 <= #[trigger] moved[k] < to.len()
            - 1 by {
            assert(0 <= to[k] < to.len());
        }
        assert forall|j: int, k: int| 0 <= j < k < moved.len() implies moved[j] != moved[k] by {
            assert(to[j] != to[k]);
        }
        lemma_bounded_ints(moved, to.len() - 1);
        0
    }
}

proof fn lemma_shift(
    scope: Map<Seq<char>, Term>,
    attributes: Seq<Attribute>,
    head: Stmt,
    rest: Seq<Stmt>,
    from: int,
)
    requires
        0 <= from,
    ensures
        denote_body(scope, attributes, seq![head] + rest, from + 1) == denote_body(
            scope,
            attributes,
            rest,
            from,
        ),
    decreases rest.len() - from,
{
    let whole = seq![head] + rest;
    if from < rest.len() {
        assert(whole[from + 1] == rest[from]);
        match rest[from] {
            Stmt::Local { name: Some(name), init: Some(init) } => {
                if let Some(term) = denote(scope, attributes, init) {
                    lemma_shift(scope.insert(name@, term), attributes, head, rest, from + 1);
                }
            },
            _ => {},
        }
    }
}

/// The body with the statement at `k` moved to the front.
pub open spec fn fronted(body: Seq<Stmt>, k: int) -> Seq<Stmt> {
    seq![body[k]] + body.remove(k)
}

/// Moving a binding to the front across bindings that are unrelated to it does not
/// change the tree that the body stands for.
proof fn lemma_front(
    scope: Map<Seq<char>, Term>,
    attributes: Seq<Attribute>,
    body: Seq<Stmt>,
    k: int,
)
    requires
        0 <= k < body.len(),
        forall|i: int| 0 <= i < k ==> unrelated(#[trigger] body[i], body[k]),
    ensures
        denote_body(scope, attributes, fronted(body, k), 0) == denote_body(
            scope,
            attributes,
            body,
            0,
        ),
    decreases k,
{
    if k == 0 {
        assert(fronted(body, 0) =~= body);
    } else {
        let other = swapped(body, k - 1);
        assert(unrelated(body[k - 1], body[k]));
        lemma_swap_denotes(scope, attributes, body, k - 1, 0);
        assert forall|i: int| 0 <= i < k - 1 implies unrelated(#[trigger] other[i], other[k - 1]) by {
            assert(other[i] == body[i]);
            assert(unrelated(body[i], body[k]));
        }
        lemma_front(scope, attributes, other, k - 1);
        assert(fronted(other, k - 1) =~= fronted(body, k));
    }
}

/// Two bodies that begin with the same statement and go on to stand for the same
/// tree, whatever the first statement binds, stand for the same tree.
proof fn lemma_same_head(
    scope: Map<Seq<char>, Term>,
    attributes: Seq<Attribute>,
    head: Stmt,
    first: Seq<Stmt>,
    second: Seq<Stmt>,
)
    requires
        first.len() == second.len(),
        first.len() == 0 ==> first == second,
        head matches Stmt::Local { name: Some(name), init: Some(init) } ==> (denote(
            scope,
            attributes,
            init,
        ) matches Some(term) ==> denote_body(scope.insert(name@, term), attributes, first, 0)
            == denote_body(scope.insert(name@, term), attributes, second, 0)),
    ensures
        denote_body(scope, attributes, seq![head] + first, 0) == denote_body(
            scope,
            attributes,
            seq![head] + second,
            0,
        ),
{
    let one = seq![head] + first;
    let other = seq![head] + second;
    assert(one[0] == head && other[0] == head);
    match head {
        Stmt::Local { name: Some(name), init: Some(init) } => {
            if let Some(term) = denote(scope, attributes, init) {
                lemma_shift(scope.insert(name@, term), attributes, head, first, 0);
                lemma_shift(scope.insert(name@, term), attributes, head, second, 0);
            }
        },
        _ => {},
    }
}

/// Reordering the statements of a body so that only unrelated bindings change their
/// order does not change the tree that the body stands for.
pub proof fn lemma_reorder_denotes(
    scope: Map<Seq<char>, Term>,
    attributes: Seq<Attribute>,
    first: Seq<Stmt>,
    second: Seq<Stmt>,
    to: Seq<int>,
)
    requires
        reordered(first, second, to),
    ensures
        denote_body(scope, attributes, first, 0) == denote_body(scope, attributes, second, 0),
    decreases to.len(),
{
    if to.len() == 0 {
        assert(first =~= second);
    } else {
        let k = lemma_source(to, 0);
        let head = first[k];
        let first_rest = first.remove(k);
        let second_rest = second.skip(1);
        let shifted = Seq::new(
            (to.len() - 1) as nat,
            |i: int|
                if i < k {
                    to[i] - 1
                } else {
                    to[i + 1] - 1
                },
        );
        assert(second[to[k]] == first[k]);
        assert(seq![head] + second_rest =~= second);
        assert forall|i: int| 0 <= i < k implies unrelated(#[trigger] first[i], first[k]) by {
            assert(to[i] != to[k]);
            assert(to[i] > to[k]);
        }
        lemma_front(scope, attributes, first, k);
        assert(reordered(first_rest, second_rest, shifted)) by {
            assert forall|i: int| 0 <= i < shifted.len() implies 0 <= #[trigger] shifted[i]
                < shifted.len() && second_rest[shifted[i]] == first_rest[i] by {
                let j = if i < k {
                    i
                } else {
                    i + 1
                };
                assert(0 <= to[j] < to.len() && second[to[j]] == first[j]);
                if j < k {
                    assert(to[j] != to[k]);
                } else {
                    assert(to[k] != to[j]);
                }
            }
            assert forall|i: int, j: int| 0 <= i < j < shifted.len() implies #[trigger] shifted[i]
                != #[trigger] shifted[j] by {
                let a = if i < k {
                    i
                } else {
                    i + 1
                };
                let b = if j < k {
                    j
                } else {
                    j + 1
                };
                assert(to[a] != to[b]);
            }
            assert forall|i: int, j: int|
                0 <= i < j < shifted.len() && #[trigger] shifted[i]
                    > #[trigger] shifted[j] implies unrelated(first_rest[i], first_rest[j]) by {
                let a = if i < k {
                    i
                } else {
                    i + 1
                };
                let b = if j < k {
                    j
                } else {
                    j + 1
                };
                assert(to[a] > to[b]);
                assert(unrelated(first[a], first[b]));
            }
        }
        match head {
            Stmt::Local { name: Some(name), init: Some(init) } => {
                if let Some(term) = denote(scope, attributes, init) {
                    lemma_reorder_denotes(
                        scope.insert(name@, term),
                        attributes,
                        first_rest,
                        second_rest,
                        shifted,
                    );
                }
            },
            _ => {},
        }
        if first_rest.len() == 0 {
            assert(first_rest =~= second_rest);
        }
        lemma_same_head(scope, attributes, head, first_rest, second_rest);
    }
}

/// Permutation closure: two functions that differ only in the order of their
/// statements, where only unrelated bindings have changed their order, have the same
/// graph but for the numbering of its nodes.  Where both can be built, the two roots
/// unfold to the same tree, and pairing the two schedules position by position maps
/// root to root and every node to a node of the same variant, operator and value
/// whose operands are paired in the same order.
pub proof fn lemma_reordering(record: Record, first: Function, second: Function, to: Seq<int>)
    requires
        first.inputs == second.inputs,
        reordered(first.body@, second.body@, to),
        built_graph(record, first) is Ok,
        built_graph(record, second) is Ok,
        built_graph(record, first)->Ok_0.0.len() <= usize::MAX,
        built_graph(record, second)->Ok_0.0.len() <= usize::MAX,
    ensures
        unfold(built_graph(record, first)->Ok_0.0, built_graph(record, first)->Ok_0.1) == unfold(
            built_graph(record, second)->Ok_0.0,
            built_graph(record, second)->Ok_0.1,
        ),
        isomorphic(
            built_graph(record, first)->Ok_0.0,
            built_graph(record, first)->Ok_0.1,
            built_graph(record, second)->Ok_0.0,
            built_graph(record, second)->Ok_0.1,
        ),
{
    lemma_built_graph_denotes(record, first);
    lemma_built_graph_denotes(record, second);
    assert(verified_types(record, first) == verified_types(record, second));
    lemma_reorder_denotes(
        Map::empty(),
        verified_types(record, first)->Ok_0,
        first.body@,
        second.body@,
        to,
    );
    lemma_same_tree_isomorphic(
        built_graph(record, first)->Ok_0.0,
        built_graph(record, first)->Ok_0.1,
        built_graph(record, second)->Ok_0.0,
        built_graph(record, second)->Ok_0.1,
    );
}

} // verus!
