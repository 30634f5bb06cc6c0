//! Placement: moves each synthesized helper statement into the statement list, behind
//! the first statement that refers to it.

use crate::ast::{
    intermediate_name, intermediate_name_string, node_views, statement_views, Node, NodeView,
    Statement, StatementView,
};
use vstd::prelude::*;

verus! {

/// Whether a node tree refers to the helper statement called `name`: whether some
/// reference in it, at any depth below choices and sequences, carries the id whose
/// helper name is `name`.
pub open spec fn uses(name: Seq<char>, node: NodeView) -> bool
    decreases node,
{
    match node {
        NodeView::Intermediate(id) => name == intermediate_name(id),
        NodeView::IntermediateChoice(_, members) => uses_any(name, members),
        NodeView::IntermediateSeq(members) => uses_any(name, members),
        NodeView::Leaf(_) => false,
    }
}

/// Whether one of the nodes refers to the helper statement called `name`.
pub open spec fn uses_any(name: Seq<char>, nodes: Seq<NodeView>) -> bool
    decreases nodes,
{
    nodes.len() > 0 && (uses_any(name, nodes.drop_last()) || uses(name, nodes.last()))
}

/// One of the nodes refers to `name` exactly if the node at some position does.
pub proof fn lemma_uses_any(name: Seq<char>, nodes: Seq<NodeView>)
    ensures
        uses_any(name, nodes) <==> exists|i: int|
            0 <= i < nodes.len() && uses(name, #[trigger] nodes[i]),
    decreases nodes.len(),
{
    if nodes.len() > 0 {
        let front = nodes.drop_last();
        lemma_uses_any(name, front);
        if uses_any(name, front) {
            let i = choose|i: int| 0 <= i < front.len() && uses(name, #[trigger] front[i]);
            assert(front[i] == nodes[i]);
        } else if uses(name, nodes.last()) {
            assert(uses(name, nodes[nodes.len() - 1]));
        } else {
            assert forall|i: int| 0 <= i < nodes.len() implies !uses(name, #[trigger] nodes[i]) by {
                if i < front.len() {
                    assert(front[i] == nodes[i]);
                }
            }
        }
    }
}

/// The position of the first statement whose node tree refers to `name`, if there is
/// one.
pub open spec fn first_use(name: Seq<char>, statements: Seq<StatementView>) -> Option<int>
    decreases statements.len(),
{
    if statements.len() == 0 {
        None
    } else {
        match first_use(name, statements.drop_last()) {
            Some(p) => Some(p),
            None => if uses(name, statements.last().node) {
                Some(statements.len() - 1)
            } else {
                None
            },
        }
    }
}

/// `first_use` finds a statement that refers to `name` and that no referring statement
/// precedes; it finds none only if no statement refers to `name`.
pub proof fn lemma_first_use(name: Seq<char>, statements: Seq<StatementView>)
    ensures
        match first_use(name, statements) {
            Some(p) => {
                &&& 0 <= p < statements.len()
                &&& uses(name, statements[p].node)
                &&& forall|j: int| 0 <= j < p ==> !uses(name, (#[trigger] statements[j]).node)
            },
            None => forall|j: int|
                0 <= j < statements.len() ==> !uses(name, (#[trigger] statements[j]).node),
        },
    decreases statements.len(),
{
    if statements.len() > 0 {
        let front = statements.drop_last();
        lemma_first_use(name, front);
        assert forall|j: int| 0 <= j < front.len() implies front[j] == statements[j] by {}
    }
}

/// The list with `statement` behind the first statement that refers to it, or the list
/// as it is where none does: the statement is dropped then.
///
/// The drop is silent, and it is suspect: it looks like an oversight rather than a
/// policy, since nothing tells the caller that a definition was left out. It is kept
/// because output that exists depends on it. A caller who must know compares the
/// lengths of the list before and after.
pub open spec fn place_one(
    statements: Seq<StatementView>,
    statement: StatementView,
) -> Seq<StatementView> {
    match first_use(statement.name, statements) {
        Some(p) => statements.insert(p + 1, statement),
        None => statements,
    }
}

/// The list after the pending statements were placed, the last synthesized first, each
/// into the list as the ones before it left it.
pub open spec fn place(
    pending: Seq<StatementView>,
    statements: Seq<StatementView>,
) -> Seq<StatementView>
    decreases pending.len(),
{
    if pending.len() == 0 {
        statements
    } else {
        place(pending.drop_last(), place_one(statements, pending.last()))
    }
}

/// Tells whether one of the nodes refers to the helper statement called `name`.
fn is_intermediate_used_in(name: &String, nodes: &Vec<Node>) -> (used: bool)
    ensures
        used == uses_any(name@, node_views(nodes@)),
    decreases nodes, 0nat,
{
    let mut i: usize = 0;
    while i < nodes.len()
        invariant
            i <= nodes.len(),
            !uses_any(name@, node_views(nodes@.take(i as int))),
        decreases nodes.len() - i,
    {
        if is_intermediate_used(name, &nodes[i]) {
            proof {
                let all = node_views(nodes@);
                lemma_uses_any(name@, all);
                assert(all[i as int] == nodes@[i as int]@);
            }
            return true;
        }
        proof {
            let next = node_views(nodes@.take(i + 1));
            assert(next.drop_last() =~= node_views(nodes@.take(i as int)));
            assert(next.last() == nodes@[i as int]@);
        }
        i += 1;
    }
    assert(nodes@.take(i as int) =~= nodes@);
    false
}

/// Tells whether a node tree refers to the helper statement called `name`.
pub fn is_intermediate_used(name: &String, n: &Node) -> (used: bool)
    ensures
        used == uses(name@, n@),
    decreases n, 1nat,
{
    match n {
        Node::Intermediate(id) => {
            let helper = intermediate_name_string(*id);
            *name == helper
        },
        Node::IntermediateChoice(base, members) => {
            proof {
                Node::lemma_choice_view(*base, *members);
                assert(decreases_to!(n => n->IntermediateChoice_1));
            }
            is_intermediate_used_in(name, members)
        },
        Node::IntermediateSeq(members) => {
            proof {
                Node::lemma_seq_view(*members);
                assert(decreases_to!(n => n->IntermediateSeq_0));
            }
            is_intermediate_used_in(name, members)
        },
        Node::Leaf(_) => false,
    }
}

/// Finds the place for the helper statement called `name`: one past the position of the
/// first statement that refers to it, or `None` where no statement does.
pub fn get_pos_statement(name: String, st: &Vec<Statement>) -> (pos: Option<usize>)
    ensures
        match pos {
            Some(p) => first_use(name@, statement_views(st@)) == Some(p - 1),
            None => first_use(name@, statement_views(st@)) is None,
        },
{
    let mut i: usize = 0;
    while i < st.len()
        invariant
            i <= st.len(),
            first_use(name@, statement_views(st@.take(i as int))) is None,
        decreases st.len() - i,
    {
        proof {
            let next = statement_views(st@.take(i + 1));
            assert(next.drop_last() =~= statement_views(st@.take(i as int)));
            assert(next.last() == st@[i as int]@);
        }
        if is_intermediate_used(&name, st[i].get_node()) {
            proof {
                lemma_first_use_prefix(name@, statement_views(st@), i + 1);
                assert(statement_views(st@).take(i + 1) =~= statement_views(st@.take(i + 1)));
            }
            return Some(i + 1);
        }
        i += 1;
    }
    assert(st@.take(i as int) =~= st@);
    None
}

/// What `first_use` finds in a prefix of a list, it finds in the list.
proof fn lemma_first_use_prefix(name: Seq<char>, statements: Seq<StatementView>, k: int)
    requires
        0 <= k <= statements.len(),
        first_use(name, statements.take(k)) is Some,
    ensures
        first_use(name, statements) == first_use(name, statements.take(k)),
    decreases statements.len() - k,
{
    if k == statements.len() {
        assert(statements.take(k) =~= statements);
    } else {
        assert(statements.drop_last().take(k) =~= statements.take(k));
        lemma_first_use_prefix(name, statements.drop_last(), k);
    }
}

/// Places the pending statements into `statements`, the last synthesized first.
///
/// Each goes behind the first statement of the list, as it then is, that refers to it.
/// One that no statement refers to is dropped without notice. That is suspect (see
/// [`place_one`]); the conversion of a grammar never gets there, since each helper it
/// synthesizes is referred to.
pub fn place_statements(pending: Vec<Statement>, statements: &mut Vec<Statement>)
    ensures
        statement_views(final(statements)@) == place(
            statement_views(pending@),
            statement_views(old(statements)@),
        ),
{
    let mut pending = pending;
    let ghost goal = place(statement_views(pending@), statement_views(statements@));
    while pending.len() > 0
        invariant
            place(statement_views(pending@), statement_views(statements@)) == goal,
        decreases pending@.len(),
    {
        let ghost waiting = statement_views(pending@);
        let ghost held = statements@;
        let el = pending.pop().unwrap();
        proof {
            assert(statement_views(pending@) =~= waiting.drop_last());
            assert(waiting.last() == el@);
            lemma_first_use(el@.name, statement_views(held));
        }
        match get_pos_statement(el.get_name(), statements) {
            Some(x) => {
                statements.insert(x, el);
                assert(statement_views(held.insert(x as int, el)) =~= statement_views(
                    held,
                ).insert(x as int, el@));
            },
            None => {},
        }
    }
}

} // verus!
