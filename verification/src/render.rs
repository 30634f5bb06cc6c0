//! The serializer: writes statements out as type definitions.

use crate::ast::{
    intermediate_name, intermediate_name_string, node_views, statement_views, tag_name,
    tag_name_string, Ast, AstView, Node, NodeView, Statement, StatementView,
};
use crate::text::{trim, trimmed};
use vstd::prelude::*;
use vstd::string::*;

verus! {

/// The text of a node.
///
/// A reference to a repetition is a list of its helper type; a choice is its
/// alternatives one after the other; a sequence is a tuple; a terminal is its name.
pub open spec fn render_node(node: NodeView) -> Seq<char>
    decreases node,
{
    match node {
        NodeView::Intermediate(id) => "list("@ + intermediate_name(id) + ") "@,
        NodeView::IntermediateChoice(base, members) => render_choices(members, base),
        NodeView::IntermediateSeq(members) => "("@ + render_members(members) + ")"@,
        NodeView::Leaf(name) => name,
    }
}

/// The alternatives of a choice: each on a line of its own, tagged with `base` plus its
/// position, its text in parentheses.
pub open spec fn render_choices(members: Seq<NodeView>, base: nat) -> Seq<char>
    decreases members,
{
    if members.len() == 0 {
        Seq::empty()
    } else {
        render_choices(members.drop_last(), base) + "\n\t| "@ + tag_name(
            (base + members.len() - 1) as nat,
        ) + "("@ + render_node(members.last()) + ")"@
    }
}

/// The members of a sequence, separated by a comma and a space.
pub open spec fn render_members(members: Seq<NodeView>) -> Seq<char>
    decreases members,
{
    if members.len() == 0 {
        Seq::empty()
    } else {
        render_members(members.drop_last()) + (if members.len() > 1 {
            ", "@
        } else {
            Seq::empty()
        }) + render_node(members.last())
    }
}

/// The clause of a statement: its name, ` = `, the text of its node, and a line break.
pub open spec fn render_statement(statement: StatementView) -> Seq<char> {
    statement.name + " = "@ + render_node(statement.node) + "\n"@
}

/// The clauses of the statements, one on each line, each but the first introduced by
/// `and `.
pub open spec fn render_statements(statements: Seq<StatementView>) -> Seq<char>
    decreases statements.len(),
{
    if statements.len() == 0 {
        Seq::empty()
    } else {
        render_statements(statements.drop_last()) + (if statements.len() > 1 {
            "and "@
        } else {
            Seq::empty()
        }) + render_statement(statements.last())
    }
}

/// The whole output: `type `, the clauses without the white space around them, and `;`.
/// For the statements `a = b` and `c = d` that is `type a = b`, a line break, and
/// `and c = d;`.
pub open spec fn render_ast(ast: AstView) -> Seq<char> {
    "type "@ + trim(render_statements(ast.statements)) + ";"@
}

/// Writes a node out.
pub fn node_to_string(node: &Node) -> (text: String)
    ensures
        text@ == render_node(node@),
    decreases node,
{
    match node {
        Node::Intermediate(id) => {
            let mut out = String::from_str("list(");
            let name = intermediate_name_string(*id);
            out.append(name.as_str());
            out.append(") ");
            out
        },
        Node::IntermediateChoice(base, members) => {
            proof {
                Node::lemma_choice_view(*base, *members);
            }
            let mut out = String::new();
            let mut i: usize = 0;
            while i < members.len()
                invariant
                    i <= members.len(),
                    *node == Node::IntermediateChoice(*base, *members),
                    out@ == render_choices(node_views(members@.take(i as int)), *base as nat),
                decreases members.len() - i,
            {
                proof {
                    let next = node_views(members@.take(i + 1));
                    assert(next.drop_last() =~= node_views(members@.take(i as int)));
                    assert(next.last() == members@[i as int]@);
                    assert(decreases_to!(node => node->IntermediateChoice_1));
                }
                out.append("\n\t| ");
                let tag = tag_name_string(*base as u128 + i as u128);
                out.append(tag.as_str());
                out.append("(");
                let inner = node_to_string(&members[i]);
                out.append(inner.as_str());
                out.append(")");
                i += 1;
            }
            assert(members@.take(i as int) =~= members@);
            out
        },
        Node::IntermediateSeq(members) => {
            proof {
                Node::lemma_seq_view(*members);
            }
            let mut out = String::new();
            let mut i: usize = 0;
            while i < members.len()
                invariant
                    i <= members.len(),
                    *node == Node::IntermediateSeq(*members),
                    out@ == render_members(node_views(members@.take(i as int))),
                decreases members.len() - i,
            {
                proof {
                    let next = node_views(members@.take(i + 1));
                    assert(next.drop_last() =~= node_views(members@.take(i as int)));
                    assert(next.last() == members@[i as int]@);
                    assert(decreases_to!(node => node->IntermediateSeq_0));
                }
                if i > 0 {
                    out.append(", ");
                }
                let inner = node_to_string(&members[i]);
                out.append(inner.as_str());
                i += 1;
            }
            assert(members@.take(i as int) =~= members@);
            let mut text = String::from_str("(");
            text.append(out.as_str());
            text.append(")");
            text
        },
        Node::Leaf(name) => name.to_string(),
    }
}

/// Writes the clause of a statement out.
pub fn statement_to_string(statement: &Statement) -> (text: String)
    ensures
        text@ == render_statement(statement@),
{
    let mut out = statement.get_name();
    out.append(" = ");
    let node = node_to_string(statement.get_node());
    out.append(node.as_str());
    out.append("\n");
    out
}

/// Writes the clauses of all the statements out, before anything is trimmed.
pub fn statements_to_string(statements: &Vec<Statement>) -> (text: String)
    ensures
        text@ == render_statements(statement_views(statements@)),
{
    let mut out = String::new();
    let mut i: usize = 0;
    while i < statements.len()
        invariant
            i <= statements.len(),
            out@ == render_statements(statement_views(statements@.take(i as int))),
        decreases statements.len() - i,
    {
        proof {
            let next = statement_views(statements@.take(i + 1));
            assert(next.drop_last() =~= statement_views(statements@.take(i as int)));
            assert(next.last() == statements@[i as int]@);
        }
        if i > 0 {
            out.append("and ");
        }
        let clause = statement_to_string(&statements[i]);
        out.append(clause.as_str());
        i += 1;
    }
    assert(statements@.take(i as int) =~= statements@);
    out
}

/// Writes the whole definition block out.
pub fn ast_to_string(ast: Ast) -> (text: String)
    ensures
        text@ == render_ast(ast@),
{
    let body = statements_to_string(ast.get_statements());
    let inner = trimmed(body.as_str());
    let mut out = String::from_str("type ");
    out.append(inner.as_str());
    out.append(";");
    out
}

} // verus!
