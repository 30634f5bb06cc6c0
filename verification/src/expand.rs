//! The expander: turns a rule body into a node tree and synthesizes a helper statement
//! for every repetition.

use crate::ast::{
    intermediate_name, intermediate_name_string, node_views, statement_views, Name, Node,
    NodeView, Statement, StatementView,
};
use crate::grammar::{
    all_well_formed, body_views, is_well_formed, lemma_all_well_formed, well_formed, RuleBody,
    RuleBodyView,
};
use vstd::pervasive::unreached;
use vstd::prelude::*;

verus! {

/// Why a rule body cannot be expanded.
#[derive(Debug, Clone, Copy, PartialEq, Eq, Structural)]
pub enum ConvertError {
    /// Some body carries no content.
    MissingContent,
    /// The ids of the repetitions or of the alternatives would not fit in 32 bits.
    IdOverflow,
}

/// The number of repetitions in a body: each takes one repetition id.
pub open spec fn repeat_count(body: RuleBodyView) -> nat
    decreases body,
{
    match body {
        RuleBodyView::Repeat(Some(inner)) => repeat_count(*inner) + 1,
        RuleBodyView::Choice(Some(members)) => repeat_count_all(members),
        RuleBodyView::Sequence(Some(members)) => repeat_count_all(members),
        _ => 0,
    }
}

/// The number of repetitions in a list of bodies.
pub open spec fn repeat_count_all(bodies: Seq<RuleBodyView>) -> nat
    decreases bodies,
{
    if bodies.len() == 0 {
        0
    } else {
        repeat_count_all(bodies.drop_last()) + repeat_count(bodies.last())
    }
}

/// The number of alternatives of all the choices in a body: each takes one choice id.
pub open spec fn choice_count(body: RuleBodyView) -> nat
    decreases body,
{
    match body {
        RuleBodyView::Repeat(Some(inner)) => choice_count(*inner),
        RuleBodyView::Choice(Some(members)) => members.len() + choice_count_all(members),
        RuleBodyView::Sequence(Some(members)) => choice_count_all(members),
        _ => 0,
    }
}

/// The number of alternatives of all the choices in a list of bodies.
pub open spec fn choice_count_all(bodies: Seq<RuleBodyView>) -> nat
    decreases bodies,
{
    if bodies.len() == 0 {
        0
    } else {
        choice_count_all(bodies.drop_last()) + choice_count(bodies.last())
    }
}

/// What the expansion of one body yields: its node, the helper statements it
/// synthesized, in the order of their synthesis, and the two counters after it.
pub struct Expansion {
    pub node: NodeView,
    pub pending: Seq<StatementView>,
    pub id_int: nat,
    pub id_choice: nat,
}

/// What the expansion of a list of bodies yields.
pub struct Expansions {
    pub nodes: Seq<NodeView>,
    pub pending: Seq<StatementView>,
    pub id_int: nat,
    pub id_choice: nat,
}

/// The expansion of a well-formed body, with the counters at `id_int` and `id_choice`.
///
/// - A repetition expands its inner body, takes the next repetition id, synthesizes the
///   statement `Intermediate<id>` for the inner node and stands for a reference to it.
/// - A choice remembers the choice counter, then advances it by one before each
///   alternative; its node holds the remembered id.
///   The ids of a choice are therefore not its own alone. A choice that stands directly
///   as an alternative of another starts one past the tag of that alternative, at the
///   id by which the outer choice tags its next alternative: the outer choice, from 0,
///   tags its alternatives 0 and 1, and a choice that is its first alternative tags its
///   own 1 and 2, so the tag 1 is written twice. This is suspect, since an id is meant
///   to be used once, but the tags have always been numbered so and output that exists
///   depends on it.
/// - A sequence expands its members in order.
/// - A terminal becomes a leaf.
pub open spec fn expansion(body: RuleBodyView, id_int: nat, id_choice: nat) -> Expansion
    decreases body,
{
    match body {
        RuleBodyView::Repeat(Some(inner)) => {
            let e = expansion(*inner, id_int, id_choice);
            let id = e.id_int + 1;
            Expansion {
                node: NodeView::Intermediate(id),
                pending: e.pending.push(
                    StatementView { name: intermediate_name(id), node: e.node },
                ),
                id_int: id,
                id_choice: e.id_choice,
            }
        },
        RuleBodyView::Choice(Some(members)) => {
            let e = expansions(members, id_int, id_choice, 1);
            Expansion {
                node: NodeView::IntermediateChoice(id_choice, e.nodes),
                pending: e.pending,
                id_int: e.id_int,
                id_choice: e.id_choice,
            }
        },
        RuleBodyView::Sequence(Some(members)) => {
            let e = expansions(members, id_int, id_choice, 0);
            Expansion {
                node: NodeView::IntermediateSeq(e.nodes),
                pending: e.pending,
                id_int: e.id_int,
                id_choice: e.id_choice,
            }
        },
        RuleBodyView::Symbol(Some(name)) => leaf(name, id_int, id_choice),
        RuleBodyView::Str(Some(name)) => leaf(name, id_int, id_choice),
        RuleBodyView::Pattern(Some(name)) => leaf(name, id_int, id_choice),
        _ => leaf(Seq::empty(), id_int, id_choice),
    }
}

/// The expansion of a terminal: a leaf, nothing synthesized, the counters as they were.
pub open spec fn leaf(name: Seq<char>, id_int: nat, id_choice: nat) -> Expansion {
    Expansion { node: NodeView::Leaf(name), pending: Seq::empty(), id_int, id_choice }
}

/// The expansion of the members of a choice (`step` is 1) or of a sequence (`step` is
/// 0), in order: before each member the choice counter advances by `step`.
pub open spec fn expansions(
    bodies: Seq<RuleBodyView>,
    id_int: nat,
    id_choice: nat,
    step: nat,
) -> Expansions
    decreases bodies,
{
    if bodies.len() == 0 {
        Expansions { nodes: Seq::empty(), pending: Seq::empty(), id_int, id_choice }
    } else {
        let front = expansions(bodies.drop_last(), id_int, id_choice, step);
        let e = expansion(bodies.last(), front.id_int, front.id_choice + step);
        Expansions {
            nodes: front.nodes.push(e.node),
            pending: front.pending + e.pending,
            id_int: e.id_int,
            id_choice: e.id_choice,
        }
    }
}

/// An expansion advances the repetition counter by the number of repetitions in the
/// body, which is also the number of statements it synthesizes, and the choice counter
/// by the number of alternatives in it.
pub proof fn lemma_expansion_counters(body: RuleBodyView, id_int: nat, id_choice: nat)
    ensures
        expansion(body, id_int, id_choice).id_int == id_int + repeat_count(body),
        expansion(body, id_int, id_choice).id_choice == id_choice + choice_count(body),
        expansion(body, id_int, id_choice).pending.len() == repeat_count(body),
    decreases body,
{
    match body {
        RuleBodyView::Repeat(Some(inner)) => {
            lemma_expansion_counters(*inner, id_int, id_choice);
        },
        RuleBodyView::Choice(Some(members)) => {
            lemma_expansions_counters(members, id_int, id_choice, 1);
        },
        RuleBodyView::Sequence(Some(members)) => {
            lemma_expansions_counters(members, id_int, id_choice, 0);
        },
        _ => {},
    }
}

/// The counters after the expansion of a list, and the lengths of what it yields.
pub proof fn lemma_expansions_counters(
    bodies: Seq<RuleBodyView>,
    id_int: nat,
    id_choice: nat,
    step: nat,
)
    ensures
        expansions(bodies, id_int, id_choice, step).id_int == id_int + repeat_count_all(bodies),
        expansions(bodies, id_int, id_choice, step).id_choice == id_choice + step * bodies.len()
            + choice_count_all(bodies),
        expansions(bodies, id_int, id_choice, step).nodes.len() == bodies.len(),
        expansions(bodies, id_int, id_choice, step).pending.len() == repeat_count_all(bodies),
    decreases bodies,
{
    if bodies.len() > 0 {
        let front = expansions(bodies.drop_last(), id_int, id_choice, step);
        lemma_expansions_counters(bodies.drop_last(), id_int, id_choice, step);
        lemma_expansion_counters(bodies.last(), front.id_int, front.id_choice + step);
        assert(step * bodies.len() == step * (bodies.len() - 1) + step) by (nonlinear_arith);
    }
}

/// The counts of a prefix of a list are at most those of the list with one more body.
proof fn lemma_counts_grow(bodies: Seq<RuleBodyView>, i: int)
    requires
        0 <= i < bodies.len(),
    ensures
        repeat_count_all(bodies.take(i)) + repeat_count(bodies[i]) <= repeat_count_all(bodies),
        choice_count_all(bodies.take(i)) + choice_count(bodies[i]) <= choice_count_all(bodies),
    decreases bodies.len(),
{
    if i == bodies.len() - 1 {
        assert(bodies.take(i) =~= bodies.drop_last());
    } else {
        lemma_counts_grow(bodies.drop_last(), i);
        assert(bodies.drop_last().take(i) =~= bodies.take(i));
    }
}

/// `n`, or the largest `u64` where `n` is larger.
pub open spec fn clip(n: nat) -> u64 {
    if n <= u64::MAX {
        n as u64
    } else {
        u64::MAX
    }
}

fn count_repeats_all(bodies: &Vec<RuleBody>) -> (n: u64)
    ensures
        n == clip(repeat_count_all(body_views(bodies@))),
    decreases bodies, 0nat,
{
    let mut total: u64 = 0;
    let mut i: usize = 0;
    while i < bodies.len()
        invariant
            i <= bodies.len(),
            total == clip(repeat_count_all(body_views(bodies@.take(i as int)))),
        decreases bodies.len() - i,
    {
        proof {
            let next = body_views(bodies@.take(i + 1));
            assert(next.drop_last() =~= body_views(bodies@.take(i as int)));
            assert(next.last() == bodies@[i as int]@);
        }
        total = total.saturating_add(count_repeats(&bodies[i]));
        i += 1;
    }
    assert(bodies@.take(i as int) =~= bodies@);
    total
}

/// Counts the repetitions in a body, up to the largest `u64`.
pub fn count_repeats(body: &RuleBody) -> (n: u64)
    ensures
        n == clip(repeat_count(body@)),
    decreases body, 1nat,
{
    match body {
        RuleBody::Repeat(Some(inner)) => count_repeats(inner).saturating_add(1),
        RuleBody::Choice(Some(members)) => {
            proof {
                RuleBody::lemma_choice_view(*members);
                assert(decreases_to!(body => body->Choice_0));
            }
            count_repeats_all(members)
        },
        RuleBody::Sequence(Some(members)) => {
            proof {
                RuleBody::lemma_sequence_view(*members);
                assert(decreases_to!(body => body->Sequence_0));
            }
            count_repeats_all(members)
        },
        _ => 0,
    }
}

fn count_choices_all(bodies: &Vec<RuleBody>) -> (n: u64)
    ensures
        n == clip(choice_count_all(body_views(bodies@))),
    decreases bodies, 0nat,
{
    let mut total: u64 = 0;
    let mut i: usize = 0;
    while i < bodies.len()
        invariant
            i <= bodies.len(),
            total == clip(choice_count_all(body_views(bodies@.take(i as int)))),
        decreases bodies.len() - i,
    {
        proof {
            let next = body_views(bodies@.take(i + 1));
            assert(next.drop_last() =~= body_views(bodies@.take(i as int)));
            assert(next.last() == bodies@[i as int]@);
        }
        total = total.saturating_add(count_choices(&bodies[i]));
        i += 1;
    }
    assert(bodies@.take(i as int) =~= bodies@);
    total
}

/// Counts the alternatives of all the choices in a body, up to the largest `u64`.
pub fn count_choices(body: &RuleBody) -> (n: u64)
    ensures
        n == clip(choice_count(body@)),
    decreases body, 1nat,
{
    match body {
        RuleBody::Repeat(Some(inner)) => count_choices(inner),
        RuleBody::Choice(Some(members)) => {
            proof {
                RuleBody::lemma_choice_view(*members);
                assert(decreases_to!(body => body->Choice_0));
            }
            count_choices_all(members).saturating_add(members.len() as u64)
        },
        RuleBody::Sequence(Some(members)) => {
            proof {
                RuleBody::lemma_sequence_view(*members);
                assert(decreases_to!(body => body->Sequence_0));
            }
            count_choices_all(members)
        },
        _ => 0,
    }
}

/// Expands the members of a choice (`step` is 1) or of a sequence (`step` is 0).
fn expand_members(
    bodies: &Vec<RuleBody>,
    new_statements: &mut Vec<Statement>,
    id_int: &mut u32,
    id_choice: &mut u32,
    step: u32,
) -> (nodes: Vec<Node>)
    requires
        all_well_formed(body_views(bodies@)),
        step <= 1,
        *old(id_int) + repeat_count_all(body_views(bodies@)) <= u32::MAX,
        *old(id_choice) + step * bodies@.len() + choice_count_all(body_views(bodies@))
            <= u32::MAX,
    ensures
        ({
            let e = expansions(
                body_views(bodies@),
                *old(id_int) as nat,
                *old(id_choice) as nat,
                step as nat,
            );
            &&& node_views(nodes@) == e.nodes
            &&& statement_views(final(new_statements)@) == statement_views(old(new_statements)@)
                + e.pending
            &&& *final(id_int) == e.id_int
            &&& *final(id_choice) == e.id_choice
        }),
    decreases bodies, 0nat,
{
    let ghost first_int = *id_int as nat;
    let ghost first_choice = *id_choice as nat;
    let ghost all = body_views(bodies@);
    let ghost before = statement_views(new_statements@);
    let mut nodes: Vec<Node> = Vec::new();
    let mut i: usize = 0;
    assert(node_views(nodes@) =~= Seq::empty());
    assert(before + Seq::empty() =~= before);
    while i < bodies.len()
        invariant
            i <= bodies.len(),
            step <= 1,
            all == body_views(bodies@),
            all_well_formed(all),
            first_int + repeat_count_all(all) <= u32::MAX,
            first_choice + step * bodies@.len() + choice_count_all(all) <= u32::MAX,
            ({
                let e = expansions(
                    body_views(bodies@.take(i as int)),
                    first_int,
                    first_choice,
                    step as nat,
                );
                &&& node_views(nodes@) == e.nodes
                &&& statement_views(new_statements@) == before + e.pending
                &&& *id_int == e.id_int
                &&& *id_choice == e.id_choice
            }),
        decreases bodies.len() - i,
    {
        let ghost front = body_views(bodies@.take(i as int));
        let ghost next = body_views(bodies@.take(i + 1));
        let ghost pre = expansions(front, first_int, first_choice, step as nat);
        proof {
            assert(next.drop_last() =~= front);
            assert(next.last() == bodies@[i as int]@);
            assert(all[i as int] == bodies@[i as int]@);
            assert(all.take(i as int) =~= front);
            lemma_all_well_formed(all);
            lemma_counts_grow(all, i as int);
            lemma_expansions_counters(front, first_int, first_choice, step as nat);
            assert(step * i + step <= step * bodies@.len()) by (nonlinear_arith)
                requires
                    i < bodies@.len(),
                    0 <= step,
            ;
        }
        *id_choice = *id_choice + step;
        let node = expand_body(&bodies[i], new_statements, id_int, id_choice);
        let ghost e = expansion(bodies@[i as int]@, pre.id_int, (pre.id_choice + step) as nat);
        let ghost grown = nodes@.push(node);
        nodes.push(node);
        proof {
            assert(node_views(grown) =~= node_views(nodes@.drop_last()).push(node@));
            assert(before + (pre.pending + e.pending) =~= (before + pre.pending) + e.pending);
        }
        i += 1;
    }
    assert(bodies@.take(i as int) =~= bodies@);
    nodes
}

/// Expands a well-formed body whose ids fit.
fn expand_body(
    rule: &RuleBody,
    new_statements: &mut Vec<Statement>,
    id_int: &mut u32,
    id_choice: &mut u32,
) -> (node: Node)
    requires
        well_formed(rule@),
        *old(id_int) + repeat_count(rule@) <= u32::MAX,
        *old(id_choice) + choice_count(rule@) <= u32::MAX,
    ensures
        ({
            let e = expansion(rule@, *old(id_int) as nat, *old(id_choice) as nat);
            &&& node@ == e.node
            &&& statement_views(final(new_statements)@) == statement_views(old(new_statements)@)
                + e.pending
            &&& *final(id_int) == e.id_int
            &&& *final(id_choice) == e.id_choice
        }),
    decreases rule, 1nat,
{
    let ghost before = statement_views(new_statements@);
    match rule {
        RuleBody::Repeat(Some(inner)) => {
            let node = expand_body(inner, new_statements, id_int, id_choice);
            let ghost e = expansion(inner@, *old(id_int) as nat, *old(id_choice) as nat);
            proof {
                lemma_expansion_counters(inner@, *old(id_int) as nat, *old(id_choice) as nat);
            }
            *id_int = *id_int + 1;
            let name = Name::new(intermediate_name_string(*id_int));
            let statement = Statement::new(name, node);
            let ghost held = new_statements@;
            new_statements.push(statement);
            proof {
                assert(statement_views(held.push(statement)) =~= statement_views(held).push(
                    statement@,
                ));
                assert((before + e.pending).push(statement@) =~= before + e.pending.push(
                    statement@,
                ));
            }
            Node::Intermediate(*id_int)
        },
        RuleBody::Choice(Some(members)) => {
            proof {
                RuleBody::lemma_choice_view(*members);
                assert(decreases_to!(rule => rule->Choice_0));
            }
            let base = *id_choice;
            let nodes = expand_members(members, new_statements, id_int, id_choice, 1);
            proof {
                Node::lemma_choice_view(base, nodes);
            }
            Node::IntermediateChoice(base, nodes)
        },
        RuleBody::Sequence(Some(members)) => {
            proof {
                RuleBody::lemma_sequence_view(*members);
                assert(decreases_to!(rule => rule->Sequence_0));
            }
            let nodes = expand_members(members, new_statements, id_int, id_choice, 0);
            proof {
                Node::lemma_seq_view(nodes);
            }
            Node::IntermediateSeq(nodes)
        },
        RuleBody::Symbol(Some(name)) => {
            assert(before + Seq::empty() =~= before);
            Node::Leaf(Name::new(name.clone()))
        },
        RuleBody::Str(Some(name)) => {
            assert(before + Seq::empty() =~= before);
            Node::Leaf(Name::new(name.clone()))
        },
        RuleBody::Pattern(Some(name)) => {
            assert(before + Seq::empty() =~= before);
            Node::Leaf(Name::new(name.clone()))
        },
        _ => unreached(),
    }
}

/// Expands a rule body into a node tree.
///
/// The helper statements of the repetitions in it are appended to `new_statements`, and
/// the two counters advance past the ids that were taken. A body that is not well formed
/// is refused, and so is one whose ids would not fit in 32 bits; nothing is changed then.
pub fn expand_rulebody(
    rule: &RuleBody,
    new_statements: &mut Vec<Statement>,
    id_int: &mut u32,
    id_choice: &mut u32,
) -> (result: Result<Node, ConvertError>)
    ensures
        match result {
            Ok(node) => {
                let e = expansion(rule@, *old(id_int) as nat, *old(id_choice) as nat);
                &&& well_formed(rule@)
                &&& e.id_int <= u32::MAX
                &&& e.id_choice <= u32::MAX
                &&& node@ == e.node
                &&& statement_views(final(new_statements)@) == statement_views(
                    old(new_statements)@,
                ) + e.pending
                &&& *final(id_int) == e.id_int
                &&& *final(id_choice) == e.id_choice
            },
            Err(error) => {
                let e = expansion(rule@, *old(id_int) as nat, *old(id_choice) as nat);
                &&& error == ConvertError::MissingContent <==> !well_formed(rule@)
                &&& error == ConvertError::IdOverflow <==> well_formed(rule@) && (e.id_int
                    > u32::MAX || e.id_choice > u32::MAX)
                &&& *final(new_statements) == *old(new_statements)
                &&& *final(id_int) == *old(id_int)
                &&& *final(id_choice) == *old(id_choice)
            },
        },
{
    proof {
        lemma_expansion_counters(rule@, *id_int as nat, *id_choice as nat);
    }
    if !is_well_formed(rule) {
        return Err(ConvertError::MissingContent);
    }
    let repeats = count_repeats(rule);
    let choices = count_choices(rule);
    if repeats > (u32::MAX - *id_int) as u64 || choices > (u32::MAX - *id_choice) as u64 {
        return Err(ConvertError::IdOverflow);
    }
    Ok(expand_body(rule, new_statements, id_int, id_choice))
}

} // verus!
