//! What holds of the conversion and of the serializer, whatever the grammar.

use crate::ast::{intermediate_name, tag_name, Ast, AstView, NodeView, StatementView};
use crate::converter::{conversion_of, convert, expand_rules, rules_well_formed};
use crate::expand::{
    choice_count, choice_count_all, expansion, expansions, lemma_expansion_counters,
    lemma_expansions_counters, repeat_count, repeat_count_all, ConvertError,
};
use crate::grammar::{all_well_formed, well_formed, GrammarView, RuleBodyView, RuleView};
use crate::json_tree::{coherent, JsonTreeView};
use crate::parser::{
    bodies_of, body_below, body_of, field, grammar_of, index_of, is_prec, lemma_index_of,
    members_below, rules_of_entries, ParseError,
};
use crate::pipeline::{definitions_of, GenerateError};
use crate::placement::{first_use, lemma_first_use, lemma_uses_any, place, place_one, uses, uses_any};
use crate::render::{render_ast, render_choices, render_node, render_statements};
use crate::text::{lemma_trim_end, lemma_trim_start, white_space};
use vstd::prelude::*;

verus! {

/// Whether a body is a terminal with its content: a symbol, a string or a pattern.
pub open spec fn is_terminal(body: RuleBodyView) -> bool {
    match body {
        RuleBodyView::Symbol(Some(_)) => true,
        RuleBodyView::Str(Some(_)) => true,
        RuleBodyView::Pattern(Some(_)) => true,
        _ => false,
    }
}

/// The text that a terminal carries.
pub open spec fn terminal_text(body: RuleBodyView) -> Seq<char> {
    match body {
        RuleBodyView::Symbol(Some(text)) => text,
        RuleBodyView::Str(Some(text)) => text,
        RuleBodyView::Pattern(Some(text)) => text,
        _ => Seq::empty(),
    }
}

/// The statement of a rule whose body is a terminal: the rule's name with a leaf.
pub open spec fn terminal_statement(rule: RuleView) -> StatementView {
    StatementView { name: rule.ident, node: NodeView::Leaf(terminal_text(rule.body)) }
}

/// Whether the body of every rule is a terminal.
pub open spec fn all_terminal(rules: Seq<RuleView>) -> bool {
    forall|i: int| 0 <= i < rules.len() ==> is_terminal((#[trigger] rules[i]).body)
}

proof fn lemma_terminal_rules(rules: Seq<RuleView>)
    requires
        all_terminal(rules),
    ensures
        expand_rules(rules).statements == rules.map_values(|r: RuleView| terminal_statement(r)),
        expand_rules(rules).pending == Seq::<StatementView>::empty(),
        expand_rules(rules).id_int == 0,
        expand_rules(rules).id_choice == 0,
    decreases rules.len(),
{
    if rules.len() > 0 {
        let front = rules.drop_last();
        assert forall|i: int| 0 <= i < front.len() implies is_terminal(
            (#[trigger] front[i]).body,
        ) by {
            assert(front[i] == rules[i]);
        }
        lemma_terminal_rules(front);
        assert(is_terminal(rules[rules.len() - 1].body));
        assert(expand_rules(rules).statements =~= rules.map_values(
            |r: RuleView| terminal_statement(r),
        ));
        assert(expand_rules(rules).pending =~= Seq::<StatementView>::empty());
    } else {
        assert(expand_rules(rules).statements =~= rules.map_values(
            |r: RuleView| terminal_statement(r),
        ));
    }
}

/// A grammar whose rule bodies are all terminals is converted, nothing is synthesized
/// for it, and its statements are those of its rules in the order of their declaration.
pub proof fn law_terminal_rules_keep_their_order(grammar: GrammarView)
    requires
        all_terminal(grammar.rules),
    ensures
        conversion_of(grammar) == Ok::<AstView, ConvertError>(
            convert(grammar),
        ),
        expand_rules(grammar.rules).pending.len() == 0,
        convert(grammar).statements == grammar.rules.map_values(
            |r: RuleView| terminal_statement(r),
        ),
{
    lemma_terminal_rules(grammar.rules);
    assert forall|i: int| 0 <= i < grammar.rules.len() implies well_formed(
        (#[trigger] grammar.rules[i]).body,
    ) by {
        assert(is_terminal(grammar.rules[i].body));
    }
}

/// The helper statements that the expansion of a list of bodies synthesizes carry the
/// ids that follow `id_int`, one after the other, in the order of their synthesis.
pub proof fn law_helper_ids_increase_in_list(
    bodies: Seq<RuleBodyView>,
    id_int: nat,
    id_choice: nat,
    step: nat,
)
    ensures
        forall|j: int|
            0 <= j < expansions(bodies, id_int, id_choice, step).pending.len() ==> (
            #[trigger] expansions(bodies, id_int, id_choice, step).pending[j]).name
                == intermediate_name((id_int + j + 1) as nat),
    decreases bodies,
{
    if bodies.len() > 0 {
        let front = expansions(bodies.drop_last(), id_int, id_choice, step);
        let e = expansion(bodies.last(), front.id_int, front.id_choice + step);
        law_helper_ids_increase_in_list(bodies.drop_last(), id_int, id_choice, step);
        law_helper_ids_increase(bodies.last(), front.id_int, front.id_choice + step);
        lemma_expansions_counters(bodies.drop_last(), id_int, id_choice, step);
        let all = expansions(bodies, id_int, id_choice, step).pending;
        assert forall|j: int| 0 <= j < all.len() implies (#[trigger] all[j]).name
            == intermediate_name((id_int + j + 1) as nat) by {
            if j < front.pending.len() {
                assert(all[j] == front.pending[j]);
            } else {
                assert(all[j] == e.pending[j - front.pending.len()]);
            }
        }
    }
}

/// The helper statements that the expansion of a body synthesizes carry the ids that
/// follow `id_int`, one after the other, in the order of their synthesis: the id of a
/// helper grows strictly with the order of the traversal, and none is used twice.
pub proof fn law_helper_ids_increase(body: RuleBodyView, id_int: nat, id_choice: nat)
    ensures
        forall|j: int|
            0 <= j < expansion(body, id_int, id_choice).pending.len() ==> (
            #[trigger] expansion(body, id_int, id_choice).pending[j]).name == intermediate_name(
                (id_int + j + 1) as nat,
            ),
    decreases body,
{
    match body {
        RuleBodyView::Repeat(Some(inner)) => {
            law_helper_ids_increase(*inner, id_int, id_choice);
            lemma_expansion_counters(*inner, id_int, id_choice);
            let e = expansion(*inner, id_int, id_choice);
            let all = expansion(body, id_int, id_choice).pending;
            assert forall|j: int| 0 <= j < all.len() implies (#[trigger] all[j]).name
                == intermediate_name((id_int + j + 1) as nat) by {
                if j < e.pending.len() {
                    assert(all[j] == e.pending[j]);
                }
            }
        },
        RuleBodyView::Choice(Some(members)) => {
            law_helper_ids_increase_in_list(members, id_int, id_choice, 1);
        },
        RuleBodyView::Sequence(Some(members)) => {
            law_helper_ids_increase_in_list(members, id_int, id_choice, 0);
        },
        _ => {},
    }
}

/// Over a whole grammar the helper statements carry the ids 1, 2, 3 and so on, in the
/// order of their synthesis.
pub proof fn law_helper_ids_of_grammar(rules: Seq<RuleView>)
    ensures
        forall|j: int|
            0 <= j < expand_rules(rules).pending.len() ==> (#[trigger] expand_rules(
                rules,
            ).pending[j]).name == intermediate_name((j + 1) as nat),
        expand_rules(rules).pending.len() == expand_rules(rules).id_int,
    decreases rules.len(),
{
    if rules.len() > 0 {
        let front = expand_rules(rules.drop_last());
        let e = expansion(rules.last().body, front.id_int, front.id_choice);
        law_helper_ids_of_grammar(rules.drop_last());
        law_helper_ids_increase(rules.last().body, front.id_int, front.id_choice);
        lemma_expansion_counters(rules.last().body, front.id_int, front.id_choice);
        let all = expand_rules(rules).pending;
        assert forall|j: int| 0 <= j < all.len() implies (#[trigger] all[j]).name
            == intermediate_name((j + 1) as nat) by {
            if j < front.pending.len() {
                assert(all[j] == front.pending[j]);
            } else {
                assert(all[j] == e.pending[j - front.pending.len()]);
            }
        }
    }
}

/// Every repetition is handled in the same way: it takes the id that follows those of
/// the repetitions inside it, stands in its place as a reference to that id, and leaves
/// the expanded inner body as the last synthesized statement, under the helper name of
/// that id.
pub proof fn law_repeat_is_a_reference(inner: RuleBodyView, id_int: nat, id_choice: nat)
    ensures
        ({
            let e = expansion(RuleBodyView::Repeat(Some(Box::new(inner))), id_int, id_choice);
            let id = id_int + repeat_count(inner) + 1;
            &&& e.node == NodeView::Intermediate(id)
            &&& e.id_int == id
            &&& e.pending.len() == repeat_count(inner) + 1
            &&& e.pending.last() == (StatementView {
                name: intermediate_name(id),
                node: expansion(inner, id_int, id_choice).node,
            })
        }),
{
    lemma_expansion_counters(inner, id_int, id_choice);
}

/// What the expansion of a list yields for its first `k` bodies is what the expansion
/// of those `k` bodies yields.
proof fn lemma_expansions_prefix(
    bodies: Seq<RuleBodyView>,
    id_int: nat,
    id_choice: nat,
    step: nat,
    k: int,
)
    requires
        0 <= k <= bodies.len(),
    ensures
        expansions(bodies, id_int, id_choice, step).nodes.take(k) == expansions(
            bodies.take(k),
            id_int,
            id_choice,
            step,
        ).nodes,
    decreases bodies.len() - k,
{
    lemma_expansions_counters(bodies, id_int, id_choice, step);
    if k == bodies.len() {
        assert(bodies.take(k) =~= bodies);
        assert(expansions(bodies, id_int, id_choice, step).nodes.take(k) =~= expansions(
            bodies,
            id_int,
            id_choice,
            step,
        ).nodes);
    } else {
        assert(bodies.drop_last().take(k) =~= bodies.take(k));
        lemma_expansions_prefix(bodies.drop_last(), id_int, id_choice, step, k);
        lemma_expansions_counters(bodies.drop_last(), id_int, id_choice, step);
        assert(expansions(bodies, id_int, id_choice, step).nodes.take(k) =~= expansions(
            bodies.drop_last(),
            id_int,
            id_choice,
            step,
        ).nodes.take(k));
    }
}

/// A choice with `k` alternatives holds the id that the choice counter had before it,
/// has `k` nodes, and moves the counter on by `k` and by what the alternatives take for
/// the choices inside them. The counter advances by one before each alternative is
/// expanded.
pub proof fn law_choice_takes_consecutive_ids(
    members: Seq<RuleBodyView>,
    id_int: nat,
    id_choice: nat,
)
    ensures
        ({
            let e = expansion(RuleBodyView::Choice(Some(members)), id_int, id_choice);
            &&& e.node matches NodeView::IntermediateChoice(base, nodes)
            &&& base == id_choice
            &&& nodes.len() == members.len()
            &&& e.id_choice == id_choice + members.len() + choice_count_all(members)
            &&& forall|j: int|
                0 <= j < members.len() ==> #[trigger] nodes[j] == expansion(
                    members[j],
                    id_int + repeat_count_all(members.take(j)),
                    id_choice + (j + 1) as nat + choice_count_all(members.take(j)),
                ).node
        }),
{
    lemma_expansions_counters(members, id_int, id_choice, 1);
    let nodes = expansions(members, id_int, id_choice, 1).nodes;
    assert forall|j: int| 0 <= j < members.len() implies #[trigger] nodes[j] == expansion(
        members[j],
        id_int + repeat_count_all(members.take(j)),
        id_choice + (j + 1) as nat + choice_count_all(members.take(j)),
    ).node by {
        let upto = members.take(j + 1);
        lemma_expansions_prefix(members, id_int, id_choice, 1, j + 1);
        assert(upto.drop_last() =~= members.take(j));
        assert(upto.last() == members[j]);
        lemma_expansions_counters(members.take(j), id_int, id_choice, 1);
        assert(nodes.take(j + 1)[j] == nodes[j]);
        assert(1 * members.take(j).len() == j);
    }
}

/// The alternative at position `j` of a choice is written with the tag of the id
/// `base + j`: the `k` alternatives carry `k` ids in a row, from the id of the choice on.
pub proof fn law_choice_tags_are_consecutive(nodes: Seq<NodeView>, base: nat, j: int)
    requires
        0 <= j < nodes.len(),
    ensures
        render_choices(nodes.take(j + 1), base) == render_choices(nodes.take(j), base)
            + "\n\t| "@ + tag_name((base + j) as nat) + "("@ + render_node(nodes[j]) + ")"@,
{
    let upto = nodes.take(j + 1);
    assert(upto.drop_last() =~= nodes.take(j));
    assert(upto.last() == nodes[j]);
}

/// Serializing is a function of what the statements hold: two trees that hold the same
/// give the same text, and so does one tree written out twice.
pub proof fn law_serialization_is_repeatable(first: Ast, second: Ast)
    requires
        first@ == second@,
    ensures
        render_ast(first@) == render_ast(second@),
{
}

/// A helper statement to which no statement of the list refers is dropped: the list
/// stays as it is.
pub proof fn law_unreferenced_helper_is_dropped(
    statements: Seq<StatementView>,
    helper: StatementView,
)
    requires
        forall|j: int|
            0 <= j < statements.len() ==> !uses(helper.name, (#[trigger] statements[j]).node),
    ensures
        place_one(statements, helper) == statements,
        place(seq![helper], statements) == statements,
{
    lemma_first_use(helper.name, statements);
    if first_use(helper.name, statements) is Some {
        let p = first_use(helper.name, statements)->0;
        assert(uses(helper.name, statements[p].node));
    }
    assert(seq![helper].drop_last() =~= Seq::<StatementView>::empty());
    assert(place(seq![helper].drop_last(), statements) == statements);
}

/// A helper statement to which some statement refers goes right behind the first such
/// statement, and nothing else moves.
pub proof fn law_referenced_helper_follows_first_use(
    statements: Seq<StatementView>,
    helper: StatementView,
    p: int,
)
    requires
        0 <= p < statements.len(),
        uses(helper.name, statements[p].node),
        forall|j: int| 0 <= j < p ==> !uses(helper.name, (#[trigger] statements[j]).node),
    ensures
        place_one(statements, helper) == statements.insert(p + 1, helper),
{
    lemma_first_use(helper.name, statements);
    let q = first_use(helper.name, statements);
    if q is None {
        assert(!uses(helper.name, statements[p].node));
    } else {
        let q = q->0;
        if q < p {
            assert(!uses(helper.name, statements[q].node));
        } else if p < q {
            assert(!uses(helper.name, statements[p].node));
        }
    }
}

/// The node trees of a list of statements, in order.
pub open spec fn nodes_of(statements: Seq<StatementView>) -> Seq<NodeView> {
    statements.map_values(|s: StatementView| s.node)
}

/// Whether the pending statement at `j` is referred to: by one of the roots, or by a
/// pending statement that was synthesized after it.
pub open spec fn anchored_at(pending: Seq<StatementView>, roots: Seq<NodeView>, j: int) -> bool {
    uses_any(pending[j].name, roots) || exists|k: int|
        j < k < pending.len() && uses(pending[j].name, (#[trigger] pending[k]).node)
}

/// Whether every pending statement is referred to by a root or by a later one.
pub open spec fn anchored(pending: Seq<StatementView>, roots: Seq<NodeView>) -> bool {
    forall|j: int| 0 <= j < pending.len() ==> #[trigger] anchored_at(pending, roots, j)
}

/// The helper statements of a list of bodies are each referred to by one of the
/// expanded nodes or by a later helper.
pub proof fn lemma_expansions_anchored(
    bodies: Seq<RuleBodyView>,
    id_int: nat,
    id_choice: nat,
    step: nat,
)
    ensures
        anchored(
            expansions(bodies, id_int, id_choice, step).pending,
            expansions(bodies, id_int, id_choice, step).nodes,
        ),
    decreases bodies,
{
    let all = expansions(bodies, id_int, id_choice, step);
    if bodies.len() > 0 {
        let front = expansions(bodies.drop_last(), id_int, id_choice, step);
        let e = expansion(bodies.last(), front.id_int, front.id_choice + step);
        lemma_expansions_anchored(bodies.drop_last(), id_int, id_choice, step);
        lemma_expansion_anchored(bodies.last(), front.id_int, front.id_choice + step);
        assert(all.nodes.drop_last() =~= front.nodes);
        assert(all.nodes.last() == e.node);
        let n = front.pending.len() as int;
        assert forall|j: int| 0 <= j < all.pending.len() implies #[trigger] anchored_at(
            all.pending,
            all.nodes,
            j,
        ) by {
            let name = all.pending[j].name;
            if j < n {
                assert(all.pending[j] == front.pending[j]);
                assert(anchored_at(front.pending, front.nodes, j));
                if !uses_any(name, front.nodes) {
                    let k = choose|k: int|
                        j < k < front.pending.len() && uses(
                            name,
                            (#[trigger] front.pending[k]).node,
                        );
                    assert(all.pending[k] == front.pending[k]);
                }
            } else {
                assert(all.pending[j] == e.pending[j - n]);
                assert(anchored_at(e.pending, seq![e.node], j - n));
                if uses_any(name, seq![e.node]) {
                    lemma_single_root(name, e.node);
                } else {
                    let k = choose|k: int|
                        j - n < k < e.pending.len() && uses(name, (#[trigger] e.pending[k]).node);
                    assert(all.pending[k + n] == e.pending[k]);
                }
            }
        }
    }
}

/// One node refers to `name` exactly if the list of that node alone does.
proof fn lemma_single_root(name: Seq<char>, node: NodeView)
    ensures
        uses_any(name, seq![node]) == uses(name, node),
{
    let roots = seq![node];
    assert(roots.drop_last() =~= Seq::<NodeView>::empty());
    assert(roots.last() == node);
    assert(!uses_any(name, roots.drop_last()));
}

/// The helper statements of a body are each referred to by the expanded node or by a
/// later helper.
pub proof fn lemma_expansion_anchored(body: RuleBodyView, id_int: nat, id_choice: nat)
    ensures
        anchored(
            expansion(body, id_int, id_choice).pending,
            seq![expansion(body, id_int, id_choice).node],
        ),
    decreases body,
{
    let all = expansion(body, id_int, id_choice);
    let roots = seq![all.node];
    match body {
        RuleBodyView::Repeat(Some(inner)) => {
            let e = expansion(*inner, id_int, id_choice);
            lemma_expansion_anchored(*inner, id_int, id_choice);
            let n = e.pending.len() as int;
            assert forall|j: int| 0 <= j < all.pending.len() implies #[trigger] anchored_at(
                all.pending,
                roots,
                j,
            ) by {
                let name = all.pending[j].name;
                if j < n {
                    assert(all.pending[j] == e.pending[j]);
                    assert(anchored_at(e.pending, seq![e.node], j));
                    if uses_any(name, seq![e.node]) {
                        lemma_single_root(name, e.node);
                        assert(all.pending[n].node == e.node);
                    } else {
                        let k = choose|k: int|
                            j < k < e.pending.len() && uses(name, (#[trigger] e.pending[k]).node);
                        assert(all.pending[k] == e.pending[k]);
                    }
                } else {
                    lemma_single_root(name, all.node);
                }
            }
        },
        RuleBodyView::Choice(Some(members)) => {
            let e = expansions(members, id_int, id_choice, 1);
            lemma_expansions_anchored(members, id_int, id_choice, 1);
            assert forall|j: int| 0 <= j < all.pending.len() implies #[trigger] anchored_at(
                all.pending,
                roots,
                j,
            ) by {
                assert(anchored_at(e.pending, e.nodes, j));
                lemma_single_root(all.pending[j].name, all.node);
            }
        },
        RuleBodyView::Sequence(Some(members)) => {
            let e = expansions(members, id_int, id_choice, 0);
            lemma_expansions_anchored(members, id_int, id_choice, 0);
            assert forall|j: int| 0 <= j < all.pending.len() implies #[trigger] anchored_at(
                all.pending,
                roots,
                j,
            ) by {
                assert(anchored_at(e.pending, e.nodes, j));
                lemma_single_root(all.pending[j].name, all.node);
            }
        },
        _ => {},
    }
}

/// The helper statements of a grammar are each referred to by the statement of a rule
/// or by a later helper, and every rule has its statement.
pub proof fn lemma_rules_anchored(rules: Seq<RuleView>)
    ensures
        anchored(expand_rules(rules).pending, nodes_of(expand_rules(rules).statements)),
        expand_rules(rules).statements.len() == rules.len(),
    decreases rules.len(),
{
    let all = expand_rules(rules);
    if rules.len() > 0 {
        let front = expand_rules(rules.drop_last());
        let e = expansion(rules.last().body, front.id_int, front.id_choice);
        lemma_rules_anchored(rules.drop_last());
        lemma_expansion_anchored(rules.last().body, front.id_int, front.id_choice);
        let roots = nodes_of(all.statements);
        assert(roots.drop_last() =~= nodes_of(front.statements));
        assert(roots.last() == e.node);
        let n = front.pending.len() as int;
        assert forall|j: int| 0 <= j < all.pending.len() implies #[trigger] anchored_at(
            all.pending,
            roots,
            j,
        ) by {
            let name = all.pending[j].name;
            if j < n {
                assert(all.pending[j] == front.pending[j]);
                assert(anchored_at(front.pending, nodes_of(front.statements), j));
                if !uses_any(name, nodes_of(front.statements)) {
                    let k = choose|k: int|
                        j < k < front.pending.len() && uses(
                            name,
                            (#[trigger] front.pending[k]).node,
                        );
                    assert(all.pending[k] == front.pending[k]);
                }
            } else {
                assert(all.pending[j] == e.pending[j - n]);
                assert(anchored_at(e.pending, seq![e.node], j - n));
                if uses_any(name, seq![e.node]) {
                    lemma_single_root(name, e.node);
                } else {
                    let k = choose|k: int|
                        j - n < k < e.pending.len() && uses(name, (#[trigger] e.pending[k]).node);
                    assert(all.pending[k + n] == e.pending[k]);
                }
            }
        }
    }
}

/// Where every pending statement is referred to by a statement of the list or by a
/// later pending one, the last of them finds its place, and the others are then
/// referred to in the same way.
pub proof fn lemma_anchored_step(pending: Seq<StatementView>, statements: Seq<StatementView>)
    requires
        pending.len() > 0,
        anchored(pending, nodes_of(statements)),
    ensures
        first_use(pending.last().name, statements) matches Some(p) && 0 <= p < statements.len()
            && place_one(statements, pending.last()) == statements.insert(
            p + 1,
            pending.last(),
        ),
        anchored(pending.drop_last(), nodes_of(place_one(statements, pending.last()))),
{
    let last = pending.len() - 1;
    let helper = pending.last();
    let roots = nodes_of(statements);
    assert(anchored_at(pending, roots, last));
    lemma_uses_any(helper.name, roots);
    let r = choose|r: int| 0 <= r < roots.len() && uses(helper.name, #[trigger] roots[r]);
    assert(uses(helper.name, statements[r].node));
    lemma_first_use(helper.name, statements);
    let p = first_use(helper.name, statements)->0;
    let grown = statements.insert(p + 1, helper);
    assert(place_one(statements, helper) == grown);
    let rest = pending.drop_last();
    let new_roots = nodes_of(grown);
    assert forall|j: int| 0 <= j < rest.len() implies #[trigger] anchored_at(
        rest,
        new_roots,
        j,
    ) by {
        let name = rest[j].name;
        assert(rest[j] == pending[j]);
        assert(anchored_at(pending, roots, j));
        lemma_uses_any(name, roots);
        lemma_uses_any(name, new_roots);
        if uses_any(name, roots) {
            let q = choose|q: int| 0 <= q < roots.len() && uses(name, #[trigger] roots[q]);
            if q <= p {
                assert(new_roots[q] == roots[q]);
            } else {
                assert(new_roots[q + 1] == roots[q]);
            }
        } else {
            let k = choose|k: int|
                j < k < pending.len() && uses(name, (#[trigger] pending[k]).node);
            if k == last {
                assert(new_roots[p + 1] == helper.node);
            } else {
                assert(rest[k] == pending[k]);
            }
        }
    }
}

/// Where every pending statement is referred to by a statement of the list or by a
/// later pending one, placement drops none: the list grows by all of them.
pub proof fn lemma_anchored_are_placed(
    pending: Seq<StatementView>,
    statements: Seq<StatementView>,
)
    requires
        anchored(pending, nodes_of(statements)),
    ensures
        place(pending, statements).len() == statements.len() + pending.len(),
    decreases pending.len(),
{
    if pending.len() > 0 {
        lemma_anchored_step(pending, statements);
        lemma_anchored_are_placed(pending.drop_last(), place_one(statements, pending.last()));
    }
}

/// The number of repetitions in the rules of a grammar.
pub open spec fn repeats_in(rules: Seq<RuleView>) -> nat
    decreases rules.len(),
{
    if rules.len() == 0 {
        0
    } else {
        repeats_in(rules.drop_last()) + repeat_count(rules.last().body)
    }
}

proof fn lemma_pending_count(rules: Seq<RuleView>)
    ensures
        expand_rules(rules).pending.len() == repeats_in(rules),
        expand_rules(rules).id_int == repeats_in(rules),
    decreases rules.len(),
{
    if rules.len() > 0 {
        let front = expand_rules(rules.drop_last());
        lemma_pending_count(rules.drop_last());
        lemma_expansion_counters(rules.last().body, front.id_int, front.id_choice);
    }
}

/// The statements of a grammar are one for each rule and one for each repetition: no
/// helper statement that the conversion itself synthesized is ever dropped.
pub proof fn law_one_statement_per_rule_and_repetition(grammar: GrammarView)
    ensures
        convert(grammar).statements.len() == grammar.rules.len() + repeats_in(grammar.rules),
{
    let e = expand_rules(grammar.rules);
    lemma_rules_anchored(grammar.rules);
    lemma_pending_count(grammar.rules);
    lemma_anchored_are_placed(e.pending, e.statements);
}

/// The bodies that are read from a list of JSON trees carry their content.
pub proof fn law_read_bodies_are_well_formed_in_list(trees: Seq<JsonTreeView>)
    ensures
        bodies_of(trees) matches Ok(bodies) ==> all_well_formed(bodies),
    decreases trees, 0nat,
{
    if trees.len() > 0 {
        law_read_bodies_are_well_formed_in_list(trees.drop_last());
        law_read_bodies_are_well_formed(trees.last());
        if let Ok(bodies) = bodies_of(trees) {
            let front = bodies_of(trees.drop_last())->Ok_0;
            assert(bodies.drop_last() =~= front);
        }
    }
}

proof fn lemma_body_below_is_well_formed(tree: JsonTreeView, key: Seq<char>, missing: ParseError)
    ensures
        body_below(tree, key, missing) matches Ok(body) ==> well_formed(body),
    decreases tree, 0nat,
{
    lemma_index_of(tree.entries, key);
    if let Some(i) = index_of(tree.entries, key) {
        law_read_bodies_are_well_formed(tree.entries[i].1);
    }
}

proof fn lemma_members_below_are_well_formed(tree: JsonTreeView)
    ensures
        members_below(tree) matches Ok(bodies) ==> all_well_formed(bodies),
    decreases tree, 0nat,
{
    lemma_index_of(tree.entries, "members"@);
    if let Some(i) = index_of(tree.entries, "members"@) {
        law_read_bodies_are_well_formed_in_list(tree.entries[i].1.members);
    }
}

/// A body that is read from a JSON tree carries its content, and so does every body
/// below it: what the reader accepts, the expander accepts.
pub proof fn law_read_bodies_are_well_formed(tree: JsonTreeView)
    ensures
        body_of(tree) matches Ok(body) ==> well_formed(body),
    decreases tree, 1nat,
{
    if tree.object && field(tree, "type"@) is Some {
        let tag = field(tree, "type"@)->0.compact;
        if tag == "\"REPEAT\""@ {
            lemma_body_below_is_well_formed(tree, "content"@, ParseError::MissingContent);
        } else if tag == "\"CHOICE\""@ {
            lemma_members_below_are_well_formed(tree);
        } else if tag == "\"SEQ\""@ {
            lemma_members_below_are_well_formed(tree);
        } else if tag == "\"SYMBOL\""@ {
        } else if tag == "\"STRING\""@ {
        } else if tag == "\"PATTERN\""@ {
        } else if is_prec(tag) {
            lemma_body_below_is_well_formed(tree, "content"@, ParseError::MissingContent);
        } else if tag == "\"FIELD\""@ {
            lemma_body_below_is_well_formed(tree, "name"@, ParseError::MissingSymbolName);
        }
    }
}

proof fn lemma_read_rules_are_well_formed(entries: Seq<(Seq<char>, JsonTreeView)>)
    ensures
        rules_of_entries(entries) matches Ok(rules) ==> rules_well_formed(rules),
    decreases entries.len(),
{
    if entries.len() > 0 {
        lemma_read_rules_are_well_formed(entries.drop_last());
        law_read_bodies_are_well_formed(entries.last().1);
        if let Ok(rules) = rules_of_entries(entries) {
            let front = rules_of_entries(entries.drop_last())->Ok_0;
            assert forall|i: int| 0 <= i < rules.len() implies well_formed(
                (#[trigger] rules[i]).body,
            ) by {
                if i < front.len() {
                    assert(rules[i] == front[i]);
                }
            }
        }
    }
}

/// Every rule body of a grammar that is read from a JSON tree is well formed: the
/// conversion of such a grammar fails only where the ids do not fit in 32 bits.
pub proof fn law_read_grammars_are_well_formed(tree: JsonTreeView)
    ensures
        grammar_of(tree) matches Ok(grammar) ==> rules_well_formed(grammar.rules),
        definitions_of(tree) != Err::<Seq<char>, GenerateError>(
            GenerateError::Structure(ConvertError::MissingContent),
        ),
{
    if let Ok(grammar) = grammar_of(tree) {
        let rules = field(tree, "rules"@)->0;
        lemma_read_rules_are_well_formed(rules.entries);
    }
}

/// In a coherent tree an entry is found under its key: no other entry has that key, so
/// the first entry with a key is the entry with that key.
pub proof fn law_field_is_the_only_entry(tree: JsonTreeView, i: int)
    requires
        coherent(tree),
        0 <= i < tree.entries.len(),
    ensures
        index_of(tree.entries, tree.entries[i].0) == Some(i),
        field(tree, tree.entries[i].0) == Some(tree.entries[i].1),
{
    let key = tree.entries[i].0;
    lemma_index_of(tree.entries, key);
    let found = index_of(tree.entries, key);
    if found is None {
        assert(tree.entries[i].0 != key);
    } else {
        let j = found->0;
        if j < i {
            assert(tree.entries[j].0 != tree.entries[i].0);
        } else if i < j {
            assert(tree.entries[i].0 != key);
        }
    }
}

/// A pending statement that neither a statement of the list nor a pending statement
/// synthesized after it refers to leaves no trace: the list comes out as if the
/// statement had never been pending.
pub proof fn law_unreferenced_helper_leaves_no_trace(
    pending: Seq<StatementView>,
    statements: Seq<StatementView>,
    j: int,
)
    requires
        0 <= j < pending.len(),
        forall|i: int|
            0 <= i < statements.len() ==> !uses(pending[j].name, (#[trigger] statements[i]).node),
        forall|k: int| j < k < pending.len() ==> !uses(pending[j].name, (#[trigger] pending[k]).node),
    ensures
        place(pending, statements) == place(pending.remove(j), statements),
    decreases pending.len(),
{
    let helper = pending[j];
    let last = pending.len() - 1;
    if j == last {
        law_unreferenced_helper_is_dropped(statements, helper);
        assert(pending.remove(j) =~= pending.drop_last());
    } else {
        let tail = pending.last();
        let grown = place_one(statements, tail);
        let rest = pending.drop_last();
        lemma_first_use(tail.name, statements);
        assert(!uses(helper.name, pending[last].node));
        assert forall|i: int| 0 <= i < grown.len() implies !uses(
            helper.name,
            (#[trigger] grown[i]).node,
        ) by {
            if first_use(tail.name, statements) is Some {
                let p = first_use(tail.name, statements)->0;
                if i <= p {
                    assert(grown[i] == statements[i]);
                } else if i == p + 1 {
                    assert(grown[i] == tail);
                } else {
                    assert(grown[i] == statements[i - 1]);
                }
            }
        }
        assert(rest[j] == helper);
        assert forall|k: int| j < k < rest.len() implies !uses(
            rest[j].name,
            (#[trigger] rest[k]).node,
        ) by {
            assert(rest[k] == pending[k]);
        }
        law_unreferenced_helper_leaves_no_trace(rest, grown, j);
        let without = pending.remove(j);
        assert(without.last() == tail);
        assert(without.drop_last() =~= rest.remove(j));
    }
}

/// Where the clauses begin and end with something other than white space, the output is
/// `type `, the clauses without their last line break, and `;`: the clauses stand one on
/// each line, the first behind `type `, each other behind `and `, the last before `;`.
pub proof fn law_output_is_the_clauses_between_type_and_semicolon(ast: AstView)
    requires
        ast.statements.len() > 0,
        render_statements(ast.statements).len() > 1,
        !white_space(render_statements(ast.statements)[0]),
        !white_space(
            render_statements(ast.statements)[render_statements(ast.statements).len() - 2],
        ),
    ensures
        render_ast(ast) == "type "@ + render_statements(ast.statements).drop_last() + ";"@,
{
    let body = render_statements(ast.statements);
    reveal_strlit("\n");
    assert("\n"@ =~= seq!['\n']);
    assert(body.last() == '\n');
    assert(white_space('\n'));
    lemma_trim_start(body, 0);
    assert(body.subrange(0, body.len() as int) =~= body);
    lemma_trim_end(body, body.len() - 1);
    assert(body.subrange(0, body.len() - 1) =~= body.drop_last());
}

/// Whether the pending statement at `j` finds a place when its turn comes: whether the
/// list, as the statements synthesized after it have left it, refers to it.
pub open spec fn placed(
    pending: Seq<StatementView>,
    statements: Seq<StatementView>,
    j: int,
) -> bool
    decreases pending.len(),
{
    if j < 0 || j >= pending.len() {
        false
    } else if j == pending.len() - 1 {
        first_use(pending[j].name, statements) is Some
    } else {
        placed(pending.drop_last(), place_one(statements, pending.last()), j)
    }
}

/// Whether `helper` stands at `h` behind a statement at `u` that refers to it, with
/// nothing between the two but statements of `lower`.
pub open spec fn follows_at(
    list: Seq<StatementView>,
    helper: StatementView,
    lower: Seq<StatementView>,
    u: int,
    h: int,
) -> bool {
    &&& 0 <= u < h < list.len()
    &&& list[h] == helper
    &&& uses(helper.name, list[u].node)
    &&& forall|q: int| u < q < h ==> lower.contains(#[trigger] list[q])
}

/// Whether `helper` stands in the list behind a statement that refers to it, with nothing
/// between the two but statements of `lower`.
pub open spec fn follows_use(
    list: Seq<StatementView>,
    helper: StatementView,
    lower: Seq<StatementView>,
) -> bool {
    exists|u: int, h: int| #[trigger] follows_at(list, helper, lower, u, h)
}

proof fn lemma_follows_after_one(
    list: Seq<StatementView>,
    helper: StatementView,
    lower: Seq<StatementView>,
    next: StatementView,
)
    requires
        follows_use(list, helper, lower),
        lower.contains(next),
    ensures
        follows_use(place_one(list, next), helper, lower),
{
    let (u, h) = choose|u: int, h: int| #[trigger] follows_at(list, helper, lower, u, h);
    lemma_first_use(next.name, list);
    if first_use(next.name, list) is Some {
        let at = first_use(next.name, list)->0 + 1;
        let grown = list.insert(at, next);
        if at <= u {
            assert forall|q: int| u + 1 < q < h + 1 implies lower.contains(
                #[trigger] grown[q],
            ) by {
                assert(grown[q] == list[q - 1]);
            }
            assert(follows_at(grown, helper, lower, u + 1, h + 1));
        } else if at <= h {
            assert forall|q: int| u < q < h + 1 implies lower.contains(#[trigger] grown[q]) by {
                if q < at {
                    assert(grown[q] == list[q]);
                } else if q > at {
                    assert(grown[q] == list[q - 1]);
                }
            }
            assert(follows_at(grown, helper, lower, u, h + 1));
        } else {
            assert forall|q: int| u < q < h implies lower.contains(#[trigger] grown[q]) by {
                assert(grown[q] == list[q]);
            }
            assert(follows_at(grown, helper, lower, u, h));
        }
    } else {
        assert(follows_at(list, helper, lower, u, h));
    }
}

proof fn lemma_follows_after_all(
    list: Seq<StatementView>,
    helper: StatementView,
    lower: Seq<StatementView>,
    pending: Seq<StatementView>,
)
    requires
        follows_use(list, helper, lower),
        forall|i: int| 0 <= i < pending.len() ==> lower.contains(#[trigger] pending[i]),
    ensures
        follows_use(place(pending, list), helper, lower),
    decreases pending.len(),
{
    if pending.len() > 0 {
        let rest = pending.drop_last();
        assert(lower.contains(pending[pending.len() - 1]));
        lemma_follows_after_one(list, helper, lower, pending.last());
        assert forall|i: int| 0 <= i < rest.len() implies lower.contains(#[trigger] rest[i]) by {
            assert(rest[i] == pending[i]);
        }
        lemma_follows_after_all(place_one(list, pending.last()), helper, lower, rest);
    }
}

/// A helper statement that finds a place stands, in the list that comes out, behind a
/// statement that refers to it, and nothing stands between the two but helper statements
/// that were synthesized before it.
pub proof fn law_helper_follows_its_use(
    pending: Seq<StatementView>,
    statements: Seq<StatementView>,
    j: int,
)
    requires
        placed(pending, statements, j),
    ensures
        follows_use(place(pending, statements), pending[j], pending.take(j)),
    decreases pending.len(),
{
    let last = pending.len() - 1;
    let rest = pending.drop_last();
    let grown = place_one(statements, pending.last());
    if j == last {
        let helper = pending[j];
        lemma_first_use(helper.name, statements);
        let p = first_use(helper.name, statements)->0;
        assert(grown == statements.insert(p + 1, helper));
        assert(grown[p] == statements[p]);
        assert(follows_at(grown, helper, pending.take(j), p, p + 1));
        assert(rest =~= pending.take(j));
        assert forall|i: int| 0 <= i < rest.len() implies pending.take(j).contains(
            #[trigger] rest[i],
        ) by {
            assert(pending.take(j)[i] == rest[i]);
        }
        lemma_follows_after_all(grown, helper, pending.take(j), rest);
    } else {
        law_helper_follows_its_use(rest, grown, j);
        assert(rest.take(j) =~= pending.take(j));
        assert(rest[j] == pending[j]);
    }
}

/// Where every pending statement is referred to by a statement of the list or by a
/// later pending one, each of them finds a place.
pub proof fn lemma_anchored_is_placed(
    pending: Seq<StatementView>,
    statements: Seq<StatementView>,
    j: int,
)
    requires
        anchored(pending, nodes_of(statements)),
        0 <= j < pending.len(),
    ensures
        placed(pending, statements, j),
    decreases pending.len(),
{
    lemma_anchored_step(pending, statements);
    if j < pending.len() - 1 {
        lemma_anchored_is_placed(pending.drop_last(), place_one(statements, pending.last()), j);
    }
}

/// Each helper statement of a grammar stands behind a statement that refers to it, with
/// nothing between the two but helper statements of lower ids.
pub proof fn law_helpers_of_a_grammar_follow_their_use(grammar: GrammarView, j: int)
    requires
        0 <= j < expand_rules(grammar.rules).pending.len(),
    ensures
        follows_use(
            convert(grammar).statements,
            expand_rules(grammar.rules).pending[j],
            expand_rules(grammar.rules).pending.take(j),
        ),
{
    let e = expand_rules(grammar.rules);
    lemma_rules_anchored(grammar.rules);
    lemma_anchored_is_placed(e.pending, e.statements, j);
    law_helper_follows_its_use(e.pending, e.statements, j);
}

/// Whatever was pending before, the expansion of a body leaves it as it was and appends
/// one helper statement for each repetition in the body, the inner repetitions before
/// the outer ones; the helper at position `j` of these carries the id `id_int + 1 + j`,
/// and the repetition counter ends at `id_int` plus their number. No id is taken twice.
pub proof fn law_expansion_appends_its_helpers(
    body: RuleBodyView,
    id_int: nat,
    id_choice: nat,
    before: Seq<StatementView>,
)
    ensures
        ({
            let e = expansion(body, id_int, id_choice);
            let after = before + e.pending;
            let count = repeat_count(body);
            &&& e.id_int == id_int + count
            &&& after.len() == before.len() + count
            &&& after.take(before.len() as int) == before
            &&& forall|j: int|
                0 <= j < count ==> (#[trigger] after[before.len() + j]).name == intermediate_name(
                    (id_int + 1 + j) as nat,
                )
        }),
{
    let e = expansion(body, id_int, id_choice);
    let after = before + e.pending;
    lemma_expansion_counters(body, id_int, id_choice);
    law_helper_ids_increase(body, id_int, id_choice);
    assert(after.take(before.len() as int) =~= before);
    assert forall|j: int| 0 <= j < repeat_count(body) implies (#[trigger] after[before.len()
        + j]).name == intermediate_name((id_int + 1 + j) as nat) by {
        assert(after[before.len() + j] == e.pending[j]);
    }
}

/// A list of bodies none of which holds a choice takes no choice id.
proof fn lemma_no_choice_no_id(bodies: Seq<RuleBodyView>)
    requires
        forall|j: int| 0 <= j < bodies.len() ==> choice_count(#[trigger] bodies[j]) == 0,
    ensures
        choice_count_all(bodies) == 0,
    decreases bodies.len(),
{
    if bodies.len() > 0 {
        let front = bodies.drop_last();
        assert forall|j: int| 0 <= j < front.len() implies choice_count(#[trigger] front[j])
            == 0 by {
            assert(front[j] == bodies[j]);
        }
        lemma_no_choice_no_id(front);
        assert(choice_count(bodies[bodies.len() - 1]) == 0);
    }
}

/// A choice with `k` alternatives none of which holds a choice takes exactly the `k`
/// ids from the one that the choice counter had before it: its node holds that id and,
/// in order, the node of each alternative, the counter ends `k` higher, and nothing is
/// synthesized for the choice itself.
pub proof fn law_flat_choice_takes_its_ids_only(
    members: Seq<RuleBodyView>,
    id_int: nat,
    id_choice: nat,
)
    requires
        forall|j: int| 0 <= j < members.len() ==> choice_count(#[trigger] members[j]) == 0,
    ensures
        ({
            let e = expansion(RuleBodyView::Choice(Some(members)), id_int, id_choice);
            &&& e.node matches NodeView::IntermediateChoice(base, nodes)
            &&& base == id_choice
            &&& nodes.len() == members.len()
            &&& e.id_choice == id_choice + members.len()
            &&& e.pending.len() == repeat_count_all(members)
            &&& forall|j: int|
                0 <= j < members.len() ==> #[trigger] nodes[j] == expansion(
                    members[j],
                    id_int + repeat_count_all(members.take(j)),
                    id_choice + (j + 1) as nat,
                ).node
        }),
{
    law_choice_takes_consecutive_ids(members, id_int, id_choice);
    lemma_no_choice_no_id(members);
    lemma_expansions_counters(members, id_int, id_choice, 1);
    assert forall|j: int| 0 <= j < members.len() implies choice_count_all(
        #[trigger] members.take(j),
    ) == 0 by {
        let front = members.take(j);
        assert forall|i: int| 0 <= i < front.len() implies choice_count(#[trigger] front[i])
            == 0 by {
            assert(front[i] == members[i]);
        }
        lemma_no_choice_no_id(front);
    }
    let nodes = expansions(members, id_int, id_choice, 1).nodes;
    assert forall|j: int| 0 <= j < members.len() implies #[trigger] nodes[j] == expansion(
        members[j],
        id_int + repeat_count_all(members.take(j)),
        id_choice + (j + 1) as nat,
    ).node by {
        assert(choice_count_all(members.take(j)) == 0);
    }
}

} // verus!
