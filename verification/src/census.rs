//! A census of the conversion: what it yields holds every statement of the expansion
//! once, every helper name once and every reference once.

use crate::ast::{
    intermediate_name, lemma_intermediate_name_is_injective, NodeView, StatementView,
};
use crate::converter::{convert, expand_rules};
use crate::expand::{
    expansion, expansions, lemma_expansion_counters, lemma_expansions_counters, repeat_count,
    repeat_count_all,
};
use crate::grammar::{GrammarView, RuleBodyView, RuleView};
use crate::laws::{
    anchored, follows_at, follows_use, law_helper_ids_of_grammar,
    law_helpers_of_a_grammar_follow_their_use, lemma_anchored_step, lemma_rules_anchored,
    nodes_of, repeats_in,
};
use crate::placement::{first_use, place, place_one, uses, uses_any};
use vstd::prelude::*;

verus! {

/// The sum of the weights of the statements of a list.
pub open spec fn tally(
    statements: Seq<StatementView>,
    weight: spec_fn(StatementView) -> nat,
) -> nat
    decreases statements.len(),
{
    if statements.len() == 0 {
        0
    } else {
        tally(statements.drop_last(), weight) + weight(statements.last())
    }
}

/// The tally of two lists in a row is the sum of their tallies.
pub proof fn lemma_tally_of_two(
    first: Seq<StatementView>,
    second: Seq<StatementView>,
    weight: spec_fn(StatementView) -> nat,
)
    ensures
        tally(first + second, weight) == tally(first, weight) + tally(second, weight),
    decreases second.len(),
{
    if second.len() == 0 {
        assert(first + second =~= first);
    } else {
        lemma_tally_of_two(first, second.drop_last(), weight);
        assert((first + second).drop_last() =~= first + second.drop_last());
        assert((first + second).last() == second.last());
    }
}

/// A statement that is inserted adds its weight to the tally.
pub proof fn lemma_tally_of_insertion(
    statements: Seq<StatementView>,
    at: int,
    statement: StatementView,
    weight: spec_fn(StatementView) -> nat,
)
    requires
        0 <= at <= statements.len(),
    ensures
        tally(statements.insert(at, statement), weight) == tally(statements, weight) + weight(
            statement,
        ),
{
    let front = statements.take(at);
    let back = statements.skip(at);
    let one = seq![statement];
    assert(statements =~= front + back);
    assert(statements.insert(at, statement) =~= (front + one) + back);
    assert(one.drop_last() =~= Seq::<StatementView>::empty());
    assert(tally(one.drop_last(), weight) == 0);
    assert(tally(one, weight) == weight(statement));
    lemma_tally_of_two(front, back, weight);
    lemma_tally_of_two(front, one, weight);
    lemma_tally_of_two(front + one, back, weight);
}

/// Where every pending statement is referred to by a statement of the list or by a
/// later pending one, placement keeps everything: whatever is counted, the list that
/// comes out holds what the list and the pending statements held together.
pub proof fn lemma_placement_keeps_the_tally(
    pending: Seq<StatementView>,
    statements: Seq<StatementView>,
    weight: spec_fn(StatementView) -> nat,
)
    requires
        anchored(pending, nodes_of(statements)),
    ensures
        tally(place(pending, statements), weight) == tally(statements, weight) + tally(
            pending,
            weight,
        ),
    decreases pending.len(),
{
    if pending.len() > 0 {
        lemma_anchored_step(pending, statements);
        let p = first_use(pending.last().name, statements)->0;
        lemma_tally_of_insertion(statements, p + 1, pending.last(), weight);
        lemma_placement_keeps_the_tally(
            pending.drop_last(),
            place_one(statements, pending.last()),
            weight,
        );
    }
}

/// The conversion loses nothing and invents nothing: whatever is counted, the statements
/// of a grammar hold what the statements of its rules and the synthesized helper
/// statements hold together. They are the same statements in another order.
pub proof fn law_conversion_keeps_every_statement(
    grammar: GrammarView,
    weight: spec_fn(StatementView) -> nat,
)
    ensures
        tally(convert(grammar).statements, weight) == tally(
            expand_rules(grammar.rules).statements,
            weight,
        ) + tally(expand_rules(grammar.rules).pending, weight),
{
    let e = expand_rules(grammar.rules);
    lemma_rules_anchored(grammar.rules);
    lemma_placement_keeps_the_tally(e.pending, e.statements, weight);
}

/// How often a node tree refers to the repetition with the given id.
pub open spec fn references(node: NodeView, id: nat) -> nat
    decreases node,
{
    match node {
        NodeView::Intermediate(i) => if i == id {
            1
        } else {
            0
        },
        NodeView::IntermediateChoice(_, members) => references_in(members, id),
        NodeView::IntermediateSeq(members) => references_in(members, id),
        NodeView::Leaf(_) => 0,
    }
}

/// How often the nodes of a list refer to the repetition with the given id.
pub open spec fn references_in(nodes: Seq<NodeView>, id: nat) -> nat
    decreases nodes,
{
    if nodes.len() == 0 {
        0
    } else {
        references_in(nodes.drop_last(), id) + references(nodes.last(), id)
    }
}

/// The weight that counts the references of a statement to the given id.
pub open spec fn reference_weight(id: nat) -> spec_fn(StatementView) -> nat {
    |statement: StatementView| references(statement.node, id)
}

/// The weight that counts the statements of the given name.
pub open spec fn name_weight(name: Seq<char>) -> spec_fn(StatementView) -> nat {
    |statement: StatementView|
        if statement.name == name {
            1nat
        } else {
            0nat
        }
}

/// One if `id` is among the `count` ids that follow `after`, else zero.
pub open spec fn one_if_taken(id: nat, after: nat, count: nat) -> nat {
    if after < id <= after + count {
        1
    } else {
        0
    }
}

/// The nodes and helper statements of a list of bodies refer once to each id that the
/// list took, and to no other.
pub proof fn lemma_references_of_expansions(
    bodies: Seq<RuleBodyView>,
    id_int: nat,
    id_choice: nat,
    step: nat,
    id: nat,
)
    ensures
        references_in(expansions(bodies, id_int, id_choice, step).nodes, id) + tally(
            expansions(bodies, id_int, id_choice, step).pending,
            reference_weight(id),
        ) == one_if_taken(id, id_int, repeat_count_all(bodies)),
    decreases bodies,
{
    let all = expansions(bodies, id_int, id_choice, step);
    if bodies.len() > 0 {
        let front = expansions(bodies.drop_last(), id_int, id_choice, step);
        let e = expansion(bodies.last(), front.id_int, front.id_choice + step);
        lemma_references_of_expansions(bodies.drop_last(), id_int, id_choice, step, id);
        lemma_references_of_expansion(bodies.last(), front.id_int, front.id_choice + step, id);
        lemma_expansions_counters(bodies.drop_last(), id_int, id_choice, step);
        lemma_tally_of_two(front.pending, e.pending, reference_weight(id));
        assert(all.nodes.drop_last() =~= front.nodes);
        assert(all.nodes.last() == e.node);
    }
}

/// The node and the helper statements of a body refer once to each id that the body
/// took, and to no other.
pub proof fn lemma_references_of_expansion(
    body: RuleBodyView,
    id_int: nat,
    id_choice: nat,
    id: nat,
)
    ensures
        references(expansion(body, id_int, id_choice).node, id) + tally(
            expansion(body, id_int, id_choice).pending,
            reference_weight(id),
        ) == one_if_taken(id, id_int, repeat_count(body)),
    decreases body,
{
    let all = expansion(body, id_int, id_choice);
    match body {
        RuleBodyView::Repeat(Some(inner)) => {
            let e = expansion(*inner, id_int, id_choice);
            lemma_references_of_expansion(*inner, id_int, id_choice, id);
            lemma_expansion_counters(*inner, id_int, id_choice);
            assert(all.pending.drop_last() =~= e.pending);
            assert(all.pending.last().node == e.node);
        },
        RuleBodyView::Choice(Some(members)) => {
            lemma_references_of_expansions(members, id_int, id_choice, 1, id);
        },
        RuleBodyView::Sequence(Some(members)) => {
            lemma_references_of_expansions(members, id_int, id_choice, 0, id);
        },
        _ => {},
    }
}

proof fn lemma_references_of_rules(rules: Seq<RuleView>, id: nat)
    ensures
        tally(expand_rules(rules).statements, reference_weight(id)) + tally(
            expand_rules(rules).pending,
            reference_weight(id),
        ) == one_if_taken(id, 0, repeats_in(rules)),
        expand_rules(rules).id_int == repeats_in(rules),
    decreases rules.len(),
{
    let all = expand_rules(rules);
    if rules.len() > 0 {
        let front = expand_rules(rules.drop_last());
        let e = expansion(rules.last().body, front.id_int, front.id_choice);
        lemma_references_of_rules(rules.drop_last(), id);
        lemma_references_of_expansion(rules.last().body, front.id_int, front.id_choice, id);
        lemma_expansion_counters(rules.last().body, front.id_int, front.id_choice);
        lemma_tally_of_two(front.pending, e.pending, reference_weight(id));
        assert(all.statements.drop_last() =~= front.statements);
        assert(all.statements.last().node == e.node);
    }
}

/// The statements of a grammar refer exactly once to each of the ids 1, 2, and so on up
/// to the number of its repetitions, and to no other id: every repetition stands as one
/// reference, and none is written out in its place.
pub proof fn law_each_helper_is_referred_to_once(grammar: GrammarView, id: nat)
    ensures
        tally(convert(grammar).statements, reference_weight(id)) == one_if_taken(
            id,
            0,
            repeats_in(grammar.rules),
        ),
{
    lemma_references_of_rules(grammar.rules, id);
    law_conversion_keeps_every_statement(grammar, reference_weight(id));
}

/// Among helper statements that carry the names of the ids 1, 2, and so on in order,
/// the name of an id occurs once if the id is among them, and not at all if not.
proof fn lemma_names_of_helpers(pending: Seq<StatementView>, id: nat)
    requires
        forall|j: int|
            0 <= j < pending.len() ==> (#[trigger] pending[j]).name == intermediate_name(
                (j + 1) as nat,
            ),
    ensures
        tally(pending, name_weight(intermediate_name(id))) == one_if_taken(id, 0, pending.len()),
    decreases pending.len(),
{
    if pending.len() > 0 {
        let front = pending.drop_last();
        assert forall|j: int| 0 <= j < front.len() implies (#[trigger] front[j]).name
            == intermediate_name((j + 1) as nat) by {
            assert(front[j] == pending[j]);
        }
        lemma_names_of_helpers(front, id);
        let last = pending.len() - 1;
        assert(pending.last() == pending[last]);
        if pending[last].name == intermediate_name(id) {
            lemma_intermediate_name_is_injective((last + 1) as nat, id);
        }
    }
}

/// Among statements none of which has the given name, the name does not occur.
proof fn lemma_name_is_absent(statements: Seq<StatementView>, name: Seq<char>)
    requires
        forall|i: int| 0 <= i < statements.len() ==> (#[trigger] statements[i]).name != name,
    ensures
        tally(statements, name_weight(name)) == 0,
    decreases statements.len(),
{
    if statements.len() > 0 {
        let front = statements.drop_last();
        assert forall|i: int| 0 <= i < front.len() implies (#[trigger] front[i]).name
            != name by {
            assert(front[i] == statements[i]);
        }
        lemma_name_is_absent(front, name);
        assert(statements.last() == statements[statements.len() - 1]);
    }
}

/// The statements of the rules carry the names of the rules.
proof fn lemma_names_of_rules(rules: Seq<RuleView>)
    ensures
        expand_rules(rules).statements.len() == rules.len(),
        forall|i: int|
            0 <= i < rules.len() ==> (#[trigger] expand_rules(rules).statements[i]).name
                == rules[i].ident,
    decreases rules.len(),
{
    if rules.len() > 0 {
        lemma_names_of_rules(rules.drop_last());
        let all = expand_rules(rules).statements;
        let front = expand_rules(rules.drop_last()).statements;
        assert forall|i: int| 0 <= i < rules.len() implies (#[trigger] all[i]).name
            == rules[i].ident by {
            if i < front.len() {
                assert(all[i] == front[i]);
                assert(rules.drop_last()[i] == rules[i]);
            }
        }
    }
}

/// Where no rule has the helper name of an id, the statements of the grammar hold that
/// name exactly once if the id is one of 1, 2, and so on up to the number of
/// repetitions, and not at all if it is not: no two helper statements share a name.
pub proof fn law_each_helper_name_occurs_once(grammar: GrammarView, id: nat)
    requires
        forall|i: int|
            0 <= i < grammar.rules.len() ==> (#[trigger] grammar.rules[i]).ident
                != intermediate_name(id),
    ensures
        tally(convert(grammar).statements, name_weight(intermediate_name(id))) == one_if_taken(
            id,
            0,
            repeats_in(grammar.rules),
        ),
{
    let e = expand_rules(grammar.rules);
    let name = intermediate_name(id);
    law_helper_ids_of_grammar(grammar.rules);
    lemma_references_of_rules(grammar.rules, id);
    lemma_names_of_helpers(e.pending, id);
    lemma_names_of_rules(grammar.rules);
    assert forall|i: int| 0 <= i < e.statements.len() implies (#[trigger] e.statements[i]).name
        != name by {
        assert(e.statements[i].name == grammar.rules[i].ident);
    }
    lemma_name_is_absent(e.statements, name);
    law_conversion_keeps_every_statement(grammar, name_weight(name));
}

/// The weight that counts the occurrences of the given statement.
pub open spec fn statement_weight(wanted: StatementView) -> spec_fn(StatementView) -> nat {
    |statement: StatementView|
        if statement == wanted {
            1nat
        } else {
            0nat
        }
}

/// A statement is counted in a list exactly if the list contains it.
proof fn lemma_counted_is_contained(statements: Seq<StatementView>, wanted: StatementView)
    ensures
        tally(statements, statement_weight(wanted)) > 0 <==> statements.contains(wanted),
    decreases statements.len(),
{
    if statements.len() > 0 {
        let front = statements.drop_last();
        lemma_counted_is_contained(front, wanted);
        if front.contains(wanted) {
            let i = choose|i: int| 0 <= i < front.len() && front[i] == wanted;
            assert(statements[i] == wanted);
        }
        if statements.last() == wanted {
            assert(statements[statements.len() - 1] == wanted);
        }
        if statements.contains(wanted) {
            let i = choose|i: int| 0 <= i < statements.len() && statements[i] == wanted;
            if i < front.len() {
                assert(front[i] == wanted);
            }
        }
    }
}

/// A statement is among the statements of a grammar exactly if it is the statement of
/// a rule or a synthesized helper statement: each helper is there with the node that the
/// expansion gave it, the expanded inner body of its repetition.
pub proof fn law_every_statement_is_kept(grammar: GrammarView, statement: StatementView)
    ensures
        convert(grammar).statements.contains(statement) <==> expand_rules(
            grammar.rules,
        ).statements.contains(statement) || expand_rules(grammar.rules).pending.contains(
            statement,
        ),
{
    let e = expand_rules(grammar.rules);
    law_conversion_keeps_every_statement(grammar, statement_weight(statement));
    lemma_counted_is_contained(convert(grammar).statements, statement);
    lemma_counted_is_contained(e.statements, statement);
    lemma_counted_is_contained(e.pending, statement);
}

/// Whether `part` is `body` or one of the bodies below it.
pub open spec fn occurs_in(part: RuleBodyView, body: RuleBodyView) -> bool
    decreases body,
{
    part == body || match body {
        RuleBodyView::Repeat(Some(inner)) => occurs_in(part, *inner),
        RuleBodyView::Choice(Some(members)) => occurs_in_any(part, members),
        RuleBodyView::Sequence(Some(members)) => occurs_in_any(part, members),
        _ => false,
    }
}

/// Whether `part` is one of the bodies of the list or one of the bodies below them.
pub open spec fn occurs_in_any(part: RuleBodyView, bodies: Seq<RuleBodyView>) -> bool
    decreases bodies,
{
    bodies.len() > 0 && (occurs_in_any(part, bodies.drop_last()) || occurs_in(
        part,
        bodies.last(),
    ))
}

/// The helper statement of a repetition whose inner body is expanded with the counters
/// at `id_int` and `id_choice`: under the name of the id that the repetition takes, the
/// node of the inner body.
pub open spec fn helper_of(inner: RuleBodyView, id_int: nat, id_choice: nat) -> StatementView {
    StatementView {
        name: intermediate_name(id_int + repeat_count(inner) + 1),
        node: expansion(inner, id_int, id_choice).node,
    }
}

/// Whether `statement` is the helper statement of a repetition in `body`.
pub open spec fn is_helper_in(statement: StatementView, body: RuleBodyView) -> bool {
    exists|inner: RuleBodyView, id_int: nat, id_choice: nat|
        occurs_in(RuleBodyView::Repeat(Some(Box::new(inner))), body) && statement
            == #[trigger] helper_of(inner, id_int, id_choice)
}

/// Whether `statement` is the helper statement of a repetition in one of the bodies.
pub open spec fn is_helper_in_any(statement: StatementView, bodies: Seq<RuleBodyView>) -> bool {
    exists|inner: RuleBodyView, id_int: nat, id_choice: nat|
        occurs_in_any(RuleBodyView::Repeat(Some(Box::new(inner))), bodies) && statement
            == #[trigger] helper_of(inner, id_int, id_choice)
}

/// Whether `statement` is the helper statement of a repetition in the body of a rule.
pub open spec fn is_helper_in_rules(statement: StatementView, rules: Seq<RuleView>) -> bool {
    exists|r: int| 0 <= r < rules.len() && is_helper_in(statement, (#[trigger] rules[r]).body)
}

/// Every statement that the expansion of a list synthesizes is the helper statement of a
/// repetition in the list.
pub proof fn lemma_helpers_of_expansions(
    bodies: Seq<RuleBodyView>,
    id_int: nat,
    id_choice: nat,
    step: nat,
)
    ensures
        forall|j: int|
            0 <= j < expansions(bodies, id_int, id_choice, step).pending.len()
                ==> is_helper_in_any(
                #[trigger] expansions(bodies, id_int, id_choice, step).pending[j],
                bodies,
            ),
    decreases bodies,
{
    let all = expansions(bodies, id_int, id_choice, step);
    if bodies.len() > 0 {
        let front = expansions(bodies.drop_last(), id_int, id_choice, step);
        let e = expansion(bodies.last(), front.id_int, front.id_choice + step);
        lemma_helpers_of_expansions(bodies.drop_last(), id_int, id_choice, step);
        lemma_helpers_of_expansion(bodies.last(), front.id_int, front.id_choice + step);
        assert forall|j: int| 0 <= j < all.pending.len() implies is_helper_in_any(
            #[trigger] all.pending[j],
            bodies,
        ) by {
            let n = front.pending.len() as int;
            if j < n {
                assert(all.pending[j] == front.pending[j]);
                assert(is_helper_in_any(front.pending[j], bodies.drop_last()));
                let (inner, i, c) = choose|inner: RuleBodyView, i: nat, c: nat|
                    occurs_in_any(RuleBodyView::Repeat(Some(Box::new(inner))), bodies.drop_last())
                        && front.pending[j] == #[trigger] helper_of(inner, i, c);
                assert(occurs_in_any(RuleBodyView::Repeat(Some(Box::new(inner))), bodies));
            } else {
                assert(all.pending[j] == e.pending[j - n]);
                assert(is_helper_in(e.pending[j - n], bodies.last()));
                let (inner, i, c) = choose|inner: RuleBodyView, i: nat, c: nat|
                    occurs_in(RuleBodyView::Repeat(Some(Box::new(inner))), bodies.last())
                        && e.pending[j - n] == #[trigger] helper_of(inner, i, c);
                assert(occurs_in_any(RuleBodyView::Repeat(Some(Box::new(inner))), bodies));
            }
        }
    }
}

/// Every statement that the expansion of a body synthesizes is the helper statement of a
/// repetition in the body: it carries the expanded inner body of that repetition.
pub proof fn lemma_helpers_of_expansion(body: RuleBodyView, id_int: nat, id_choice: nat)
    ensures
        forall|j: int|
            0 <= j < expansion(body, id_int, id_choice).pending.len() ==> is_helper_in(
                #[trigger] expansion(body, id_int, id_choice).pending[j],
                body,
            ),
    decreases body,
{
    let all = expansion(body, id_int, id_choice);
    match body {
        RuleBodyView::Repeat(Some(inner)) => {
            let e = expansion(*inner, id_int, id_choice);
            lemma_helpers_of_expansion(*inner, id_int, id_choice);
            lemma_expansion_counters(*inner, id_int, id_choice);
            assert forall|j: int| 0 <= j < all.pending.len() implies is_helper_in(
                #[trigger] all.pending[j],
                body,
            ) by {
                if j < e.pending.len() {
                    assert(all.pending[j] == e.pending[j]);
                    assert(is_helper_in(e.pending[j], *inner));
                    let (part, i, c) = choose|part: RuleBodyView, i: nat, c: nat|
                        occurs_in(RuleBodyView::Repeat(Some(Box::new(part))), *inner)
                            && e.pending[j] == #[trigger] helper_of(part, i, c);
                    assert(occurs_in(RuleBodyView::Repeat(Some(Box::new(part))), body));
                } else {
                    assert(all.pending[j] == helper_of(*inner, id_int, id_choice));
                    assert(RuleBodyView::Repeat(Some(Box::new(*inner))) == body);
                    assert(occurs_in(RuleBodyView::Repeat(Some(Box::new(*inner))), body));
                }
            }
        },
        RuleBodyView::Choice(Some(members)) => {
            lemma_helpers_of_expansions(members, id_int, id_choice, 1);
            let e = expansions(members, id_int, id_choice, 1);
            assert forall|j: int| 0 <= j < all.pending.len() implies is_helper_in(
                #[trigger] all.pending[j],
                body,
            ) by {
                assert(all.pending[j] == e.pending[j]);
                assert(is_helper_in_any(e.pending[j], members));
                let (part, i, c) = choose|part: RuleBodyView, i: nat, c: nat|
                    occurs_in_any(RuleBodyView::Repeat(Some(Box::new(part))), members)
                        && all.pending[j] == #[trigger] helper_of(part, i, c);
                assert(occurs_in(RuleBodyView::Repeat(Some(Box::new(part))), body));
            }
        },
        RuleBodyView::Sequence(Some(members)) => {
            lemma_helpers_of_expansions(members, id_int, id_choice, 0);
            let e = expansions(members, id_int, id_choice, 0);
            assert forall|j: int| 0 <= j < all.pending.len() implies is_helper_in(
                #[trigger] all.pending[j],
                body,
            ) by {
                assert(all.pending[j] == e.pending[j]);
                assert(is_helper_in_any(e.pending[j], members));
                let (part, i, c) = choose|part: RuleBodyView, i: nat, c: nat|
                    occurs_in_any(RuleBodyView::Repeat(Some(Box::new(part))), members)
                        && all.pending[j] == #[trigger] helper_of(part, i, c);
                assert(occurs_in(RuleBodyView::Repeat(Some(Box::new(part))), body));
            }
        },
        _ => {},
    }
}

proof fn lemma_helpers_of_rules(rules: Seq<RuleView>)
    ensures
        forall|j: int|
            0 <= j < expand_rules(rules).pending.len() ==> is_helper_in_rules(
                #[trigger] expand_rules(rules).pending[j],
                rules,
            ),
    decreases rules.len(),
{
    let all = expand_rules(rules);
    if rules.len() > 0 {
        let front = expand_rules(rules.drop_last());
        let e = expansion(rules.last().body, front.id_int, front.id_choice);
        lemma_helpers_of_rules(rules.drop_last());
        lemma_helpers_of_expansion(rules.last().body, front.id_int, front.id_choice);
        assert forall|j: int| 0 <= j < all.pending.len() implies is_helper_in_rules(
            #[trigger] all.pending[j],
            rules,
        ) by {
            let n = front.pending.len() as int;
            if j < n {
                assert(all.pending[j] == front.pending[j]);
                assert(is_helper_in_rules(front.pending[j], rules.drop_last()));
                let r = choose|r: int|
                    0 <= r < rules.drop_last().len() && is_helper_in(
                        front.pending[j],
                        (#[trigger] rules.drop_last()[r]).body,
                    );
                assert(rules[r] == rules.drop_last()[r]);
            } else {
                assert(all.pending[j] == e.pending[j - n]);
                assert(is_helper_in(e.pending[j - n], rules[rules.len() - 1].body));
            }
        }
    }
}

/// The helper statement of each id is among the statements of the grammar, under the
/// helper name of that id, and it is the helper statement of a repetition in a rule: its
/// node is the expanded inner body of that repetition. The repetition itself stands as a
/// reference; its inner body is written nowhere else.
pub proof fn law_each_helper_holds_an_inner_body(grammar: GrammarView, id: nat)
    requires
        1 <= id <= repeats_in(grammar.rules),
    ensures
        ({
            let helper = expand_rules(grammar.rules).pending[id - 1];
            &&& helper.name == intermediate_name(id)
            &&& is_helper_in_rules(helper, grammar.rules)
            &&& convert(grammar).statements.contains(helper)
        }),
{
    let e = expand_rules(grammar.rules);
    lemma_references_of_rules(grammar.rules, id);
    law_helper_ids_of_grammar(grammar.rules);
    lemma_helpers_of_rules(grammar.rules);
    let helper = e.pending[id - 1];
    assert(e.pending.contains(helper));
    law_every_statement_is_kept(grammar, helper);
}

/// One of the nodes refers to the helper name of an id exactly if the nodes hold a
/// reference with that id.
pub proof fn lemma_uses_any_is_a_reference(nodes: Seq<NodeView>, id: nat)
    ensures
        uses_any(intermediate_name(id), nodes) <==> references_in(nodes, id) > 0,
    decreases nodes,
{
    if nodes.len() > 0 {
        lemma_uses_any_is_a_reference(nodes.drop_last(), id);
        lemma_uses_is_a_reference(nodes.last(), id);
    }
}

/// A node tree refers to the helper name of an id exactly if it holds a reference with
/// that id.
pub proof fn lemma_uses_is_a_reference(node: NodeView, id: nat)
    ensures
        uses(intermediate_name(id), node) <==> references(node, id) > 0,
    decreases node,
{
    match node {
        NodeView::Intermediate(i) => {
            if intermediate_name(id) == intermediate_name(i) {
                lemma_intermediate_name_is_injective(id, i);
            }
        },
        NodeView::IntermediateChoice(_, members) => {
            lemma_uses_any_is_a_reference(members, id);
        },
        NodeView::IntermediateSeq(members) => {
            lemma_uses_any_is_a_reference(members, id);
        },
        NodeView::Leaf(_) => {},
    }
}

/// Each helper statement of a grammar stands behind a statement whose node tree holds a
/// reference with its id: no helper is in the list without a reference before it.
pub proof fn law_each_helper_is_referred_to_from_before(grammar: GrammarView, id: nat)
    requires
        1 <= id <= repeats_in(grammar.rules),
    ensures
        exists|u: int, h: int|
            0 <= u < h < convert(grammar).statements.len() && (
            #[trigger] convert(grammar).statements[h]) == expand_rules(
                grammar.rules,
            ).pending[id - 1] && convert(grammar).statements[h].name == intermediate_name(id)
                && references((#[trigger] convert(grammar).statements[u]).node, id) > 0,
{
    let e = expand_rules(grammar.rules);
    let list = convert(grammar).statements;
    lemma_references_of_rules(grammar.rules, id);
    law_helper_ids_of_grammar(grammar.rules);
    law_helpers_of_a_grammar_follow_their_use(grammar, id - 1);
    let helper = e.pending[id - 1];
    let lower = e.pending.take(id - 1);
    let (u, h) = choose|u: int, h: int| #[trigger] follows_at(list, helper, lower, u, h);
    lemma_uses_is_a_reference(list[u].node, id);
    assert(list[h] == helper && references(list[u].node, id) > 0);
}

/// Every statement of a grammar is the statement of a rule, or a helper statement that
/// stands behind a statement which refers to it.
pub proof fn law_every_statement_is_a_rule_or_a_used_helper(
    grammar: GrammarView,
    statement: StatementView,
)
    requires
        convert(grammar).statements.contains(statement),
    ensures
        expand_rules(grammar.rules).statements.contains(statement) || follows_use(
            convert(grammar).statements,
            statement,
            expand_rules(grammar.rules).pending,
        ),
{
    let e = expand_rules(grammar.rules);
    let list = convert(grammar).statements;
    law_every_statement_is_kept(grammar, statement);
    if !e.statements.contains(statement) {
        let j = choose|j: int| 0 <= j < e.pending.len() && e.pending[j] == statement;
        law_helpers_of_a_grammar_follow_their_use(grammar, j);
        let lower = e.pending.take(j);
        let (u, h) = choose|u: int, h: int| #[trigger] follows_at(list, statement, lower, u, h);
        assert forall|q: int| u < q < h implies e.pending.contains(#[trigger] list[q]) by {
            assert(lower.contains(list[q]));
            let i = choose|i: int| 0 <= i < lower.len() && lower[i] == list[q];
            assert(e.pending[i] == list[q]);
        }
        assert(follows_at(list, statement, e.pending, u, h));
    }
}

} // verus!
