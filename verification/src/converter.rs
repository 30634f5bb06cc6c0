//! The conversion of a grammar into the statements of its type definitions.

use crate::ast::{statement_views, AstView, StatementView};
use crate::expand::{expansion, lemma_expansion_counters};
use crate::grammar::{is_well_formed, rule_views, well_formed, Grammar, GrammarView, RuleView};
use crate::placement::{place, place_statements};
use vstd::prelude::*;

pub use crate::ast::{Ast, Name, Node, Statement};
pub use crate::expand::{expand_rulebody, ConvertError};
pub use crate::placement::{get_pos_statement, is_intermediate_used};
pub use crate::render::{ast_to_string, node_to_string, statement_to_string};

verus! {

/// What the expansion of the rules of a grammar yields: one statement for each rule, the
/// helper statements that were synthesized on the way, and the two counters at the end.
pub struct RulesExpansion {
    pub statements: Seq<StatementView>,
    pub pending: Seq<StatementView>,
    pub id_int: nat,
    pub id_choice: nat,
}

/// The expansion of the rules in the order of their declaration. Both counters start at
/// zero and run through the whole grammar.
pub open spec fn expand_rules(rules: Seq<RuleView>) -> RulesExpansion
    decreases rules.len(),
{
    if rules.len() == 0 {
        RulesExpansion {
            statements: Seq::empty(),
            pending: Seq::empty(),
            id_int: 0,
            id_choice: 0,
        }
    } else {
        let front = expand_rules(rules.drop_last());
        let e = expansion(rules.last().body, front.id_int, front.id_choice);
        RulesExpansion {
            statements: front.statements.push(
                StatementView { name: rules.last().ident, node: e.node },
            ),
            pending: front.pending + e.pending,
            id_int: e.id_int,
            id_choice: e.id_choice,
        }
    }
}

/// Whether the body of every rule is well formed.
pub open spec fn rules_well_formed(rules: Seq<RuleView>) -> bool {
    forall|i: int| 0 <= i < rules.len() ==> well_formed((#[trigger] rules[i]).body)
}

/// Whether the ids that the rules take fit in 32 bits.
pub open spec fn ids_fit(rules: Seq<RuleView>) -> bool {
    expand_rules(rules).id_int <= u32::MAX && expand_rules(rules).id_choice <= u32::MAX
}

/// The statements of a grammar: those of its rules, with the helper statements placed.
/// Placement drops a helper that nothing refers to; none of these helpers is dropped,
/// since each is referred to from where its repetition stood.
pub open spec fn convert(grammar: GrammarView) -> AstView {
    let e = expand_rules(grammar.rules);
    AstView { name: grammar.ident, statements: place(e.pending, e.statements) }
}

/// What the conversion of a grammar comes to: its statements, or the reason why it has
/// none. A body without content counts before ids that do not fit.
pub open spec fn conversion_of(grammar: GrammarView) -> Result<AstView, ConvertError> {
    if !rules_well_formed(grammar.rules) {
        Err(ConvertError::MissingContent)
    } else if !ids_fit(grammar.rules) {
        Err(ConvertError::IdOverflow)
    } else {
        Ok(convert(grammar))
    }
}

/// The counters never fall: after a part of the rules they are at most what they are
/// after all of them.
pub proof fn lemma_expand_rules_grows(rules: Seq<RuleView>, k: int)
    requires
        0 <= k <= rules.len(),
    ensures
        expand_rules(rules.take(k)).id_int <= expand_rules(rules).id_int,
        expand_rules(rules.take(k)).id_choice <= expand_rules(rules).id_choice,
    decreases rules.len() - k,
{
    if k == rules.len() {
        assert(rules.take(k) =~= rules);
    } else {
        let front = expand_rules(rules.drop_last());
        assert(rules.drop_last().take(k) =~= rules.take(k));
        lemma_expand_rules_grows(rules.drop_last(), k);
        lemma_expansion_counters(rules.last().body, front.id_int, front.id_choice);
    }
}

/// Converts a grammar into its statements.
///
/// Every rule is expanded in the order of its declaration, with counters that start at
/// zero; then the helper statements of the repetitions are placed, the last synthesized
/// first. A grammar with a rule body that is not well formed is refused, and so is one
/// whose ids would not fit in 32 bits.
pub fn convert_to_ast(grammar: Grammar) -> (result: Result<Ast, ConvertError>)
    ensures
        match result {
            Ok(ast) => conversion_of(grammar@) == Ok::<AstView, ConvertError>(ast@),
            Err(error) => conversion_of(grammar@) == Err::<AstView, ConvertError>(error),
        },
{
    let rules = grammar.get_rules().get_list();
    let ghost all = rule_views(rules@);
    let mut k: usize = 0;
    while k < rules.len()
        invariant
            k <= rules.len(),
            all == rule_views(rules@),
            all == grammar@.rules,
            forall|i: int| 0 <= i < k ==> well_formed((#[trigger] all[i]).body),
        decreases rules.len() - k,
    {
        if !is_well_formed(rules[k].get_rulebody()) {
            assert(all[k as int] == rules@[k as int]@);
            return Err(ConvertError::MissingContent);
        }
        assert(all[k as int] == rules@[k as int]@);
        k += 1;
    }
    let mut ast: Vec<Statement> = Vec::new();
    let mut new_statements: Vec<Statement> = Vec::new();
    let mut id_int: u32 = 0;
    let mut id_cho: u32 = 0;
    let mut i: usize = 0;
    assert(statement_views(ast@) =~= Seq::empty());
    assert(statement_views(new_statements@) =~= Seq::empty());
    while i < rules.len()
        invariant
            i <= rules.len(),
            all == rule_views(rules@),
            all == grammar@.rules,
            rules_well_formed(all),
            ({
                let e = expand_rules(all.take(i as int));
                &&& statement_views(ast@) == e.statements
                &&& statement_views(new_statements@) == e.pending
                &&& id_int == e.id_int
                &&& id_cho == e.id_choice
            }),
        decreases rules.len() - i,
    {
        let rule = &rules[i];
        proof {
            assert(all.take(i + 1).drop_last() =~= all.take(i as int));
            assert(all.take(i + 1).last() == rule@);
            assert(all[i as int] == rule@);
            lemma_expand_rules_grows(all, i + 1);
        }
        let ghost held = ast@;
        match expand_rulebody(rule.get_rulebody(), &mut new_statements, &mut id_int, &mut id_cho) {
            Ok(node) => {
                let name = Name::new(rule.get_ident().get_string().clone());
                let statement = Statement::new(name, node);
                ast.push(statement);
                assert(statement_views(held.push(statement)) =~= statement_views(held).push(
                    statement@,
                ));
            },
            Err(error) => {
                return Err(ConvertError::IdOverflow);
            },
        }
        i += 1;
    }
    assert(all.take(i as int) =~= all);
    place_statements(new_statements, &mut ast);
    let name = Name::new(grammar.get_ident().get_string().clone());
    Ok(Ast::new(name, ast))
}

} // verus!
