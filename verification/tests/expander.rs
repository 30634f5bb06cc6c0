use grammar_types::converter::{
    ast_to_string, convert_to_ast, expand_rulebody, ConvertError, Name, Node, Statement,
};
use grammar_types::expand::{count_choices, count_repeats};
use grammar_types::grammar::{is_well_formed, Grammar, Ident, Rule, RuleBody, Rules};

fn sym(name: &str) -> RuleBody {
    RuleBody::Symbol(Some(String::from(name)))
}

fn repeat(inner: RuleBody) -> RuleBody {
    RuleBody::Repeat(Some(Box::new(inner)))
}

fn choice(members: Vec<RuleBody>) -> RuleBody {
    RuleBody::Choice(Some(Box::new(members)))
}

fn seq(members: Vec<RuleBody>) -> RuleBody {
    RuleBody::Sequence(Some(Box::new(members)))
}

fn leaf(name: &str) -> Node {
    Node::Leaf(Name::new(String::from(name)))
}

fn helper(id: u32, node: Node) -> Statement {
    Statement::new(Name::new(format!("Intermediate{}", id)), node)
}

fn grammar(rules: Vec<(&str, RuleBody)>) -> Grammar {
    Grammar::new(
        Ident::new(String::from("G")),
        Rules::new(
            rules
                .into_iter()
                .map(|(name, body)| Rule::new(Ident::new(String::from(name)), body))
                .collect(),
        ),
    )
}

#[test]
fn terminals_become_leaves_and_take_no_id() {
    for body in [
        sym("x"),
        RuleBody::Str(Some(String::from("x"))),
        RuleBody::Pattern(Some(String::from("x"))),
    ] {
        let mut pending = vec![];
        let (mut id_int, mut id_choice) = (3, 4);
        let node = expand_rulebody(&body, &mut pending, &mut id_int, &mut id_choice);
        assert_eq!(node, Ok(leaf("x")));
        assert!(pending.is_empty());
        assert_eq!((id_int, id_choice), (3, 4));
    }
}

#[test]
fn repeat_takes_the_next_id_and_synthesizes_its_helper() {
    let mut pending = vec![];
    let (mut id_int, mut id_choice) = (5, 7);
    let node = expand_rulebody(&repeat(sym("b")), &mut pending, &mut id_int, &mut id_choice);
    assert_eq!(node, Ok(Node::Intermediate(6)));
    assert_eq!(pending, vec![helper(6, leaf("b"))]);
    assert_eq!((id_int, id_choice), (6, 7));
}

#[test]
fn helpers_are_appended_behind_what_was_pending() {
    let mut pending = vec![helper(1, leaf("old"))];
    let (mut id_int, mut id_choice) = (1, 0);
    let node = expand_rulebody(&repeat(sym("b")), &mut pending, &mut id_int, &mut id_choice);
    assert_eq!(node, Ok(Node::Intermediate(2)));
    assert_eq!(pending, vec![helper(1, leaf("old")), helper(2, leaf("b"))]);
}

#[test]
fn helper_ids_grow_in_the_order_of_synthesis() {
    let body = seq(vec![
        repeat(repeat(sym("a"))),
        choice(vec![repeat(sym("b")), sym("c")]),
        repeat(sym("d")),
    ]);
    let mut pending = vec![];
    let (mut id_int, mut id_choice) = (0, 0);
    let node = expand_rulebody(&body, &mut pending, &mut id_int, &mut id_choice);
    assert_eq!(
        node,
        Ok(Node::IntermediateSeq(vec![
            Node::Intermediate(2),
            Node::IntermediateChoice(0, vec![Node::Intermediate(3), leaf("c")]),
            Node::Intermediate(4),
        ]))
    );
    assert_eq!(
        pending,
        vec![
            helper(1, leaf("a")),
            helper(2, Node::Intermediate(1)),
            helper(3, leaf("b")),
            helper(4, leaf("d")),
        ]
    );
    assert_eq!((id_int, id_choice), (4, 2));
}

#[test]
fn choice_takes_one_id_for_each_alternative() {
    let mut pending = vec![];
    let (mut id_int, mut id_choice) = (0, 10);
    let body = choice(vec![sym("p"), sym("q"), sym("r")]);
    let node = expand_rulebody(&body, &mut pending, &mut id_int, &mut id_choice);
    assert_eq!(
        node,
        Ok(Node::IntermediateChoice(10, vec![leaf("p"), leaf("q"), leaf("r")]))
    );
    assert!(pending.is_empty());
    assert_eq!((id_int, id_choice), (0, 13));
}

#[test]
fn nested_choice_starts_at_the_counter_of_its_place() {
    let mut pending = vec![];
    let (mut id_int, mut id_choice) = (0, 0);
    let body = choice(vec![sym("a"), choice(vec![sym("b"), sym("c")]), sym("d")]);
    let node = expand_rulebody(&body, &mut pending, &mut id_int, &mut id_choice);
    assert_eq!(
        node,
        Ok(Node::IntermediateChoice(
            0,
            vec![
                leaf("a"),
                Node::IntermediateChoice(2, vec![leaf("b"), leaf("c")]),
                leaf("d"),
            ]
        ))
    );
    assert_eq!(id_choice, 5);
}

#[test]
fn empty_choice_and_sequence_take_no_id() {
    let mut pending = vec![];
    let (mut id_int, mut id_choice) = (1, 1);
    assert_eq!(
        expand_rulebody(&choice(vec![]), &mut pending, &mut id_int, &mut id_choice),
        Ok(Node::IntermediateChoice(1, vec![]))
    );
    assert_eq!(
        expand_rulebody(&seq(vec![]), &mut pending, &mut id_int, &mut id_choice),
        Ok(Node::IntermediateSeq(vec![]))
    );
    assert_eq!((id_int, id_choice), (1, 1));
}

#[test]
fn body_without_content_is_refused_and_nothing_changes() {
    let faulty = [
        RuleBody::Repeat(None),
        RuleBody::Choice(None),
        RuleBody::Sequence(None),
        RuleBody::Symbol(None),
        RuleBody::Str(None),
        RuleBody::Pattern(None),
        repeat(RuleBody::Symbol(None)),
        seq(vec![repeat(sym("a")), choice(vec![sym("b"), RuleBody::Repeat(None)])]),
    ];
    for body in faulty {
        let mut pending = vec![helper(1, leaf("old"))];
        let (mut id_int, mut id_choice) = (1, 2);
        assert!(!is_well_formed(&body));
        let result = expand_rulebody(&body, &mut pending, &mut id_int, &mut id_choice);
        assert_eq!(result, Err(ConvertError::MissingContent));
        assert_eq!(pending, vec![helper(1, leaf("old"))]);
        assert_eq!((id_int, id_choice), (1, 2));
    }
}

#[test]
fn ids_that_do_not_fit_are_refused_and_nothing_changes() {
    let mut pending = vec![];
    let (mut id_int, mut id_choice) = (u32::MAX, 0);
    let body = seq(vec![sym("a"), repeat(sym("b"))]);
    let result = expand_rulebody(&body, &mut pending, &mut id_int, &mut id_choice);
    assert_eq!(result, Err(ConvertError::IdOverflow));
    assert!(pending.is_empty());
    assert_eq!((id_int, id_choice), (u32::MAX, 0));

    let (mut id_int, mut id_choice) = (0, u32::MAX - 1);
    let body = choice(vec![sym("a"), sym("b")]);
    let result = expand_rulebody(&body, &mut pending, &mut id_int, &mut id_choice);
    assert_eq!(result, Err(ConvertError::IdOverflow));
    assert_eq!((id_int, id_choice), (0, u32::MAX - 1));
}

#[test]
fn missing_content_counts_before_ids_that_do_not_fit() {
    let mut pending = vec![];
    let (mut id_int, mut id_choice) = (u32::MAX, u32::MAX);
    let body = seq(vec![repeat(sym("a")), RuleBody::Symbol(None)]);
    let result = expand_rulebody(&body, &mut pending, &mut id_int, &mut id_choice);
    assert_eq!(result, Err(ConvertError::MissingContent));
}

#[test]
fn the_last_ids_can_be_taken() {
    let mut pending = vec![];
    let (mut id_int, mut id_choice) = (u32::MAX - 1, u32::MAX - 2);
    let body = repeat(choice(vec![sym("a"), sym("b")]));
    let node = expand_rulebody(&body, &mut pending, &mut id_int, &mut id_choice);
    assert_eq!(node, Ok(Node::Intermediate(u32::MAX)));
    assert_eq!(
        pending,
        vec![Statement::new(
            Name::new(String::from("Intermediate4294967295")),
            Node::IntermediateChoice(u32::MAX - 2, vec![leaf("a"), leaf("b")]),
        )]
    );
    assert_eq!((id_int, id_choice), (u32::MAX, u32::MAX));
}

#[test]
fn counts_of_repetitions_and_alternatives() {
    let body = seq(vec![
        repeat(repeat(sym("a"))),
        choice(vec![repeat(sym("b")), choice(vec![sym("c")]), sym("d")]),
    ]);
    assert_eq!(count_repeats(&body), 3);
    assert_eq!(count_choices(&body), 4);
    assert_eq!(count_repeats(&sym("a")), 0);
    assert_eq!(count_choices(&sym("a")), 0);
    assert_eq!(count_repeats(&RuleBody::Repeat(None)), 0);
    assert!(is_well_formed(&body));
    assert!(is_well_formed(&choice(vec![])));
}

#[test]
fn conversion_gives_one_statement_per_rule_and_repetition() {
    let g = grammar(vec![
        ("a", seq(vec![repeat(sym("x")), repeat(repeat(sym("y")))])),
        ("b", sym("z")),
        ("c", choice(vec![repeat(sym("w")), sym("v")])),
    ]);
    let ast = convert_to_ast(g).unwrap();
    let names: Vec<String> = ast.get_statements().iter().map(|s| s.get_name()).collect();
    assert_eq!(
        names,
        vec![
            "a",
            "Intermediate1",
            "Intermediate3",
            "Intermediate2",
            "b",
            "c",
            "Intermediate4"
        ]
    );
    assert_eq!(ast.get_statements().len(), 3 + 4);
    assert_eq!(
        ast.get_statements()[0].get_node(),
        &Node::IntermediateSeq(vec![Node::Intermediate(1), Node::Intermediate(3)])
    );
    assert_eq!(ast.get_statements()[3].get_node(), &leaf("y"));
    assert_eq!(
        ast.get_statements()[5].get_node(),
        &Node::IntermediateChoice(0, vec![Node::Intermediate(4), leaf("v")])
    );
}

#[test]
fn conversion_of_terminal_rules_keeps_their_order() {
    let g = grammar(vec![
        ("z", sym("1")),
        ("a", RuleBody::Str(Some(String::from("2")))),
        ("m", RuleBody::Pattern(Some(String::from("3")))),
    ]);
    let ast = convert_to_ast(g).unwrap();
    assert_eq!(ast._get_name(), "G");
    assert_eq!(
        ast.get_statements(),
        &vec![
            Statement::new(Name::new(String::from("z")), leaf("1")),
            Statement::new(Name::new(String::from("a")), leaf("2")),
            Statement::new(Name::new(String::from("m")), leaf("3")),
        ]
    );
    assert_eq!(ast_to_string(ast), "type z = 1\nand a = 2\nand m = 3;");
}

#[test]
fn conversion_refuses_a_grammar_with_a_body_without_content() {
    let g = grammar(vec![("a", repeat(sym("x"))), ("b", RuleBody::Choice(None))]);
    assert_eq!(convert_to_ast(g).err(), Some(ConvertError::MissingContent));
    let g = grammar(vec![("a", RuleBody::Symbol(None))]);
    assert_eq!(convert_to_ast(g).err(), Some(ConvertError::MissingContent));
}

#[test]
fn a_rule_named_like_a_helper_does_not_attract_it() {
    let g = grammar(vec![("Intermediate1", sym("x")), ("a", repeat(sym("y")))]);
    let ast = convert_to_ast(g).unwrap();
    let names: Vec<String> = ast.get_statements().iter().map(|s| s.get_name()).collect();
    assert_eq!(names, vec!["Intermediate1", "a", "Intermediate1"]);
    assert_eq!(ast.get_statements()[2].get_node(), &leaf("y"));
}

fn count_references(node: &Node, id: u32) -> usize {
    match node {
        Node::Intermediate(i) => (*i == id) as usize,
        Node::IntermediateChoice(_, members) | Node::IntermediateSeq(members) => {
            members.iter().map(|m| count_references(m, id)).sum()
        }
        Node::Leaf(_) => 0,
    }
}

#[test]
fn every_helper_is_named_once_and_referred_to_once() {
    let g = grammar(vec![
        ("a", seq(vec![repeat(sym("x")), repeat(repeat(choice(vec![repeat(sym("y"))])))])),
        ("b", sym("z")),
        ("c", choice(vec![repeat(sym("w")), sym("v"), repeat(seq(vec![]))])),
    ]);
    let ast = convert_to_ast(g).unwrap();
    let statements = ast.get_statements();
    assert_eq!(statements.len(), 3 + 6);
    for id in 0..=8u32 {
        let expected = if (1..=6).contains(&id) { 1 } else { 0 };
        let references: usize = statements
            .iter()
            .map(|s| count_references(s.get_node(), id))
            .sum();
        assert_eq!(references, expected, "references to {}", id);
        let named = statements
            .iter()
            .filter(|s| s.get_name() == format!("Intermediate{}", id))
            .count();
        assert_eq!(named, expected, "statements named after {}", id);
    }
    let helper = |id: u32| {
        statements
            .iter()
            .find(|s| s.get_name() == format!("Intermediate{}", id))
            .unwrap()
            .get_node()
    };
    assert_eq!(helper(1), &leaf("x"));
    assert_eq!(helper(2), &leaf("y"));
    assert_eq!(helper(3), &Node::IntermediateChoice(0, vec![Node::Intermediate(2)]));
    assert_eq!(helper(4), &Node::Intermediate(3));
    assert_eq!(helper(5), &leaf("w"));
    assert_eq!(helper(6), &Node::IntermediateSeq(vec![]));
}

#[test]
fn every_helper_stands_behind_a_statement_that_refers_to_it() {
    let g = grammar(vec![
        ("a", seq(vec![repeat(sym("x")), repeat(repeat(sym("y")))])),
        ("b", choice(vec![repeat(seq(vec![repeat(sym("w")), repeat(sym("v"))])), sym("u")])),
    ]);
    let ast = convert_to_ast(g).unwrap();
    let statements = ast.get_statements();
    assert_eq!(statements.len(), 2 + 6);
    for id in 1..=6u32 {
        let at = statements
            .iter()
            .position(|s| s.get_name() == format!("Intermediate{}", id))
            .unwrap();
        let before = statements[..at]
            .iter()
            .any(|s| count_references(s.get_node(), id) > 0);
        assert!(before, "helper {} has no reference before it", id);
    }
}
