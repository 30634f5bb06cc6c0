use grammar_types::converter::{ast_to_string, convert_to_ast};
use grammar_types::grammar::parse_grammar;
use grammar_types::pipeline::{generate, generate_from_tree, GenerateError};
use grammar_types::grammar::ParseError;
use grammar_types::json_tree::JsonTree;

fn run(source: &str) -> String {
    let value = json::parse(source).expect("the test's JSON is valid");
    let grammar = parse_grammar(&value).expect("the test's grammar is well shaped");
    let ast = convert_to_ast(grammar).expect("the test's grammar can be converted");
    ast_to_string(ast)
}

fn generate_text(source: &str) -> Result<String, GenerateError> {
    generate(&json::parse(source).expect("the test's JSON is valid"))
}

fn with_rules(rules: &str) -> String {
    run(&format!("{{\"name\":\"G\",\"rules\":{{{}}}}}", rules))
}

#[test]
fn single_symbol_rule() {
    let out = run(r#"{"name":"G","rules":{"a":{"type":"SYMBOL","name":"b"}}}"#);
    assert_eq!(out, "type a = b;");
}

#[test]
fn sequence_of_two_symbols() {
    let out = run(
        r#"{"name":"G","rules":{"s":{"type":"SEQ","members":[{"type":"SYMBOL","name":"x"},{"type":"SYMBOL","name":"y"}]}}}"#,
    );
    assert!(out.contains("s = (x, y)"));
    assert_eq!(out, "type s = (x, y);");
}

#[test]
fn choice_of_two_symbols() {
    let out = run(
        r#"{"name":"G","rules":{"c":{"type":"CHOICE","members":[{"type":"SYMBOL","name":"p"},{"type":"SYMBOL","name":"q"}]}}}"#,
    );
    assert!(out.contains("Intermediate_type0(p)"));
    assert!(out.contains("Intermediate_type1(q)"));
    assert_eq!(
        out,
        "type c = \n\t| Intermediate_type0(p)\n\t| Intermediate_type1(q);"
    );
}

#[test]
fn repeat_places_helper_behind_its_use() {
    let out = with_rules(
        r#""a":{"type":"REPEAT","content":{"type":"SYMBOL","name":"b"}},"z":{"type":"SYMBOL","name":"y"}"#,
    );
    assert_eq!(
        out,
        "type a = list(Intermediate1) \nand Intermediate1 = b\nand z = y;"
    );
}

#[test]
fn nested_repeats_follow_each_other() {
    let out = with_rules(
        r#""a":{"type":"REPEAT","content":{"type":"REPEAT","content":{"type":"SYMBOL","name":"b"}}}"#,
    );
    assert_eq!(
        out,
        "type a = list(Intermediate2) \nand Intermediate2 = list(Intermediate1) \nand Intermediate1 = b;"
    );
}

#[test]
fn repeats_of_two_rules_follow_their_own_rule() {
    let out = with_rules(
        r#""a":{"type":"REPEAT","content":{"type":"SYMBOL","name":"x"}},"b":{"type":"REPEAT","content":{"type":"SYMBOL","name":"y"}}"#,
    );
    assert_eq!(
        out,
        "type a = list(Intermediate1) \nand Intermediate1 = x\nand b = list(Intermediate2) \nand Intermediate2 = y;"
    );
}

#[test]
fn repeat_below_choice_and_sequence() {
    let out = with_rules(
        r#""r":{"type":"SEQ","members":[{"type":"CHOICE","members":[{"type":"REPEAT","content":{"type":"SYMBOL","name":"x"}},{"type":"SYMBOL","name":"y"}]},{"type":"SYMBOL","name":"z"}]}"#,
    );
    assert_eq!(
        out,
        "type r = (\n\t| Intermediate_type0(list(Intermediate1) )\n\t| Intermediate_type1(y), z)\nand Intermediate1 = x;"
    );
}

#[test]
fn choice_counter_runs_through_nested_choices_and_rules() {
    let out = with_rules(
        r#""c":{"type":"CHOICE","members":[{"type":"CHOICE","members":[{"type":"SYMBOL","name":"a"},{"type":"SYMBOL","name":"b"}]},{"type":"SYMBOL","name":"d"}]},"e":{"type":"CHOICE","members":[{"type":"SYMBOL","name":"x"}]}"#,
    );
    assert_eq!(
        out,
        "type c = \n\t| Intermediate_type0(\n\t| Intermediate_type1(a)\n\t| Intermediate_type2(b))\n\t| Intermediate_type1(d)\nand e = \n\t| Intermediate_type4(x);"
    );
}

#[test]
fn string_keeps_its_value_as_a_comment_and_pattern_is_a_string() {
    let out = with_rules(
        r#""k":{"type":"STRING","value":"if"},"p":{"type":"PATTERN","value":"[a-z]+"},"q":{"type":"SYMBOL","name":"k"}"#,
    );
    assert_eq!(out, "type k = string /* if */\nand p = string \nand q = k;");
}

#[test]
fn trailing_white_space_of_the_last_clause_is_trimmed() {
    let out = with_rules(r#""p":{"type":"PATTERN","value":"[a-z]+"}"#);
    assert_eq!(out, "type p = string;");
}

#[test]
fn precedence_and_field_wrappers_are_transparent() {
    let out = with_rules(
        r#""a":{"type":"PREC","value":1,"content":{"type":"SYMBOL","name":"e"}},"b":{"type":"PREC_LEFT","value":1,"content":{"type":"SYMBOL","name":"f"}},"c":{"type":"PREC_RIGHT","value":1,"content":{"type":"SYMBOL","name":"g"}},"d":{"type":"PREC_DYNAMIC","value":1,"content":{"type":"SYMBOL","name":"h"}},"e":{"type":"FIELD","name":{"type":"SYMBOL","name":"i"}}"#,
    );
    assert_eq!(
        out,
        "type a = e\nand b = f\nand c = g\nand d = h\nand e = i;"
    );
}

#[test]
fn grammar_without_rules_gives_an_empty_definition() {
    assert_eq!(run(r#"{"name":"G","rules":{}}"#), "type ;");
}

#[test]
fn choice_and_sequence_without_alternatives() {
    assert_eq!(with_rules(r#""s":{"type":"SEQ","members":[]}"#), "type s = ();");
    assert_eq!(with_rules(r#""c":{"type":"CHOICE","members":[]}"#), "type c =;");
}

#[test]
fn members_that_are_no_array_are_refused() {
    assert_eq!(
        generate_text(r#"{"name":"G","rules":{"c":{"type":"CHOICE","members":"x"}}}"#),
        Err(GenerateError::Shape(ParseError::MembersNotArray))
    );
    assert_eq!(
        generate_text(r#"{"name":"G","rules":{"s":{"type":"SEQ","members":5}}}"#),
        Err(GenerateError::Shape(ParseError::MembersNotArray))
    );
}

#[test]
fn symbol_name_of_another_kind_is_displayed() {
    assert_eq!(with_rules(r#""a":{"type":"SYMBOL","name":5}"#), "type a = 5;");
    assert_eq!(
        with_rules(r#""a":{"type":"SYMBOL","name":["x",true,null]}"#),
        "type a = [\"x\",true,null];"
    );
}

#[test]
fn grammar_name_is_the_content_of_the_string() {
    let value = json::parse(r#"{"name":"G","rules":{}}"#).unwrap();
    let grammar = parse_grammar(&value).unwrap();
    assert_eq!(grammar.get_ident().get_string(), "G");
    assert!(grammar.get_rules().get_list().is_empty());
    let ast = convert_to_ast(grammar).unwrap();
    assert_eq!(ast._get_name(), "G");
}

#[test]
fn two_symbol_rules_stand_on_two_lines() {
    let out = with_rules(r#""a":{"type":"SYMBOL","name":"b"},"c":{"type":"SYMBOL","name":"d"}"#);
    assert_eq!(out, "type a = b\nand c = d;");
}

#[test]
fn rules_come_in_the_order_of_their_declaration() {
    let out = with_rules(
        r#""z":{"type":"SYMBOL","name":"1"},"a":{"type":"STRING","value":"2"},"m":{"type":"PATTERN","value":"3"},"b":{"type":"SYMBOL","name":"4"}"#,
    );
    assert_eq!(
        out,
        "type z = 1\nand a = string /* 2 */\nand m = string \nand b = 4;"
    );
}

#[test]
fn serializing_twice_gives_the_same_text() {
    let source = r#"{"name":"G","rules":{"a":{"type":"REPEAT","content":{"type":"CHOICE","members":[{"type":"SYMBOL","name":"x"},{"type":"STRING","value":"y"}]}}}}"#;
    let first = run(source);
    let second = run(source);
    assert_eq!(first, second);
    assert_eq!(
        first,
        "type a = list(Intermediate1) \nand Intermediate1 = \n\t| Intermediate_type0(x)\n\t| Intermediate_type1(string /* y */);"
    );
}

#[test]
fn generate_runs_the_whole_way() {
    let out = generate_text(r#"{"name":"G","rules":{"a":{"type":"SYMBOL","name":"b"}}}"#);
    assert_eq!(out, Ok(String::from("type a = b;")));
    let out = generate_text(
        r#" { "name" : "G", "rules" : { "a" : { "type" : "REPEAT", "content" : { "type" : "SYMBOL", "name" : "b" } } } } "#,
    );
    assert_eq!(
        out,
        Ok(String::from("type a = list(Intermediate1) \nand Intermediate1 = b;"))
    );
}

#[test]
fn generate_refuses_what_is_no_grammar() {
    assert_eq!(
        generate_text("[1, 2]"),
        Err(GenerateError::Shape(ParseError::GrammarNotObject))
    );
    assert_eq!(
        generate_text(r#"{"name":"G","rules":{"a":{"type":"BLANK"}}}"#),
        Err(GenerateError::Shape(ParseError::UnknownType))
    );
}

#[test]
fn generate_from_tree_works_on_a_tree_written_by_hand() {
    let leaf = |compact: &str, plain: &str| JsonTree {
        object: false,
        array: false,
        string: compact.starts_with('"'),
        compact: String::from(compact),
        plain: String::from(plain),
        entries: vec![],
        members: vec![],
    };
    let object = |entries: Vec<(String, JsonTree)>| JsonTree {
        object: true,
        array: false,
        string: false,
        compact: String::new(),
        plain: String::new(),
        entries,
        members: vec![],
    };
    let body = object(vec![
        (String::from("type"), leaf("\"SYMBOL\"", "SYMBOL")),
        (String::from("name"), leaf("\"b\"", "b")),
    ]);
    let rules = object(vec![(String::from("a"), body)]);
    let tree = object(vec![
        (String::from("name"), leaf("\"G\"", "G")),
        (String::from("rules"), rules),
    ]);
    assert_eq!(generate_from_tree(&tree), Ok(String::from("type a = b;")));
    assert_eq!(
        generate_from_tree(&leaf("1", "1")),
        Err(GenerateError::Shape(ParseError::GrammarNotObject))
    );
}
