use grammar_types::grammar::{parse_grammar, Grammar, ParseError, RuleBody};
use grammar_types::json_tree::JsonTree;
use grammar_types::parser::{
    grammar_from_tree, handle_members, handle_rule, handle_rulebody, handle_rules,
};

fn read(source: &str) -> Result<Grammar, ParseError> {
    let value = json::parse(source).expect("the test's JSON is valid");
    parse_grammar(&value)
}

fn read_rule(body: &str) -> Result<Grammar, ParseError> {
    read(&format!("{{\"name\":\"G\",\"rules\":{{\"a\":{}}}}}", body))
}

fn scalar(compact: &str, plain: &str) -> JsonTree {
    JsonTree {
        object: false,
        array: false,
        string: false,
        compact: String::from(compact),
        plain: String::from(plain),
        entries: vec![],
        members: vec![],
    }
}

fn text(value: &str) -> JsonTree {
    JsonTree {
        object: false,
        array: false,
        string: true,
        compact: format!("\"{}\"", value),
        plain: String::from(value),
        entries: vec![],
        members: vec![],
    }
}

fn object(entries: Vec<(&str, JsonTree)>) -> JsonTree {
    JsonTree {
        object: true,
        array: false,
        string: false,
        compact: String::from("{}"),
        plain: String::from("{}"),
        entries: entries
            .into_iter()
            .map(|(key, value)| (String::from(key), value))
            .collect(),
        members: vec![],
    }
}

fn array(members: Vec<JsonTree>) -> JsonTree {
    JsonTree {
        object: false,
        array: true,
        string: false,
        compact: String::from("[]"),
        plain: String::from("[]"),
        entries: vec![],
        members,
    }
}

fn symbol(name: &str) -> JsonTree {
    object(vec![("type", text("SYMBOL")), ("name", text(name))])
}

#[test]
fn reads_every_kind_of_body() {
    let grammar = read(
        r#"{"name":"G","rules":{
            "r":{"type":"REPEAT","content":{"type":"SYMBOL","name":"x"}},
            "c":{"type":"CHOICE","members":[{"type":"SYMBOL","name":"p"},{"type":"STRING","value":"q"}]},
            "s":{"type":"SEQ","members":[{"type":"PATTERN","value":"\\d+"}]},
            "y":{"type":"SYMBOL","name":"b"}
        }}"#,
    )
    .unwrap();
    let rules = grammar.get_rules().get_list();
    assert_eq!(rules.len(), 4);
    assert_eq!(rules[0].get_ident().get_string(), "r");
    assert_eq!(
        rules[0].get_rulebody(),
        &RuleBody::Repeat(Some(Box::new(RuleBody::Symbol(Some(String::from("x"))))))
    );
    assert_eq!(rules[1].get_ident().get_string(), "c");
    assert_eq!(
        rules[1].get_rulebody(),
        &RuleBody::Choice(Some(Box::new(vec![
            RuleBody::Symbol(Some(String::from("p"))),
            RuleBody::Str(Some(String::from("string /* q */"))),
        ])))
    );
    assert_eq!(rules[2].get_ident().get_string(), "s");
    assert_eq!(
        rules[2].get_rulebody(),
        &RuleBody::Sequence(Some(Box::new(vec![RuleBody::Pattern(Some(String::from(
            "string "
        )))])))
    );
    assert_eq!(rules[3].get_ident().get_string(), "y");
    assert_eq!(
        rules[3].get_rulebody(),
        &RuleBody::Symbol(Some(String::from("b")))
    );
}

#[test]
fn string_value_with_a_quote_is_kept_bare() {
    let grammar = read_rule(r#"{"type":"STRING","value":"a\"b"}"#).unwrap();
    assert_eq!(
        grammar.get_rules().get_list()[0].get_rulebody(),
        &RuleBody::Str(Some(String::from("string /* a\"b */")))
    );
}

#[test]
fn grammar_name_is_taken_bare() {
    let grammar = read(r#"{"name":"a\"b","rules":{}}"#).unwrap();
    assert_eq!(grammar.get_ident().get_string(), "a\"b");
    let grammar = read(r#"{"name":"","rules":{}}"#).unwrap();
    assert_eq!(grammar.get_ident().get_string(), "");
    let long = "a name that is longer than thirty bytes, to be sure";
    let grammar = read(&format!("{{\"name\":\"{}\",\"rules\":{{}}}}", long)).unwrap();
    assert_eq!(grammar.get_ident().get_string(), long);
}

#[test]
fn grammar_name_that_is_no_string_is_refused() {
    assert_eq!(
        read(r#"{"name":[1,{"k":null}],"rules":{}}"#).err(),
        Some(ParseError::NameNotString)
    );
    assert_eq!(read(r#"{"name":5,"rules":{}}"#).err(), Some(ParseError::NameNotString));
    assert_eq!(read(r#"{"name":null,"rules":{}}"#).err(), Some(ParseError::NameNotString));
    assert_eq!(read(r#"{"name":{},"rules":{}}"#).err(), Some(ParseError::NameNotString));
    assert_eq!(read(r#"{"name":7}"#).err(), Some(ParseError::NameNotString));
}

#[test]
fn members_that_are_no_array_are_a_fault_of_shape() {
    assert_eq!(
        read_rule(r#"{"type":"CHOICE","members":"x"}"#).err(),
        Some(ParseError::MembersNotArray)
    );
    assert_eq!(
        read_rule(r#"{"type":"SEQ","members":{"0":{"type":"SYMBOL","name":"x"}}}"#).err(),
        Some(ParseError::MembersNotArray)
    );
    assert_eq!(
        read_rule(r#"{"type":"SEQ","members":null}"#).err(),
        Some(ParseError::MembersNotArray)
    );
    let body = json::parse(r#"{"type":"CHOICE","members":"x"}"#).unwrap();
    let rules = json::parse(r#"{"name":"G","rules":{"a":{"type":"CHOICE","members":[]}}}"#).unwrap();
    assert!(body.is_object());
    assert!(parse_grammar(&rules).is_ok());
}

#[test]
fn a_later_entry_with_the_same_key_replaces_the_earlier_one() {
    let grammar = read(
        r#"{"name":"G","rules":{"a":{"type":"SYMBOL","name":"x"},"b":{"type":"SYMBOL","name":"y"},"a":{"type":"SYMBOL","name":"z"}}}"#,
    )
    .unwrap();
    let rules = grammar.get_rules().get_list();
    assert_eq!(rules.len(), 2);
    assert_eq!(rules[0].get_ident().get_string(), "a");
    assert_eq!(
        rules[0].get_rulebody(),
        &RuleBody::Symbol(Some(String::from("z")))
    );
    assert_eq!(rules[1].get_ident().get_string(), "b");
}

#[test]
fn grammar_that_is_no_object_is_refused() {
    assert_eq!(read("[]"), Err(ParseError::GrammarNotObject));
    assert_eq!(read("\"G\""), Err(ParseError::GrammarNotObject));
    assert_eq!(read("null"), Err(ParseError::GrammarNotObject));
}

#[test]
fn grammar_without_name_is_refused() {
    assert_eq!(read(r#"{"rules":{}}"#), Err(ParseError::MissingName));
    assert_eq!(read("{}"), Err(ParseError::MissingName));
}

#[test]
fn grammar_without_rules_is_refused() {
    assert_eq!(read(r#"{"name":"G"}"#), Err(ParseError::MissingRules));
}

#[test]
fn rules_that_are_no_object_are_refused() {
    assert_eq!(
        read(r#"{"name":"G","rules":[]}"#),
        Err(ParseError::RulesNotObject)
    );
}

#[test]
fn rule_that_is_no_object_is_refused() {
    assert_eq!(read_rule("\"x\""), Err(ParseError::RuleNotObject));
    assert_eq!(read_rule("[]"), Err(ParseError::RuleNotObject));
}

#[test]
fn body_that_is_no_object_is_refused() {
    assert_eq!(
        read_rule(r#"{"type":"REPEAT","content":"x"}"#),
        Err(ParseError::BodyNotObject)
    );
    assert_eq!(
        read_rule(r#"{"type":"SEQ","members":[{"type":"SYMBOL","name":"x"},7]}"#),
        Err(ParseError::BodyNotObject)
    );
    assert_eq!(
        read_rule(r#"{"type":"FIELD","name":"x","content":{"type":"SYMBOL","name":"x"}}"#),
        Err(ParseError::BodyNotObject)
    );
}

#[test]
fn body_without_type_is_refused() {
    assert_eq!(read_rule("{}"), Err(ParseError::MissingType));
    assert_eq!(read_rule(r#"{"name":"x"}"#), Err(ParseError::MissingType));
}

#[test]
fn unknown_type_is_refused() {
    assert_eq!(read_rule(r#"{"type":"BLANK"}"#), Err(ParseError::UnknownType));
    assert_eq!(read_rule(r#"{"type":"symbol","name":"x"}"#), Err(ParseError::UnknownType));
    assert_eq!(read_rule(r#"{"type":5}"#), Err(ParseError::UnknownType));
    assert_eq!(read_rule(r#"{"type":["SYMBOL"]}"#), Err(ParseError::UnknownType));
}

#[test]
fn repeat_and_precedence_without_content_are_refused() {
    assert_eq!(read_rule(r#"{"type":"REPEAT"}"#), Err(ParseError::MissingContent));
    assert_eq!(read_rule(r#"{"type":"PREC","value":1}"#), Err(ParseError::MissingContent));
    assert_eq!(read_rule(r#"{"type":"PREC_LEFT"}"#), Err(ParseError::MissingContent));
    assert_eq!(read_rule(r#"{"type":"PREC_RIGHT"}"#), Err(ParseError::MissingContent));
    assert_eq!(read_rule(r#"{"type":"PREC_DYNAMIC"}"#), Err(ParseError::MissingContent));
}

#[test]
fn choice_and_sequence_without_members_are_refused() {
    assert_eq!(read_rule(r#"{"type":"CHOICE"}"#), Err(ParseError::MissingMembers));
    assert_eq!(read_rule(r#"{"type":"SEQ","content":[]}"#), Err(ParseError::MissingMembers));
}

#[test]
fn symbol_and_field_without_name_are_refused() {
    assert_eq!(read_rule(r#"{"type":"SYMBOL"}"#), Err(ParseError::MissingSymbolName));
    assert_eq!(
        read_rule(r#"{"type":"SYMBOL","value":"x"}"#),
        Err(ParseError::MissingSymbolName)
    );
    assert_eq!(
        read_rule(r#"{"type":"FIELD","content":{"type":"SYMBOL","name":"x"}}"#),
        Err(ParseError::MissingSymbolName)
    );
}

#[test]
fn string_and_pattern_without_value_are_refused() {
    assert_eq!(read_rule(r#"{"type":"STRING"}"#), Err(ParseError::MissingValue));
    assert_eq!(read_rule(r#"{"type":"PATTERN","name":"x"}"#), Err(ParseError::MissingValue));
}

#[test]
fn the_first_fault_in_the_order_of_reading_is_reported() {
    assert_eq!(read("{\"other\":1}"), Err(ParseError::MissingName));
    assert_eq!(
        read(r#"{"name":"G","rules":{"a":{"type":"STRING"},"b":{"type":"BLANK"}}}"#),
        Err(ParseError::MissingValue)
    );
    assert_eq!(
        read(r#"{"name":"G","rules":{"a":{"type":"SEQ","members":[{"type":"BLANK"},{"type":"REPEAT"}]}}}"#),
        Err(ParseError::UnknownType)
    );
    assert_eq!(
        read(r#"{"name":"G","rules":{"a":{"type":"SYMBOL","name":"x"},"b":3}}"#),
        Err(ParseError::RuleNotObject)
    );
}

#[test]
fn handle_rulebody_reads_a_tree_written_by_hand() {
    assert_eq!(
        handle_rulebody(&symbol("x")),
        Ok(RuleBody::Symbol(Some(String::from("x"))))
    );
    let repeat = object(vec![("type", text("REPEAT")), ("content", symbol("x"))]);
    assert_eq!(
        handle_rulebody(&repeat),
        Ok(RuleBody::Repeat(Some(Box::new(RuleBody::Symbol(Some(
            String::from("x")
        ))))))
    );
    let string = object(vec![("type", text("STRING")), ("value", scalar("1.5", "1.5"))]);
    assert_eq!(
        handle_rulebody(&string),
        Ok(RuleBody::Str(Some(String::from("string /* 1.5 */"))))
    );
    assert_eq!(handle_rulebody(&text("x")), Err(ParseError::BodyNotObject));
    assert_eq!(handle_rulebody(&object(vec![])), Err(ParseError::MissingType));
}

#[test]
fn the_first_of_two_entries_with_one_key_counts() {
    let body = object(vec![
        ("type", text("SYMBOL")),
        ("name", text("first")),
        ("name", text("second")),
        ("type", text("BLANK")),
    ]);
    assert_eq!(
        handle_rulebody(&body),
        Ok(RuleBody::Symbol(Some(String::from("first"))))
    );
}

#[test]
fn handle_members_reads_the_members_in_order() {
    let members = array(vec![symbol("x"), symbol("y"), symbol("z")]);
    assert_eq!(
        handle_members(&members),
        Ok(vec![
            RuleBody::Symbol(Some(String::from("x"))),
            RuleBody::Symbol(Some(String::from("y"))),
            RuleBody::Symbol(Some(String::from("z"))),
        ])
    );
    assert_eq!(handle_members(&array(vec![])), Ok(vec![]));
    assert_eq!(handle_members(&text("x")), Err(ParseError::MembersNotArray));
    assert_eq!(handle_members(&object(vec![])), Err(ParseError::MembersNotArray));
    assert_eq!(
        handle_members(&array(vec![symbol("x"), text("y")])),
        Err(ParseError::BodyNotObject)
    );
}

#[test]
fn handle_rule_gives_the_rule_its_key() {
    let rule = handle_rule(String::from("expr"), &symbol("x")).unwrap();
    assert_eq!(rule.get_ident().get_string(), "expr");
    assert_eq!(rule.get_rulebody(), &RuleBody::Symbol(Some(String::from("x"))));
    assert_eq!(
        handle_rule(String::from("expr"), &array(vec![])),
        Err(ParseError::RuleNotObject)
    );
    assert_eq!(
        handle_rule(String::from("expr"), &object(vec![])),
        Err(ParseError::MissingType)
    );
}

#[test]
fn handle_rules_reads_one_rule_from_each_entry() {
    let rules = handle_rules(&object(vec![("b", symbol("x")), ("a", symbol("y"))])).unwrap();
    let list = rules.get_list();
    assert_eq!(list.len(), 2);
    assert_eq!(list[0].get_ident().get_string(), "b");
    assert_eq!(list[1].get_ident().get_string(), "a");
    assert_eq!(handle_rules(&array(vec![])).err(), Some(ParseError::RulesNotObject));
    assert_eq!(
        handle_rules(&object(vec![("a", symbol("x")), ("b", text("y"))])).err(),
        Some(ParseError::RuleNotObject)
    );
}

#[test]
fn grammar_from_tree_reads_name_and_rules() {
    let tree = object(vec![
        ("rules", object(vec![("a", symbol("b"))])),
        ("name", text("G")),
    ]);
    let grammar = grammar_from_tree(&tree).unwrap();
    assert_eq!(grammar.get_ident().get_string(), "G");
    assert_eq!(grammar.get_rules().get_list().len(), 1);
    assert_eq!(
        grammar_from_tree(&object(vec![("name", text("G"))])).err(),
        Some(ParseError::MissingRules)
    );
    assert_eq!(
        grammar_from_tree(&object(vec![("name", scalar("5", "5"))])).err(),
        Some(ParseError::NameNotString)
    );
}
