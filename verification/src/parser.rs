//! The reader: takes the rules of a grammar out of a JSON tree.

use crate::grammar::{
    body_views, rule_views, Grammar, GrammarView, Ident, Rule, RuleBody, RuleBodyView, RuleView,
    Rules,
};
use crate::json_tree::{entry_views, snapshot, json_tree, tree_views, JsonTree, JsonTreeView};
use crate::text::same_text;
use vstd::prelude::*;
use vstd::string::*;

verus! {

/// Why a JSON tree is not a grammar.
#[derive(Debug, Clone, Copy, PartialEq, Eq, Structural)]
pub enum ParseError {
    /// The grammar is not an object.
    GrammarNotObject,
    /// The grammar has no `name`.
    MissingName,
    /// The `name` of the grammar is not a string.
    NameNotString,
    /// The grammar has no `rules`.
    MissingRules,
    /// The `rules` are not an object.
    RulesNotObject,
    /// A rule is not an object.
    RuleNotObject,
    /// A rule body below a rule is not an object.
    BodyNotObject,
    /// A rule body has no `type`.
    MissingType,
    /// The `type` of a rule body is none of the known ones.
    UnknownType,
    /// A `REPEAT` or one of the `PREC` bodies has no `content`.
    MissingContent,
    /// A `CHOICE` or `SEQ` has no `members`.
    MissingMembers,
    /// The `members` of a `CHOICE` or `SEQ` are not an array.
    MembersNotArray,
    /// A `SYMBOL` or a `FIELD` has no `name`.
    MissingSymbolName,
    /// A `STRING` or `PATTERN` has no `value`.
    MissingValue,
}

/// The position of the first entry with the given key, if there is one.
pub open spec fn index_of(entries: Seq<(Seq<char>, JsonTreeView)>, key: Seq<char>) -> Option<int>
    decreases entries.len(),
{
    if entries.len() == 0 {
        None
    } else {
        match index_of(entries.drop_last(), key) {
            Some(i) => Some(i),
            None => if entries.last().0 == key {
                Some(entries.len() - 1)
            } else {
                None
            },
        }
    }
}

/// `index_of` finds an entry with the key that no entry with the key precedes; it finds
/// none only if no entry has the key.
pub proof fn lemma_index_of(entries: Seq<(Seq<char>, JsonTreeView)>, key: Seq<char>)
    ensures
        match index_of(entries, key) {
            Some(i) => {
                &&& 0 <= i < entries.len()
                &&& entries[i].0 == key
                &&& forall|j: int| 0 <= j < i ==> (#[trigger] entries[j]).0 != key
            },
            None => forall|j: int| 0 <= j < entries.len() ==> (#[trigger] entries[j]).0 != key,
        },
    decreases entries.len(),
{
    if entries.len() > 0 {
        let front = entries.drop_last();
        lemma_index_of(front, key);
        assert forall|j: int| 0 <= j < front.len() implies front[j] == entries[j] by {}
    }
}

/// The entry of `tree` with the given key, if there is one.
pub open spec fn field(tree: JsonTreeView, key: Seq<char>) -> Option<JsonTreeView> {
    match index_of(tree.entries, key) {
        Some(i) => Some(tree.entries[i].1),
        None => None,
    }
}

/// Whether the `type` of a body is one of the four precedence wrappers.
pub open spec fn is_prec(tag: Seq<char>) -> bool {
    tag == "\"PREC\""@ || tag == "\"PREC_LEFT\""@ || tag == "\"PREC_RIGHT\""@ || tag
        == "\"PREC_DYNAMIC\""@
}

/// The body that is below the entry `key` of `tree`, or `missing` where `tree` has no
/// such entry.
pub open spec fn body_below(tree: JsonTreeView, key: Seq<char>, missing: ParseError) -> Result<
    RuleBodyView,
    ParseError,
>
    decreases tree, 0nat,
{
    match index_of(tree.entries, key) {
        Some(i) => if 0 <= i < tree.entries.len() {
            body_of(tree.entries[i].1)
        } else {
            Err(missing)
        },
        None => Err(missing),
    }
}

/// The bodies of the members of the entry `members` of `tree`, which must be an array.
pub open spec fn members_below(tree: JsonTreeView) -> Result<Seq<RuleBodyView>, ParseError>
    decreases tree, 0nat,
{
    match index_of(tree.entries, "members"@) {
        Some(i) => if 0 <= i < tree.entries.len() {
            if tree.entries[i].1.array {
                bodies_of(tree.entries[i].1.members)
            } else {
                Err(ParseError::MembersNotArray)
            }
        } else {
            Err(ParseError::MissingMembers)
        },
        None => Err(ParseError::MissingMembers),
    }
}

/// The rule body that a JSON tree describes, or the first reason why it describes none.
///
/// The tree must be an object with a `type`. `REPEAT` has its `content`, `CHOICE` and
/// `SEQ` have their `members`, an array, `SYMBOL` has its `name`, `STRING` its `value` kept as a
/// comment behind the type `string`, `PATTERN` is the type `string` whatever its `value`
/// holds. The precedence wrappers stand for their `content` and `FIELD` for its `name`.
pub open spec fn body_of(tree: JsonTreeView) -> Result<RuleBodyView, ParseError>
    decreases tree, 1nat,
{
    if !tree.object {
        Err(ParseError::BodyNotObject)
    } else {
        match field(tree, "type"@) {
            None => Err(ParseError::MissingType),
            Some(kind) => {
                let tag = kind.compact;
                if tag == "\"REPEAT\""@ {
                    match body_below(tree, "content"@, ParseError::MissingContent) {
                        Ok(inner) => Ok(RuleBodyView::Repeat(Some(Box::new(inner)))),
                        Err(error) => Err(error),
                    }
                } else if tag == "\"CHOICE\""@ {
                    match members_below(tree) {
                        Ok(members) => Ok(RuleBodyView::Choice(Some(members))),
                        Err(error) => Err(error),
                    }
                } else if tag == "\"SEQ\""@ {
                    match members_below(tree) {
                        Ok(members) => Ok(RuleBodyView::Sequence(Some(members))),
                        Err(error) => Err(error),
                    }
                } else if tag == "\"SYMBOL\""@ {
                    match field(tree, "name"@) {
                        Some(name) => Ok(RuleBodyView::Symbol(Some(name.plain))),
                        None => Err(ParseError::MissingSymbolName),
                    }
                } else if tag == "\"STRING\""@ {
                    match field(tree, "value"@) {
                        Some(value) => Ok(
                            RuleBodyView::Str(Some("string /* "@ + value.plain + " */"@)),
                        ),
                        None => Err(ParseError::MissingValue),
                    }
                } else if tag == "\"PATTERN\""@ {
                    match field(tree, "value"@) {
                        Some(_) => Ok(RuleBodyView::Pattern(Some("string "@))),
                        None => Err(ParseError::MissingValue),
                    }
                } else if is_prec(tag) {
                    body_below(tree, "content"@, ParseError::MissingContent)
                } else if tag == "\"FIELD\""@ {
                    body_below(tree, "name"@, ParseError::MissingSymbolName)
                } else {
                    Err(ParseError::UnknownType)
                }
            },
        }
    }
}

/// The bodies that a list of JSON trees describes, in order, or the first reason why one
/// of them describes none.
pub open spec fn bodies_of(trees: Seq<JsonTreeView>) -> Result<Seq<RuleBodyView>, ParseError>
    decreases trees, 0nat,
{
    if trees.len() == 0 {
        Ok(Seq::empty())
    } else {
        match bodies_of(trees.drop_last()) {
            Err(error) => Err(error),
            Ok(front) => match body_of(trees.last()) {
                Err(error) => Err(error),
                Ok(body) => Ok(front.push(body)),
            },
        }
    }
}

/// The rule that an entry of `rules` describes.
pub open spec fn rule_of(key: Seq<char>, tree: JsonTreeView) -> Result<RuleView, ParseError> {
    if !tree.object {
        Err(ParseError::RuleNotObject)
    } else {
        match body_of(tree) {
            Ok(body) => Ok(RuleView { ident: key, body }),
            Err(error) => Err(error),
        }
    }
}

/// The rules that a list of entries describes, in order.
pub open spec fn rules_of_entries(entries: Seq<(Seq<char>, JsonTreeView)>) -> Result<
    Seq<RuleView>,
    ParseError,
>
    decreases entries.len(),
{
    if entries.len() == 0 {
        Ok(Seq::empty())
    } else {
        match rules_of_entries(entries.drop_last()) {
            Err(error) => Err(error),
            Ok(front) => match rule_of(entries.last().0, entries.last().1) {
                Err(error) => Err(error),
                Ok(rule) => Ok(front.push(rule)),
            },
        }
    }
}

/// The rules that the value of `rules` describes: one for each of its entries, in their
/// order.
pub open spec fn rules_of(tree: JsonTreeView) -> Result<Seq<RuleView>, ParseError> {
    if !tree.object {
        Err(ParseError::RulesNotObject)
    } else {
        rules_of_entries(tree.entries)
    }
}

/// The grammar that a JSON tree describes, or the first reason why it describes none.
///
/// The tree must be an object with a `name`, a string, and with `rules`. The name of the
/// grammar is the content of that string.
pub open spec fn grammar_of(tree: JsonTreeView) -> Result<GrammarView, ParseError> {
    if !tree.object {
        Err(ParseError::GrammarNotObject)
    } else {
        match field(tree, "name"@) {
            None => Err(ParseError::MissingName),
            Some(name) => if !name.string {
                Err(ParseError::NameNotString)
            } else {
                match field(tree, "rules"@) {
                    None => Err(ParseError::MissingRules),
                    Some(rules) => match rules_of(rules) {
                        Err(error) => Err(error),
                        Ok(list) => Ok(GrammarView { ident: name.plain, rules: list }),
                    },
                }
            },
        }
    }
}

/// What `index_of` finds in a prefix of a list, it finds in the list.
proof fn lemma_index_of_prefix(entries: Seq<(Seq<char>, JsonTreeView)>, key: Seq<char>, k: int)
    requires
        0 <= k <= entries.len(),
        index_of(entries.take(k), key) is Some,
    ensures
        index_of(entries, key) == index_of(entries.take(k), key),
    decreases entries.len() - k,
{
    if k == entries.len() {
        assert(entries.take(k) =~= entries);
    } else {
        assert(entries.drop_last().take(k) =~= entries.take(k));
        lemma_index_of_prefix(entries.drop_last(), key, k);
    }
}

/// Finds the first entry of a tree with the given key.
fn find<'a>(tree: &'a JsonTree, key: &str) -> (found: Option<&'a JsonTree>)
    ensures
        match found {
            Some(child) => {
                &&& index_of(tree@.entries, key@) matches Some(i)
                &&& 0 <= i < tree.entries@.len()
                &&& *child == tree.entries@[i].1
                &&& child@ == tree@.entries[i].1
            },
            None => index_of(tree@.entries, key@) is None,
        },
{
    proof {
        tree.lemma_view();
    }
    let ghost all = entry_views(tree.entries@);
    let mut i: usize = 0;
    while i < tree.entries.len()
        invariant
            i <= tree.entries.len(),
            all == entry_views(tree.entries@),
            all == tree@.entries,
            index_of(all.take(i as int), key@) is None,
        decreases tree.entries.len() - i,
    {
        proof {
            assert(all.take(i + 1).drop_last() =~= all.take(i as int));
            assert(all.take(i + 1).last() == all[i as int]);
            assert(all[i as int].0 == tree.entries@[i as int].0@);
        }
        if same_text(tree.entries[i].0.as_str(), key) {
            proof {
                lemma_index_of_prefix(all, key@, i + 1);
            }
            return Some(&tree.entries[i].1);
        }
        i += 1;
    }
    assert(all.take(i as int) =~= all);
    None
}

/// What the members of a value come to: the bodies of the members of an array.
pub open spec fn members_of(tree: JsonTreeView) -> Result<Seq<RuleBodyView>, ParseError> {
    if tree.array {
        bodies_of(tree.members)
    } else {
        Err(ParseError::MembersNotArray)
    }
}

/// Reads the rule bodies of the members of an array; any other value is refused.
pub fn handle_members(members: &JsonTree) -> (result: Result<Vec<RuleBody>, ParseError>)
    ensures
        match result {
            Ok(bodies) => members_of(members@) == Ok::<Seq<RuleBodyView>, ParseError>(
                body_views(bodies@),
            ),
            Err(error) => members_of(members@) == Err::<Seq<RuleBodyView>, ParseError>(error),
        },
    decreases members, 0nat,
{
    proof {
        members.lemma_view();
    }
    if !members.array {
        return Err(ParseError::MembersNotArray);
    }
    let ghost all = tree_views(members.members@);
    let mut res: Vec<RuleBody> = Vec::new();
    let mut i: usize = 0;
    assert(body_views(res@) =~= Seq::empty());
    while i < members.members.len()
        invariant
            i <= members.members.len(),
            members@.array,
            all == tree_views(members.members@),
            all == members@.members,
            bodies_of(all.take(i as int)) == Ok::<Seq<RuleBodyView>, ParseError>(
                body_views(res@),
            ),
        decreases members.members.len() - i,
    {
        proof {
            assert(all.take(i + 1).drop_last() =~= all.take(i as int));
            assert(all.take(i + 1).last() == members.members@[i as int]@);
        }
        match handle_rulebody(&members.members[i]) {
            Ok(body) => {
                let ghost held = res@;
                res.push(body);
                assert(body_views(held.push(body)) =~= body_views(held).push(body@));
            },
            Err(error) => {
                proof {
                    lemma_bodies_of_fails(all, i + 1);
                }
                return Err(error);
            },
        }
        i += 1;
    }
    assert(all.take(i as int) =~= all);
    Ok(res)
}

/// Where the bodies of a prefix of a list cannot be read, those of the list cannot,
/// for the same reason.
proof fn lemma_bodies_of_fails(trees: Seq<JsonTreeView>, k: int)
    requires
        0 <= k <= trees.len(),
        bodies_of(trees.take(k)) is Err,
    ensures
        bodies_of(trees) == bodies_of(trees.take(k)),
    decreases trees.len() - k,
{
    if k == trees.len() {
        assert(trees.take(k) =~= trees);
    } else {
        assert(trees.drop_last().take(k) =~= trees.take(k));
        lemma_bodies_of_fails(trees.drop_last(), k);
    }
}

/// Reads the body below the entry `key` of `tree`.
fn handle_below(tree: &JsonTree, key: &str, missing: ParseError) -> (result: Result<
    RuleBody,
    ParseError,
>)
    ensures
        match result {
            Ok(body) => body_below(tree@, key@, missing) == Ok::<RuleBodyView, ParseError>(
                body@,
            ),
            Err(error) => body_below(tree@, key@, missing) == Err::<RuleBodyView, ParseError>(
                error,
            ),
        },
    decreases tree, 0nat,
{
    match find(tree, key) {
        Some(child) => {
            proof {
                assert(decreases_to!(tree => tree.entries));
                assert(decreases_to!(tree.entries => tree.entries@[index_of(tree@.entries, key@)->0]));
            }
            handle_rulebody(child)
        },
        None => Err(missing),
    }
}

/// Reads a rule body.
pub fn handle_rulebody(body: &JsonTree) -> (result: Result<RuleBody, ParseError>)
    ensures
        match result {
            Ok(rule_body) => body_of(body@) == Ok::<RuleBodyView, ParseError>(rule_body@),
            Err(error) => body_of(body@) == Err::<RuleBodyView, ParseError>(error),
        },
    decreases body, 1nat,
{
    if !body.object {
        return Err(ParseError::BodyNotObject);
    }
    let kind = match find(body, "type") {
        Some(value) => value,
        None => {
            return Err(ParseError::MissingType);
        },
    };
    let pattern = kind.compact.as_str();
    if same_text(pattern, "\"REPEAT\"") {
        match handle_below(body, "content", ParseError::MissingContent) {
            Ok(inner) => Ok(RuleBody::Repeat(Some(Box::new(inner)))),
            Err(error) => Err(error),
        }
    } else if same_text(pattern, "\"CHOICE\"") {
        let members = match find(body, "members") {
            Some(m) => m,
            None => {
                return Err(ParseError::MissingMembers);
            },
        };
        proof {
            assert(decreases_to!(body => body.entries));
            assert(decreases_to!(body.entries => body.entries@[index_of(
                body@.entries,
                "members"@,
            )->0]));
        }
        match handle_members(members) {
            Ok(list) => {
                let boxed = Box::new(list);
                proof {
                    RuleBody::lemma_choice_view(boxed);
                }
                Ok(RuleBody::Choice(Some(boxed)))
            },
            Err(error) => Err(error),
        }
    } else if same_text(pattern, "\"SEQ\"") {
        let members = match find(body, "members") {
            Some(m) => m,
            None => {
                return Err(ParseError::MissingMembers);
            },
        };
        proof {
            assert(decreases_to!(body => body.entries));
            assert(decreases_to!(body.entries => body.entries@[index_of(
                body@.entries,
                "members"@,
            )->0]));
        }
        match handle_members(members) {
            Ok(list) => {
                let boxed = Box::new(list);
                proof {
                    RuleBody::lemma_sequence_view(boxed);
                }
                Ok(RuleBody::Sequence(Some(boxed)))
            },
            Err(error) => Err(error),
        }
    } else if same_text(pattern, "\"SYMBOL\"") {
        match find(body, "name") {
            Some(name) => Ok(RuleBody::Symbol(Some(name.plain.clone()))),
            None => Err(ParseError::MissingSymbolName),
        }
    } else if same_text(pattern, "\"STRING\"") {
        match find(body, "value") {
            Some(value) => {
                let mut text = String::from_str("string /* ");
                text.append(value.plain.as_str());
                text.append(" */");
                Ok(RuleBody::Str(Some(text)))
            },
            None => Err(ParseError::MissingValue),
        }
    } else if same_text(pattern, "\"PATTERN\"") {
        match find(body, "value") {
            Some(_) => Ok(RuleBody::Pattern(Some(String::from_str("string ")))),
            None => Err(ParseError::MissingValue),
        }
    } else if same_text(pattern, "\"PREC\"") || same_text(pattern, "\"PREC_LEFT\"")
        || same_text(pattern, "\"PREC_RIGHT\"") || same_text(pattern, "\"PREC_DYNAMIC\"") {
        handle_below(body, "content", ParseError::MissingContent)
    } else if same_text(pattern, "\"FIELD\"") {
        handle_below(body, "name", ParseError::MissingSymbolName)
    } else {
        Err(ParseError::UnknownType)
    }
}

/// Reads a rule from an entry of `rules`.
pub fn handle_rule(keyname: String, rule: &JsonTree) -> (result: Result<Rule, ParseError>)
    ensures
        match result {
            Ok(r) => rule_of(keyname@, rule@) == Ok::<RuleView, ParseError>(r@),
            Err(error) => rule_of(keyname@, rule@) == Err::<RuleView, ParseError>(error),
        },
{
    if !rule.object {
        return Err(ParseError::RuleNotObject);
    }
    match handle_rulebody(rule) {
        Ok(body) => Ok(Rule::new(Ident::new(keyname), body)),
        Err(error) => Err(error),
    }
}

/// Where the rules of a prefix of a list cannot be read, those of the list cannot, for
/// the same reason.
proof fn lemma_rules_of_fails(entries: Seq<(Seq<char>, JsonTreeView)>, k: int)
    requires
        0 <= k <= entries.len(),
        rules_of_entries(entries.take(k)) is Err,
    ensures
        rules_of_entries(entries) == rules_of_entries(entries.take(k)),
    decreases entries.len() - k,
{
    if k == entries.len() {
        assert(entries.take(k) =~= entries);
    } else {
        assert(entries.drop_last().take(k) =~= entries.take(k));
        lemma_rules_of_fails(entries.drop_last(), k);
    }
}

/// Reads the rules: one from each entry, in their order.
pub fn handle_rules(rules: &JsonTree) -> (result: Result<Rules, ParseError>)
    ensures
        match result {
            Ok(list) => rules_of(rules@) == Ok::<Seq<RuleView>, ParseError>(list@),
            Err(error) => rules_of(rules@) == Err::<Seq<RuleView>, ParseError>(error),
        },
{
    if !rules.object {
        return Err(ParseError::RulesNotObject);
    }
    proof {
        rules.lemma_view();
    }
    let ghost all = entry_views(rules.entries@);
    let mut rls: Vec<Rule> = Vec::new();
    let mut i: usize = 0;
    assert(rule_views(rls@) =~= Seq::empty());
    while i < rules.entries.len()
        invariant
            i <= rules.entries.len(),
            rules@.object,
            all == entry_views(rules.entries@),
            all == rules@.entries,
            rules_of_entries(all.take(i as int)) == Ok::<Seq<RuleView>, ParseError>(
                rule_views(rls@),
            ),
        decreases rules.entries.len() - i,
    {
        proof {
            assert(all.take(i + 1).drop_last() =~= all.take(i as int));
            assert(all.take(i + 1).last() == all[i as int]);
        }
        match handle_rule(rules.entries[i].0.clone(), &rules.entries[i].1) {
            Ok(rule) => {
                let ghost held = rls@;
                rls.push(rule);
                assert(rule_views(held.push(rule)) =~= rule_views(held).push(rule@));
            },
            Err(error) => {
                proof {
                    lemma_rules_of_fails(all, i + 1);
                }
                return Err(error);
            },
        }
        i += 1;
    }
    assert(all.take(i as int) =~= all);
    Ok(Rules::new(rls))
}

/// Reads a grammar out of a JSON tree.
pub fn grammar_from_tree(tree: &JsonTree) -> (result: Result<Grammar, ParseError>)
    ensures
        match result {
            Ok(grammar) => grammar_of(tree@) == Ok::<GrammarView, ParseError>(grammar@),
            Err(error) => grammar_of(tree@) == Err::<GrammarView, ParseError>(error),
        },
{
    if !tree.object {
        return Err(ParseError::GrammarNotObject);
    }
    let name = match find(tree, "name") {
        Some(value) => {
            if !value.string {
                return Err(ParseError::NameNotString);
            }
            value.plain.clone()
        },
        None => {
            return Err(ParseError::MissingName);
        },
    };
    let rules = match find(tree, "rules") {
        Some(value) => value,
        None => {
            return Err(ParseError::MissingRules);
        },
    };
    match handle_rules(rules) {
        Ok(list) => Ok(Grammar::new(Ident::new(name), list)),
        Err(error) => Err(error),
    }
}

/// Reads a grammar out of a value of the `json` crate.
pub fn parse_grammar(grammar: &json::JsonValue) -> (result: Result<Grammar, ParseError>)
    ensures
        match result {
            Ok(g) => grammar_of(json_tree(*grammar)) == Ok::<GrammarView, ParseError>(g@),
            Err(error) => grammar_of(json_tree(*grammar)) == Err::<GrammarView, ParseError>(
                error,
            ),
        },
{
    let tree = snapshot(grammar);
    grammar_from_tree(&tree)
}

} // verus!
