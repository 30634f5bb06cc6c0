//! The grammar model: named rules whose bodies are trees of repetitions, choices,
//! sequences and terminals.

use vstd::prelude::*;

pub use crate::parser::{parse_grammar, ParseError};

verus! {

/// A name: of the grammar or of a rule.
#[derive(Debug, PartialEq, Eq)]
pub struct Ident(String);

impl View for Ident {
    type V = Seq<char>;

    closed spec fn view(&self) -> Seq<char> {
        self.0@
    }
}

impl Ident {
    pub fn new(name: String) -> (ident: Ident)
        ensures
            ident@ == name@,
    {
        Ident(name)
    }

    pub fn get_string(&self) -> (name: &String)
        ensures
            name@ == self@,
    {
        &self.0
    }
}

/// The body of a rule. Each variant carries its content in an `Option`: a body without
/// content is malformed and cannot be expanded.
#[derive(Debug, PartialEq, Eq)]
pub enum RuleBody {
    Repeat(Option<Box<RuleBody>>),
    Choice(Option<Box<Vec<RuleBody>>>),
    Sequence(Option<Box<Vec<RuleBody>>>),
    Symbol(Option<String>),
    Str(Option<String>),
    Pattern(Option<String>),
}

/// The mathematical model of a [`RuleBody`].
pub enum RuleBodyView {
    Repeat(Option<Box<RuleBodyView>>),
    Choice(Option<Seq<RuleBodyView>>),
    Sequence(Option<Seq<RuleBodyView>>),
    Symbol(Option<Seq<char>>),
    Str(Option<Seq<char>>),
    Pattern(Option<Seq<char>>),
}

/// Whether a body and all the bodies below it carry their content.
pub open spec fn well_formed(body: RuleBodyView) -> bool
    decreases body,
{
    match body {
        RuleBodyView::Repeat(Some(inner)) => well_formed(*inner),
        RuleBodyView::Choice(Some(members)) => all_well_formed(members),
        RuleBodyView::Sequence(Some(members)) => all_well_formed(members),
        RuleBodyView::Symbol(Some(_)) => true,
        RuleBodyView::Str(Some(_)) => true,
        RuleBodyView::Pattern(Some(_)) => true,
        _ => false,
    }
}

/// Whether every body of a list is well formed.
pub open spec fn all_well_formed(bodies: Seq<RuleBodyView>) -> bool
    decreases bodies,
{
    bodies.len() == 0 || (all_well_formed(bodies.drop_last()) && well_formed(bodies.last()))
}

/// A list is well formed exactly if each of its bodies is.
pub proof fn lemma_all_well_formed(bodies: Seq<RuleBodyView>)
    ensures
        all_well_formed(bodies) <==> forall|i: int|
            0 <= i < bodies.len() ==> well_formed(#[trigger] bodies[i]),
    decreases bodies.len(),
{
    if bodies.len() > 0 {
        let front = bodies.drop_last();
        lemma_all_well_formed(front);
        if all_well_formed(bodies) {
            assert forall|i: int| 0 <= i < bodies.len() implies well_formed(
                #[trigger] bodies[i],
            ) by {
                if i < front.len() {
                    assert(front[i] == bodies[i]);
                }
            }
        } else if all_well_formed(front) {
            assert(!well_formed(bodies[bodies.len() - 1]));
        } else {
            let i = choose|i: int| 0 <= i < front.len() && !well_formed(#[trigger] front[i]);
            assert(front[i] == bodies[i]);
        }
    }
}

/// The models of a list of rule bodies, in order.
pub open spec fn body_views(bodies: Seq<RuleBody>) -> Seq<RuleBodyView> {
    bodies.map_values(|b: RuleBody| b@)
}

impl RuleBody {
    pub open spec fn model(&self) -> RuleBodyView
        decreases self,
    {
        match self {
            RuleBody::Repeat(Some(inner)) => RuleBodyView::Repeat(Some(Box::new(inner.model()))),
            RuleBody::Repeat(None) => RuleBodyView::Repeat(None),
            RuleBody::Choice(Some(members)) => RuleBodyView::Choice(
                Some(
                    Seq::new(
                        members@.len(),
                        |i: int|
                            if 0 <= i < members@.len() {
                                members@[i].model()
                            } else {
                                arbitrary()
                            },
                    ),
                ),
            ),
            RuleBody::Choice(None) => RuleBodyView::Choice(None),
            RuleBody::Sequence(Some(members)) => RuleBodyView::Sequence(
                Some(
                    Seq::new(
                        members@.len(),
                        |i: int|
                            if 0 <= i < members@.len() {
                                members@[i].model()
                            } else {
                                arbitrary()
                            },
                    ),
                ),
            ),
            RuleBody::Sequence(None) => RuleBodyView::Sequence(None),
            RuleBody::Symbol(Some(name)) => RuleBodyView::Symbol(Some(name@)),
            RuleBody::Symbol(None) => RuleBodyView::Symbol(None),
            RuleBody::Str(Some(name)) => RuleBodyView::Str(Some(name@)),
            RuleBody::Str(None) => RuleBodyView::Str(None),
            RuleBody::Pattern(Some(name)) => RuleBodyView::Pattern(Some(name@)),
            RuleBody::Pattern(None) => RuleBodyView::Pattern(None),
        }
    }

    /// The model of a choice is the choice of its members' models.
    pub proof fn lemma_choice_view(members: Box<Vec<RuleBody>>)
        ensures
            RuleBody::Choice(Some(members))@ == RuleBodyView::Choice(Some(body_views(members@))),
    {
        assert(RuleBody::Choice(Some(members))@->Choice_0->0 =~= body_views(members@));
    }

    /// The model of a sequence is the sequence of its members' models.
    pub proof fn lemma_sequence_view(members: Box<Vec<RuleBody>>)
        ensures
            RuleBody::Sequence(Some(members))@ == RuleBodyView::Sequence(Some(body_views(members@))),
    {
        assert(RuleBody::Sequence(Some(members))@->Sequence_0->0 =~= body_views(members@));
    }
}

/// Tells whether every body of the list is well formed.
fn all_bodies_well_formed(bodies: &Vec<RuleBody>) -> (ok: bool)
    ensures
        ok == all_well_formed(body_views(bodies@)),
    decreases bodies, 0nat,
{
    let mut i: usize = 0;
    while i < bodies.len()
        invariant
            i <= bodies.len(),
            all_well_formed(body_views(bodies@.take(i as int))),
        decreases bodies.len() - i,
    {
        proof {
            let next = body_views(bodies@.take(i + 1));
            assert(next.drop_last() =~= body_views(bodies@.take(i as int)));
            assert(next.last() == bodies@[i as int]@);
            lemma_all_well_formed(body_views(bodies@));
        }
        if !is_well_formed(&bodies[i]) {
            assert(body_views(bodies@)[i as int] == bodies@[i as int]@);
            return false;
        }
        i += 1;
    }
    assert(bodies@.take(i as int) =~= bodies@);
    true
}

/// Tells whether a body and all the bodies below it carry their content.
pub fn is_well_formed(body: &RuleBody) -> (ok: bool)
    ensures
        ok == well_formed(body@),
    decreases body, 1nat,
{
    match body {
        RuleBody::Repeat(Some(inner)) => is_well_formed(inner),
        RuleBody::Choice(Some(members)) => {
            proof {
                RuleBody::lemma_choice_view(*members);
                assert(decreases_to!(body => body->Choice_0));
            }
            all_bodies_well_formed(members)
        },
        RuleBody::Sequence(Some(members)) => {
            proof {
                RuleBody::lemma_sequence_view(*members);
                assert(decreases_to!(body => body->Sequence_0));
            }
            all_bodies_well_formed(members)
        },
        RuleBody::Symbol(Some(_)) => true,
        RuleBody::Str(Some(_)) => true,
        RuleBody::Pattern(Some(_)) => true,
        _ => false,
    }
}

impl View for RuleBody {
    type V = RuleBodyView;

    open spec fn view(&self) -> RuleBodyView {
        self.model()
    }
}

/// A rule: its name and its body.
#[derive(Debug, PartialEq, Eq)]
pub struct Rule(Ident, RuleBody);

/// The mathematical model of a [`Rule`].
pub struct RuleView {
    pub ident: Seq<char>,
    pub body: RuleBodyView,
}

impl View for Rule {
    type V = RuleView;

    closed spec fn view(&self) -> RuleView {
        RuleView { ident: self.0@, body: self.1@ }
    }
}

impl Rule {
    pub fn new(ident: Ident, body: RuleBody) -> (rule: Rule)
        ensures
            rule@ == (RuleView { ident: ident@, body: body@ }),
    {
        Rule(ident, body)
    }

    pub fn get_ident(&self) -> (ident: &Ident)
        ensures
            ident@ == self@.ident,
    {
        &self.0
    }

    pub fn get_rulebody(&self) -> (body: &RuleBody)
        ensures
            body@ == self@.body,
    {
        &self.1
    }
}

/// The models of a list of rules, in order.
pub open spec fn rule_views(rules: Seq<Rule>) -> Seq<RuleView> {
    rules.map_values(|r: Rule| r@)
}

/// The rules of a grammar, in the order of their declaration.
#[derive(Debug, PartialEq, Eq)]
pub struct Rules(Vec<Rule>);

impl View for Rules {
    type V = Seq<RuleView>;

    closed spec fn view(&self) -> Seq<RuleView> {
        rule_views(self.0@)
    }
}

impl Rules {
    pub fn new(list: Vec<Rule>) -> (rules: Rules)
        ensures
            rules@ == rule_views(list@),
    {
        Rules(list)
    }

    pub fn get_list(&self) -> (list: &Vec<Rule>)
        ensures
            rule_views(list@) == self@,
    {
        &self.0
    }
}

/// A grammar: the name of the program and its rules.
#[derive(Debug, PartialEq, Eq)]
pub struct Grammar(Ident, Rules);

/// The mathematical model of a [`Grammar`].
pub struct GrammarView {
    pub ident: Seq<char>,
    pub rules: Seq<RuleView>,
}

impl View for Grammar {
    type V = GrammarView;

    closed spec fn view(&self) -> GrammarView {
        GrammarView { ident: self.0@, rules: self.1@ }
    }
}

impl Grammar {
    pub fn new(ident: Ident, rules: Rules) -> (grammar: Grammar)
        ensures
            grammar@ == (GrammarView { ident: ident@, rules: rules@ }),
    {
        Grammar(ident, rules)
    }

    pub fn get_ident(&self) -> (ident: &Ident)
        ensures
            ident@ == self@.ident,
    {
        &self.0
    }

    pub fn get_rules(&self) -> (rules: &Rules)
        ensures
            rules@ == self@.rules,
    {
        &self.1
    }
}

} // verus!
