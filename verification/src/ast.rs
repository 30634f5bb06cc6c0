//! The expanded form of a grammar: statements, each a name with a node tree.

use crate::text::{decimal, decimal_string, lemma_decimal_is_injective};
use vstd::prelude::*;
use vstd::string::*;

verus! {

/// The name of the helper statement of the repetition with the given id.
pub open spec fn intermediate_name(id: nat) -> Seq<char> {
    "Intermediate"@ + decimal(id)
}

/// The tag of the alternative of a choice with the given id.
pub open spec fn tag_name(id: nat) -> Seq<char> {
    "Intermediate_type"@ + decimal(id)
}

/// Two ids with the same helper name are the same id.
pub proof fn lemma_intermediate_name_is_injective(n: nat, m: nat)
    requires
        intermediate_name(n) == intermediate_name(m),
    ensures
        n == m,
{
    let prefix = "Intermediate"@;
    let from = prefix.len() as int;
    assert((prefix + decimal(n)).subrange(from, from + decimal(n).len()) =~= decimal(n));
    assert((prefix + decimal(m)).subrange(from, from + decimal(m).len()) =~= decimal(m));
    assert((prefix + decimal(n)).len() == (prefix + decimal(m)).len());
    lemma_decimal_is_injective(n, m);
}

/// Writes the name of the helper statement of the repetition with the given id.
pub fn intermediate_name_string(id: u32) -> (name: String)
    ensures
        name@ == intermediate_name(id as nat),
{
    let mut name = String::from_str("Intermediate");
    let number = decimal_string(id as u128);
    name.append(number.as_str());
    name
}

/// Writes the tag of the alternative of a choice with the given id.
pub fn tag_name_string(id: u128) -> (name: String)
    ensures
        name@ == tag_name(id as nat),
{
    let mut name = String::from_str("Intermediate_type");
    let number = decimal_string(id);
    name.append(number.as_str());
    name
}

/// The name of a statement or of a terminal.
#[derive(Debug, PartialEq, Eq)]
pub struct Name(String);

impl View for Name {
    type V = Seq<char>;

    closed spec fn view(&self) -> Seq<char> {
        self.0@
    }
}

impl Name {
    pub fn new(name: String) -> (n: Name)
        ensures
            n@ == name@,
    {
        Name(name)
    }

    pub fn to_string(&self) -> (s: String)
        ensures
            s@ == self@,
    {
        self.0.clone()
    }

    pub fn as_str(&self) -> (s: &str)
        ensures
            s@ == self@,
    {
        self.0.as_str()
    }
}

/// A node of an expanded rule body.
#[derive(Debug, PartialEq, Eq)]
pub enum Node {
    /// A reference to the helper statement `Intermediate<id>` of a repetition.
    Intermediate(u32),
    /// A choice: the id of its first tag, and its alternatives.
    IntermediateChoice(u32, Vec<Node>),
    /// A sequence of members.
    IntermediateSeq(Vec<Node>),
    /// A terminal.
    Leaf(Name),
}

/// The mathematical model of a [`Node`].
pub enum NodeView {
    Intermediate(nat),
    IntermediateChoice(nat, Seq<NodeView>),
    IntermediateSeq(Seq<NodeView>),
    Leaf(Seq<char>),
}

/// The models of a list of nodes, in order.
pub open spec fn node_views(nodes: Seq<Node>) -> Seq<NodeView> {
    nodes.map_values(|n: Node| n@)
}

impl Node {
    pub open spec fn model(&self) -> NodeView
        decreases self,
    {
        match self {
            Node::Intermediate(id) => NodeView::Intermediate(*id as nat),
            Node::IntermediateChoice(base, members) => NodeView::IntermediateChoice(
                *base as nat,
                Seq::new(
                    members@.len(),
                    |i: int|
                        if 0 <= i < members@.len() {
                            members@[i].model()
                        } else {
                            arbitrary()
                        },
                ),
            ),
            Node::IntermediateSeq(members) => NodeView::IntermediateSeq(
                Seq::new(
                    members@.len(),
                    |i: int|
                        if 0 <= i < members@.len() {
                            members@[i].model()
                        } else {
                            arbitrary()
                        },
                ),
            ),
            Node::Leaf(name) => NodeView::Leaf(name@),
        }
    }

    /// The model of a choice node is the choice of its members' models.
    pub proof fn lemma_choice_view(base: u32, members: Vec<Node>)
        ensures
            Node::IntermediateChoice(base, members)@ == NodeView::IntermediateChoice(
                base as nat,
                node_views(members@),
            ),
    {
        assert(Node::IntermediateChoice(base, members)@->IntermediateChoice_1 =~= node_views(
            members@,
        ));
    }

    /// The model of a sequence node is the sequence of its members' models.
    pub proof fn lemma_seq_view(members: Vec<Node>)
        ensures
            Node::IntermediateSeq(members)@ == NodeView::IntermediateSeq(node_views(members@)),
    {
        assert(Node::IntermediateSeq(members)@->IntermediateSeq_0 =~= node_views(members@));
    }
}

impl View for Node {
    type V = NodeView;

    open spec fn view(&self) -> NodeView {
        self.model()
    }
}

/// A statement: the unit of output, a name with its node tree.
#[derive(Debug, PartialEq, Eq)]
pub struct Statement(Name, Node);

/// The mathematical model of a [`Statement`].
pub struct StatementView {
    pub name: Seq<char>,
    pub node: NodeView,
}

impl View for Statement {
    type V = StatementView;

    closed spec fn view(&self) -> StatementView {
        StatementView { name: self.0@, node: self.1@ }
    }
}

impl Statement {
    pub fn new(name: Name, node: Node) -> (statement: Statement)
        ensures
            statement@ == (StatementView { name: name@, node: node@ }),
    {
        Statement(name, node)
    }

    pub fn get_name(&self) -> (name: String)
        ensures
            name@ == self@.name,
    {
        self.0.to_string()
    }

    pub fn get_node(&self) -> (node: &Node)
        ensures
            node@ == self@.node,
    {
        &self.1
    }
}

/// The models of a list of statements, in order.
pub open spec fn statement_views(statements: Seq<Statement>) -> Seq<StatementView> {
    statements.map_values(|s: Statement| s@)
}

/// The result of the conversion: the name of the program and its statements in the
/// order in which they are written out.
#[derive(Debug, PartialEq, Eq)]
pub struct Ast(Name, Vec<Statement>);

/// The mathematical model of an [`Ast`].
pub struct AstView {
    pub name: Seq<char>,
    pub statements: Seq<StatementView>,
}

impl View for Ast {
    type V = AstView;

    closed spec fn view(&self) -> AstView {
        AstView { name: self.0@, statements: statement_views(self.1@) }
    }
}

impl Ast {
    pub fn new(name: Name, statements: Vec<Statement>) -> (ast: Ast)
        ensures
            ast@ == (AstView { name: name@, statements: statement_views(statements@) }),
    {
        Ast(name, statements)
    }

    pub fn _get_name(&self) -> (name: String)
        ensures
            name@ == self@.name,
    {
        self.0.to_string()
    }

    pub fn get_statements(&self) -> (statements: &Vec<Statement>)
        ensures
            statement_views(statements@) == self@.statements,
    {
        &self.1
    }
}

} // verus!
