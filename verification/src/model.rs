//! Description of an interactive video: its hidden variables and the graph of
//! playable nodes joined by choices.
//!
//! Equality on the described entities is identity: two values are equal when
//! their `id`s are.

use vstd::prelude::*;
use vstd::std_specs::cmp::PartialEqSpecImpl;
use crate::decimal::Decimal;

verus! {

/// An interactive video.
#[derive(Debug, Clone)]
pub struct Video {
    pub id: String,
    pub name: String,
    pub cover: String,
    pub description: String,
    pub author: String,
    pub variables: Vec<Variable>,
    pub graph: Graph,
}

/// Declaration of a hidden variable.
#[derive(Debug, Clone)]
pub struct Variable {
    pub id: String,
    pub name: String,
    pub config: VariableConfig,
}

/// What kind of hidden variable is declared.
#[derive(Debug, Clone)]
pub enum VariableConfig {
    /// A simulated number that starts at `default`.
    Normal { default: Decimal, show: bool },
    /// A number drawn by the player; its value is never known.
    Random,
}

/// The nodes of a video and the id of the node at which it starts.
#[derive(Debug, Clone)]
pub struct Graph {
    pub root: usize,
    pub nodes: Vec<Node>,
}

/// A playable segment.
#[derive(Debug, Clone)]
pub struct Node {
    pub id: usize,
    pub name: String,
    pub config: NodeConfig,
}

/// What follows a node.
#[derive(Debug, Clone)]
pub enum NodeConfig {
    /// The viewer picks one of `choices` after `duration`.
    Choice { duration: usize, default: Option<usize>, choices: Vec<Choice> },
    /// Nothing follows: the node is an ending.
    Leaf,
}

/// A transition from a node to the node with id `target`.
#[derive(Debug, Clone)]
pub struct Choice {
    pub id: usize,
    pub name: String,
    pub target: usize,
    /// Guards; the choice is open when all of them hold.
    pub conditions: Vec<Condition>,
    /// Mutations, applied in order when the choice is taken.
    pub changes: Vec<Change>,
}

/// A comparison of the hidden variable `id` with `value`.
#[derive(Debug, Clone)]
pub struct Condition {
    pub kind: ConditionKind,
    pub id: String,
    pub value: Decimal,
}

#[derive(Debug, Clone, Copy, PartialEq, Eq, Structural)]
pub enum ConditionKind {
    Equal,
    NotEqual,
    Less,
    LessEqual,
    Greater,
    GreaterEqual,
}

/// A mutation of the hidden variable `id` by `value`.
#[derive(Debug, Clone)]
pub struct Change {
    pub kind: ChangeKind,
    pub id: String,
    pub value: Decimal,
}

#[derive(Debug, Clone, Copy, PartialEq, Eq, Structural)]
pub enum ChangeKind {
    /// The variable takes the value.
    Assign,
    /// The value is added to the variable.
    Add,
}

/// A condition with its id as a sequence of characters and its value as a
/// count of millionths.
pub struct ConditionView {
    pub kind: ConditionKind,
    pub id: Seq<char>,
    pub value: int,
}

/// A change with its id as a sequence of characters and its value as a count
/// of millionths.
pub struct ChangeView {
    pub kind: ChangeKind,
    pub id: Seq<char>,
    pub value: int,
}

impl DeepView for Condition {
    type V = ConditionView;

    open spec fn deep_view(&self) -> ConditionView {
        ConditionView { kind: self.kind, id: self.id@, value: self.value@ }
    }
}

impl DeepView for Change {
    type V = ChangeView;

    open spec fn deep_view(&self) -> ChangeView {
        ChangeView { kind: self.kind, id: self.id@, value: self.value@ }
    }
}

impl NodeConfig {
    /// Whether the node is an ending.
    pub fn is_leaf(&self) -> (leaf: bool)
        ensures
            leaf == (self is Leaf),
    {
        match self {
            NodeConfig::Leaf => true,
            NodeConfig::Choice { .. } => false,
        }
    }

    /// The choices that lead on from the node; none for an ending.
    pub open spec fn choices(&self) -> Seq<Choice> {
        match self {
            NodeConfig::Choice { choices, .. } => choices@,
            NodeConfig::Leaf => Seq::empty(),
        }
    }
}

/// Whether one of the nodes has the id `id`.
pub open spec fn holds_id(nodes: Seq<Node>, id: usize) -> bool {
    exists|i: int| 0 <= i < nodes.len() && (#[trigger] nodes[i]).id == id
}

/// Whether no two of the nodes have one id.
pub open spec fn distinct_nodes(nodes: Seq<Node>) -> bool {
    forall|i: int, j: int| 0 <= i < j < nodes.len() ==> nodes[i].id != nodes[j].id
}

/// Whether every choice of the nodes `from` leads to one of the nodes `to`.
pub open spec fn leads_within(from: Seq<Node>, to: Seq<Node>) -> bool {
    forall|i: int, k: int|
        0 <= i < from.len() && 0 <= k < from[i].config.choices().len() ==> holds_id(
            to,
            (#[trigger] from[i].config.choices()[k]).target,
        )
}

impl Graph {
    /// Whether the graph is whole: it holds its root, no two of its nodes
    /// have one id, and every choice leads to one of its nodes.
    pub open spec fn closed(&self) -> bool {
        &&& holds_id(self.nodes@, self.root)
        &&& distinct_nodes(self.nodes@)
        &&& leads_within(self.nodes@, self.nodes@)
    }
}

impl Node {
    /// Whether the node is an ending.
    pub fn is_leaf(&self) -> (leaf: bool)
        ensures
            leaf == (self.config is Leaf),
    {
        self.config.is_leaf()
    }
}

impl PartialEq for Video {
    fn eq(&self, other: &Self) -> (same: bool) {
        self.id == other.id
    }
}

impl PartialEqSpecImpl for Video {
    open spec fn obeys_eq_spec() -> bool {
        true
    }

    open spec fn eq_spec(&self, other: &Self) -> bool {
        self.id@ == other.id@
    }
}

impl PartialEq for Variable {
    fn eq(&self, other: &Self) -> (same: bool) {
        self.id == other.id
    }
}

impl PartialEqSpecImpl for Variable {
    open spec fn obeys_eq_spec() -> bool {
        true
    }

    open spec fn eq_spec(&self, other: &Self) -> bool {
        self.id@ == other.id@
    }
}

impl PartialEq for Node {
    fn eq(&self, other: &Self) -> (same: bool) {
        self.id == other.id
    }
}

impl PartialEqSpecImpl for Node {
    open spec fn obeys_eq_spec() -> bool {
        true
    }

    open spec fn eq_spec(&self, other: &Self) -> bool {
        self.id == other.id
    }
}

impl PartialEq for Choice {
    fn eq(&self, other: &Self) -> (same: bool) {
        self.id == other.id
    }
}

impl PartialEqSpecImpl for Choice {
    open spec fn obeys_eq_spec() -> bool {
        true
    }

    open spec fn eq_spec(&self, other: &Self) -> bool {
        self.id == other.id
    }
}

impl PartialEq for Condition {
    fn eq(&self, other: &Self) -> (same: bool) {
        self.id == other.id
    }
}

impl PartialEqSpecImpl for Condition {
    open spec fn obeys_eq_spec() -> bool {
        true
    }

    open spec fn eq_spec(&self, other: &Self) -> bool {
        self.id@ == other.id@
    }
}

impl PartialEq for Change {
    fn eq(&self, other: &Self) -> (same: bool) {
        self.id == other.id
    }
}

impl PartialEqSpecImpl for Change {
    open spec fn obeys_eq_spec() -> bool {
        true
    }

    open spec fn eq_spec(&self, other: &Self) -> bool {
        self.id@ == other.id@
    }
}

} // verus!
