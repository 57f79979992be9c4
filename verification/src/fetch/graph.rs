//! The graph as the service describes it, edge by edge, and what is made of
//! it.

use vstd::prelude::*;
use vstd::std_specs::convert::FromSpecImpl;
use vstd::std_specs::convert::TryFromSpecImpl;
use crate::decimal::Decimal;
use crate::fetch::expr::{changes, conditions};
use crate::model;
use crate::model::{Change, Condition, Node, NodeConfig, VariableConfig};
use crate::utils::one_or_len;

verus! {

/// Why a graph could not be made of what the service said.
#[derive(Debug, Clone)]
pub enum Error {
    /// A node that is no ending came with this number of blocks of choices,
    /// not with one.
    ChoicesCount(usize),
    /// The conditions of a choice cannot be read; the text is kept.
    Condition(String),
    /// The changes of a choice cannot be read; the text is kept.
    Change(String),
}

/// An `Error` with its strings as sequences of characters.
pub enum ErrorView {
    ChoicesCount(usize),
    Condition(Seq<char>),
    Change(Seq<char>),
}

impl DeepView for Error {
    type V = ErrorView;

    open spec fn deep_view(&self) -> ErrorView {
        match self {
            Error::ChoicesCount(n) => ErrorView::ChoicesCount(*n),
            Error::Condition(text) => ErrorView::Condition(text@),
            Error::Change(text) => ErrorView::Change(text@),
        }
    }
}

/// What the service says when it is asked for the variables: the edge at
/// which the video starts, and the hidden variables.
#[derive(Debug, Clone)]
pub struct Gate {
    pub id: usize,
    pub variables: Vec<Variable>,
}

/// How the service declares a hidden variable.
#[derive(Debug, Clone)]
pub struct Variable {
    pub id: String,
    pub name: String,
    pub kind: VariableKind,
    pub default: Decimal,
    pub show: bool,
}

/// The kind of a hidden variable, which the service gives as a number.
#[derive(Debug, Clone, Copy, PartialEq, Eq, Structural)]
pub enum VariableKind {
    Normal,
    Random,
}

impl VariableKind {
    /// The kind that the service writes as `code`: 1 is normal, 2 is random,
    /// and no other number is a kind.
    pub fn from_code(code: u8) -> (kind: Option<VariableKind>)
        ensures
            kind == if code == 1 {
                Some(VariableKind::Normal)
            } else if code == 2 {
                Some(VariableKind::Random)
            } else {
                None
            },
    {
        if code == 1 {
            Some(VariableKind::Normal)
        } else if code == 2 {
            Some(VariableKind::Random)
        } else {
            None
        }
    }
}

impl From<Variable> for model::Variable {
    /// The declaration that the service's declaration stands for. A random
    /// variable has no default and is never shown, whatever the service says.
    fn from(value: Variable) -> (r: model::Variable) {
        let Variable { id, name, kind, default, show } = value;
        let config = match kind {
            VariableKind::Normal => VariableConfig::Normal { default, show },
            VariableKind::Random => VariableConfig::Random,
        };
        model::Variable { id, name, config }
    }
}

/// The declaration that the service's declaration `value` stands for.
pub open spec fn declaration(value: Variable) -> model::Variable {
    model::Variable {
        id: value.id,
        name: value.name,
        config: match value.kind {
            VariableKind::Normal => VariableConfig::Normal {
                default: value.default,
                show: value.show,
            },
            VariableKind::Random => VariableConfig::Random,
        },
    }
}

/// What the service says of the default and of the showing of a random
/// variable does not matter.
pub proof fn theorem_random_declaration(a: Variable, b: Variable)
    requires
        a.kind == VariableKind::Random,
        b.kind == VariableKind::Random,
        a.id == b.id,
        a.name == b.name,
    ensures
        declaration(a) == declaration(b),
        declaration(a).config is Random,
{
}

impl FromSpecImpl<Variable> for model::Variable {
    open spec fn obeys_from_spec() -> bool {
        true
    }

    open spec fn from_spec(value: Variable) -> model::Variable {
        declaration(value)
    }
}

impl Gate {
    /// The declarations of the hidden variables, in the order in which the
    /// service gives them, and the edge at which the video starts.
    pub fn into_parts(self) -> (r: (Vec<model::Variable>, usize))
        ensures
            r.1 == self.id,
            r.0@.len() == self.variables@.len(),
            forall|i: int|
                0 <= i < r.0@.len() ==> #[trigger] r.0@[i] == declaration(self.variables@[i]),
    {
        let Gate { id, variables } = self;
        let ghost all = variables@;
        let mut out: Vec<model::Variable> = Vec::new();
        for raw in it: variables.into_iter()
            invariant
                it.seq() == all,
                out@.len() == it.index(),
                forall|i: int|
                    0 <= i < out@.len() ==> #[trigger] out@[i] == declaration(all[i]),
        {
            out.push(model::Variable::from(raw));
        }
        (out, id)
    }
}

/// What the service says of an edge: the node to which it leads.
#[derive(Debug, Clone)]
pub struct Edge {
    pub name: String,
    pub leaf: bool,
    pub config: EdgeConfig,
}

/// The blocks of choices of a node. A node that is no ending has one.
#[derive(Debug, Clone)]
pub struct EdgeConfig {
    pub choices: Vec<Choices>,
}

/// A block of choices. A `duration` of -1 stands for a node that is not
/// played at all.
#[derive(Debug, Clone)]
pub struct Choices {
    pub duration: isize,
    pub choices: Vec<Choice>,
}

/// A choice as the service gives it, its conditions and changes as text.
#[derive(Debug, Clone)]
pub struct Choice {
    pub id: usize,
    pub name: String,
    pub target: usize,
    pub conditions: String,
    pub changes: String,
    pub default: bool,
}

/// What is wrong with a choice: its conditions, else its changes, where they
/// cannot be read.
pub open spec fn choice_defect(raw: Choice) -> Option<ErrorView> {
    if conditions(raw.conditions@) is None {
        Some(ErrorView::Condition(raw.conditions@))
    } else if changes(raw.changes@) is None {
        Some(ErrorView::Change(raw.changes@))
    } else {
        None
    }
}

/// Whether `choice` is what `raw` stands for.
pub open spec fn renders(raw: Choice, choice: model::Choice) -> bool {
    &&& choice.id == raw.id
    &&& choice.name == raw.name
    &&& choice.target == raw.target
    &&& Some(choice.conditions.deep_view()) == conditions(raw.conditions@)
    &&& Some(choice.changes.deep_view()) == changes(raw.changes@)
}

/// What is wrong with the first of the choices with which something is.
pub open spec fn first_defect(choices: Seq<Choice>) -> Option<ErrorView>
    decreases choices.len(),
{
    if choices.len() == 0 {
        None
    } else {
        match choice_defect(choices[0]) {
            Some(e) => Some(e),
            None => first_defect(choices.drop_first()),
        }
    }
}

/// The id of the first choice that is marked as the default.
pub open spec fn first_default(choices: Seq<Choice>) -> Option<usize>
    decreases choices.len(),
{
    if choices.len() == 0 {
        None
    } else if choices[0].default {
        Some(choices[0].id)
    } else {
        first_default(choices.drop_first())
    }
}

/// The playing time that the service's `duration` stands for.
pub open spec fn playing_time(duration: isize) -> usize {
    if duration > 0 {
        duration as usize
    } else {
        0
    }
}

/// Whether `config` is what the block of choices stands for.
pub open spec fn config_renders(block: Choices, config: NodeConfig) -> bool {
    &&& config matches NodeConfig::Choice { duration, default, choices }
    &&& duration == playing_time(block.duration)
    &&& default == first_default(block.choices@)
    &&& choices@.len() == block.choices@.len()
    &&& forall|i: int| 0 <= i < choices@.len() ==> renders(block.choices@[i], #[trigger] choices@[i])
}

/// What is wrong with the blocks of choices of a node that is no ending:
/// their number, where it is not one; else what is wrong with the choices of
/// the one block.
pub open spec fn blocks_defect(config: EdgeConfig) -> Option<ErrorView> {
    if config.choices@.len() != 1 {
        Some(ErrorView::ChoicesCount(config.choices@.len() as usize))
    } else {
        first_defect(config.choices@[0].choices@)
    }
}

/// Whether the choice at `i` is marked as the default, and none before it
/// is.
pub open spec fn is_first_default(choices: Seq<Choice>, i: int) -> bool {
    &&& 0 <= i < choices.len()
    &&& choices[i].default
    &&& forall|j: int| 0 <= j < i ==> !(#[trigger] choices[j]).default
}

impl Choice {
    /// The first choice that is marked as the default.
    pub fn find_default(choices: &Vec<Choice>) -> (r: Option<&Choice>)
        ensures
            match r {
                Some(choice) => first_default(choices@) == Some(choice.id) && exists|i: int|
                    is_first_default(choices@, i) && *choice == choices@[i],
                None => first_default(choices@) is None && forall|j: int|
                    0 <= j < choices@.len() ==> !(#[trigger] choices@[j]).default,
            },
    {
        let mut i: usize = 0;
        assert(choices@.skip(0) =~= choices@);
        while i < choices.len()
            invariant
                i <= choices.len(),
                first_default(choices@.skip(i as int)) == first_default(choices@),
                forall|j: int| 0 <= j < i ==> !(#[trigger] choices@[j]).default,
            decreases choices.len() - i,
        {
            assert(choices@.skip(i as int)[0] == choices@[i as int]);
            assert(choices@.skip(i as int).drop_first() =~= choices@.skip(i + 1));
            if choices[i].default {
                assert(is_first_default(choices@, i as int));
                return Some(&choices[i]);
            }
            i = i + 1;
        }
        None
    }
}

impl TryFrom<Choice> for model::Choice {
    type Error = Error;

    /// Reads the conditions and the changes of a choice. Fails on conditions
    /// that cannot be read, else on changes that cannot.
    fn try_from(value: Choice) -> (r: Result<model::Choice, Error>)
        ensures
            match r {
                Ok(choice) => choice_defect(value) is None && renders(value, choice),
                Err(e) => choice_defect(value) == Some(e.deep_view()),
            },
    {
        let Choice { id, name, target, conditions, changes, .. } = value;
        let conditions = match Condition::from_str(conditions.as_str()) {
            Some(read) => read,
            None => {
                return Err(Error::Condition(conditions));
            },
        };
        let changes = match Change::from_str(changes.as_str()) {
            Some(read) => read,
            None => {
                return Err(Error::Change(changes));
            },
        };
        Ok(model::Choice { id, name, target, conditions, changes })
    }
}

impl TryFromSpecImpl<Choice> for model::Choice {
    open spec fn obeys_try_from_spec() -> bool {
        false
    }

    open spec fn try_from_spec(value: Choice) -> Result<model::Choice, Error> {
        arbitrary()
    }
}

impl TryFrom<Choices> for NodeConfig {
    type Error = Error;

    /// Makes the choices of a node from its block of choices. Fails on the
    /// first choice that cannot be read.
    fn try_from(value: Choices) -> (r: Result<NodeConfig, Error>)
        ensures
            match r {
                Ok(config) => first_defect(value.choices@) is None && config_renders(value, config),
                Err(e) => first_defect(value.choices@) == Some(e.deep_view()),
            },
    {
        let Choices { duration, choices } = value;
        let duration: usize = if duration > 0 {
            duration as usize
        } else {
            0
        };
        let default = match Choice::find_default(&choices) {
            Some(choice) => Some(choice.id),
            None => None,
        };
        let ghost all = choices@;
        let mut out: Vec<model::Choice> = Vec::new();
        assert(all.skip(0) =~= all);
        for raw in it: choices.into_iter()
            invariant
                it.seq() == all,
                all == value.choices@,
                out@.len() == it.index(),
                first_defect(all.skip(it.index() as int)) == first_defect(all),
                forall|i: int| 0 <= i < out@.len() ==> renders(all[i], #[trigger] out@[i]),
        {
            proof {
                let rest = all.skip(it.index() as int);
                assert(rest[0] == raw);
                assert(rest.drop_first() =~= all.skip(it.index() + 1));
            }
            match model::Choice::try_from(raw) {
                Ok(choice) => {
                    out.push(choice);
                },
                Err(e) => {
                    return Err(e);
                },
            }
        }
        Ok(NodeConfig::Choice { duration, default, choices: out })
    }
}

impl TryFromSpecImpl<Choices> for NodeConfig {
    open spec fn obeys_try_from_spec() -> bool {
        false
    }

    open spec fn try_from_spec(value: Choices) -> Result<NodeConfig, Error> {
        arbitrary()
    }
}

impl TryFrom<EdgeConfig> for NodeConfig {
    type Error = Error;

    /// Makes the choices of a node that is no ending from its blocks of
    /// choices. Fails with their number where that is not one.
    fn try_from(value: EdgeConfig) -> (r: Result<NodeConfig, Error>)
        ensures
            match r {
                Ok(config) => blocks_defect(value) is None && config_renders(
                    value.choices@[0],
                    config,
                ),
                Err(e) => blocks_defect(value) == Some(e.deep_view()),
            },
    {
        match one_or_len(value.choices) {
            Ok(block) => NodeConfig::try_from(block),
            Err(n) => Err(Error::ChoicesCount(n)),
        }
    }
}

impl TryFromSpecImpl<EdgeConfig> for NodeConfig {
    open spec fn obeys_try_from_spec() -> bool {
        false
    }

    open spec fn try_from_spec(value: EdgeConfig) -> Result<NodeConfig, Error> {
        arbitrary()
    }
}

impl Edge {
    /// The node with id `id` to which the edge leads: an ending where the
    /// service says so, whatever else it says; else a node with the choices
    /// of its one block.
    pub fn into_node(self, id: usize) -> (r: Result<Node, Error>)
        ensures
            match r {
                Ok(node) => {
                    &&& node.id == id
                    &&& node.name == self.name
                    &&& if self.leaf {
                        node.config is Leaf
                    } else {
                        blocks_defect(self.config) is None && config_renders(
                            self.config.choices@[0],
                            node.config,
                        )
                    }
                },
                Err(e) => !self.leaf && blocks_defect(self.config) == Some(e.deep_view()),
            },
    {
        let Edge { name, leaf, config } = self;
        let config = if leaf {
            NodeConfig::Leaf
        } else {
            match NodeConfig::try_from(config) {
                Ok(config) => config,
                Err(e) => {
                    return Err(e);
                },
            }
        };
        Ok(Node { id, name, config })
    }
}

} // verus!
