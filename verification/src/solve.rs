//! Solving an interactive video: a shortest path of choices to every node
//! that can be reached.

pub mod laws;
pub mod path;
pub mod search;
pub mod state;
pub mod table;

use std::collections::{HashMap, HashSet, VecDeque};
use std::rc::Rc;
use vstd::prelude::*;
use crate::model::{Choice, Graph, Node, NodeConfig, Variable, Video};
use crate::solve::path::{share, steps_of, Solution, Step};
use crate::solve::search::{
    advance, branch, ends, find_node, first_repeat, grow, lemma_advance_lightens, lemma_ends_push,
    load, run, search, start, Branch, Item, Search, Setting,
};
use crate::solve::state::{key_of, State, StateSet};
use crate::solve::table::{repeats, Variables};

verus! {

/// Why a search was given up.
#[derive(Debug, Clone)]
pub enum Error {
    /// A choice leads to a node that the graph does not hold.
    NodeNotFound(usize),
    /// A condition or a change names a variable that was never declared.
    VariableNotFound(String),
    /// A variable was declared more than once.
    RepeatVariable(String),
}

/// An `Error` with its strings as sequences of characters.
pub enum ErrorView {
    NodeNotFound(usize),
    VariableNotFound(Seq<char>),
    RepeatVariable(Seq<char>),
}

impl DeepView for Error {
    type V = ErrorView;

    open spec fn deep_view(&self) -> ErrorView {
        match self {
            Error::NodeNotFound(id) => ErrorView::NodeNotFound(*id),
            Error::VariableNotFound(id) => ErrorView::VariableNotFound(id@),
            Error::RepeatVariable(id) => ErrorView::RepeatVariable(id@),
        }
    }
}

/// A result with its error as an `ErrorView`.
pub open spec fn outcome<T>(r: Result<T, Error>) -> Result<T, ErrorView> {
    match r {
        Ok(t) => Ok(t),
        Err(e) => Err(e.deep_view()),
    }
}

/// What an admissibility predicate says of a choice.
pub open spec fn admitted<P: Fn(&Choice) -> bool>(pred: P) -> spec_fn(Choice) -> bool {
    |choice: Choice| pred.ensures((&choice,), true)
}

/// Whether a predicate can be asked of every choice, and gives one answer for
/// each.
pub open spec fn decides<P: Fn(&Choice) -> bool>(pred: P) -> bool {
    &&& forall|choice: &Choice| #[trigger] pred.requires((choice,))
    &&& forall|choice: &Choice|
        !(#[trigger] pred.ensures((choice,), true) && pred.ensures((choice,), false))
}

/// An entry of the queue of a search.
pub struct Pending<'a> {
    pub depth: usize,
    pub step: Rc<Step<'a>>,
    pub variables: Variables<'a>,
}

impl<'a> View for Pending<'a> {
    type V = Item<'a>;

    open spec fn view(&self) -> Item<'a> {
        Item { depth: self.depth as nat, step: *self.step, env: self.variables.env() }
    }
}

/// The entries of a queue as the search sees them.
pub open spec fn items<'a>(queue: Seq<Pending<'a>>) -> Seq<Item<'a>> {
    queue.map_values(|p: Pending<'a>| p@)
}

/// Whether every entry holds a table of the declarations `decls`, and none
/// lies deeper than `maxd`.
pub open spec fn orderly<'a>(queue: Seq<Pending<'a>>, decls: &Vec<Variable>, maxd: usize) -> bool {
    forall|i: int|
        0 <= i < queue.len() ==> {
            &&& (#[trigger] queue[i]).variables.wf()
            &&& queue[i].variables.decls == decls
            &&& queue[i].depth <= maxd
        }
}


/// Whether `map` holds, for every id, the node that is found for it among
/// `nodes`.
pub open spec fn indexes(map: Map<usize, &Node>, nodes: Seq<Node>) -> bool {
    &&& forall|id: usize| map.contains_key(id) <==> find_node(nodes, id) is Some
    &&& forall|id: usize| #[trigger] map.contains_key(id) ==> *map[id] == find_node(nodes, id)->0
}

/// Decides what becomes of one choice at the end of the path of `item`.
fn follow<'a, P: Fn(&Choice) -> bool>(
    nodes: &HashMap<usize, &'a Node>,
    item: &Pending<'a>,
    choice: &'a Choice,
    visit: &HashSet<usize>,
    cutd: usize,
    pred: &P,
    variable: bool,
    Ghost(setting): Ghost<Setting>,
) -> (r: Result<Option<Pending<'a>>, Error>)
    requires
        decides(*pred),
        setting.admits == admitted(*pred),
        setting.cutd == cutd,
        setting.guards == variable,
        indexes(nodes@, setting.nodes),
        item.variables.wf(),
        item.variables.decls@ == setting.decls,
        item.depth < usize::MAX,
    ensures
        match r {
            Ok(None) => branch(setting, item@, visit@, *choice) is Skip,
            Ok(Some(child)) => {
                &&& branch(setting, item@, visit@, *choice) == Branch::Take(child@)
                &&& child.variables.wf()
                &&& child.variables.decls == item.variables.decls
                &&& child.depth == item.depth + 1
            },
            Err(e) => branch(setting, item@, visit@, *choice) == Branch::<'a>::Fail(
                e.deep_view(),
            ),
        },
{
    if item.depth >= cutd && visit.contains(&choice.target) {
        return Ok(None);
    }
    if !pred(choice) {
        return Ok(None);
    }
    if variable {
        match item.variables.check_all(&choice.conditions) {
            Ok(true) => {},
            Ok(false) => {
                return Ok(None);
            },
            Err(e) => {
                return Err(e);
            },
        }
    }
    let mut variables = item.variables.branch();
    match variables.change_all(&choice.changes) {
        Ok(()) => {},
        Err(e) => {
            return Err(e);
        },
    }
    let node: &'a Node = match nodes.get(&choice.target) {
        Some(node) => *node,
        None => {
            return Err(Error::NodeNotFound(choice.target));
        },
    };
    let step = Rc::new(Step::new_linked(node, choice, share(&item.step)));
    Ok(Some(Pending { depth: item.depth + 1, step, variables }))
}


/// Goes through the choices at the end of the path of `item`, and puts the
/// paths that prolong it at the back of the queue.
fn expand<'a, P: Fn(&Choice) -> bool>(
    nodes: &HashMap<usize, &'a Node>,
    item: &Pending<'a>,
    choices: &'a Vec<Choice>,
    visit: &HashSet<usize>,
    queue: &mut VecDeque<Pending<'a>>,
    maxd: usize,
    cutd: usize,
    pred: &P,
    variable: bool,
    Ghost(setting): Ghost<Setting>,
) -> (r: Result<(), Error>)
    requires
        decides(*pred),
        setting.admits == admitted(*pred),
        setting.cutd == cutd,
        setting.guards == variable,
        indexes(nodes@, setting.nodes),
        item.variables.wf(),
        item.variables.decls@ == setting.decls,
        item.depth < maxd,
        orderly(old(queue)@, item.variables.decls, maxd),
    ensures
        match r {
            Ok(()) => {
                &&& grow(setting, item@, visit@, choices@, items(old(queue)@)) == Ok::<
                    Seq<Item<'a>>,
                    ErrorView,
                >(items(final(queue)@))
                &&& orderly(final(queue)@, item.variables.decls, maxd)
            },
            Err(e) => grow(setting, item@, visit@, choices@, items(old(queue)@)) == Err::<
                Seq<Item<'a>>,
                ErrorView,
            >(e.deep_view()),
        },
{
    let mut i: usize = 0;
    assert(choices@.skip(0) =~= choices@);
    while i < choices.len()
        invariant
            i <= choices.len(),
            decides(*pred),
            setting.admits == admitted(*pred),
            setting.cutd == cutd,
            setting.guards == variable,
            indexes(nodes@, setting.nodes),
            item.variables.wf(),
            item.variables.decls@ == setting.decls,
            item.depth < maxd,
            orderly(queue@, item.variables.decls, maxd),
            grow(setting, item@, visit@, choices@.skip(i as int), items(queue@)) == grow(
                setting,
                item@,
                visit@,
                choices@,
                items(old(queue)@),
            ),
        decreases choices.len() - i,
    {
        proof {
            assert(choices@.skip(i as int).drop_first() =~= choices@.skip(i + 1));
        }
        match follow(nodes, item, &choices[i], visit, cutd, pred, variable, Ghost(setting)) {
            Ok(None) => {},
            Ok(Some(child)) => {
                let ghost before = queue@;
                queue.push_back(child);
                assert(items(queue@) =~= items(before).push(child@));
            },
            Err(e) => {
                return Err(e);
            },
        }
        i = i + 1;
    }
    Ok(())
}


/// Whether `r` is the outcome of the search from `root`: the paths that the
/// search finds, or the error on which it is given up.
pub open spec fn solved<'a>(setting: Setting, root: usize, r: Result<Solution<'a>, Error>) -> bool {
    match r {
        Ok(solution) => search(setting, root) == Ok::<Seq<Step<'a>>, ErrorView>(solution.steps()),
        Err(e) => search(setting, root) == Err::<Seq<Step<'a>>, ErrorView>(e.deep_view()),
    }
}

/// A search has one outcome: two searches from one root in one setting find
/// the same paths in the same order, or are given up on the same error.
pub proof fn theorem_one_outcome<'a>(
    setting: Setting,
    root: usize,
    first: Result<Solution<'a>, Error>,
    second: Result<Solution<'a>, Error>,
)
    requires
        solved(setting, root, first),
        solved(setting, root, second),
    ensures
        match (first, second) {
            (Ok(a), Ok(b)) => a.steps() == b.steps(),
            (Err(a), Err(b)) => a.deep_view() == b.deep_view(),
            _ => false,
        },
{
}

/// Videos with the same nodes, root and variables, searched to the same
/// depths with predicates that admit the same choices, have the same
/// outcome.
pub proof fn theorem_same_search<'a, P: Fn(&Choice) -> bool, Q: Fn(&Choice) -> bool>(
    video: &Video,
    other: &Video,
    maxd: usize,
    cutd: usize,
    pred: P,
    other_pred: Q,
    variable: bool,
)
    requires
        video.graph.nodes@ == other.graph.nodes@,
        video.graph.root == other.graph.root,
        video.variables@ == other.variables@,
        forall|choice: &Choice| #[trigger]
            pred.ensures((choice,), true) == other_pred.ensures((choice,), true),
    ensures
        search::<'a>(video.setting(maxd, cutd, pred, variable), video.graph.root) == search::<'a>(
            other.setting(maxd, cutd, other_pred, variable),
            other.graph.root,
        ),
{
    assert forall|choice: Choice| #[trigger] admitted(pred)(choice) == admitted(other_pred)(
        choice,
    ) by {
    }
    assert(admitted(pred) =~= admitted(other_pred));
}

impl Video {
    /// What a search of the video is given.
    pub open spec fn setting<P: Fn(&Choice) -> bool>(
        &self,
        maxd: usize,
        cutd: usize,
        pred: P,
        variable: bool,
    ) -> Setting {
        Setting {
            nodes: self.graph.nodes@,
            decls: self.variables@,
            maxd: maxd as nat,
            cutd: cutd as nat,
            admits: admitted(pred),
            guards: variable,
        }
    }

    /// Finds a shortest path of choices to every node that can be reached.
    ///
    /// The graph is walked breadth first from its root, and the hidden
    /// variables are carried along every path. No path is prolonged beyond
    /// `maxd` choices. From `cutd` choices on, no choice is taken that leads
    /// to a node already reached. A choice is taken only if `pred` admits it
    /// and, where `variable` is set, its conditions hold; a condition on a
    /// random variable always holds.
    pub fn solve<'a, P: Fn(&Choice) -> bool>(
        &'a self,
        maxd: usize,
        cutd: usize,
        pred: P,
        variable: bool,
    ) -> (r: Result<Solution<'a>, Error>)
        requires
            decides(pred),
        ensures
            solved(self.setting(maxd, cutd, pred, variable), self.graph.root, r),
    {
        let ghost setting = self.setting(maxd, cutd, pred, variable);
        let total: usize = self.graph.nodes.len();
        let nodes = self.graph.nodes_map();
        let root: &'a Node = match nodes.get(&self.graph.root) {
            Some(node) => *node,
            None => {
                return Err(Error::NodeNotFound(self.graph.root));
            },
        };
        let variables = match Variables::new(&self.variables) {
            Ok(variables) => variables,
            Err(e) => {
                proof {
                    let j = choose|j: int|
                        {
                            &&& #[trigger] repeats(self.variables@, j)
                            &&& forall|k: int| 0 <= k < j ==> !repeats(self.variables@, k)
                            &&& e.deep_view() == ErrorView::RepeatVariable(self.variables@[j].id@)
                        };
                    assert(first_repeat(self.variables@) == j);
                }
                return Err(e);
            },
        };
        let mut solution: Vec<Rc<Step<'a>>> = Vec::with_capacity(total);
        let mut visit: HashSet<usize> = HashSet::new();
        let mut visit_states = StateSet::new();
        let mut queue: VecDeque<Pending<'a>> = VecDeque::new();
        queue.push_back(Pending { depth: 0, step: Rc::new(Step::new(root)), variables });
        let ghost begin: Search<'a> = start::<'a>(setting, self.graph.root)->Ok_0;
        proof {
            assert(items(queue@) =~= begin.queue);
            assert(steps_of(solution@) =~= begin.found);
        }
        loop
            invariant_except_break
                run(
                    setting,
                    Search {
                        queue: items(queue@),
                        seen: visit_states@,
                        found: steps_of(solution@),
                    },
                ) == run(setting, begin),
            invariant
                decides(pred),
                setting == self.setting(maxd, cutd, pred, variable),
                start::<'a>(setting, self.graph.root) == Ok::<Search<'a>, ErrorView>(begin),
                indexes(nodes@, setting.nodes),
                total == self.graph.nodes.len(),
                orderly(queue@, &self.variables, maxd),
                visit@ == ends(steps_of(solution@)),
                visit_states.wf(),
            ensures
                run(setting, begin) matches Ok(end) && end.found == steps_of(solution@),
            decreases load(setting, items(queue@)),
        {
            let ghost before = Search {
                queue: items(queue@),
                seen: visit_states@,
                found: steps_of(solution@),
            };
            let popped = queue.pop_front();
            if popped.is_none() {
                break ;
            }
            let item = popped.unwrap();
            proof {
                lemma_advance_lightens(setting, before);
                assert(items(queue@) =~= before.queue.drop_first());
            }
            let node: &'a Node = item.step.node;
            let state = State::new(node.id, &item.variables);
            let ghost after = advance(setting, before);
            assert(run(setting, before) == match after {
                Ok(next) => run(setting, next),
                Err(e) => Err(e),
            });
            let ghost key = key_of(setting.decls, node.id, item@.env);
            let ghost rest = before.queue.drop_first();
            if visit_states.insert(state) {
                let ghost fresh = !ends(before.found).contains(node.id);
                let mut stop = false;
                if visit.insert(node.id) {
                    solution.push(share(&item.step));
                    proof {
                        lemma_ends_push(before.found, item@.step);
                    }
                    stop = solution.len() == total;
                }
                let ghost found = if fresh {
                    before.found.push(item@.step)
                } else {
                    before.found
                };
                assert(steps_of(solution@) == found);
                assert(visit@ == ends(found));
                if stop {
                    assert(after is Ok && after->Ok_0.queue.len() == 0);
                    break ;
                }
                if item.depth < maxd {
                    assert(after == match grow(
                        setting,
                        item@,
                        ends(found),
                        node.config.choices(),
                        rest,
                    ) {
                        Ok(queue) => Ok::<Search<'a>, ErrorView>(
                            Search { queue, seen: before.seen.push(key), found },
                        ),
                        Err(e) => Err(e),
                    });
                    match &node.config {
                        NodeConfig::Choice { choices, .. } => {
                            match expand(
                                &nodes,
                                &item,
                                choices,
                                &visit,
                                &mut queue,
                                maxd,
                                cutd,
                                &pred,
                                variable,
                                Ghost(setting),
                            ) {
                                Ok(()) => {},
                                Err(e) => {
                                    return Err(e);
                                },
                            }
                        },
                        NodeConfig::Leaf => {},
                    }
                }
            }
            assert(after == Ok::<Search<'a>, ErrorView>(
                Search {
                    queue: items(queue@),
                    seen: visit_states@,
                    found: steps_of(solution@),
                },
            ));
        }
        Ok(Solution(solution))
    }
}

impl Graph {
    /// The nodes by id. Of two nodes with one id the later one is kept.
    pub fn nodes_map(&self) -> (map: HashMap<usize, &Node>)
        ensures
            indexes(map@, self.nodes@),
    {
        let mut map: HashMap<usize, &Node> = HashMap::new();
        let mut i: usize = 0;
        while i < self.nodes.len()
            invariant
                i <= self.nodes.len(),
                indexes(map@, self.nodes@.take(i as int)),
            decreases self.nodes.len() - i,
        {
            let node = &self.nodes[i];
            proof {
                let next = self.nodes@.take(i + 1);
                assert(next.drop_last() =~= self.nodes@.take(i as int));
            }
            map.insert(node.id, node);
            i = i + 1;
        }
        assert(self.nodes@.take(i as int) =~= self.nodes@);
        map
    }

    /// The nodes that `pred` keeps, by id. Of two such nodes with one id the
    /// later one is kept.
    pub fn nodes_map_filtered<P: Fn(&Node) -> bool>(&self, pred: P) -> (map: HashMap<usize, &Node>)
        requires
            forall|node: &Node| #[trigger] pred.requires((node,)),
            forall|node: &Node|
                !(#[trigger] pred.ensures((node,), true) && pred.ensures((node,), false)),
        ensures
            indexes(map@, self.nodes@.filter(|node: Node| pred.ensures((&node,), true))),
    {
        let ghost keeps = |node: Node| pred.ensures((&node,), true);
        let mut map: HashMap<usize, &Node> = HashMap::new();
        let mut i: usize = 0;
        while i < self.nodes.len()
            invariant
                i <= self.nodes.len(),
                keeps == |node: Node| pred.ensures((&node,), true),
                forall|node: &Node| #[trigger] pred.requires((node,)),
                forall|node: &Node|
                    !(#[trigger] pred.ensures((node,), true) && pred.ensures((node,), false)),
                indexes(map@, self.nodes@.take(i as int).filter(keeps)),
            decreases self.nodes.len() - i,
        {
            let node = &self.nodes[i];
            proof {
                let done = self.nodes@.take(i as int);
                assert(self.nodes@.take(i + 1) =~= done.push(*node));
                assert(done.push(*node).drop_last() =~= done);
                reveal(Seq::filter);
            }
            if pred(node) {
                proof {
                    let kept = self.nodes@.take(i + 1).filter(keeps);
                    assert(kept.drop_last() =~= self.nodes@.take(i as int).filter(keeps));
                }
                map.insert(node.id, node);
            }
            i = i + 1;
        }
        assert(self.nodes@.take(i as int) =~= self.nodes@);
        map
    }
}

} // verus!
