//! What a search does, step by step, stated over sequences, sets and maps.
//!
//! A search walks the graph breadth first from the root. It keeps a queue of
//! paths, each with the hidden variables as they stand at its end; the states
//! that it has been in; and the paths that it has found, one to every node
//! that it has reached.

use std::rc::Rc;
use vstd::prelude::*;
use crate::model::{Choice, Node, Variable};
use crate::solve::path::{Step, StepNext};
use crate::solve::state::{key_of, Key};
use crate::solve::table::{apply_all, check_all, distinct_ids, initial_env, repeats, Env};
use crate::solve::ErrorView;

verus! {

/// What a search is given.
pub struct Setting {
    /// The nodes of the graph.
    pub nodes: Seq<Node>,
    /// The declarations of the hidden variables.
    pub decls: Seq<Variable>,
    /// The depth at which paths are no longer prolonged.
    pub maxd: nat,
    /// The depth from which on no choice is taken that leads to a node
    /// already reached.
    pub cutd: nat,
    /// The choices that may be taken.
    pub admits: spec_fn(Choice) -> bool,
    /// Whether conditions are looked at; where not, every choice is open.
    pub guards: bool,
}

/// An entry of the queue: a path, the number of its choices, and the hidden
/// variables as they stand at its end.
pub struct Item<'a> {
    pub depth: nat,
    pub step: Step<'a>,
    pub env: Env,
}

/// Where a search stands.
pub struct Search<'a> {
    /// The paths that wait to be looked at, first in first out.
    pub queue: Seq<Item<'a>>,
    /// The keys of the states that were looked at, in that order.
    pub seen: Seq<Key>,
    /// The paths that were found, in that order.
    pub found: Seq<Step<'a>>,
}

/// What becomes of one choice.
pub enum Branch<'a> {
    /// It is not taken.
    Skip,
    /// It is taken, and the path that it prolongs joins the queue.
    Take(Item<'a>),
    /// It cannot be followed, and the search is given up.
    Fail(ErrorView),
}

/// The node with id `id`: the last such node of the list.
pub open spec fn find_node(nodes: Seq<Node>, id: usize) -> Option<Node>
    decreases nodes.len(),
{
    if nodes.len() == 0 {
        None
    } else if nodes.last().id == id {
        Some(nodes.last())
    } else {
        find_node(nodes.drop_last(), id)
    }
}

/// The ids of the nodes at which the paths end.
pub open spec fn ends(found: Seq<Step>) -> Set<usize> {
    Set::new(|id: usize| exists|i: int| 0 <= i < found.len() && (#[trigger] found[i]).node.id == id)
}

/// What becomes of `choice`, met at the end of the path of `item` when the
/// nodes `reached` have been reached.
///
/// The choice is skipped where the path is at or beyond the cut depth and the
/// target has been reached; where it is not admitted; and where conditions are
/// looked at and one of them does not hold. Else the changes are applied, and
/// the target is looked up.
pub open spec fn branch<'a>(
    setting: Setting,
    item: Item<'a>,
    reached: Set<usize>,
    choice: Choice,
) -> Branch<'a> {
    if item.depth >= setting.cutd && reached.contains(choice.target) {
        Branch::Skip
    } else if !(setting.admits)(choice) {
        Branch::Skip
    } else {
        let open = if setting.guards {
            check_all(item.env, choice.conditions@)
        } else {
            Ok(true)
        };
        match open {
            Err(e) => Branch::Fail(e),
            Ok(false) => Branch::Skip,
            Ok(true) => match apply_all(item.env, choice.changes@) {
                Err(e) => Branch::Fail(e),
                Ok(env) => match find_node(setting.nodes, choice.target) {
                    None => Branch::Fail(ErrorView::NodeNotFound(choice.target)),
                    Some(node) => Branch::Take(
                        Item {
                            depth: item.depth + 1,
                            step: Step {
                                next: Some(StepNext { next: Rc::new(item.step), choice: &choice }),
                                node: &node,
                            },
                            env,
                        },
                    ),
                },
            },
        }
    }
}

/// The queue after the choices were gone through in order, or the error of
/// the first that cannot be followed.
pub open spec fn grow<'a>(
    setting: Setting,
    item: Item<'a>,
    reached: Set<usize>,
    choices: Seq<Choice>,
    queue: Seq<Item<'a>>,
) -> Result<Seq<Item<'a>>, ErrorView>
    decreases choices.len(),
{
    if choices.len() == 0 {
        Ok(queue)
    } else {
        match branch(setting, item, reached, choices[0]) {
            Branch::Skip => grow(setting, item, reached, choices.drop_first(), queue),
            Branch::Take(child) => grow(
                setting,
                item,
                reached,
                choices.drop_first(),
                queue.push(child),
            ),
            Branch::Fail(e) => Err(e),
        }
    }
}

/// The search after it has looked at the head of its queue.
///
/// A path that ends in a state already seen is dropped. Else the state is
/// noted, and the path is found if its node was not reached before. Once every
/// node of the graph has a path, the queue is given up and the search is
/// over. A path at the greatest depth, or to an ending, is not prolonged; any
/// other is prolonged by the choices of its node.
pub open spec fn advance<'a>(setting: Setting, search: Search<'a>) -> Result<Search<'a>, ErrorView>
    recommends
        search.queue.len() > 0,
{
    let item = search.queue[0];
    let rest = search.queue.drop_first();
    let key = key_of(setting.decls, item.step.node.id, item.env);
    if search.seen.contains(key) {
        Ok(Search { queue: rest, seen: search.seen, found: search.found })
    } else {
        let seen = search.seen.push(key);
        let fresh = !ends(search.found).contains(item.step.node.id);
        let found = if fresh {
            search.found.push(item.step)
        } else {
            search.found
        };
        if fresh && found.len() == setting.nodes.len() {
            Ok(Search { queue: Seq::empty(), seen, found })
        } else if item.depth >= setting.maxd {
            Ok(Search { queue: rest, seen, found })
        } else {
            match grow(setting, item, ends(found), item.step.node.config.choices(), rest) {
                Ok(queue) => Ok(Search { queue, seen, found }),
                Err(e) => Err(e),
            }
        }
    }
}

/// The number of choices that lead on from a node.
pub open spec fn fanout(node: Node) -> nat {
    node.config.choices().len()
}

/// The greatest fanout of the nodes.
pub open spec fn widest(nodes: Seq<Node>) -> nat
    decreases nodes.len(),
{
    if nodes.len() == 0 {
        0
    } else if fanout(nodes.last()) >= widest(nodes.drop_last()) {
        fanout(nodes.last())
    } else {
        widest(nodes.drop_last())
    }
}

/// A bound on the number of paths that prolong a path of `depth` choices
/// through nodes of fanout at most `width`, that path included.
pub open spec fn weight(maxd: nat, width: nat, depth: nat) -> nat
    decreases maxd - depth,
{
    if depth >= maxd {
        1
    } else {
        1 + width * weight(maxd, width, depth + 1)
    }
}

/// A bound on the number of paths that prolong the path of `item`, that path
/// included.
pub open spec fn item_weight(setting: Setting, item: Item) -> nat {
    if item.depth >= setting.maxd {
        1
    } else {
        1 + fanout(*item.step.node) * weight(
            setting.maxd,
            widest(setting.nodes),
            item.depth + 1,
        )
    }
}

/// A bound on the number of paths that a search may still look at.
pub open spec fn load(setting: Setting, queue: Seq<Item>) -> nat
    decreases queue.len(),
{
    if queue.len() == 0 {
        0
    } else {
        load(setting, queue.drop_last()) + item_weight(setting, queue.last())
    }
}

/// The search as it ends, or the error on which it is given up.
pub open spec fn run<'a>(setting: Setting, search: Search<'a>) -> Result<Search<'a>, ErrorView>
    decreases load(setting, search.queue),
{
    if search.queue.len() == 0 {
        Ok(search)
    } else {
        match advance(setting, search) {
            Ok(next) => {
                proof {
                    lemma_advance_lightens(setting, search);
                }
                run(setting, next)
            },
            Err(e) => Err(e),
        }
    }
}

/// The search as it begins: the root alone in the queue, every variable at
/// its default. It cannot begin where the graph does not hold the root, or
/// where a variable is declared twice.
pub open spec fn start<'a>(setting: Setting, root: usize) -> Result<Search<'a>, ErrorView> {
    match find_node(setting.nodes, root) {
        None => Err(ErrorView::NodeNotFound(root)),
        Some(node) => if distinct_ids(setting.decls) {
            Ok(
                Search {
                    queue: seq![
                        Item {
                            depth: 0,
                            step: Step { next: None, node: &node },
                            env: initial_env(setting.decls),
                        },
                    ],
                    seen: Seq::empty(),
                    found: Seq::empty(),
                },
            )
        } else {
            Err(ErrorView::RepeatVariable(setting.decls[first_repeat(setting.decls)].id@))
        },
    }
}

/// The first declaration that repeats the id of an earlier one.
pub open spec fn first_repeat(decls: Seq<Variable>) -> int {
    choose|j: int| #[trigger] repeats(decls, j) && forall|k: int| 0 <= k < j ==> !repeats(decls, k)
}

/// The paths that a search from `root` finds, in the order in which it finds
/// them, or the error on which it is given up.
pub open spec fn search<'a>(setting: Setting, root: usize) -> Result<Seq<Step<'a>>, ErrorView> {
    match start(setting, root) {
        Err(e) => Err(e),
        Ok(begin) => match run(setting, begin) {
            Ok(end) => Ok(end.found),
            Err(e) => Err(e),
        },
    }
}

/// The nodes at which paths end, once one more path is found.
pub proof fn lemma_ends_push(found: Seq<Step>, step: Step)
    ensures
        ends(found.push(step)) == ends(found).insert(step.node.id),
{
    let longer = found.push(step);
    assert forall|id: usize| ends(longer).contains(id) == ends(found).insert(
        step.node.id,
    ).contains(id) by {
        if ends(longer).contains(id) {
            let i = choose|i: int| 0 <= i < longer.len() && (#[trigger] longer[i]).node.id == id;
            if i < found.len() {
                assert(found[i].node.id == id);
            }
        }
        if ends(found).contains(id) {
            let i = choose|i: int| 0 <= i < found.len() && (#[trigger] found[i]).node.id == id;
            assert(longer[i].node.id == id);
        }
        if id == step.node.id {
            assert(longer[found.len() as int].node.id == id);
        }
    }
    assert(ends(longer) =~= ends(found).insert(step.node.id));
}

/// The node that is found for an id has that id, is one of the nodes, and is
/// no wider than the widest of them.
pub proof fn lemma_find_node(nodes: Seq<Node>, id: usize)
    ensures
        find_node(nodes, id) matches Some(node) ==> {
            &&& node.id == id
            &&& nodes.contains(node)
            &&& fanout(node) <= widest(nodes)
        },
        find_node(nodes, id) is None ==> forall|i: int|
            0 <= i < nodes.len() ==> (#[trigger] nodes[i]).id != id,
    decreases nodes.len(),
{
    if nodes.len() > 0 {
        lemma_find_node(nodes.drop_last(), id);
        if nodes.last().id == id {
            assert(nodes[nodes.len() - 1] == nodes.last());
        } else {
            if let Some(node) = find_node(nodes.drop_last(), id) {
                let i = choose|i: int|
                    0 <= i < nodes.drop_last().len() && nodes.drop_last()[i] == node;
                assert(nodes[i] == node);
            }
            assert forall|i: int| 0 <= i < nodes.len() && find_node(nodes, id) is None implies (
            #[trigger] nodes[i]).id != id by {
                if i < nodes.len() - 1 {
                    assert(nodes.drop_last()[i] == nodes[i]);
                }
            }
        }
    }
}

/// A path through nodes of the graph weighs no more than the bound for its
/// depth.
pub proof fn lemma_item_weight(setting: Setting, item: Item)
    requires
        fanout(*item.step.node) <= widest(setting.nodes),
    ensures
        item_weight(setting, item) <= weight(setting.maxd, widest(setting.nodes), item.depth),
{
    if item.depth < setting.maxd {
        let w = weight(setting.maxd, widest(setting.nodes), item.depth + 1);
        assert(fanout(*item.step.node) * w <= widest(setting.nodes) * w) by (nonlinear_arith)
            requires
                fanout(*item.step.node) <= widest(setting.nodes),
                w >= 0,
        ;
    }
}

/// The load of a queue is the weight of its head and the load of the rest.
pub proof fn lemma_load_head(setting: Setting, queue: Seq<Item>)
    requires
        queue.len() > 0,
    ensures
        load(setting, queue) == item_weight(setting, queue[0]) + load(setting, queue.drop_first()),
    decreases queue.len(),
{
    if queue.len() == 1 {
        assert(queue.drop_last() =~= Seq::empty());
        assert(queue.drop_first() =~= Seq::empty());
    } else {
        lemma_load_head(setting, queue.drop_last());
        assert(queue.drop_last().drop_first() =~= queue.drop_first().drop_last());
        assert(queue.drop_last()[0] == queue[0]);
        assert(queue.drop_first().last() == queue.last());
    }
}

/// Going through choices adds to the load no more than the bound for each
/// prolonged path.
pub proof fn lemma_grow_load(
    setting: Setting,
    item: Item,
    reached: Set<usize>,
    choices: Seq<Choice>,
    queue: Seq<Item>,
)
    ensures
        grow(setting, item, reached, choices, queue) matches Ok(grown) ==> load(setting, grown)
            <= load(setting, queue) + choices.len() * weight(
            setting.maxd,
            widest(setting.nodes),
            item.depth + 1,
        ),
    decreases choices.len(),
{
    let w = weight(setting.maxd, widest(setting.nodes), item.depth + 1);
    if choices.len() > 0 {
        let rest = choices.drop_first();
        assert(choices.len() * w == rest.len() * w + w) by (nonlinear_arith)
            requires
                choices.len() == rest.len() + 1,
        ;
        match branch(setting, item, reached, choices[0]) {
            Branch::Skip => {
                lemma_grow_load(setting, item, reached, rest, queue);
            },
            Branch::Take(child) => {
                lemma_find_node(setting.nodes, choices[0].target);
                lemma_item_weight(setting, child);
                assert(queue.push(child).drop_last() =~= queue);
                lemma_grow_load(setting, item, reached, rest, queue.push(child));
            },
            Branch::Fail(e) => {},
        }
    }
}

/// Every step of a search takes from the load.
pub proof fn lemma_advance_lightens(setting: Setting, search: Search)
    requires
        search.queue.len() > 0,
    ensures
        advance(setting, search) matches Ok(next) ==> load(setting, next.queue) < load(
            setting,
            search.queue,
        ),
{
    let item = search.queue[0];
    let rest = search.queue.drop_first();
    lemma_load_head(setting, search.queue);
    if let Ok(next) = advance(setting, search) {
        if next.queue != rest && next.queue.len() > 0 {
            let w = weight(setting.maxd, widest(setting.nodes), item.depth + 1);
            let choices = item.step.node.config.choices();
            lemma_grow_load(setting, item, ends(next.found), choices, rest);
            assert(item.depth < setting.maxd);
        }
    }
}

} // verus!
