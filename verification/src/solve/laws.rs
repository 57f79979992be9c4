//! What holds of every search.

use vstd::prelude::*;
use crate::model::{holds_id, leads_within, Choice, Node};
use crate::solve::path::Step;
use crate::solve::search::{
    advance, branch, ends, find_node, grow, lemma_advance_lightens, lemma_ends_push,
    lemma_find_node, load, run, search, start, Branch, Item, Search, Setting,
};
use crate::solve::state::key_of;
use crate::solve::table::lemma_only_variables_fail;
use crate::solve::ErrorView;

verus! {

/// Whether `node` is the node that the graph holds under its id.
pub open spec fn in_graph(setting: Setting, node: Node) -> bool {
    find_node(setting.nodes, node.id) == Some(node)
}

/// Whether an entry of the queue is in order: its depth is the number of
/// choices on its path, and its path ends in a node of the graph.
pub open spec fn item_sound(setting: Setting, item: Item) -> bool {
    &&& item.depth == item.step.depth()
    &&& in_graph(setting, *item.step.node)
}

/// Whether a search is in order.
///
/// No state was looked at twice, and every state that was looked at has a
/// path to its node. No two paths end in one node, every path ends in a node
/// of the graph, and no path is shorter than one found before it. The queue
/// holds paths of at most two lengths, the shorter ones first, and none of
/// them is shorter than a path that was found.
pub open spec fn sound(setting: Setting, s: Search) -> bool {
    &&& s.seen.no_duplicates()
    &&& forall|i: int| 0 <= i < s.seen.len() ==> ends(s.found).contains((#[trigger] s.seen[i]).node)
    &&& forall|i: int, j: int|
        #![trigger s.found[i], s.found[j]]
        0 <= i < j < s.found.len() ==> s.found[i].node.id != s.found[j].node.id
    &&& forall|i: int| 0 <= i < s.found.len() ==> in_graph(setting, *(#[trigger] s.found[i]).node)
    &&& forall|i: int| 0 <= i < s.queue.len() ==> item_sound(setting, #[trigger] s.queue[i])
    &&& forall|i: int, j: int|
        #![trigger s.found[i], s.found[j]]
        0 <= i <= j < s.found.len() ==> s.found[i].depth() <= s.found[j].depth()
    &&& forall|i: int, j: int|
        #![trigger s.queue[i], s.queue[j]]
        0 <= i <= j < s.queue.len() ==> s.queue[i].depth <= s.queue[j].depth
    &&& forall|i: int|
        0 <= i < s.queue.len() ==> (#[trigger] s.queue[i]).depth <= s.queue[0].depth + 1
    &&& forall|i: int|
        0 <= i < s.found.len() && s.queue.len() > 0 ==> (#[trigger] s.found[i]).depth()
            <= s.queue[0].depth
}

/// Whether `child` prolongs the path of `item` by one choice to a node of
/// the graph.
pub open spec fn follows(setting: Setting, item: Item, child: Item) -> bool {
    &&& child.depth == item.depth + 1
    &&& child.step.depth() == item.step.depth() + 1
    &&& in_graph(setting, *child.step.node)
}

/// Going through choices leaves the queue as it was and adds, behind it,
/// paths that prolong the path of `item` by one choice.
pub proof fn lemma_grow_shape(
    setting: Setting,
    item: Item,
    reached: Set<usize>,
    choices: Seq<Choice>,
    queue: Seq<Item>,
)
    ensures
        grow(setting, item, reached, choices, queue) matches Ok(grown) ==> {
            &&& queue.len() <= grown.len()
            &&& forall|i: int| 0 <= i < queue.len() ==> grown[i] == queue[i]
            &&& forall|i: int|
                queue.len() <= i < grown.len() ==> follows(setting, item, #[trigger] grown[i])
        },
    decreases choices.len(),
{
    if choices.len() > 0 {
        let rest = choices.drop_first();
        match branch(setting, item, reached, choices[0]) {
            Branch::Skip => {
                lemma_grow_shape(setting, item, reached, rest, queue);
            },
            Branch::Take(child) => {
                lemma_find_node(setting.nodes, choices[0].target);
                lemma_grow_shape(setting, item, reached, rest, queue.push(child));
                if let Ok(grown) = grow(setting, item, reached, choices, queue) {
                    assert(follows(setting, item, child));
                    assert forall|i: int| 0 <= i < queue.len() implies grown[i] == queue[i] by {
                        assert(queue.push(child)[i] == queue[i]);
                    }
                    assert forall|i: int| queue.len() <= i < grown.len() implies follows(
                        setting,
                        item,
                        #[trigger] grown[i],
                    ) by {
                        if i == queue.len() {
                            assert(grown[i] == queue.push(child)[i]);
                        }
                    }
                }
            },
            Branch::Fail(e) => {},
        }
    }
}

/// A search that begins is in order.
pub proof fn lemma_start_sound(setting: Setting, root: usize)
    ensures
        start(setting, root) matches Ok(begin) ==> sound(setting, begin),
{
    if let Ok(begin) = start(setting, root) {
        lemma_find_node(setting.nodes, root);
        assert(item_sound(setting, begin.queue[0]));
    }
}

/// A step of a search that is in order leaves it in order.
pub proof fn lemma_advance_sound(setting: Setting, s: Search)
    requires
        sound(setting, s),
        s.queue.len() > 0,
    ensures
        advance(setting, s) matches Ok(next) ==> sound(setting, next),
{
    let item = s.queue[0];
    let rest = s.queue.drop_first();
    let key = key_of(setting.decls, item.step.node.id, item.env);
    assert(item_sound(setting, item));
    assert forall|i: int| 0 <= i < rest.len() implies item_sound(setting, #[trigger] rest[i]) && rest[i].depth >= item.depth && rest[i].depth <= item.depth + 1 by {
        assert(rest[i] == s.queue[i + 1]);
    }
    if let Ok(next) = advance(setting, s) {
        if s.seen.contains(key) {
            assert(next.queue == rest);
            assert(sound(setting, next));
        } else {
            let fresh = !ends(s.found).contains(item.step.node.id);
            let found = if fresh {
                s.found.push(item.step)
            } else {
                s.found
            };
            assert(next.found == found);
            assert(next.seen == s.seen.push(key));
            if fresh {
                lemma_ends_push(s.found, item.step);
            }
            assert(next.seen.no_duplicates()) by {
                assert forall|i: int, j: int|
                    0 <= i < next.seen.len() && 0 <= j < next.seen.len() && i != j implies next.seen[i]
                    != next.seen[j] by {
                    if i < s.seen.len() && j < s.seen.len() {
                        assert(s.seen[i] != s.seen[j]);
                    } else if i < s.seen.len() {
                        assert(s.seen.contains(s.seen[i]));
                    } else {
                        assert(s.seen.contains(s.seen[j]));
                    }
                }
            }
            assert forall|i: int| 0 <= i < next.seen.len() implies ends(found).contains(
                (#[trigger] next.seen[i]).node,
            ) by {
                if i < s.seen.len() {
                    assert(ends(s.found).contains(s.seen[i].node));
                }
            }
            assert forall|i: int, j: int|
                #![trigger found[i], found[j]]
                0 <= i < j < found.len() implies found[i].node.id != found[j].node.id by {
                if j == s.found.len() {
                    assert(s.found[i].node.id != item.step.node.id);
                } else {
                    assert(s.found[i].node.id != s.found[j].node.id);
                }
            }
            assert forall|i: int| 0 <= i < found.len() implies in_graph(
                setting,
                *(#[trigger] found[i]).node,
            ) && found[i].depth() <= item.depth by {
                if i < s.found.len() {
                    assert(in_graph(setting, *s.found[i].node));
                    assert(s.found[i].depth() <= s.queue[0].depth);
                }
            }
            assert forall|i: int, j: int|
                #![trigger found[i], found[j]]
                0 <= i <= j < found.len() implies found[i].depth() <= found[j].depth() by {
                if j < s.found.len() {
                    assert(s.found[i].depth() <= s.found[j].depth());
                }
            }
            if next.queue.len() == 0 {
                assert(sound(setting, next));
            } else if next.queue == rest {
                assert(sound(setting, next));
            } else {
                let choices = item.step.node.config.choices();
                lemma_grow_shape(setting, item, ends(found), choices, rest);
                assert forall|i: int| 0 <= i < next.queue.len() implies item_sound(
                    setting,
                    #[trigger] next.queue[i],
                ) && item.depth <= next.queue[i].depth <= item.depth + 1 by {
                    if i < rest.len() {
                        assert(next.queue[i] == rest[i]);
                    } else {
                        assert(follows(setting, item, next.queue[i]));
                    }
                }
                assert forall|i: int, j: int|
                    #![trigger next.queue[i], next.queue[j]]
                    0 <= i <= j < next.queue.len() implies next.queue[i].depth
                    <= next.queue[j].depth by {
                    if j < rest.len() {
                        assert(next.queue[i] == rest[i]);
                        assert(next.queue[j] == rest[j]);
                        assert(s.queue[i + 1].depth <= s.queue[j + 1].depth);
                    } else {
                        assert(follows(setting, item, next.queue[j]));
                    }
                }
                assert(sound(setting, next));
            }
        }
    }
}

/// A search that is in order ends in order.
pub proof fn lemma_run_sound(setting: Setting, s: Search)
    requires
        sound(setting, s),
    ensures
        run(setting, s) matches Ok(end) ==> sound(setting, end) && end.queue.len() == 0,
    decreases load(setting, s.queue),
{
    if s.queue.len() > 0 {
        if let Ok(next) = advance(setting, s) {
            lemma_advance_lightens(setting, s);
            lemma_advance_sound(setting, s);
            lemma_run_sound(setting, next);
        }
    }
}


/// Whether one of the paths in the queue ends in the node `id`.
pub open spec fn queued(queue: Seq<Item>, id: usize) -> bool {
    exists|q: int| 0 <= q < queue.len() && (#[trigger] queue[q]).step.node.id == id
}

/// Whether an admitted choice leads from the node `from` to the node `to`,
/// both of them nodes of the graph.
pub open spec fn leads(setting: Setting, from: usize, to: usize) -> bool {
    &&& find_node(setting.nodes, from) matches Some(node)
    &&& exists|k: int|
        0 <= k < node.config.choices().len() && (setting.admits)(
            #[trigger] node.config.choices()[k],
        ) && node.config.choices()[k].target == to
    &&& find_node(setting.nodes, to) is Some
}

/// Whether `route` lists the nodes of a way through the graph that starts at
/// `root` and goes on by admitted choices.
pub open spec fn is_route(setting: Setting, root: usize, route: Seq<usize>) -> bool {
    &&& route.len() > 0
    &&& route[0] == root
    &&& find_node(setting.nodes, root) is Some
    &&& forall|i: int| 0 <= i < route.len() - 1 ==> leads(setting, #[trigger] route[i], route[i + 1])
}

/// Whether the node `id` can be reached from `root` by admitted choices.
pub open spec fn reachable(setting: Setting, root: usize, id: usize) -> bool {
    exists|route: Seq<usize>| #[trigger] is_route(setting, root, route) && route.last() == id
}

/// Whether every choice leads to a node of lower rank. A graph has such a
/// ranking if and only if no way through it comes back to where it was.
pub open spec fn descends(setting: Setting, rank: spec_fn(usize) -> nat) -> bool {
    forall|i: int, k: int|
        0 <= i < setting.nodes.len() && 0 <= k < setting.nodes[i].config.choices().len() ==> rank(
            (#[trigger] setting.nodes[i].config.choices()[k]).target,
        ) < rank(setting.nodes[i].id)
}

/// Whether every node of the graph has a path.
pub open spec fn covers_all(setting: Setting, found: Seq<Step>) -> bool {
    forall|id: usize| find_node(setting.nodes, id) is Some ==> ends(found).contains(id)
}

/// Whether a search has left nothing out so far: the root, and every node to
/// which an admitted choice of a node with a path leads, has a path or waits
/// in the queue; and no path in the queue is longer than the ranks allow.
pub open spec fn thorough(
    setting: Setting,
    root: usize,
    rank: spec_fn(usize) -> nat,
    s: Search,
) -> bool {
    ||| covers_all(setting, s.found)
    ||| {
        &&& forall|q: int|
            0 <= q < s.queue.len() ==> (#[trigger] s.queue[q]).depth + rank(
                s.queue[q].step.node.id,
            ) <= rank(root)
        &&& ends(s.found).contains(root) || queued(s.queue, root)
        &&& forall|i: int, k: int|
            0 <= i < s.found.len() && 0 <= k < s.found[i].node.config.choices().len() && (
            setting.admits)(#[trigger] s.found[i].node.config.choices()[k]) ==> {
                ||| ends(s.found).contains(s.found[i].node.config.choices()[k].target)
                ||| queued(s.queue, s.found[i].node.config.choices()[k].target)
            }
    }
}

/// Every path that going through choices adds ends where one of the choices
/// leads; and where conditions are not looked at, every admitted choice
/// either leads to a node already reached or adds a path.
pub proof fn lemma_grow_links(
    setting: Setting,
    item: Item,
    reached: Set<usize>,
    choices: Seq<Choice>,
    queue: Seq<Item>,
)
    ensures
        grow(setting, item, reached, choices, queue) matches Ok(grown) ==> {
            &&& forall|i: int|
                queue.len() <= i < grown.len() ==> exists|k: int|
                    0 <= k < choices.len() && (#[trigger] grown[i]).step.node.id == (
                    #[trigger] choices[k]).target
            &&& !setting.guards ==> forall|k: int|
                0 <= k < choices.len() && (setting.admits)(#[trigger] choices[k]) ==> {
                    ||| reached.contains(choices[k].target)
                    ||| exists|i: int|
                        queue.len() <= i < grown.len() && (#[trigger] grown[i]).step.node.id
                            == choices[k].target
                }
        },
    decreases choices.len(),
{
    if choices.len() > 0 {
        let rest = choices.drop_first();
        if let Ok(grown) = grow(setting, item, reached, choices, queue) {
            let longer = match branch(setting, item, reached, choices[0]) {
                Branch::Take(child) => queue.push(child),
                _ => queue,
            };
            lemma_grow_links(setting, item, reached, rest, longer);
            lemma_grow_shape(setting, item, reached, rest, longer);
            lemma_find_node(setting.nodes, choices[0].target);
            assert forall|i: int| queue.len() <= i < grown.len() implies exists|k: int|
                0 <= k < choices.len() && (#[trigger] grown[i]).step.node.id == (
                #[trigger] choices[k]).target by {
                if i < longer.len() {
                    assert(grown[i] == longer[i]);
                    assert(grown[i].step.node.id == choices[0].target);
                } else {
                    let k = choose|k: int|
                        0 <= k < rest.len() && grown[i].step.node.id == (#[trigger] rest[k]).target;
                    assert(rest[k] == choices[k + 1]);
                }
            }
            if !setting.guards {
                assert forall|k: int|
                    0 <= k < choices.len() && (setting.admits)(#[trigger] choices[k]) implies {
                    ||| reached.contains(choices[k].target)
                    ||| exists|i: int|
                        queue.len() <= i < grown.len() && (#[trigger] grown[i]).step.node.id
                            == choices[k].target
                } by {
                    if k == 0 {
                        if !reached.contains(choices[0].target) {
                            assert(longer.len() == queue.len() + 1);
                            assert(grown[queue.len() as int] == longer[queue.len() as int]);
                            assert(grown[queue.len() as int].step.node.id == choices[0].target);
                        }
                    } else {
                        assert(rest[k - 1] == choices[k]);
                        if !reached.contains(choices[k].target) {
                            let i = choose|i: int|
                                longer.len() <= i < grown.len() && (#[trigger] grown[i]).step.node.id
                                    == rest[k - 1].target;
                            assert(queue.len() <= i < grown.len() && grown[i].step.node.id
                                == choices[k].target);
                        }
                    }
                }
            }
        }
    }
}

/// Where there are as many paths as the graph has nodes, every node of the
/// graph has a path.
pub proof fn lemma_full_house(setting: Setting, s: Search)
    requires
        sound(setting, s),
        s.found.len() == setting.nodes.len(),
    ensures
        covers_all(setting, s.found),
{
    let found_ids = s.found.map_values(|step: Step| step.node.id);
    let graph_ids = setting.nodes.map_values(|node: Node| node.id);
    assert(found_ids.no_duplicates()) by {
        assert forall|i: int, j: int|
            0 <= i < found_ids.len() && 0 <= j < found_ids.len() && i != j implies found_ids[i]
            != found_ids[j] by {
            if i < j {
                assert(s.found[i].node.id != s.found[j].node.id);
            } else {
                assert(s.found[j].node.id != s.found[i].node.id);
            }
        }
    }
    found_ids.unique_seq_to_set();
    graph_ids.lemma_cardinality_of_set();
    assert(found_ids.to_set().subset_of(graph_ids.to_set())) by {
        assert forall|id: usize| found_ids.to_set().contains(id) implies graph_ids.to_set().contains(
            id,
        ) by {
            let i = choose|i: int| 0 <= i < found_ids.len() && found_ids[i] == id;
            assert(in_graph(setting, *s.found[i].node));
            lemma_find_node(setting.nodes, id);
            let node = *s.found[i].node;
            let g = choose|g: int| 0 <= g < setting.nodes.len() && setting.nodes[g] == node;
            assert(graph_ids[g] == id);
        }
    }
    vstd::set_lib::lemma_len_subset(found_ids.to_set(), graph_ids.to_set());
    vstd::set_lib::lemma_subset_equality(found_ids.to_set(), graph_ids.to_set());
    assert forall|id: usize| find_node(setting.nodes, id) is Some implies ends(s.found).contains(
        id,
    ) by {
        lemma_find_node(setting.nodes, id);
        let node = find_node(setting.nodes, id)->0;
        let g = choose|g: int| 0 <= g < setting.nodes.len() && setting.nodes[g] == node;
        assert(graph_ids[g] == id);
        assert(graph_ids.to_set().contains(id));
        assert(found_ids.to_set().contains(id));
        let i = choose|i: int| 0 <= i < found_ids.len() && found_ids[i] == id;
        assert(s.found[i].node.id == id);
    }
}


/// A step of a search that has left nothing out leaves nothing out, where
/// conditions are not looked at and the ranks keep every path short of the
/// greatest depth.
pub proof fn lemma_advance_thorough(
    setting: Setting,
    root: usize,
    rank: spec_fn(usize) -> nat,
    s: Search,
)
    requires
        !setting.guards,
        descends(setting, rank),
        rank(root) < setting.maxd,
        sound(setting, s),
        thorough(setting, root, rank, s),
        s.queue.len() > 0,
    ensures
        advance(setting, s) matches Ok(next) ==> thorough(setting, root, rank, next),
{
    let item = s.queue[0];
    let rest = s.queue.drop_first();
    let key = key_of(setting.decls, item.step.node.id, item.env);
    if let Ok(next) = advance(setting, s) {
        lemma_advance_sound(setting, s);
        let fresh = !s.seen.contains(key) && !ends(s.found).contains(item.step.node.id);
        if fresh {
            lemma_ends_push(s.found, item.step);
        }
        assert forall|id: usize| ends(s.found).contains(id) implies ends(next.found).contains(
            id,
        ) by {}
        if covers_all(setting, s.found) {
            assert(covers_all(setting, next.found));
        } else if !s.seen.contains(key) && fresh && next.found.len() == setting.nodes.len() {
            lemma_full_house(setting, next);
        } else {
            // The node of the head has a path now, whatever became of the head.
            assert(ends(next.found).contains(item.step.node.id)) by {
                if s.seen.contains(key) {
                    let i = choose|i: int| 0 <= i < s.seen.len() && s.seen[i] == key;
                    assert(ends(s.found).contains(s.seen[i].node));
                }
            }
            assert(item_sound(setting, item));
            assert(item.depth + rank(item.step.node.id) <= rank(root));
            assert(item.depth < setting.maxd);
            let choices = item.step.node.config.choices();
            let grown = !s.seen.contains(key);
            if grown {
                lemma_grow_shape(setting, item, ends(next.found), choices, rest);
                lemma_grow_links(setting, item, ends(next.found), choices, rest);
            }
            assert(rest.len() <= next.queue.len());
            assert forall|q: int| 0 <= q < rest.len() implies next.queue[q] == s.queue[q + 1] by {
                assert(rest[q] == s.queue[q + 1]);
            }
            // What waited in the queue has a path or still waits.
            assert forall|id: usize| queued(s.queue, id) implies ends(next.found).contains(id)
                || queued(next.queue, id) by {
                let q = choose|q: int|
                    0 <= q < s.queue.len() && (#[trigger] s.queue[q]).step.node.id == id;
                if q > 0 {
                    assert(next.queue[q - 1].step.node.id == id);
                }
            }
            assert forall|q: int| 0 <= q < next.queue.len() implies (
            #[trigger] next.queue[q]).depth + rank(next.queue[q].step.node.id) <= rank(root) by {
                if q < rest.len() {
                    assert(s.queue[q + 1].depth + rank(s.queue[q + 1].step.node.id) <= rank(root));
                } else {
                    let child = next.queue[q];
                    assert(follows(setting, item, child));
                    let k = choose|k: int|
                        0 <= k < choices.len() && child.step.node.id == (
                        #[trigger] choices[k]).target;
                    lemma_find_node(setting.nodes, item.step.node.id);
                    let node = *item.step.node;
                    let g = choose|g: int| 0 <= g < setting.nodes.len() && setting.nodes[g] == node;
                    assert(rank(setting.nodes[g].config.choices()[k].target) < rank(
                        setting.nodes[g].id,
                    ));
                }
            }
            assert forall|i: int, k: int|
                0 <= i < next.found.len() && 0 <= k < next.found[i].node.config.choices().len() && (
                setting.admits)(#[trigger] next.found[i].node.config.choices()[k]) implies {
                ||| ends(next.found).contains(next.found[i].node.config.choices()[k].target)
                ||| queued(next.queue, next.found[i].node.config.choices()[k].target)
            } by {
                let target = next.found[i].node.config.choices()[k].target;
                if i < s.found.len() {
                    assert(next.found[i] == s.found[i]);
                    assert(ends(s.found).contains(target) || queued(s.queue, target));
                } else {
                    assert(next.found[i] == item.step);
                    assert(choices[k] == next.found[i].node.config.choices()[k]);
                    if !ends(next.found).contains(target) {
                        let q = choose|q: int|
                            rest.len() <= q < next.queue.len() && (
                            #[trigger] next.queue[q]).step.node.id == choices[k].target;
                        assert(queued(next.queue, target));
                    }
                }
            }
            assert(ends(next.found).contains(root) || queued(next.queue, root));
        }
    }
}

/// A search that has left nothing out ends with nothing left out.
pub proof fn lemma_run_thorough(
    setting: Setting,
    root: usize,
    rank: spec_fn(usize) -> nat,
    s: Search,
)
    requires
        !setting.guards,
        descends(setting, rank),
        rank(root) < setting.maxd,
        sound(setting, s),
        thorough(setting, root, rank, s),
    ensures
        run(setting, s) matches Ok(end) ==> {
            &&& sound(setting, end)
            &&& thorough(setting, root, rank, end)
            &&& end.queue.len() == 0
        },
    decreases load(setting, s.queue),
{
    if s.queue.len() > 0 {
        if let Ok(next) = advance(setting, s) {
            lemma_advance_lightens(setting, s);
            lemma_advance_sound(setting, s);
            lemma_advance_thorough(setting, root, rank, s);
            lemma_run_thorough(setting, root, rank, next);
        }
    }
}

/// Where nothing waits and nothing was left out, every node on a route has a
/// path.
proof fn lemma_route_found(
    setting: Setting,
    root: usize,
    rank: spec_fn(usize) -> nat,
    end: Search,
    route: Seq<usize>,
    upto: int,
)
    requires
        sound(setting, end),
        thorough(setting, root, rank, end),
        end.queue.len() == 0,
        is_route(setting, root, route),
        0 <= upto < route.len(),
    ensures
        ends(end.found).contains(route[upto]),
    decreases upto,
{
    if upto == 0 {
    } else {
        lemma_route_found(setting, root, rank, end, route, upto - 1);
        assert(leads(setting, route[upto - 1], route[upto - 1 + 1]));
        if !covers_all(setting, end.found) {
            let from = route[upto - 1];
            let i = choose|i: int|
                0 <= i < end.found.len() && (#[trigger] end.found[i]).node.id == from;
            assert(in_graph(setting, *end.found[i].node));
            let node = *end.found[i].node;
            let k = choose|k: int|
                0 <= k < node.config.choices().len() && (setting.admits)(
                    #[trigger] node.config.choices()[k],
                ) && node.config.choices()[k].target == route[upto];
            assert((setting.admits)(end.found[i].node.config.choices()[k]));
        }
    }
}


/// No state is looked at twice in one search: the keys of the states that a
/// search has looked at when it ends are all different.
pub proof fn theorem_no_state_twice(setting: Setting, root: usize)
    ensures
        start(setting, root) matches Ok(begin) ==> (run(setting, begin) matches Ok(end)
            ==> end.seen.no_duplicates()),
{
    if let Ok(begin) = start(setting, root) {
        lemma_start_sound(setting, root);
        lemma_run_sound(setting, begin);
    }
}

/// A search finds one path at most to a node, every path ends in a node of
/// the graph, and no path has fewer choices than one found before it.
pub proof fn theorem_paths_in_order(setting: Setting, root: usize)
    ensures
        search(setting, root) matches Ok(found) ==> {
            &&& forall|i: int, j: int|
                #![trigger found[i], found[j]]
                0 <= i < j < found.len() ==> found[i].node.id != found[j].node.id
            &&& forall|i: int|
                0 <= i < found.len() ==> in_graph(setting, *(#[trigger] found[i]).node)
            &&& forall|i: int, j: int|
                #![trigger found[i], found[j]]
                0 <= i <= j < found.len() ==> found[i].depth() <= found[j].depth()
        },
{
    if let Ok(begin) = start(setting, root) {
        lemma_start_sound(setting, root);
        lemma_run_sound(setting, begin);
    }
}

/// A search that does not look at conditions, in a graph whose choices all
/// lead to nodes of lower rank, with a greatest depth beyond the rank of the
/// root, finds a path to every node that can be reached from the root by
/// admitted choices.
pub proof fn theorem_every_node_found(
    setting: Setting,
    root: usize,
    rank: spec_fn(usize) -> nat,
    id: usize,
)
    requires
        !setting.guards,
        descends(setting, rank),
        rank(root) < setting.maxd,
        reachable(setting, root, id),
    ensures
        search(setting, root) matches Ok(found) ==> ends(found).contains(id),
{
    if let Ok(begin) = start(setting, root) {
        lemma_start_sound(setting, root);
        lemma_find_node(setting.nodes, root);
        assert(begin.queue[0].step.node.id == root);
        assert(queued(begin.queue, root));
        assert(thorough(setting, root, rank, begin));
        lemma_run_thorough(setting, root, rank, begin);
        if let Ok(end) = run(setting, begin) {
            let route = choose|route: Seq<usize>| #[trigger]
                is_route(setting, root, route) && route.last() == id;
            lemma_route_found(setting, root, rank, end, route, route.len() - 1);
        }
    }
}

/// At or beyond the cut depth a choice that leads to a node already reached
/// is never taken, whatever the state. Before the cut depth, what becomes of
/// a choice does not depend on the nodes that were reached.
pub proof fn theorem_cut_depth(
    setting: Setting,
    item: Item,
    reached: Set<usize>,
    other: Set<usize>,
    choice: Choice,
)
    ensures
        item.depth >= setting.cutd && reached.contains(choice.target) ==> branch(
            setting,
            item,
            reached,
            choice,
        ) is Skip,
        item.depth < setting.cutd ==> branch(setting, item, reached, choice) == branch(
            setting,
            item,
            other,
            choice,
        ),
{
}


/// Going through choices that all lead to nodes of the graph is never given
/// up for a node that the graph does not hold.
pub proof fn lemma_grow_whole(
    setting: Setting,
    item: Item,
    reached: Set<usize>,
    choices: Seq<Choice>,
    queue: Seq<Item>,
)
    requires
        forall|k: int| 0 <= k < choices.len() ==> holds_id(setting.nodes, (#[trigger] choices[k]).target),
    ensures
        !(grow(setting, item, reached, choices, queue) matches Err(ErrorView::NodeNotFound(_))),
    decreases choices.len(),
{
    if choices.len() > 0 {
        let rest = choices.drop_first();
        assert forall|k: int| 0 <= k < rest.len() implies holds_id(
            setting.nodes,
            (#[trigger] rest[k]).target,
        ) by {
            assert(rest[k] == choices[k + 1]);
        }
        assert(holds_id(setting.nodes, choices[0].target));
        lemma_find_node(setting.nodes, choices[0].target);
        lemma_only_variables_fail(item.env, choices[0].conditions@, choices[0].changes@);
        match branch(setting, item, reached, choices[0]) {
            Branch::Skip => {
                lemma_grow_whole(setting, item, reached, rest, queue);
            },
            Branch::Take(child) => {
                lemma_grow_whole(setting, item, reached, rest, queue.push(child));
            },
            Branch::Fail(e) => {},
        }
    }
}

/// A search that is in order, in a graph whose choices all lead to nodes of
/// the graph, is never given up for a node that the graph does not hold.
pub proof fn lemma_run_whole(setting: Setting, s: Search)
    requires
        sound(setting, s),
        leads_within(setting.nodes, setting.nodes),
    ensures
        !(run(setting, s) matches Err(ErrorView::NodeNotFound(_))),
    decreases load(setting, s.queue),
{
    if s.queue.len() > 0 {
        let item = s.queue[0];
        assert(item_sound(setting, item));
        lemma_find_node(setting.nodes, item.step.node.id);
        let node = *item.step.node;
        let g = choose|g: int| 0 <= g < setting.nodes.len() && setting.nodes[g] == node;
        let choices = node.config.choices();
        assert forall|k: int| 0 <= k < choices.len() implies holds_id(
            setting.nodes,
            (#[trigger] choices[k]).target,
        ) by {
            assert(choices[k] == setting.nodes[g].config.choices()[k]);
        }
        let rest = s.queue.drop_first();
        let found = if !ends(s.found).contains(item.step.node.id) {
            s.found.push(item.step)
        } else {
            s.found
        };
        lemma_grow_whole(setting, item, ends(found), choices, rest);
        if let Ok(next) = advance(setting, s) {
            lemma_advance_lightens(setting, s);
            lemma_advance_sound(setting, s);
            lemma_run_whole(setting, next);
        }
    }
}

/// In a graph that holds its root and every node to which one of its choices
/// leads, no search is given up for a node that the graph does not hold.
pub proof fn theorem_whole_graph(setting: Setting, root: usize)
    requires
        holds_id(setting.nodes, root),
        leads_within(setting.nodes, setting.nodes),
    ensures
        !(search(setting, root) matches Err(ErrorView::NodeNotFound(_))),
{
    lemma_find_node(setting.nodes, root);
    if let Ok(begin) = start(setting, root) {
        lemma_start_sound(setting, root);
        lemma_run_whole(setting, begin);
    }
}

} // verus!
