//! The walk through the graph of a video: which edge to ask for next, and
//! what to do with the answer.
//!
//! The walk is depth first. It asks for every node once, however many choices
//! lead to it, and it is over when no choice leads to a node that was not
//! asked for.

use std::collections::HashSet;
use vstd::prelude::*;
use crate::fetch::graph::{blocks_defect, config_renders, Edge, Error};
use crate::model::{distinct_nodes, holds_id, Choice, Graph, Node, NodeConfig};
use crate::utils::Progress;

verus! {

/// A node to ask for, and the edge by which to ask for it.
#[derive(Debug, Clone, Copy, PartialEq, Eq, Structural)]
pub struct Target {
    /// The id of the node.
    pub cid: usize,
    /// The id of the edge.
    pub eid: usize,
}

/// The nodes to which the choices lead, with the edges that lead there.
pub open spec fn edges_of(choices: Seq<Choice>) -> Seq<Target> {
    choices.map_values(|choice: Choice| Target { cid: choice.target, eid: choice.id })
}

impl NodeConfig {
    /// The nodes to which the choices lead, with the edges that lead there;
    /// none for an ending.
    pub fn list_edges(&self) -> (edges: Vec<Target>)
        ensures
            edges@ == edges_of(self.choices()),
    {
        let mut edges: Vec<Target> = Vec::new();
        match self {
            NodeConfig::Choice { choices, .. } => {
                let mut i: usize = 0;
                while i < choices.len()
                    invariant
                        i <= choices.len(),
                        edges@ == edges_of(choices@.take(i as int)),
                    decreases choices.len() - i,
                {
                    edges.push(Target { cid: choices[i].target, eid: choices[i].id });
                    assert(edges_of(choices@.take(i + 1)) =~= edges_of(
                        choices@.take(i as int),
                    ).push(Target { cid: choices@[i as int].target, eid: choices@[i as int].id }));
                    i = i + 1;
                }
                assert(choices@.take(i as int) =~= choices@);
            },
            NodeConfig::Leaf => {},
        }
        edges
    }
}

impl Node {
    /// The nodes to which the choices of the node lead, with the edges that
    /// lead there.
    pub fn list_edges(&self) -> (edges: Vec<Target>)
        ensures
            edges@ == edges_of(self.config.choices()),
    {
        self.config.list_edges()
    }
}

/// Whether one of the targets is the node `cid`.
pub open spec fn awaits(stack: Seq<Target>, cid: usize) -> bool {
    exists|j: int| 0 <= j < stack.len() && (#[trigger] stack[j]).cid == cid
}

/// A walk through the graph of a video.
#[derive(Debug)]
pub struct Crawl {
    /// The id of the node at which the video starts.
    pub root: usize,
    /// The ids of the nodes that were asked for.
    pub visit: HashSet<usize>,
    /// The nodes that were answered, in that order.
    pub nodes: Vec<Node>,
    /// The nodes that are still to be asked for, the next one last.
    pub stack: Vec<Target>,
    /// The node that was asked for and is not answered yet.
    pub pending: Option<Target>,
}

impl Crawl {
    /// Whether the node `cid` was asked for, or is still to be.
    pub open spec fn knows(&self, cid: usize) -> bool {
        self.visit@.contains(cid) || awaits(self.stack@, cid)
    }

    /// Whether the walk is in order: the nodes asked for are those answered
    /// and the pending one; no node was answered twice; and the root and
    /// every node to which a choice leads were asked for, or are still to be.
    pub open spec fn wf(&self) -> bool {
        &&& forall|id: usize|
            self.visit@.contains(id) <==> (holds_id(self.nodes@, id) || (self.pending matches Some(
                target,
            ) && target.cid == id))
        &&& self.pending matches Some(target) ==> !holds_id(self.nodes@, target.cid)
        &&& distinct_nodes(self.nodes@)
        &&& self.knows(self.root)
        &&& forall|i: int, k: int|
            0 <= i < self.nodes@.len() && 0 <= k < self.nodes@[i].config.choices().len()
                ==> self.knows((#[trigger] self.nodes@[i].config.choices()[k]).target)
    }

    /// Whether `next` is the walk after it was asked for the next node, and
    /// `r` the answer: the last of the nodes still to be asked for that was
    /// not asked for before. It is pending then, and it and those behind it
    /// are no longer to be asked for. Without such a node, nothing is left.
    pub open spec fn moves_on(&self, next: Crawl, r: Option<Target>) -> bool {
        &&& next.root == self.root
        &&& next.nodes == self.nodes
        &&& next.pending == r
        &&& next.stack@.is_prefix_of(self.stack@)
        &&& match r {
            Some(target) => {
                &&& next.stack@.len() < self.stack@.len()
                &&& self.stack@[next.stack@.len() as int] == target
                &&& !self.visit@.contains(target.cid)
                &&& next.visit@ == self.visit@.insert(target.cid)
            },
            None => next.stack@.len() == 0 && next.visit@ == self.visit@,
        }
        &&& forall|j: int|
            next.stack@.len() + (if r is Some {
                1int
            } else {
                0int
            }) <= j < self.stack@.len() ==> self.visit@.contains((#[trigger] self.stack@[j]).cid)
    }

    /// Whether `next` is the walk after it was given `edge` as the answer for
    /// its pending node, and `r` the outcome. Where a node can be made of
    /// the answer, it is kept behind the others, and the nodes to which its
    /// choices lead are to be asked for. Else the walk is as it was.
    pub open spec fn takes(&self, edge: Edge, next: Crawl, r: Result<(), Error>) -> bool {
        &&& next.root == self.root
        &&& match r {
            Ok(()) => {
                &&& next.pending is None
                &&& next.visit@ == self.visit@
                &&& next.nodes@.len() == self.nodes@.len() + 1
                &&& next.nodes@.drop_last() == self.nodes@
                &&& next.nodes@.last().id == self.pending->0.cid
                &&& next.nodes@.last().name == edge.name
                &&& if edge.leaf {
                    next.nodes@.last().config is Leaf
                } else {
                    blocks_defect(edge.config) is None && config_renders(
                        edge.config.choices@[0],
                        next.nodes@.last().config,
                    )
                }
                &&& next.stack@ == self.stack@ + edges_of(next.nodes@.last().config.choices())
            },
            Err(e) => {
                &&& next == *self
                &&& !edge.leaf
                &&& blocks_defect(edge.config) == Some(e.deep_view())
            },
        }
    }

    /// A walk that starts at the node `root`, by the edge `root_eid`.
    pub fn new(root: usize, root_eid: usize) -> (crawl: Crawl)
        ensures
            crawl.wf(),
            crawl.root == root,
            crawl.nodes@.len() == 0,
            crawl.stack@ == seq![Target { cid: root, eid: root_eid }],
            crawl.pending is None,
    {
        let mut stack: Vec<Target> = Vec::new();
        stack.push(Target { cid: root, eid: root_eid });
        let crawl = Crawl { root, visit: HashSet::new(), nodes: Vec::new(), stack, pending: None };
        assert(crawl.stack@[0].cid == root);
        crawl
    }

    /// The node to ask for next, if any is left: the last of those still to
    /// be asked for that was not asked for before. Those that were are
    /// dropped.
    pub fn next(&mut self) -> (r: Option<Target>)
        requires
            old(self).wf(),
            old(self).pending is None,
        ensures
            final(self).wf(),
            old(self).moves_on(*final(self), r),
    {
        loop
            invariant
                self.wf(),
                self.pending is None,
                self.root == old(self).root,
                self.nodes == old(self).nodes,
                self.visit@ =~= old(self).visit@,
                self.stack@.len() <= old(self).stack@.len(),
                self.stack@.is_prefix_of(old(self).stack@),
                forall|j: int|
                    self.stack@.len() <= j < old(self).stack@.len() ==> old(self).visit@.contains(
                        (#[trigger] old(self).stack@[j]).cid,
                    ),
            decreases self.stack@.len(),
        {
            let ghost before = *self;
            match self.stack.pop() {
                None => {
                    return None;
                },
                Some(target) => {
                    proof {
                        assert forall|cid: usize| before.knows(cid) implies self.knows(cid)
                            || cid == target.cid by {
                            if awaits(before.stack@, cid) {
                                let j = choose|j: int|
                                    0 <= j < before.stack@.len() && (
                                    #[trigger] before.stack@[j]).cid == cid;
                                if j < self.stack@.len() {
                                    assert(self.stack@[j].cid == cid);
                                }
                            }
                        }
                    }
                    let ghost seen = self.visit@;
                    if self.visit.insert(target.cid) {
                        self.pending = Some(target);
                        return Some(target);
                    }
                    assert(self.visit@ =~= seen);
                },
            }
        }
    }

    /// Takes the answer for the pending node: makes the node of it, notes the
    /// nodes to which its choices lead as still to be asked for, and keeps
    /// the node. Where no node can be made, the walk is left as it was.
    pub fn accept(&mut self, edge: Edge) -> (r: Result<(), Error>)
        requires
            old(self).wf(),
            old(self).pending is Some,
        ensures
            r is Ok ==> final(self).wf(),
            old(self).takes(edge, *final(self), r),
    {
        let target: Target = self.pending.unwrap();
        let node = match edge.into_node(target.cid) {
            Ok(node) => node,
            Err(e) => {
                return Err(e);
            },
        };
        let mut edges = node.list_edges();
        let ghost before = *self;
        let ghost added = edges@;
        self.stack.append(&mut edges);
        self.nodes.push(node);
        self.pending = None;
        proof {
            assert(self.nodes@.drop_last() =~= before.nodes@);
            assert forall|cid: usize| before.knows(cid) implies self.knows(cid) by {
                if awaits(before.stack@, cid) {
                    let j = choose|j: int|
                        0 <= j < before.stack@.len() && (#[trigger] before.stack@[j]).cid == cid;
                    assert(self.stack@[j].cid == cid);
                }
            }
            assert forall|id: usize|
                self.visit@.contains(id) <==> holds_id(self.nodes@, id) by {
                if holds_id(before.nodes@, id) {
                    let i = choose|i: int|
                        0 <= i < before.nodes@.len() && (#[trigger] before.nodes@[i]).id == id;
                    assert(self.nodes@[i].id == id);
                }
                if id == target.cid {
                    assert(self.nodes@[before.nodes@.len() as int].id == id);
                }
                if holds_id(self.nodes@, id) {
                    let i = choose|i: int|
                        0 <= i < self.nodes@.len() && (#[trigger] self.nodes@[i]).id == id;
                    if i < before.nodes@.len() {
                        assert(before.nodes@[i].id == id);
                    }
                }
            }
            assert forall|i: int, j: int| 0 <= i < j < self.nodes@.len() implies self.nodes@[i].id
                != self.nodes@[j].id by {
                if j == before.nodes@.len() {
                    assert(before.nodes@[i].id == self.nodes@[i].id);
                } else {
                    assert(before.nodes@[i].id != before.nodes@[j].id);
                }
            }
            assert forall|i: int, k: int|
                0 <= i < self.nodes@.len() && 0 <= k < self.nodes@[i].config.choices().len()
                    implies self.knows((#[trigger] self.nodes@[i].config.choices()[k]).target) by {
                if i < before.nodes@.len() {
                    assert(before.knows(before.nodes@[i].config.choices()[k].target));
                } else {
                    assert(added[k].cid == self.nodes@[i].config.choices()[k].target);
                    assert(self.stack@[before.stack@.len() + k] == added[k]);
                }
            }
        }
        Ok(())
    }

    /// How far the walk has come: the number of nodes answered, and the last
    /// of them. How many there will be is not known.
    pub fn progress(&self) -> (r: Option<Progress>)
        ensures
            match r {
                Some(progress) => {
                    &&& self.nodes@.len() > 0
                    &&& progress.current == self.nodes@.len()
                    &&& progress.total == usize::MAX
                    &&& progress.id == self.nodes@.last().id
                    &&& progress.name == self.nodes@.last().name
                },
                None => self.nodes@.len() == 0,
            },
    {
        let n: usize = self.nodes.len();
        if n == 0 {
            None
        } else {
            let node = &self.nodes[n - 1];
            Some(Progress { current: n, total: usize::MAX, id: node.id, name: node.name.clone() })
        }
    }

    /// The graph that the walk found, once no node is left to ask for.
    pub fn finish(self) -> (graph: Graph)
        requires
            self.wf(),
            self.pending is None,
            self.stack@.len() == 0,
        ensures
            graph.root == self.root,
            graph.nodes == self.nodes,
            graph.closed(),
    {
        let graph = Graph { root: self.root, nodes: self.nodes };
        proof {
            assert forall|i: int, k: int|
                0 <= i < graph.nodes@.len() && 0 <= k < graph.nodes@[i].config.choices().len()
                    implies holds_id(
                graph.nodes@,
                (#[trigger] graph.nodes@[i].config.choices()[k]).target,
            ) by {
                assert(self.knows(self.nodes@[i].config.choices()[k].target));
            }
        }
        graph
    }
}

} // verus!
