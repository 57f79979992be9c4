//! Paths through the graph, held back to front: every step knows the step
//! before it, and paths that begin alike share their beginning.

use std::rc::Rc;
use vstd::prelude::*;
use vstd::std_specs::convert::FromSpecImpl;
use crate::model::{Choice, Node};

verus! {

/// The link from a step to the step before it.
#[derive(Debug, Clone)]
pub struct StepNext<'a> {
    /// The step before.
    pub next: Rc<Step<'a>>,
    /// The choice that was taken there.
    pub choice: &'a Choice,
}

/// The last step of a path: a node, and how it was reached.
///
/// The first step of a path is the one without a link.
#[derive(Debug, Clone)]
pub struct Step<'a> {
    pub next: Option<StepNext<'a>>,
    pub node: &'a Node,
}

/// Another handle on the same step.
///
/// Stands for `Rc::clone`, which hands out a pointer to the same allocation:
/// the two handles point to one and the same value.
#[verifier::external_body]
pub(crate) fn share<'a>(step: &Rc<Step<'a>>) -> (other: Rc<Step<'a>>)
    ensures
        other == *step,
{
    Rc::clone(step)
}

impl<'a> Step<'a> {
    /// The number of choices on the path.
    pub open spec fn depth(&self) -> nat
        decreases self,
    {
        match self.next {
            Some(link) => 1 + link.next.depth(),
            None => 0,
        }
    }

    /// The steps of the path, from this one back to the first.
    pub open spec fn trail(&self) -> Seq<Step<'a>>
        decreases self,
    {
        match self.next {
            Some(link) => seq![*self] + link.next.trail(),
            None => seq![*self],
        }
    }

    /// A path that consists of `node` alone.
    pub fn new(node: &'a Node) -> (step: Step<'a>)
        ensures
            step.next is None,
            step.node == node,
    {
        Step { next: None, node }
    }

    /// The path `next`, prolonged by `choice` to `node`.
    pub fn new_linked(node: &'a Node, choice: &'a Choice, next: Rc<Step<'a>>) -> (step: Step<'a>)
        ensures
            step == (Step { next: Some(StepNext { next, choice }), node }),
    {
        Step { next: Some(StepNext { next, choice }), node }
    }

    /// The node at which the path ends.
    pub fn node(&self) -> (node: &'a Node)
        ensures
            node == self.node,
    {
        self.node
    }

    /// The choice by which the path came to its last node; none for a path
    /// of one node.
    pub fn choice(&self) -> (choice: Option<&'a Choice>)
        ensures
            choice == match self.next {
                Some(link) => Some(link.choice),
                None => None,
            },
    {
        match &self.next {
            Some(link) => Some(link.choice),
            None => None,
        }
    }

    /// Walks the path from this step back to the first.
    pub fn iter(self: &Rc<Self>) -> (iter: StepIter<'a>)
        ensures
            iter == (StepIter { step: Some(*self) }),
            iter.remaining() == self.trail(),
    {
        StepIter { step: Some(share(self)) }
    }

    /// Walks the path from this step back to the first.
    pub fn into_iter(self: Rc<Self>) -> (iter: StepIter<'a>)
        ensures
            iter == (StepIter { step: Some(self) }),
            iter.remaining() == self.trail(),
    {
        StepIter { step: Some(self) }
    }
}

/// What is written down of a step: the id and the name of its node, and the
/// id and the name of the choice that led there, if one did.
#[derive(Debug, Clone, Copy, PartialEq, Eq)]
pub struct StepData<'a> {
    pub id: usize,
    pub name: &'a str,
    pub edge: Option<usize>,
    pub choice: Option<&'a str>,
}

/// A `StepData` with its names as sequences of characters.
pub struct StepDataView {
    pub id: usize,
    pub name: Seq<char>,
    pub edge: Option<usize>,
    pub choice: Option<Seq<char>>,
}

impl<'a> DeepView for StepData<'a> {
    type V = StepDataView;

    open spec fn deep_view(&self) -> StepDataView {
        StepDataView {
            id: self.id,
            name: self.name@,
            edge: self.edge,
            choice: match self.choice {
                Some(name) => Some(name@),
                None => None,
            },
        }
    }
}

/// What is written down of `step`.
pub open spec fn data_of(step: Step) -> StepDataView {
    StepDataView {
        id: step.node.id,
        name: step.node.name@,
        edge: match step.next {
            Some(link) => Some(link.choice.id),
            None => None,
        },
        choice: match step.next {
            Some(link) => Some(link.choice.name@),
            None => None,
        },
    }
}

impl<'a, 'b> From<&'b Step<'a>> for StepData<'a> {
    fn from(value: &'b Step<'a>) -> (data: StepData<'a>)
        ensures
            data.deep_view() == data_of(*value),
    {
        let node: &'a Node = value.node;
        match &value.next {
            Some(link) => {
                let choice: &'a Choice = link.choice;
                StepData {
                    id: node.id,
                    name: node.name.as_str(),
                    edge: Some(choice.id),
                    choice: Some(choice.name.as_str()),
                }
            },
            None => StepData { id: node.id, name: node.name.as_str(), edge: None, choice: None },
        }
    }
}

impl<'a, 'b> FromSpecImpl<&'b Step<'a>> for StepData<'a> {
    open spec fn obeys_from_spec() -> bool {
        false
    }

    open spec fn from_spec(value: &'b Step<'a>) -> StepData<'a> {
        arbitrary()
    }
}

impl<'a> Step<'a> {
    /// What is written down of the path: of every step, from this one back
    /// to the first.
    pub fn records(&self) -> (records: Vec<StepData<'a>>)
        ensures
            records.deep_view() == self.trail().map_values(|step: Step<'a>| data_of(step)),
    {
        let mut records: Vec<StepData<'a>> = Vec::new();
        let mut step: &Step<'a> = self;
        let ghost all = self.trail();
        let ghost wanted = all.map_values(|step: Step<'a>| data_of(step));
        proof {
            lemma_trail_head(self);
            assert(all.skip(0) =~= all);
            assert(records.deep_view() =~= wanted.take(0));
        }
        loop
            invariant_except_break
                records@.len() + step.trail().len() == all.len(),
                all.skip(records@.len() as int) == step.trail(),
                records.deep_view() == wanted.take(records@.len() as int),
            invariant
                all == self.trail(),
                wanted == all.map_values(|step: Step<'a>| data_of(step)),
            ensures
                records.deep_view() == wanted,
                wanted == self.trail().map_values(|step: Step<'a>| data_of(step)),
            decreases step.depth(),
        {
            let ghost done = records@.len() as int;
            let ghost before = records.deep_view();
            proof {
                lemma_trail_head(step);
                assert(all[done] == all.skip(done)[0]);
                assert(all.skip(done + 1) =~= all.skip(done).drop_first());
            }
            let data = StepData::from(step);
            records.push(data);
            proof {
                assert(records.deep_view() =~= before.push(data.deep_view()));
                assert(wanted.take(done + 1) =~= wanted.take(done).push(wanted[done]));
            }
            match &step.next {
                Some(link) => {
                    step = &link.next;
                },
                None => {
                    assert(wanted.take(done + 1) =~= wanted);
                    break ;
                },
            }
        }
        records
    }
}

/// A walk along a path, from its last step back to its first.
#[derive(Debug, Clone)]
pub struct StepIter<'a> {
    pub step: Option<Rc<Step<'a>>>,
}

impl<'a> StepIter<'a> {
    /// The steps that are still to come.
    pub open spec fn remaining(&self) -> Seq<Step<'a>> {
        match self.step {
            Some(step) => step.trail(),
            None => Seq::empty(),
        }
    }

    /// The next step, if any is left.
    pub fn next(&mut self) -> (step: Option<Rc<Step<'a>>>)
        ensures
            old(self).remaining().len() == 0 ==> step is None && final(self).remaining().len() == 0,
            old(self).remaining().len() > 0 ==> step is Some && *step->0 == old(
                self,
            ).remaining()[0] && final(self).remaining() == old(self).remaining().drop_first(),
    {
        match self.step.take() {
            None => None,
            Some(step) => {
                proof {
                    lemma_trail_head(&*step);
                }
                self.step =
                match &step.next {
                    Some(link) => Some(share(&link.next)),
                    None => None,
                };
                Some(step)
            },
        }
    }
}

impl<'a> From<Rc<Step<'a>>> for StepIter<'a> {
    fn from(value: Rc<Step<'a>>) -> (iter: StepIter<'a>) {
        value.into_iter()
    }
}

impl<'a> FromSpecImpl<Rc<Step<'a>>> for StepIter<'a> {
    open spec fn obeys_from_spec() -> bool {
        true
    }

    open spec fn from_spec(value: Rc<Step<'a>>) -> StepIter<'a> {
        StepIter { step: Some(value) }
    }
}

impl<'a, 'b> From<&'b Rc<Step<'a>>> for StepIter<'a> {
    fn from(value: &'b Rc<Step<'a>>) -> (iter: StepIter<'a>) {
        value.iter()
    }
}

impl<'a, 'b> FromSpecImpl<&'b Rc<Step<'a>>> for StepIter<'a> {
    open spec fn obeys_from_spec() -> bool {
        true
    }

    open spec fn from_spec(value: &'b Rc<Step<'a>>) -> StepIter<'a> {
        StepIter { step: Some(*value) }
    }
}

/// A trail begins with the step whose trail it is, and goes on with the trail
/// of the step before.
pub proof fn lemma_trail_head(step: &Step)
    ensures
        step.trail().len() == step.depth() + 1,
        step.trail()[0] == *step,
        step.trail().drop_first() == match step.next {
            Some(link) => link.next.trail(),
            None => Seq::empty(),
        },
    decreases step,
{
    match step.next {
        Some(link) => {
            lemma_trail_head(&*link.next);
            assert(step.trail().drop_first() =~= link.next.trail());
        },
        None => {
            assert(step.trail().drop_first() =~= Seq::empty());
        },
    }
}

/// The steps that the handles point to.
pub open spec fn steps_of<'a>(handles: Seq<Rc<Step<'a>>>) -> Seq<Step<'a>> {
    handles.map_values(|step: Rc<Step<'a>>| *step)
}

/// The paths that a search found, in the order in which it found them: one to
/// every node that it reached.
#[derive(Debug, Clone)]
pub struct Solution<'a>(pub Vec<Rc<Step<'a>>>);

impl<'a> std::ops::Deref for Solution<'a> {
    type Target = Vec<Rc<Step<'a>>>;

    fn deref(&self) -> (paths: &Vec<Rc<Step<'a>>>)
        ensures
            *paths == self.0,
    {
        &self.0
    }
}

impl<'a> Solution<'a> {
    /// The paths as values.
    pub open spec fn steps(&self) -> Seq<Step<'a>> {
        steps_of(self.0@)
    }

    /// The paths that end in a node from which nothing leads on.
    pub fn iter_leaf(&self) -> (leaves: Vec<Rc<Step<'a>>>)
        ensures
            steps_of(leaves@) == self.steps().filter(|step: Step<'a>| step.node.config is Leaf),
    {
        let ghost ends = |step: Step<'a>| step.node.config is Leaf;
        let mut leaves: Vec<Rc<Step<'a>>> = Vec::new();
        let mut i: usize = 0;
        assert(self.steps().take(0) =~= Seq::empty());
        while i < self.0.len()
            invariant
                i <= self.0.len(),
                ends == |step: Step<'a>| step.node.config is Leaf,
                steps_of(leaves@) == self.steps().take(i as int).filter(ends),
            decreases self.0.len() - i,
        {
            proof {
                let done = self.steps().take(i as int);
                let here = self.steps()[i as int];
                assert(self.steps().take(i + 1) =~= done.push(here));
                assert(done.push(here).drop_last() =~= done);
                reveal(Seq::filter);
            }
            if self.0[i].node.is_leaf() {
                leaves.push(share(&self.0[i]));
                assert(steps_of(leaves@) =~= self.steps().take(i as int).filter(ends).push(
                    self.steps()[i as int],
                ));
            }
            i = i + 1;
        }
        assert(self.steps().take(i as int) =~= self.steps());
        leaves
    }
}

} // verus!
