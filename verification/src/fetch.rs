//! Reconstruction of an interactive video from what the service says of it.
//!
//! The service is asked four kinds of questions, each of which needs the
//! answer to the one before: for the metadata of the video; for the version
//! of its graph; for its hidden variables and the edge at which it starts;
//! and, node by node, for the edges of its graph. What is asked, and what is
//! made of the answers, is decided here; the asking itself is left to the
//! caller.

pub mod address;
pub mod crawl;
pub mod expr;
pub mod graph;
pub mod ready;

use vstd::prelude::*;
use vstd::std_specs::convert::FromSpecImpl;
use crate::fetch::crawl::{Crawl, Target};
use crate::fetch::graph::{declaration, Edge, Gate};
use crate::fetch::ready::Metadata;
use crate::model::{Variable, Video};

verus! {

/// Why a video could not be reconstructed.
#[derive(Debug, Clone)]
pub enum Error {
    /// The video could not be made ready.
    Ready(ready::Error),
    /// The graph could not be made.
    Graph(graph::Error),
}

impl From<ready::Error> for Error {
    fn from(value: ready::Error) -> (r: Error) {
        Error::Ready(value)
    }
}

impl FromSpecImpl<ready::Error> for Error {
    open spec fn obeys_from_spec() -> bool {
        true
    }

    open spec fn from_spec(value: ready::Error) -> Error {
        Error::Ready(value)
    }
}

impl From<graph::Error> for Error {
    fn from(value: graph::Error) -> (r: Error) {
        Error::Graph(value)
    }
}

impl FromSpecImpl<graph::Error> for Error {
    open spec fn obeys_from_spec() -> bool {
        true
    }

    open spec fn from_spec(value: graph::Error) -> Error {
        Error::Graph(value)
    }
}

/// A video of which the metadata and the version of the graph are known.
#[derive(Debug)]
pub struct Prepared {
    pub metadata: Metadata,
    pub version: usize,
}

/// A video whose graph is being walked.
#[derive(Debug)]
pub struct Session {
    pub metadata: Metadata,
    pub version: usize,
    pub variables: Vec<Variable>,
    pub crawl: Crawl,
}

impl Prepared {
    /// Takes the metadata and what the service says of the version of the
    /// graph. A video for which it names no version is no interactive video.
    pub fn new(metadata: Metadata, interaction: Option<usize>) -> (r: Result<Prepared, Error>)
        ensures
            match interaction {
                Some(version) => r matches Ok(prepared) && prepared.metadata == metadata
                    && prepared.version == version,
                None => r matches Err(Error::Ready(ready::Error::VersionNotFound)),
            },
    {
        match ready::version_of(interaction) {
            Ok(version) => Ok(Prepared { metadata, version }),
            Err(e) => Err(Error::from(e)),
        }
    }

    /// Takes the hidden variables and the edge at which the video starts,
    /// and sets out on the walk through the graph.
    pub fn begin(self, gate: Gate) -> (session: Session)
        ensures
            session.wf(),
            session.metadata == self.metadata,
            session.version == self.version,
            session.variables@.len() == gate.variables@.len(),
            forall|i: int|
                0 <= i < session.variables@.len() ==> #[trigger] session.variables@[i]
                    == declaration(gate.variables@[i]),
            session.crawl.nodes@.len() == 0,
            session.crawl.stack@ == seq![Target { cid: self.metadata.root, eid: gate.id }],
            session.crawl.pending is None,
    {
        let Prepared { metadata, version } = self;
        let (variables, root_eid) = gate.into_parts();
        let crawl = Crawl::new(metadata.root, root_eid);
        Session { metadata, version, variables, crawl }
    }
}

impl Session {
    /// Whether the walk is in order, and starts at the root that the
    /// metadata names.
    pub open spec fn wf(&self) -> bool {
        self.crawl.wf() && self.crawl.root == self.metadata.root
    }

    /// The node to ask for next, if any is left.
    pub fn next(&mut self) -> (r: Option<Target>)
        requires
            old(self).wf(),
            old(self).crawl.pending is None,
        ensures
            final(self).wf(),
            final(self).metadata == old(self).metadata,
            final(self).version == old(self).version,
            final(self).variables == old(self).variables,
            old(self).crawl.moves_on(final(self).crawl, r),
    {
        self.crawl.next()
    }

    /// Takes the answer for the node that was asked for.
    pub fn accept(&mut self, edge: Edge) -> (r: Result<(), Error>)
        requires
            old(self).wf(),
            old(self).crawl.pending is Some,
        ensures
            r is Ok ==> final(self).wf(),
            final(self).metadata == old(self).metadata,
            final(self).version == old(self).version,
            final(self).variables == old(self).variables,
            match r {
                Ok(()) => old(self).crawl.takes(edge, final(self).crawl, Ok(())),
                Err(Error::Graph(cause)) => old(self).crawl.takes(
                    edge,
                    final(self).crawl,
                    Err(cause),
                ),
                Err(Error::Ready(_)) => false,
            },
    {
        match self.crawl.accept(edge) {
            Ok(()) => Ok(()),
            Err(e) => Err(Error::from(e)),
        }
    }

    /// The video, once no node is left to ask for. Its graph is whole: every
    /// choice in it leads to one of its nodes.
    pub fn finish(self) -> (video: Video)
        requires
            self.wf(),
            self.crawl.pending is None,
            self.crawl.stack@.len() == 0,
        ensures
            video.id == self.metadata.id,
            video.name == self.metadata.name,
            video.cover == self.metadata.cover,
            video.description == self.metadata.description,
            video.author == self.metadata.owner.name,
            video.variables == self.variables,
            video.graph.root == self.metadata.root,
            video.graph.nodes == self.crawl.nodes,
            video.graph.closed(),
    {
        let Session { metadata, variables, crawl, .. } = self;
        let graph = crawl.finish();
        metadata.into_video(variables, graph)
    }
}

} // verus!
