//! What has to be known of a video before its graph can be walked.

use vstd::prelude::*;
use crate::model::{Graph, Variable, Video};

verus! {

/// Why a video could not be made ready.
#[derive(Debug, Clone, PartialEq, Eq)]
pub enum Error {
    /// The video has this number of pages, not one.
    PagesCount(usize),
    /// The service knows no version of a graph for the video: it is no
    /// interactive video.
    VersionNotFound,
}

/// What the service says of a video as a whole.
#[derive(Debug, Clone, PartialEq, Eq)]
pub struct Metadata {
    pub id: String,
    /// The id of the node at which the video starts.
    pub root: usize,
    pub name: String,
    pub cover: String,
    pub description: String,
    pub owner: Owner,
}

/// Who published a video.
#[derive(Debug, Clone, PartialEq, Eq)]
pub struct Owner {
    pub name: String,
}

impl Metadata {
    /// The video that is described by the metadata, the variables and the
    /// graph.
    pub fn into_video(self, variables: Vec<Variable>, graph: Graph) -> (video: Video)
        ensures
            video.id == self.id,
            video.name == self.name,
            video.cover == self.cover,
            video.description == self.description,
            video.author == self.owner.name,
            video.variables == variables,
            video.graph == graph,
    {
        let Metadata { id, name, cover, description, owner, .. } = self;
        let Owner { name: author } = owner;
        Video { id, name, cover, description, author, variables, graph }
    }
}

/// The version of the graph that the service gave, if it gave one.
pub fn version_of(interaction: Option<usize>) -> (r: Result<usize, Error>)
    ensures
        r == match interaction {
            Some(version) => Ok::<usize, Error>(version),
            None => Err(Error::VersionNotFound),
        },
{
    match interaction {
        Some(version) => Ok(version),
        None => Err(Error::VersionNotFound),
    }
}

} // verus!
