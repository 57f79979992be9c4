//! Reconstruction and solving of branching interactive videos.
//!
//! An interactive video is a graph of playable nodes joined by choices. Every
//! choice may be guarded by conditions on hidden variables, and may change
//! them. The video is reconstructed from what the service says of it
//! ([`fetch`]), and solved: a shortest path of choices is found to every node
//! that can be reached ([`solve`]).

pub mod decimal;
pub mod fetch;
pub mod model;
pub mod solve;
pub mod text;
pub mod utils;
pub mod video;

pub use crate::utils::Progress;

use vstd::prelude::*;
use vstd::std_specs::convert::FromSpecImpl;

verus! {

/// Why an operation on a video failed.
#[derive(Debug, Clone)]
pub enum Error {
    Fetch(fetch::Error),
    Solve(solve::Error),
    Video(video::Error),
}

/// The result of an operation on a video.
pub type Result<T> = std::result::Result<T, Error>;

impl From<fetch::Error> for Error {
    fn from(value: fetch::Error) -> (r: Error) {
        Error::Fetch(value)
    }
}

impl FromSpecImpl<fetch::Error> for Error {
    open spec fn obeys_from_spec() -> bool {
        true
    }

    open spec fn from_spec(value: fetch::Error) -> Error {
        Error::Fetch(value)
    }
}

impl From<solve::Error> for Error {
    fn from(value: solve::Error) -> (r: Error) {
        Error::Solve(value)
    }
}

impl FromSpecImpl<solve::Error> for Error {
    open spec fn obeys_from_spec() -> bool {
        true
    }

    open spec fn from_spec(value: solve::Error) -> Error {
        Error::Solve(value)
    }
}

impl From<video::Error> for Error {
    fn from(value: video::Error) -> (r: Error) {
        Error::Video(value)
    }
}

impl FromSpecImpl<video::Error> for Error {
    open spec fn obeys_from_spec() -> bool {
        true
    }

    open spec fn from_spec(value: video::Error) -> Error {
        Error::Video(value)
    }
}

} // verus!
