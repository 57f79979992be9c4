//! Where the stream of a node is to be had.

use vstd::prelude::*;
use crate::text::{decimal_of, write_decimal};

verus! {

/// The picture quality in which a stream is asked for.
///
/// | quality | lines | code |
/// | --- | --- | --- |
/// | `High` | 1080 | 80 |
/// | `Medium` | 720 | 64 |
/// | `Low` | 480 | 32 |
/// | `VeryLow` | 360 | 16 |
#[derive(Debug, Clone, Copy, PartialEq, Eq, Structural, Hash)]
pub enum Quality {
    High,
    Medium,
    Low,
    VeryLow,
}

impl Quality {
    /// The number by which the service knows the quality.
    pub open spec fn spec_code(self) -> u8 {
        match self {
            Quality::High => 80,
            Quality::Medium => 64,
            Quality::Low => 32,
            Quality::VeryLow => 16,
        }
    }

    /// The number by which the service knows the quality.
    #[verifier::when_used_as_spec(spec_code)]
    pub fn code(self) -> (code: u8)
        ensures
            code == self.spec_code(),
    {
        match self {
            Quality::High => 80,
            Quality::Medium => 64,
            Quality::Low => 32,
            Quality::VeryLow => 16,
        }
    }
}

impl Quality {
    /// The quality as the service knows it: its number, written in digits.
    pub fn to_string(&self) -> (text: String)
        ensures
            text@ == decimal_of(self.spec_code() as nat),
    {
        let code: u8 = self.code();
        write_decimal(code as usize)
    }
}

/// Where the stream of the node `cid` of the video `bvid` is asked for, in
/// the quality `quality`.
pub open spec fn stream_address(bvid: Seq<char>, cid: usize, quality: Quality) -> Seq<char> {
    "https://api.bilibili.com/x/player/playurl?bvid="@ + bvid + "&cid="@ + decimal_of(cid as nat)
        + "&qn="@ + decimal_of(quality.spec_code() as nat) + "&fnval=0&otype=json"@
}

/// Where to ask for the stream of a node.
pub fn stream_url(bvid: &str, cid: usize, quality: Quality) -> (url: String)
    ensures
        url@ == stream_address(bvid@, cid, quality),
{
    let mut url = String::from_str("https://api.bilibili.com/x/player/playurl?bvid=");
    url.append(bvid);
    url.append("&cid=");
    url.append(write_decimal(cid).as_str());
    url.append("&qn=");
    url.append(quality.to_string().as_str());
    url.append("&fnval=0&otype=json");
    url
}

/// The name of the file that holds the stream of the node `cid`.
pub fn stream_file_name(cid: usize) -> (name: String)
    ensures
        name@ == decimal_of(cid as nat) + ".mp4"@,
{
    let mut name = write_decimal(cid);
    name.append(".mp4");
    name
}

impl Default for Quality {
    fn default() -> (quality: Quality)
        ensures
            quality == Quality::High,
    {
        Quality::High
    }
}

/// Why the stream of a node could not be had.
#[derive(Debug, Clone)]
pub enum Error {
    /// The service offered no address for the stream; the address at which
    /// it was asked is kept.
    StreamNotFound(String),
}

/// What the service says when it is asked for the stream of a node.
#[derive(Debug, Clone)]
pub struct VideoData {
    pub durl: Vec<Durl>,
}

/// A place at which a stream is offered.
#[derive(Debug, Clone)]
pub struct Durl {
    pub url: String,
}

/// The first address in the list that is not empty.
pub open spec fn first_address(places: Seq<Durl>) -> Option<Seq<char>>
    decreases places.len(),
{
    if places.len() == 0 {
        None
    } else if places[0].url@.len() > 0 {
        Some(places[0].url@)
    } else {
        first_address(places.drop_first())
    }
}

impl VideoData {
    /// The address of the stream: the first one offered that is not empty.
    pub fn url(&self) -> (url: Option<&str>)
        ensures
            match url {
                Some(address) => first_address(self.durl@) == Some(address@),
                None => first_address(self.durl@) is None,
            },
    {
        let mut i: usize = 0;
        assert(self.durl@.skip(0) =~= self.durl@);
        while i < self.durl.len()
            invariant
                i <= self.durl.len(),
                first_address(self.durl@.skip(i as int)) == first_address(self.durl@),
            decreases self.durl.len() - i,
        {
            assert(self.durl@.skip(i as int)[0] == self.durl@[i as int]);
            assert(self.durl@.skip(i as int).drop_first() =~= self.durl@.skip(i + 1));
            let address: &str = self.durl[i].url.as_str();
            if !address.is_empty() {
                return Some(address);
            }
            i = i + 1;
        }
        None
    }
}

impl VideoData {
    /// The address of the stream, or the error that none was offered when
    /// the service was asked at `asked`.
    pub fn stream(&self, asked: String) -> (r: Result<&str, Error>)
        ensures
            match r {
                Ok(address) => first_address(self.durl@) == Some(address@),
                Err(Error::StreamNotFound(at)) => first_address(self.durl@) is None && at == asked,
            },
    {
        match self.url() {
            Some(address) => Ok(address),
            None => Err(Error::StreamNotFound(asked)),
        }
    }
}

} // verus!
