//! Where the service is asked.

use vstd::prelude::*;
use crate::text::{decimal_of, write_decimal};

verus! {

/// Where the metadata of the video `bvid` is asked for.
pub open spec fn metadata_address(bvid: Seq<char>) -> Seq<char> {
    "https://api.bilibili.com/x/web-interface/view?bvid="@ + bvid
}

/// Where the version of the graph of the video `bvid` is asked for, whose
/// root is the node `cid`.
pub open spec fn version_address(bvid: Seq<char>, cid: usize) -> Seq<char> {
    "https://api.bilibili.com/x/player/v2?cid="@ + decimal_of(cid as nat) + "&bvid="@ + bvid
}

/// Where the hidden variables of the video `bvid` are asked for, in the
/// version `version` of its graph.
pub open spec fn variables_address(bvid: Seq<char>, version: usize) -> Seq<char> {
    "https://api.bilibili.com/x/stein/edgeinfo_v2?bvid="@ + bvid + "&graph_version="@ + decimal_of(
        version as nat,
    )
}

/// Where the edge `eid` of the video `bvid` is asked for, in the version
/// `version` of its graph.
pub open spec fn edge_address(bvid: Seq<char>, eid: usize, version: usize) -> Seq<char> {
    "https://api.bilibili.com/x/stein/edgeinfo_v2?bvid="@ + bvid + "&edge_id="@ + decimal_of(
        eid as nat,
    ) + "&graph_version="@ + decimal_of(version as nat)
}

/// Where to ask for the metadata of a video.
pub fn metadata_url(bvid: &str) -> (url: String)
    ensures
        url@ == metadata_address(bvid@),
{
    let mut url = String::from_str("https://api.bilibili.com/x/web-interface/view?bvid=");
    url.append(bvid);
    url
}

/// Where to ask for the version of the graph of a video.
pub fn version_url(bvid: &str, cid: usize) -> (url: String)
    ensures
        url@ == version_address(bvid@, cid),
{
    let mut url = String::from_str("https://api.bilibili.com/x/player/v2?cid=");
    url.append(write_decimal(cid).as_str());
    url.append("&bvid=");
    url.append(bvid);
    url
}

/// Where to ask for the hidden variables of a video.
pub fn variables_url(bvid: &str, version: usize) -> (url: String)
    ensures
        url@ == variables_address(bvid@, version),
{
    let mut url = String::from_str("https://api.bilibili.com/x/stein/edgeinfo_v2?bvid=");
    url.append(bvid);
    url.append("&graph_version=");
    url.append(write_decimal(version).as_str());
    url
}

/// Where to ask for an edge of the graph of a video.
pub fn edge_url(bvid: &str, eid: usize, version: usize) -> (url: String)
    ensures
        url@ == edge_address(bvid@, eid, version),
{
    let mut url = String::from_str("https://api.bilibili.com/x/stein/edgeinfo_v2?bvid=");
    url.append(bvid);
    url.append("&edge_id=");
    url.append(write_decimal(eid).as_str());
    url.append("&graph_version=");
    url.append(write_decimal(version).as_str());
    url
}

} // verus!
