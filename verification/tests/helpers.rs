use bidown::fetch::{graph, ready};
use bidown::utils::{one_or_len, try_all, Response};
use bidown::{fetch, solve, Error, Progress};
use bidown::video;
use bidown::fetch::address;
use bidown::text::write_decimal;
use bidown::video::{stream_file_name, stream_url, Durl, Quality, VideoData};

#[test]
fn the_only_element_or_the_length() {
    assert_eq!(one_or_len(vec![7]), Ok(7));
    assert_eq!(one_or_len(Vec::<u8>::new()), Err(0));
    assert_eq!(one_or_len(vec![1, 2]), Err(2));
    assert_eq!(one_or_len(vec!["a", "b", "c", "d"]), Err(4));
}

#[test]
fn the_first_result_that_is_not_true() {
    let all: Vec<Result<bool, &str>> = vec![];
    assert_eq!(try_all(all), Ok(true));
    assert_eq!(try_all::<&str>(vec![Ok(true), Ok(true)]), Ok(true));
    assert_eq!(try_all::<&str>(vec![Ok(true), Ok(false), Ok(true)]), Ok(false));
    assert_eq!(
        try_all(vec![Ok(true), Err("first"), Ok(false), Err("second")]),
        Err("first")
    );
    assert_eq!(try_all(vec![Ok(false), Err("late")]), Ok(false));
}

#[test]
fn what_an_envelope_holds() {
    let wide: u64 = Response { data: 7u8 }.into();
    assert_eq!(wide, 7);
    let text: String = Response { data: "data" }.into();
    assert_eq!(text, "data");
}

#[test]
fn progress_starts_at_nothing() {
    let progress = Progress::default();
    assert_eq!(progress.current, 0);
    assert_eq!(progress.total, 0);
    assert_eq!(progress.id, 0);
    assert_eq!(progress.name, "");
}

#[test]
fn qualities_by_number() {
    assert_eq!(Quality::High.code(), 80);
    assert_eq!(Quality::Medium.code(), 64);
    assert_eq!(Quality::Low.code(), 32);
    assert_eq!(Quality::VeryLow.code(), 16);
    assert_eq!(Quality::default(), Quality::High);
}

fn places(urls: &[&str]) -> VideoData {
    VideoData {
        durl: urls
            .iter()
            .map(|url| Durl {
                url: url.to_string(),
            })
            .collect(),
    }
}

#[test]
fn the_first_address_that_is_not_empty() {
    assert_eq!(places(&[]).url(), None);
    assert_eq!(places(&["", ""]).url(), None);
    assert_eq!(places(&["a"]).url(), Some("a"));
    assert_eq!(places(&["", "b", "c"]).url(), Some("b"));
}

#[test]
fn no_address_is_an_error_that_keeps_the_question() {
    assert_eq!(places(&["", "b"]).stream("asked".to_string()).unwrap(), "b");
    match places(&[""]).stream("asked".to_string()) {
        Err(video::Error::StreamNotFound(at)) => assert_eq!(at, "asked"),
        _ => panic!("no address was offered"),
    }
}

#[test]
fn errors_of_the_parts_are_errors_of_the_whole() {
    assert!(matches!(
        Error::from(solve::Error::NodeNotFound(3)),
        Error::Solve(solve::Error::NodeNotFound(3))
    ));
    assert!(matches!(
        Error::from(fetch::Error::from(ready::Error::VersionNotFound)),
        Error::Fetch(fetch::Error::Ready(ready::Error::VersionNotFound))
    ));
    assert!(matches!(
        Error::from(fetch::Error::from(graph::Error::ChoicesCount(2))),
        Error::Fetch(fetch::Error::Graph(graph::Error::ChoicesCount(2)))
    ));
    match Error::from(video::Error::StreamNotFound("asked".to_string())) {
        Error::Video(video::Error::StreamNotFound(at)) => assert_eq!(at, "asked"),
        _ => panic!("the error is one of the stream"),
    }
    let failed: bidown::Result<u8> = Err(Error::from(solve::Error::NodeNotFound(3)));
    assert!(failed.is_err());
}

#[test]
fn numbers_in_digits() {
    assert_eq!(write_decimal(0), "0");
    assert_eq!(write_decimal(7), "7");
    assert_eq!(write_decimal(10), "10");
    assert_eq!(write_decimal(1234567890), "1234567890");
    assert_eq!(write_decimal(usize::MAX), usize::MAX.to_string());
    assert_eq!(Quality::High.to_string(), "80");
    assert_eq!(Quality::VeryLow.to_string(), "16");
}

#[test]
fn where_the_service_is_asked() {
    assert_eq!(
        address::metadata_url("BV1"),
        "https://api.bilibili.com/x/web-interface/view?bvid=BV1"
    );
    assert_eq!(
        address::version_url("BV1", 42),
        "https://api.bilibili.com/x/player/v2?cid=42&bvid=BV1"
    );
    assert_eq!(
        address::variables_url("BV1", 3),
        "https://api.bilibili.com/x/stein/edgeinfo_v2?bvid=BV1&graph_version=3"
    );
    assert_eq!(
        address::edge_url("BV1", 99, 3),
        "https://api.bilibili.com/x/stein/edgeinfo_v2?bvid=BV1&edge_id=99&graph_version=3"
    );
    assert_eq!(stream_file_name(42), "42.mp4");
    assert_eq!(
        stream_url("BV1", 42, Quality::Medium),
        "https://api.bilibili.com/x/player/playurl?bvid=BV1&cid=42&qn=64&fnval=0&otype=json"
    );
}
