use boosttorrent::bencode::Value;
use boosttorrent::stats::{GetStats, Stats, UpdateStat};
use boosttorrent::tracker::{
    Event, PeerAddr, PeerInfo, Tracker, TrackerResponse, TrackerSuccessResponse,
};

fn bytes(s: &str) -> Vec<u8> {
    s.as_bytes().to_vec()
}

fn success_doc() -> Value {
    Value::Dict(vec![
        (bytes("interval"), Value::Integer(10)),
        (
            bytes("tracker id"),
            Value::BString(bytes("i am the tracker")),
        ),
        (bytes("complete"), Value::Integer(10)),
        (bytes("incomplete"), Value::Integer(10)),
        (
            bytes("peers"),
            Value::List(vec![Value::Dict(vec![
                (bytes("peer id"), Value::BString(vec![1; 20])),
                (bytes("ip"), Value::BString(bytes("127.0.0.1"))),
                (bytes("port"), Value::Integer(8888)),
            ])]),
        ),
    ])
}

#[test]
fn test_tracker_response_success() {
    let resp = TrackerResponse::from_value(&success_doc()).unwrap();
    assert_eq!(
        resp,
        TrackerResponse::Success(TrackerSuccessResponse {
            interval: 10,
            min_interval: None,
            tracker_id: Some("i am the tracker".to_owned()),
            complete: 10,
            incomplete: 10,
            peers: vec![PeerInfo {
                peer_id: Some([1; 20]),
                address: PeerAddr::Named("127.0.0.1".to_owned(), 8888),
            }],
        })
    );
}

#[test]
fn test_tracker_response_failure_and_warning() {
    let fail = Value::Dict(vec![(
        bytes("failure reason"),
        Value::BString(bytes("no such torrent")),
    )]);
    assert_eq!(
        TrackerResponse::from_value(&fail).unwrap(),
        TrackerResponse::Failure("no such torrent".to_owned())
    );

    let warn = Value::Dict(vec![
        (bytes("complete"), Value::Integer(1)),
        (bytes("incomplete"), Value::Integer(2)),
        (bytes("interval"), Value::Integer(30)),
        (bytes("peers"), Value::BString(vec![])),
        (bytes("warning message"), Value::BString(bytes("slow down"))),
    ]);
    match TrackerResponse::from_value(&warn).unwrap() {
        TrackerResponse::Warning(msg, payload) => {
            assert_eq!(msg, "slow down");
            assert_eq!(payload.interval, 30);
            assert!(payload.peers.is_empty());
        }
        other => panic!("expected a warning, got {:?}", other),
    }

    let missing = Value::Dict(vec![(bytes("interval"), Value::Integer(30))]);
    assert!(TrackerResponse::from_value(&missing).is_err());
}

#[test]
fn test_compact_peers() {
    let doc = Value::Dict(vec![
        (bytes("complete"), Value::Integer(0)),
        (bytes("incomplete"), Value::Integer(0)),
        (bytes("interval"), Value::Integer(60)),
        (
            bytes("peers"),
            Value::BString(vec![127, 0, 0, 1, 0x1f, 0x90, 10, 0, 0, 2, 0, 80]),
        ),
    ]);
    match TrackerResponse::from_value(&doc).unwrap() {
        TrackerResponse::Success(p) => {
            assert_eq!(
                p.peers,
                vec![
                    PeerInfo {
                        peer_id: None,
                        address: PeerAddr::V4([127, 0, 0, 1], 8080),
                    },
                    PeerInfo {
                        peer_id: None,
                        address: PeerAddr::V4([10, 0, 0, 2], 80),
                    },
                ]
            );
        }
        other => panic!("expected a success, got {:?}", other),
    }

    // a compact string with a partial record is rejected
    let bad = Value::Dict(vec![
        (bytes("complete"), Value::Integer(0)),
        (bytes("incomplete"), Value::Integer(0)),
        (bytes("interval"), Value::Integer(60)),
        (bytes("peers"), Value::BString(vec![127, 0, 0, 1, 0])),
    ]);
    assert!(TrackerResponse::from_value(&bad).is_err());
}

#[test]
fn test_announce_url() {
    let mut tracker = Tracker::new(
        *b"-BO0001-abcdefghijkl",
        "http://localhost:8888/announce".to_owned(),
        [0x01, 0xff, b' ', b'#', 0x7f, 0, 1, 2, 3, 4, 5, 6, 7, 8, 9, 10, 11, 12, 13, b'z'],
        6888,
    );
    let stats = Stats { uploaded: 1, downloaded: 22, left: 333 };
    let url = tracker.announce_url(Some(Event::Started), &stats);
    assert_eq!(
        url,
        "http://localhost:8888/announce?info_hash=\
         %01%FF%20%23%7F%00%01%02%03%04%05%06%07%08%09%0A%0B%0C%0Dz\
         &peer_id=-BO0001-abcdefghijkl&port=6888&uploaded=1&downloaded=22\
         &left=333&compact=1&event=started"
            .replace(char::is_whitespace, "")
    );

    // once the tracker names an id, every later announce echoes it
    tracker.update_tracker_id(&TrackerResponse::Success(TrackerSuccessResponse {
        interval: 10,
        min_interval: None,
        tracker_id: Some("tid 1".to_owned()),
        complete: 0,
        incomplete: 0,
        peers: vec![],
    }));
    let url = tracker.announce_url(None, &stats);
    assert!(url.ends_with("&compact=1&trackerid=tid%201"));
    assert!(!url.contains("&event="));
}

#[test]
fn test_refresh_cooldown() {
    let mut tracker = Tracker::new(
        [1u8; 20],
        "http://t".to_owned(),
        [2u8; 20],
        6888,
    );
    assert!(tracker.cached_for(None, 0).is_none());

    let payload = TrackerSuccessResponse {
        interval: 10,
        min_interval: Some(30),
        tracker_id: None,
        complete: 5,
        incomplete: 6,
        peers: vec![],
    };
    tracker.apply_response(TrackerResponse::Success(payload.clone()), 100);

    // within the cooldown (the larger of interval and min interval), a
    // refresh reuses the cache; an event-bearing announce never does
    assert_eq!(tracker.cached_for(None, 110), Some(&payload));
    assert_eq!(tracker.cached_for(Some(Event::Completed), 110), None);
    assert_eq!(tracker.cached_for(None, 130), None);

    // a failure changes nothing
    tracker.apply_response(TrackerResponse::Failure("x".to_owned()), 120);
    assert_eq!(tracker.cached_for(None, 110), Some(&payload));
}

#[test]
fn test_stats_updates() {
    let mut stats = Stats::new();
    stats.update(UpdateStat::Uploaded(5));
    stats.update(UpdateStat::Downloaded(7));
    stats.update(UpdateStat::Left(11));
    stats.update(UpdateStat::Uploaded(1));
    let snap = stats.get(GetStats);
    assert_eq!(snap, Stats { uploaded: 6, downloaded: 7, left: 11 });
}
