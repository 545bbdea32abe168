use did_mmap_cache::frame::{parse_input, RepoOp};
use did_mmap_cache::ledger::ConnectFailure;
use did_mmap_cache::relay::handshake_json;
use did_mmap_cache::worker::{
    after_reresolve, archive_plan, frame_start, frame_step, stream_url, valid_host, worker_step, FrameEvent, FramePlan,
    WorkerAction, WorkerEvent,
};

#[test]
fn hosts_and_stream_urls() {
    assert!(valid_host("pds.example.com"));
    assert!(!valid_host(""));
    assert!(!valid_host("bad host"));
    assert!(!valid_host("bad\nhost"));
    assert!(!valid_host(&"h".repeat(129)));
    assert_eq!(stream_url("pds.example.com", None), "wss://pds.example.com/xrpc/com.atproto.sync.subscribeRepos");
    assert_eq!(
        stream_url("pds.example.com", Some(1234567)),
        "wss://pds.example.com/xrpc/com.atproto.sync.subscribeRepos?cursor=1234567"
    );
    assert_eq!(stream_url("h", Some(0)), "wss://h/xrpc/com.atproto.sync.subscribeRepos?cursor=0");
}

#[test]
fn worker_lifecycle_steps() {
    assert_eq!(worker_step(&WorkerEvent::Connected, 0), WorkerAction::Publish);
    assert_eq!(worker_step(&WorkerEvent::Frame, 0), WorkerAction::Forward);
    assert_eq!(worker_step(&WorkerEvent::Idle, 0), WorkerAction::Ping);
    assert_eq!(worker_step(&WorkerEvent::ReadFailed, 0), WorkerAction::ReconnectSoon);
    assert_eq!(worker_step(&WorkerEvent::ConnectFailed(ConnectFailure::Http(403)), 0), WorkerAction::Blacklist);
    assert_eq!(worker_step(&WorkerEvent::ConnectFailed(ConnectFailure::Other), 0), WorkerAction::RetryLater);
    assert_eq!(worker_step(&WorkerEvent::ConnectFailed(ConnectFailure::Http(503)), 1), WorkerAction::RetryLater);
    assert_eq!(worker_step(&WorkerEvent::ConnectFailed(ConnectFailure::Http(503)), 5), WorkerAction::Blacklist);
}

fn op(action: &str, path: &str) -> RepoOp {
    RepoOp { action: action.to_string(), path: path.to_string(), cid: None }
}

#[test]
fn commit_archive_plan_and_reresolution() {
    let ops = vec![op("delete", "a/1"), op("create", "a/2"), op("delete", "a/3"), op("update", "a/4")];
    let (deletes, path) = archive_plan(&ops);
    assert_eq!(deletes, vec!["a/1".to_string(), "a/3".to_string()]);
    assert_eq!(path, "a/2");
    let (d2, p2) = archive_plan(&vec![op("delete", "x")]);
    assert_eq!(d2, vec!["x".to_string()]);
    assert_eq!(p2, "");
    let k = ([2u8; 33], 1u8);
    assert!(!after_reresolve(k, None));
    assert!(!after_reresolve(k, Some(k)));
    assert!(after_reresolve(k, Some(([3u8; 33], 1))));
    assert!(after_reresolve(k, Some(([2u8; 33], 2))));
}

#[test]
fn relay_handshake_names_the_dictionary() {
    let dict = b"dictionary bytes";
    let text = handshake_json(dict, "relay");
    let hex: String = blake3::hash(dict).as_bytes().iter().map(|b| format!("{:02x}", b)).collect();
    assert_eq!(text, format!("{{\"version\":1,\"compression\":\"zstd\",\"dict_hash\":\"{}\",\"info\":\"relay\"}}", hex));
}

#[test]
fn malformed_frames_are_rejected() {
    assert!(parse_input(&[0xa0, 0x5a]).is_none());
    // header {}, payload {"commit": 42(h'0001')} with no blocks bag
    let frame = [0xa0, 0xa1, 0x66, b'c', b'o', b'm', b'm', b'i', b't', 0xd8, 0x2a, 0x42, 0x00, 0x01];
    assert!(parse_input(&frame).is_none());
    // header {}, payload {"seq": 5}
    let ok = [0xa0, 0xa1, 0x63, b's', b'e', b'q', 0x05];
    assert_eq!(parse_input(&ok).unwrap().sequence, Some(5));
}

#[test]
fn frames_are_reresolved_once() {
    let k1 = ([1u8; 33], 1u8);
    let k2 = ([2u8; 33], 1u8);
    let mut st = frame_start();
    assert!(matches!(frame_step(&mut st, FrameEvent::CacheLookup(None)), FramePlan::Resolve));
    assert!(matches!(frame_step(&mut st, FrameEvent::Resolved(Some(k1))), FramePlan::Verify(_, 1)));
    assert!(matches!(frame_step(&mut st, FrameEvent::Verified(false)), FramePlan::Resolve));
    assert!(matches!(frame_step(&mut st, FrameEvent::Resolved(Some(k1))), FramePlan::Invalid));
    let mut st2 = frame_start();
    assert!(matches!(frame_step(&mut st2, FrameEvent::CacheLookup(Some(k1))), FramePlan::Verify(_, _)));
    assert!(matches!(frame_step(&mut st2, FrameEvent::Verified(false)), FramePlan::Resolve));
    match frame_step(&mut st2, FrameEvent::Resolved(Some(k2))) {
        FramePlan::Verify(pk, _) => assert_eq!(pk, [2u8; 33]),
        _ => panic!("expected a second check"),
    }
    assert!(matches!(frame_step(&mut st2, FrameEvent::Verified(false)), FramePlan::Invalid));
    let mut st3 = frame_start();
    assert!(matches!(frame_step(&mut st3, FrameEvent::Resolved(None)), FramePlan::Unverifiable));
    assert!(matches!(frame_step(&mut st3, FrameEvent::Verified(true)), FramePlan::Archive));
}
