use boosttorrent::session::{
    pretty, PeerSession, SessionAction, SessionEvent, SessionState,
};
use boosttorrent::wire::{Handshake, Message, MessageCodec};

fn started_count(acts: &[SessionAction]) -> usize {
    acts.iter()
        .filter(|a| matches!(a, SessionAction::EmitStarted(_)))
        .count()
}

fn stopped_count(acts: &[SessionAction]) -> usize {
    acts.iter()
        .filter(|a| matches!(a, SessionAction::EmitStopped(_)))
        .count()
}

#[test]
fn test_mismatched_handshake_closes_without_started() {
    let mut s = PeerSession::new([1u8; 20], [2u8; 20], false);
    assert!(matches!(s.state, SessionState::AwaitingHandshake));

    let acts = s.handle_event(SessionEvent::Frame(Message::Handshake(Handshake {
        info_hash: [9u8; 20],
        peer_id: [3u8; 20],
    })));
    assert!(matches!(s.state, SessionState::Closed));
    assert_eq!(started_count(&acts), 0);
    assert_eq!(stopped_count(&acts), 0);

    // nothing it ever sees again announces anything
    let later = s.handle_event(SessionEvent::StreamClosed);
    assert!(later.is_empty());
    assert!(matches!(s.state, SessionState::Closed));
}

#[test]
fn test_lifecycle_started_then_stopped_once() {
    let mut s = PeerSession::new([1u8; 20], [2u8; 20], true);
    assert!(matches!(s.state, SessionState::Connecting));

    let acts = s.handle_event(SessionEvent::Connected);
    assert!(matches!(s.state, SessionState::AwaitingHandshake));
    assert!(matches!(acts[..], [SessionAction::SendHandshake]));

    let acts = s.handle_event(SessionEvent::Frame(Message::Handshake(Handshake {
        info_hash: [1u8; 20],
        peer_id: [3u8; 20],
    })));
    assert!(matches!(s.state, SessionState::Established));
    assert_eq!(started_count(&acts), 1);
    assert!(matches!(acts[..], [SessionAction::EmitStarted(p)] if p == [3u8; 20]));

    let acts = s.handle_event(SessionEvent::Frame(Message::Have(4)));
    assert!(
        matches!(&acts[..], [SessionAction::Deliver(p, Message::Have(4))] if *p == [3u8; 20])
    );

    let acts = s.handle_event(SessionEvent::Command(Message::Interested));
    assert!(matches!(acts[..], [SessionAction::Send(Message::Interested)]));

    let acts = s.handle_event(SessionEvent::StreamClosed);
    assert!(matches!(s.state, SessionState::Closed));
    assert_eq!(stopped_count(&acts), 1);

    // closing again emits nothing more
    let acts = s.handle_event(SessionEvent::Failed);
    assert_eq!(stopped_count(&acts), 0);
    assert_eq!(started_count(&acts), 0);
}

#[test]
fn test_accepting_side_replies_with_handshake() {
    let mut s = PeerSession::new([1u8; 20], [2u8; 20], false);
    let acts = s.handle_event(SessionEvent::Frame(Message::Handshake(Handshake {
        info_hash: [1u8; 20],
        peer_id: [3u8; 20],
    })));
    assert!(matches!(
        acts[..],
        [SessionAction::SendHandshake, SessionAction::EmitStarted(_)]
    ));
}

#[test]
fn test_timeout_before_established_emits_no_started() {
    let mut s = PeerSession::new([1u8; 20], [2u8; 20], true);
    let acts = s.handle_event(SessionEvent::TimedOut);
    assert!(matches!(s.state, SessionState::Closed));
    assert_eq!(started_count(&acts), 0);
    assert_eq!(stopped_count(&acts), 0);
}

#[test]
fn test_pretty() {
    let mut id = [0u8; 20];
    id[0] = 0xab;
    id[19] = 0x01;
    let s = pretty(&id);
    assert_eq!(s, "ab00000000000000000000000000000000000001");
    assert_eq!(s.len(), 40);
}

#[test]
fn test_bitfield_updates_session() {
    let mut s = PeerSession::new([1u8; 20], [2u8; 20], false);
    s.handle_event(SessionEvent::Frame(Message::Handshake(Handshake {
        info_hash: [1u8; 20],
        peer_id: [3u8; 20],
    })));

    let codec = MessageCodec::new();
    let mut buf = vec![0, 0, 0, 2, 5, 0b10100000];
    let m = codec.decode(&mut buf).unwrap().unwrap();
    let acts = s.handle_event(SessionEvent::Frame(m));
    // the bitfield is both tracked and forwarded
    assert!(matches!(
        &acts[..],
        [SessionAction::Deliver(_, Message::Bitfield(_))]
    ));
    assert_eq!(s.remote_bitfield_len(), Some(8));
}
