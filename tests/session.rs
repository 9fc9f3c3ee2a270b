use torrent::messages::BTMessage;
use torrent::planner::PlanError;
use torrent::session::{Action, PeerSession, SessionError, SessionState};

fn handshake_reply() -> Vec<u8> {
    let mut r = vec![19u8];
    r.extend_from_slice(b"BitTorrent protocol");
    r.extend_from_slice(&[0u8; 48]);
    r
}

fn requests(actions: &[Action]) -> Vec<(u32, u32, u32)> {
    actions
        .iter()
        .map(|a| match a {
            Action::Send(BTMessage::Request(i, b, l)) => (*i, *b, *l),
            other => panic!("unexpected action {:?}", other),
        })
        .collect()
}

#[test]
fn whole_download_completes_after_every_piece() {
    let mut s = PeerSession::new(40000, 32768, vec![0, 1]).unwrap();
    assert_eq!(s.state, SessionState::Connecting);
    assert!(s.on_handshake(&handshake_reply()).is_ok());
    assert_eq!(s.state, SessionState::HandshakeExchanged);
    let a = s.dispatch(BTMessage::Bitfield(vec![0xc0]));
    assert_eq!(a, vec![Action::Send(BTMessage::Interested)]);
    assert_eq!(s.state, SessionState::AwaitingBitfieldOrChoke);
    let a = s.dispatch(BTMessage::Unchoke);
    let reqs = requests(&a);
    assert_eq!(reqs, vec![(0, 0, 16384), (0, 16384, 16384), (1, 0, 7232)]);
    assert_eq!(s.state, SessionState::Draining);
    assert_eq!(s.outstanding, 3);
    // answered out of order
    let a = s.dispatch(BTMessage::Piece(1, 0, vec![7; 3]));
    assert_eq!(a, vec![Action::Write(32768, vec![7; 3])]);
    assert_eq!(s.state, SessionState::Draining);
    s.dispatch(BTMessage::Have(1));
    s.dispatch(BTMessage::Piece(0, 16384, vec![1]));
    assert_eq!(s.outstanding, 1);
    let a = s.dispatch(BTMessage::Piece(0, 0, vec![2]));
    assert_eq!(a, vec![Action::Write(0, vec![2])]);
    assert_eq!(s.state, SessionState::Completed);
    assert!(s.is_finished());
    // nothing more is consumed
    assert_eq!(s.dispatch(BTMessage::Piece(0, 0, vec![2])), vec![]);
    assert_eq!(s.state, SessionState::Completed);
}

#[test]
fn single_piece_download() {
    let mut s = PeerSession::new(1000000, 262144, vec![3]).unwrap();
    s.on_handshake(&handshake_reply()).unwrap();
    let a = s.dispatch(BTMessage::Unchoke);
    let reqs = requests(&a);
    assert_eq!(reqs.len(), 14);
    assert_eq!(reqs[13], (3, 13 * 16384, 576));
    assert!(reqs.iter().all(|r| r.0 == 3));
    assert_eq!(s.outstanding, 14);
}

#[test]
fn short_handshake_fails_the_session() {
    let mut s = PeerSession::new(10, 5, vec![0]).unwrap();
    assert_eq!(
        s.on_handshake(&[19u8; 10]).unwrap_err(),
        SessionError::HandshakeIncomplete
    );
    assert_eq!(s.state, SessionState::Failed);
    assert_eq!(s.dispatch(BTMessage::Unchoke), vec![]);
}

#[test]
fn frame_error_fails_the_session() {
    let mut s = PeerSession::new(10, 5, vec![0, 1]).unwrap();
    s.dispatch(BTMessage::Unchoke);
    s.on_frame_error();
    assert_eq!(s.state, SessionState::Failed);
    assert!(s.is_finished());
}

#[test]
fn session_rejects_bad_geometry() {
    assert!(matches!(PeerSession::new(10, 0, vec![]), Err(PlanError::InvalidGeometry)));
    assert!(matches!(PeerSession::new(10, 5, vec![2]), Err(PlanError::NoSuchPiece)));
}

#[test]
fn ignored_messages_do_nothing() {
    let mut s = PeerSession::new(10, 5, vec![0]).unwrap();
    s.dispatch(BTMessage::Unchoke);
    for m in [
        BTMessage::Choke,
        BTMessage::Interested,
        BTMessage::NotInterested,
        BTMessage::Have(0),
        BTMessage::Request(0, 0, 1),
        BTMessage::Cancel(0, 0, 1),
        BTMessage::Unchoke,
    ] {
        assert_eq!(s.dispatch(m), vec![]);
    }
    assert_eq!(s.outstanding, 1);
    assert_eq!(s.state, SessionState::Draining);
}
