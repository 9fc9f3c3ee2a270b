use torrent::messages::{hex_string, BTMessage, BTMessageFramer, FrameError, Handshake, HandshakeError};

fn round_trip(m: BTMessage) {
    let bytes = m.serialize().unwrap();
    let mut buf = bytes.clone();
    let mut framer = BTMessageFramer;
    let got = framer.decode(&mut buf).unwrap();
    assert_eq!(got, Some(m));
    assert!(buf.is_empty());
}

#[test]
fn every_message_reads_back_from_its_frame() {
    round_trip(BTMessage::Choke);
    round_trip(BTMessage::Unchoke);
    round_trip(BTMessage::Interested);
    round_trip(BTMessage::NotInterested);
    round_trip(BTMessage::Have(7));
    round_trip(BTMessage::Bitfield(vec![0b1010_0000, 0xff]));
    round_trip(BTMessage::Request(1, 16384, 16384));
    round_trip(BTMessage::Piece(2, 32768, vec![1, 2, 3]));
    round_trip(BTMessage::Cancel(3, 0, 1536));
}

#[test]
fn serialize_layouts() {
    assert_eq!(BTMessage::Interested.serialize().unwrap(), vec![0, 0, 0, 1, 2]);
    assert_eq!(
        BTMessage::Request(1, 2, 3).serialize().unwrap(),
        vec![0, 0, 0, 13, 6, 0, 0, 0, 1, 0, 0, 0, 2, 0, 0, 0, 3]
    );
    assert_eq!(
        BTMessage::Have(0x01020304).serialize().unwrap(),
        vec![0, 0, 0, 5, 4, 1, 2, 3, 4]
    );
    assert_eq!(
        BTMessage::Piece(0, 0, vec![9]).serialize().unwrap(),
        vec![0, 0, 0, 10, 7, 0, 0, 0, 0, 0, 0, 0, 0, 9]
    );
}

#[test]
fn keep_alive_is_consumed_without_a_message() {
    let mut framer = BTMessageFramer;
    let mut buf = vec![0u8, 0, 0, 0];
    assert_eq!(framer.decode(&mut buf), Ok(None));
    assert!(buf.is_empty());
}

#[test]
fn incomplete_frames_wait() {
    let mut framer = BTMessageFramer;
    let mut buf = vec![0u8, 0, 0];
    assert_eq!(framer.decode(&mut buf), Ok(None));
    assert_eq!(buf, vec![0, 0, 0]);
    let mut buf = vec![0u8, 0, 0, 5, 4, 0, 0];
    assert_eq!(framer.decode(&mut buf), Ok(None));
    assert_eq!(buf.len(), 7);
}

#[test]
fn frames_are_taken_one_at_a_time() {
    let mut framer = BTMessageFramer;
    let mut buf = vec![0u8, 0, 0, 1, 1, 0, 0, 0, 1, 0];
    assert_eq!(framer.decode(&mut buf), Ok(Some(BTMessage::Unchoke)));
    assert_eq!(buf, vec![0, 0, 0, 1, 0]);
    assert_eq!(framer.decode(&mut buf), Ok(Some(BTMessage::Choke)));
    assert!(buf.is_empty());
}

#[test]
fn frame_errors() {
    let mut framer = BTMessageFramer;
    let mut buf = vec![0u8, 0, 0, 1, 9];
    assert_eq!(framer.decode(&mut buf), Err(FrameError::UnknownMessageType(9)));
    assert!(buf.is_empty());
    let mut buf = vec![0u8, 0, 0, 3, 4, 0, 0];
    assert_eq!(framer.decode(&mut buf), Err(FrameError::TruncatedPayload));
    assert_eq!(BTMessage::new(6, vec![0; 11]), Err(FrameError::TruncatedPayload));
    assert_eq!(BTMessage::new(7, vec![0; 7]), Err(FrameError::TruncatedPayload));
    assert_eq!(BTMessage::new(200, vec![]), Err(FrameError::UnknownMessageType(200)));
}

#[test]
fn message_from_type_and_payload() {
    assert_eq!(BTMessage::new(4, vec![0, 0, 1, 0]), Ok(BTMessage::Have(256)));
    assert_eq!(BTMessage::new(5, vec![0x80]), Ok(BTMessage::Bitfield(vec![0x80])));
    assert_eq!(
        BTMessage::new(7, vec![0, 0, 0, 1, 0, 0, 0, 2, 5, 6]),
        Ok(BTMessage::Piece(1, 2, vec![5, 6]))
    );
}

#[test]
fn encode_appends_frames() {
    let mut framer = BTMessageFramer;
    let mut dst = vec![0xaa];
    framer.encode(BTMessage::Choke, &mut dst).unwrap();
    assert_eq!(dst, vec![0xaa, 0, 0, 0, 1, 0]);
}

#[test]
fn handshake_layout() {
    let h = Handshake::new(&[0u8; 20], &[0u8; 20]);
    let bytes = h.serialize();
    assert_eq!(bytes.len(), 68);
    assert_eq!(bytes[0], 19);
    assert_eq!(&bytes[1..20], b"BitTorrent protocol");
    assert!(bytes[20..68].iter().all(|b| *b == 0));
}

#[test]
fn handshake_reads_back() {
    let id: Vec<u8> = (1..=20).collect();
    let hash: Vec<u8> = (101..=120).collect();
    let h = Handshake::new(&id, &hash);
    let bytes = h.serialize();
    assert_eq!(&bytes[28..48], hash.as_slice());
    assert_eq!(&bytes[48..68], id.as_slice());
    let back = Handshake::deserialize(&bytes).unwrap();
    assert_eq!(back, h);
    assert_eq!(Handshake::deserialize(&bytes[..67]), Err(HandshakeError::ShortHandshake));
}

#[test]
fn peer_id_is_lower_hex() {
    let id: Vec<u8> = (0..20).map(|i| i * 13).collect();
    let h = Handshake::new(&id, &[0u8; 20]);
    assert_eq!(h.peer_id(), "000d1a2734414e5b6875828f9ca9b6c3d0ddeaf7");
    assert_eq!(hex_string(&[0xab, 0x01]), "ab01");
}

#[test]
fn handshake_description() {
    let h = Handshake::new(&[0xffu8; 20], &[1u8; 20]);
    assert_eq!(
        h.describe().unwrap(),
        format!(
            "Handshake[length: 19, protocol: 'BitTorrent protocol', reserved: 0, info_hash: {}, peer_id: {}]",
            "01".repeat(20),
            "ff".repeat(20)
        )
    );
    let mut odd = Handshake::new(&[0u8; 20], &[0u8; 20]);
    odd.protocol = vec![0xff; 19];
    assert_eq!(odd.describe(), None);
}
