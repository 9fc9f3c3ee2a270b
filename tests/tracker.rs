use torrent::bencode::{decode, Value};
use torrent::decimal::decimal_string;
use torrent::peer::PeerManager;
use torrent::planner::PlanError;
use torrent::tracker::{
    announce_query, parse_peers, tracker_url, peers_from_response, urlencode, Info, MetaData,
    MetaError, MetaField,
};

const TORRENT: &[u8] = b"d8:announce31:http://tracker.example/announce4:infod6:lengthi92063e4:name10:sample.txt12:piece lengthi32768e6:pieces60:aaaaaaaaaaaaaaaaaaaabbbbbbbbbbbbbbbbbbbbcccccccccccccccccccceee";

#[test]
fn metadata_fields() {
    let m = MetaData::new(decode(TORRENT).unwrap()).unwrap();
    assert_eq!(m.announce, "http://tracker.example/announce");
    assert_eq!(m.info.name, "sample.txt");
    assert_eq!(m.info.length, 92063);
    assert_eq!(m.info.piece_length, 32768);
    assert_eq!(m.info.piece_count(), 3);
    assert_eq!(m.info.hashes()[1], "62".repeat(20));
    assert_eq!(m.info.geometry(), Ok((92063, 32768)));
}

#[test]
fn metadata_errors() {
    assert_eq!(MetaData::new(Value::Int(1)).unwrap_err(), MetaError::NotADictionary);
    assert_eq!(
        MetaData::new(decode(b"d4:infodee").unwrap()).unwrap_err(),
        MetaError::Missing(MetaField::Announce)
    );
    assert_eq!(
        MetaData::new(decode(b"d8:announce1:\xffe").unwrap()).unwrap_err(),
        MetaError::InvalidUtf8(MetaField::Announce)
    );
    assert_eq!(
        MetaData::new(decode(b"d8:announce1:ue").unwrap()).unwrap_err(),
        MetaError::Missing(MetaField::Info)
    );
    let info = |s: &[u8]| match decode(s).unwrap() {
        Value::Dict(d) => Info::new(&d).map(|_| ()),
        _ => panic!("not a map"),
    };
    assert_eq!(info(b"de"), Err(MetaError::Missing(MetaField::Name)));
    assert_eq!(info(b"d4:name1:ne"), Err(MetaError::Missing(MetaField::PieceLength)));
    assert_eq!(
        info(b"d4:name1:n12:piece lengthi1ee"),
        Err(MetaError::Missing(MetaField::Length))
    );
    assert_eq!(
        info(b"d6:lengthi1e4:name1:n12:piece lengthi1ee"),
        Err(MetaError::Missing(MetaField::Pieces))
    );
    assert_eq!(
        info(b"d6:lengthi1e4:name1:n12:piece lengthi1e6:pieces3:abce"),
        Err(MetaError::BadPieceHashes)
    );
}

#[test]
fn geometry_rejects_bad_lengths() {
    let info = Info { length: -1, name: "x".to_string(), piece_length: 5, pieces: vec![] };
    assert_eq!(info.geometry(), Err(PlanError::InvalidGeometry));
    let info = Info { length: 1, name: "x".to_string(), piece_length: 0, pieces: vec![] };
    assert_eq!(info.geometry(), Err(PlanError::InvalidGeometry));
}

#[test]
fn urlencode_escapes_reserved_bytes() {
    assert_eq!(urlencode(b"aZ9-_.~"), "aZ9-_.~");
    assert_eq!(urlencode(&[0x00, 0xab, b' ', b'/']), "%00%ab%20%2f");
    assert_eq!(decimal_string(0), "0");
    assert_eq!(decimal_string(18446744073709551615), "18446744073709551615");
}

#[test]
fn announce_query_text() {
    let q = announce_query(&[0x12, b'a'], b"00112233445566778899", 6881, 92063);
    assert_eq!(
        q,
        "info_hash=%12a&peer_id=00112233445566778899&port=6881&uploaded=0&downloaded=0&left=92063&compact=1"
    );
}

#[test]
fn compact_peers() {
    let peers = parse_peers(&[127, 0, 0, 1, 0x1a, 0xe1, 10, 1, 255, 3, 0, 80, 9]);
    assert_eq!(
        peers,
        vec![("127.0.0.1".to_string(), 6881), ("10.1.255.3".to_string(), 80)]
    );
    let response = decode(b"d8:intervali60e5:peers6:\x7f\x00\x00\x01\x1a\xe1e").unwrap();
    assert_eq!(
        peers_from_response(&response).unwrap(),
        vec![("127.0.0.1".to_string(), 6881)]
    );
    assert_eq!(
        peers_from_response(&decode(b"de").unwrap()).unwrap_err(),
        MetaError::Missing(MetaField::Peers)
    );
    assert_eq!(peers_from_response(&Value::Int(0)).unwrap_err(), MetaError::NotADictionary);
}

#[test]
fn peer_manager_tracks_handshake() {
    let m = MetaData::new(decode(TORRENT).unwrap()).unwrap();
    let mut pm = PeerManager::new(m, vec![("1.2.3.4".to_string(), 80)]);
    assert!(!pm.finished_handshake());
    assert_eq!(pm.first_peer(), Some(&("1.2.3.4".to_string(), 80)));
    assert!(pm.record_handshake(&[0u8; 10]).is_err());
    assert!(!pm.finished_handshake());
    assert!(pm.record_handshake(&[0u8; 68]).is_ok());
    assert!(pm.finished_handshake());
}

#[test]
fn info_encoding_is_canonical() {
    let v = decode(b"d4:infod1:bi1e1:ai2ee1:xi0ee").unwrap();
    assert_eq!(
        torrent::tracker::info_encoding(&v).unwrap(),
        b"d1:ai2e1:bi1ee".to_vec()
    );
    assert_eq!(
        torrent::tracker::info_encoding(&decode(b"de").unwrap()).unwrap_err(),
        MetaError::Missing(MetaField::Info)
    );
}

#[test]
fn tracker_url_sets_the_query() {
    let u = tracker_url("http://tracker.example/announce", &[0xff], b"ab", 6881, 10).unwrap();
    assert_eq!(
        u,
        "http://tracker.example/announce?info_hash=%ff&peer_id=ab&port=6881&uploaded=0&downloaded=0&left=10&compact=1"
    );
    let replaced = tracker_url("http://t.example/a?old=1", &[], b"", 1, 0).unwrap();
    assert!(replaced.starts_with("http://t.example/a?info_hash=&"));
    assert_eq!(
        tracker_url("not a url", &[], b"", 1, 0).unwrap_err(),
        MetaError::BadAnnounceUrl
    );
}

#[test]
fn info_hash_digests_the_info_map() {
    let v = decode(b"d4:infod1:ai1eee").unwrap();
    let h = torrent::tracker::info_hash(&v).unwrap();
    // SHA-1 of "d1:ai1ee"
    assert_eq!(
        torrent::messages::hex_string(&h),
        "f07b49d80353d8bc839cb1b2782f2eb8fc1ccdd2"
    );
    assert_eq!(
        torrent::tracker::info_hash(&Value::Int(1)).unwrap_err(),
        MetaError::NotADictionary
    );
}
