use sha1::{Digest, Sha1};
use torrent_core::metainfo::{encode_info, TorrentFile, TorrentInfo};
use torrent_core::tracker::{
    build_query, parse_peers, parse_tracker_response, percent_encode, PeerAddress, TrackerError,
    TrackerField, TrackerRequest,
};

fn percent_reference(data: &[u8]) -> Vec<u8> {
    let mut out = Vec::new();
    for &b in data {
        let plain = b.is_ascii_alphanumeric() || b == b'-' || b == b'.' || b == b'_' || b == b'~';
        if plain {
            out.push(b);
        } else {
            out.extend_from_slice(format!("%{:02X}", b).as_bytes());
        }
    }
    out
}

#[test]
fn parses_compact_peer_entry() {
    let peers = parse_peers(&[0x7F, 0x00, 0x00, 0x01, 0x1A, 0xE1]).unwrap();
    assert_eq!(peers.len(), 1);
    let p = peers[0];
    assert_eq!((p.ip0, p.ip1, p.ip2, p.ip3), (127, 0, 0, 1));
    assert_eq!(p.port, 6881);
}

#[test]
fn rejects_ragged_peer_list() {
    let e = parse_peers(&[0x7F, 0x00, 0x00, 0x01, 0x1A, 0xE1, 0x99]).unwrap_err();
    assert_eq!(e, TrackerError::InvalidPeerList);
}

#[test]
fn parses_whole_tracker_reply() {
    let mut doc = Vec::new();
    doc.extend_from_slice(b"d8:intervali900e5:peers6:");
    doc.extend_from_slice(&[10, 0, 0, 2, 0x00, 0x50]);
    doc.push(b'e');
    let (interval, peers) = parse_tracker_response(&doc).unwrap();
    assert_eq!(interval, 900);
    assert_eq!(
        peers,
        vec![PeerAddress { ip0: 10, ip1: 0, ip2: 0, ip3: 2, port: 80 }]
    );
}

#[test]
fn reply_missing_interval_is_reported() {
    let mut doc = Vec::new();
    doc.extend_from_slice(b"d5:peers0:e");
    let e = parse_tracker_response(&doc).unwrap_err();
    assert_eq!(e, TrackerError::MissingField(TrackerField::Interval));
}

#[test]
fn reply_with_mistyped_peers_is_reported() {
    let e = parse_tracker_response(b"d8:intervali900e5:peersi1ee").unwrap_err();
    assert_eq!(e, TrackerError::WrongFieldType(TrackerField::Peers));
}

#[test]
fn reply_that_is_not_bencode_is_reported() {
    let e = parse_tracker_response(b"nonsense").unwrap_err();
    assert!(matches!(e, TrackerError::Bencode(_)));
}

#[test]
fn reply_that_is_not_a_dict_is_reported() {
    let e = parse_tracker_response(b"i900e").unwrap_err();
    assert_eq!(e, TrackerError::NotADict);
}

#[test]
fn reply_with_trailing_bytes_is_reported() {
    let e = parse_tracker_response(b"d8:intervali900e5:peers0:ex").unwrap_err();
    assert_eq!(e, TrackerError::TrailingData);
}

#[test]
fn percent_encoding_is_exact() {
    assert_eq!(percent_encode(&[0x7F, 0x41, 0x2E]), b"%7FA.".to_vec());
    assert_eq!(percent_encode(b"AZaz09-._~"), b"AZaz09-._~".to_vec());
    assert_eq!(percent_encode(&[0x00, 0xFF, b' ']), b"%00%FF%20".to_vec());
}

#[test]
fn query_carries_raw_digest_bytes_percent_encoded() {
    let content = TorrentFile {
        announce: b"localhost".to_vec(),
        info: TorrentInfo {
            length: 92063,
            name: b"sample".to_vec(),
            piece_length: 32768,
            pieces: (0u8..60).collect(),
        },
    };
    let req = TrackerRequest {
        peer_id: b"00112233445566778899".to_vec(),
        port: 6881,
        uploaded: 0,
        downloaded: 0,
        left: 92063,
        compact: 1,
    };
    let query = build_query(&content, &req);

    let mut hasher = Sha1::new();
    hasher.update(&encode_info(&content.info));
    let digest = hasher.finalize();

    let mut expected = Vec::new();
    expected.extend_from_slice(b"info_hash=");
    expected.extend_from_slice(&percent_reference(&digest));
    expected.extend_from_slice(b"&peer_id=00112233445566778899");
    expected.extend_from_slice(b"&port=6881&uploaded=0&downloaded=0&left=92063&compact=1");
    assert_eq!(query, expected);
}
