use sha1::{Digest, Sha1};
use torrent_core::metainfo::{
    encode_info, info_hash_generator, parse_torrent_file, piece_hashes, MetaField, MetainfoError,
    TorrentFile, TorrentInfo,
};

fn sample_info(pieces: Vec<u8>) -> TorrentInfo {
    TorrentInfo {
        length: 20,
        name: b"test".to_vec(),
        piece_length: 16384,
        pieces,
    }
}

fn sample_document(pieces: &[u8]) -> Vec<u8> {
    let mut doc = Vec::new();
    doc.extend_from_slice(b"d8:announce9:localhost4:infod6:lengthi20e4:name4:test12:piece lengthi16384e6:pieces");
    doc.extend_from_slice(format!("{}:", pieces.len()).as_bytes());
    doc.extend_from_slice(pieces);
    doc.extend_from_slice(b"ee");
    doc
}

#[test]
fn parses_whole_document() {
    let pieces: Vec<u8> = (0u8..20).collect();
    let doc = sample_document(&pieces);
    let t = parse_torrent_file(&doc).unwrap();
    assert_eq!(t.announce, b"localhost".to_vec());
    assert_eq!(t.info, sample_info(pieces));
}

#[test]
fn rejects_document_with_missing_field() {
    let doc = b"d8:announce9:localhost4:infod6:lengthi20e4:name4:testee";
    let e = parse_torrent_file(doc).unwrap_err();
    assert_eq!(e, MetainfoError::MalformedMetainfo(MetaField::PieceLength));
}

#[test]
fn rejects_document_with_mistyped_field() {
    let doc = b"d8:announcei5e4:infodee";
    let e = parse_torrent_file(doc).unwrap_err();
    assert_eq!(e, MetainfoError::MalformedMetainfo(MetaField::Announce));
}

#[test]
fn rejects_undecodable_document() {
    let e = parse_torrent_file(b"d8:announce").unwrap_err();
    assert!(matches!(e, MetainfoError::Bencode(_)));
}

#[test]
fn rejects_trailing_bytes() {
    let pieces: Vec<u8> = (0u8..20).collect();
    let mut doc = sample_document(&pieces);
    doc.push(b'x');
    let e = parse_torrent_file(&doc).unwrap_err();
    assert_eq!(e, MetainfoError::TrailingData);
}

#[test]
fn canonical_info_encoding_is_exact() {
    let info = sample_info(vec![0xAA; 20]);
    let mut expected = Vec::new();
    expected.extend_from_slice(b"d6:lengthi20e4:name4:test12:piece lengthi16384e6:pieces20:");
    expected.extend_from_slice(&[0xAA; 20]);
    expected.push(b'e');
    assert_eq!(encode_info(&info), expected);
}

#[test]
fn content_identifier_matches_direct_digest() {
    let t = TorrentFile {
        announce: b"localhost".to_vec(),
        info: sample_info((0u8..20).collect()),
    };
    let hash = info_hash_generator(&t);
    assert_eq!(hash.len(), 20);
    let mut hasher = Sha1::new();
    hasher.update(&encode_info(&t.info));
    let direct = hasher.finalize();
    assert_eq!(hash.as_slice(), &direct[..]);
}

#[test]
fn content_identifier_is_stable_across_decodes() {
    let pieces: Vec<u8> = (100u8..120).collect();
    let doc = sample_document(&pieces);
    let t1 = parse_torrent_file(&doc).unwrap();
    let t2 = parse_torrent_file(&doc).unwrap();
    assert_eq!(info_hash_generator(&t1), info_hash_generator(&t2));
}

#[test]
fn splits_pieces_in_order() {
    let mut pieces = Vec::new();
    pieces.extend_from_slice(&[1u8; 20]);
    pieces.extend_from_slice(&[2u8; 20]);
    pieces.extend_from_slice(&[3u8; 20]);
    let info = sample_info(pieces);
    let hashes = piece_hashes(&info).unwrap();
    assert_eq!(hashes.len(), 3);
    assert_eq!(hashes[0], vec![1u8; 20]);
    assert_eq!(hashes[1], vec![2u8; 20]);
    assert_eq!(hashes[2], vec![3u8; 20]);
}

#[test]
fn empty_piece_table_has_no_entries() {
    let info = sample_info(Vec::new());
    assert_eq!(piece_hashes(&info).unwrap().len(), 0);
}

#[test]
fn rejects_ragged_piece_table() {
    let info = sample_info(vec![7u8; 27]);
    let e = piece_hashes(&info).unwrap_err();
    assert_eq!(e, MetainfoError::TruncatedPieceTable);
}
