//! Metainfo model: the typed view over a decoded metainfo document and
//! its canonical content identifier, the SHA-1 digest of the canonical
//! re-encoding of the `info` sub-structure.
use vstd::prelude::*;
use crate::bencode::{
    BencodeValue, BencodeError, dict_lookup, dict_get, decode_value, spec_encode, spec_encode_str,
    dec_digits, spec_span, emit_str_field, emit_uint_field, lemma_encode_injective,
    lemma_value_eq_lookup,
};
use sha1::Digest;

verus! {

/// The `info` sub-structure of a metainfo document: content name, total
/// byte length, piece size, and the concatenated 20-byte piece hashes.
#[derive(Debug, Clone, PartialEq, Eq)]
pub struct TorrentInfo {
    pub length: u64,
    pub name: Vec<u8>,
    pub piece_length: u64,
    pub pieces: Vec<u8>,
}

/// A whole metainfo document: the coordination-server URL and the
/// `info` sub-structure.
#[derive(Debug, Clone, PartialEq, Eq)]
pub struct TorrentFile {
    pub announce: Vec<u8>,
    pub info: TorrentInfo,
}

/// The field whose absence or wrong kind made a document malformed.
#[derive(Debug, Clone, Copy, PartialEq, Eq, Structural)]
pub enum MetaField {
    Announce,
    Info,
    Name,
    Length,
    PieceLength,
    Pieces,
}

#[derive(Debug, Clone, Copy, PartialEq, Eq, Structural)]
pub enum MetainfoError {
    /// The document is not well-formed bencode.
    Bencode(BencodeError),
    /// Well-formed bencode followed by leftover bytes.
    TrailingData,
    /// A required field is absent or has the wrong kind.
    MalformedMetainfo(MetaField),
    /// The piece table's length is not a multiple of twenty.
    TruncatedPieceTable,
}

pub open spec fn key_announce() -> Seq<u8> {
    seq![97u8, 110u8, 110u8, 111u8, 117u8, 110u8, 99u8, 101u8]
}

pub open spec fn key_info() -> Seq<u8> {
    seq![105u8, 110u8, 102u8, 111u8]
}

pub open spec fn key_length() -> Seq<u8> {
    seq![108u8, 101u8, 110u8, 103u8, 116u8, 104u8]
}

pub open spec fn key_name() -> Seq<u8> {
    seq![110u8, 97u8, 109u8, 101u8]
}

pub open spec fn key_piece_length() -> Seq<u8> {
    seq![112u8, 105u8, 101u8, 99u8, 101u8, 32u8, 108u8, 101u8, 110u8, 103u8, 116u8, 104u8]
}

pub open spec fn key_pieces() -> Seq<u8> {
    seq![112u8, 105u8, 101u8, 99u8, 101u8, 115u8]
}

fn key_announce_vec() -> (r: Vec<u8>)
    ensures
        r@ == key_announce(),
{
    let mut v: Vec<u8> = Vec::new();
    v.push(97);
    v.push(110);
    v.push(110);
    v.push(111);
    v.push(117);
    v.push(110);
    v.push(99);
    v.push(101);
    proof {
        assert(v@ =~= key_announce());
    }
    v
}

fn key_info_vec() -> (r: Vec<u8>)
    ensures
        r@ == key_info(),
{
    let mut v: Vec<u8> = Vec::new();
    v.push(105);
    v.push(110);
    v.push(102);
    v.push(111);
    proof {
        assert(v@ =~= key_info());
    }
    v
}

fn key_length_vec() -> (r: Vec<u8>)
    ensures
        r@ == key_length(),
{
    let mut v: Vec<u8> = Vec::new();
    v.push(108);
    v.push(101);
    v.push(110);
    v.push(103);
    v.push(116);
    v.push(104);
    proof {
        assert(v@ =~= key_length());
    }
    v
}

fn key_name_vec() -> (r: Vec<u8>)
    ensures
        r@ == key_name(),
{
    let mut v: Vec<u8> = Vec::new();
    v.push(110);
    v.push(97);
    v.push(109);
    v.push(101);
    proof {
        assert(v@ =~= key_name());
    }
    v
}

fn key_piece_length_vec() -> (r: Vec<u8>)
    ensures
        r@ == key_piece_length(),
{
    let mut v: Vec<u8> = Vec::new();
    v.push(112);
    v.push(105);
    v.push(101);
    v.push(99);
    v.push(101);
    v.push(32);
    v.push(108);
    v.push(101);
    v.push(110);
    v.push(103);
    v.push(116);
    v.push(104);
    proof {
        assert(v@ =~= key_piece_length());
    }
    v
}

fn key_pieces_vec() -> (r: Vec<u8>)
    ensures
        r@ == key_pieces(),
{
    let mut v: Vec<u8> = Vec::new();
    v.push(112);
    v.push(105);
    v.push(101);
    v.push(99);
    v.push(101);
    v.push(115);
    proof {
        assert(v@ =~= key_pieces());
    }
    v
}

/// The canonical wire form of the `info` sub-structure: one dictionary
/// whose keys stand in lexicographic order.
pub open spec fn spec_info_bytes(info: TorrentInfo) -> Seq<u8> {
    seq![100u8] + spec_encode_str(key_length()) + seq![105u8] + dec_digits(info.length as nat)
        + seq![101u8] + spec_encode_str(key_name()) + spec_encode_str(info.name@)
        + spec_encode_str(key_piece_length()) + seq![105u8] + dec_digits(info.piece_length as nat)
        + seq![101u8] + spec_encode_str(key_pieces()) + spec_encode_str(info.pieces@) + seq![101u8]
}

/// Re-encodes the `info` sub-structure in its canonical form.
pub fn encode_info(info: &TorrentInfo) -> (r: Vec<u8>)
    ensures
        r@ == spec_info_bytes(*info),
{
    let mut out: Vec<u8> = Vec::new();
    out.push(100);
    let k_length = key_length_vec();
    emit_str_field(&mut out, k_length.as_slice());
    emit_uint_field(&mut out, info.length);
    let k_name = key_name_vec();
    emit_str_field(&mut out, k_name.as_slice());
    emit_str_field(&mut out, info.name.as_slice());
    let k_piece_length = key_piece_length_vec();
    emit_str_field(&mut out, k_piece_length.as_slice());
    emit_uint_field(&mut out, info.piece_length);
    let k_pieces = key_pieces_vec();
    emit_str_field(&mut out, k_pieces.as_slice());
    emit_str_field(&mut out, info.pieces.as_slice());
    out.push(101);
    proof {
        assert(out@ =~= spec_info_bytes(*info));
    }
    out
}

/// What an unforgeable name of the input bytes is: the SHA-1 digest.
pub uninterp spec fn sha1_of(data: Seq<u8>) -> Seq<u8>;

/// Relies on the sha1 crate (`Sha1` through the `Digest` trait): the
/// digest is exactly 20 bytes and is a function of the input bytes
/// alone.
#[verifier::external_body]
fn sha1_digest(data: &Vec<u8>) -> (r: Vec<u8>)
    ensures
        r@ == sha1_of(data@),
        r@.len() == 20,
{
    let mut hasher = sha1::Sha1::new();
    hasher.update(data.as_slice());
    hasher.finalize().to_vec()
}

/// The content identifier: the SHA-1 digest of the canonical
/// re-encoding of the `info` sub-structure, 20 raw bytes.
pub fn info_hash_generator(content: &TorrentFile) -> (r: Vec<u8>)
    ensures
        r@ == sha1_of(spec_info_bytes(content.info)),
        r@.len() == 20,
{
    let encoded = encode_info(&content.info);
    sha1_digest(&encoded)
}

/// The first required field, in checking order, that is absent or of
/// the wrong kind in the decoded document; `None` when the document
/// reads cleanly.
pub open spec fn spec_meta_fault(v: BencodeValue) -> Option<MetaField> {
    match v {
        BencodeValue::Dict(top) => {
            if dict_lookup(top@, key_announce()) matches Some(BencodeValue::ByteString(_)) {
                match dict_lookup(top@, key_info()) {
                    Some(BencodeValue::Dict(inf)) => spec_info_fault(inf@),
                    _ => Some(MetaField::Info),
                }
            } else {
                Some(MetaField::Announce)
            }
        },
        _ => Some(MetaField::Announce),
    }
}

pub open spec fn spec_info_fault(inf: Seq<(Vec<u8>, BencodeValue)>) -> Option<MetaField> {
    if !(dict_lookup(inf, key_name()) matches Some(BencodeValue::ByteString(_))) {
        Some(MetaField::Name)
    } else if !(dict_lookup(inf, key_length()) matches Some(BencodeValue::Integer(l)) && l >= 0) {
        Some(MetaField::Length)
    } else if !(dict_lookup(inf, key_piece_length()) matches Some(BencodeValue::Integer(p)) && p
        >= 0) {
        Some(MetaField::PieceLength)
    } else if !(dict_lookup(inf, key_pieces()) matches Some(BencodeValue::ByteString(_))) {
        Some(MetaField::Pieces)
    } else {
        None
    }
}

/// `t` is the typed reading of the decoded document `v`.
pub open spec fn spec_torrent_matches(v: BencodeValue, t: TorrentFile) -> bool {
    &&& v matches BencodeValue::Dict(top)
    &&& dict_lookup(top@, key_announce()) matches Some(BencodeValue::ByteString(a)) && a@
        == t.announce@
    &&& dict_lookup(top@, key_info()) matches Some(BencodeValue::Dict(inf)) && spec_info_matches(
        inf@, t.info)
}

pub open spec fn spec_info_matches(inf: Seq<(Vec<u8>, BencodeValue)>, i: TorrentInfo) -> bool {
    &&& dict_lookup(inf, key_name()) matches Some(BencodeValue::ByteString(n)) && n@ == i.name@
    &&& dict_lookup(inf, key_length()) matches Some(BencodeValue::Integer(l)) && l >= 0 && l
        as int == i.length as int
    &&& dict_lookup(inf, key_piece_length()) matches Some(BencodeValue::Integer(p)) && p >= 0 && p
        as int == i.piece_length as int
    &&& dict_lookup(inf, key_pieces()) matches Some(BencodeValue::ByteString(ps)) && ps@
        == i.pieces@
}

/// Reads the typed fields out of a decoded document; fails exactly when
/// a required field is absent or of the wrong kind.
pub fn torrent_from_value(v: &BencodeValue) -> (r: Result<TorrentFile, MetainfoError>)
    ensures
        r matches Ok(t) ==> spec_torrent_matches(*v, t),
        r is Err ==> !(exists|t: TorrentFile| spec_torrent_matches(*v, t)),
        r matches Err(e) ==> e matches MetainfoError::MalformedMetainfo(_),
        r matches Err(MetainfoError::MalformedMetainfo(f)) ==> spec_meta_fault(*v) == Some(f),
{
    let top: &Vec<(Vec<u8>, BencodeValue)> = match v {
        BencodeValue::Dict(top) => top,
        _ => {
            return Err(MetainfoError::MalformedMetainfo(MetaField::Announce));
        },
    };
    let k_announce = key_announce_vec();
    let announce: Vec<u8> = match dict_get(top, k_announce.as_slice()) {
        Some(BencodeValue::ByteString(a)) => crate::bencode::copy_bytes(a),
        _ => {
            return Err(MetainfoError::MalformedMetainfo(MetaField::Announce));
        },
    };
    let k_info = key_info_vec();
    let inf: &Vec<(Vec<u8>, BencodeValue)> = match dict_get(top, k_info.as_slice()) {
        Some(BencodeValue::Dict(inf)) => inf,
        _ => {
            return Err(MetainfoError::MalformedMetainfo(MetaField::Info));
        },
    };
    let k_name = key_name_vec();
    let name: Vec<u8> = match dict_get(inf, k_name.as_slice()) {
        Some(BencodeValue::ByteString(n)) => crate::bencode::copy_bytes(n),
        _ => {
            return Err(MetainfoError::MalformedMetainfo(MetaField::Name));
        },
    };
    let k_length = key_length_vec();
    let length: u64 = match dict_get(inf, k_length.as_slice()) {
        Some(BencodeValue::Integer(l)) => {
            if *l >= 0 {
                *l as u64
            } else {
                return Err(MetainfoError::MalformedMetainfo(MetaField::Length));
            }
        },
        _ => {
            return Err(MetainfoError::MalformedMetainfo(MetaField::Length));
        },
    };
    let k_piece_length = key_piece_length_vec();
    let piece_length: u64 = match dict_get(inf, k_piece_length.as_slice()) {
        Some(BencodeValue::Integer(p)) => {
            if *p >= 0 {
                *p as u64
            } else {
                return Err(MetainfoError::MalformedMetainfo(MetaField::PieceLength));
            }
        },
        _ => {
            return Err(MetainfoError::MalformedMetainfo(MetaField::PieceLength));
        },
    };
    let k_pieces = key_pieces_vec();
    let pieces: Vec<u8> = match dict_get(inf, k_pieces.as_slice()) {
        Some(BencodeValue::ByteString(ps)) => crate::bencode::copy_bytes(ps),
        _ => {
            return Err(MetainfoError::MalformedMetainfo(MetaField::Pieces));
        },
    };
    Ok(TorrentFile { announce, info: TorrentInfo { length, name, piece_length, pieces } })
}

/// Decodes a whole metainfo document and reads its typed fields.
pub fn parse_torrent_file(bytes: &[u8]) -> (r: Result<TorrentFile, MetainfoError>)
    ensures
        r matches Ok(t) ==> exists|v: BencodeValue|
            #[trigger] spec_torrent_matches(v, t) && spec_encode(v) == bytes@,
        r matches Err(MetainfoError::Bencode(_)) ==> spec_span(bytes@, 0) is None,
        r matches Err(MetainfoError::TrailingData) ==> !(spec_span(bytes@, 0) == Some(
            bytes@.len() as int)),
        r matches Err(e) ==> (e matches MetainfoError::Bencode(_) || e
            matches MetainfoError::TrailingData || e matches MetainfoError::MalformedMetainfo(_)),
        r matches Err(MetainfoError::MalformedMetainfo(f)) ==> exists|v: BencodeValue|
            #[trigger] spec_encode(v) == bytes@ && spec_meta_fault(v) == Some(f) && !(exists|
            t: TorrentFile| spec_torrent_matches(v, t)),
{
    let (value, end) = match decode_value(bytes, 0) {
        Ok(p) => p,
        Err(e) => {
            return Err(MetainfoError::Bencode(e));
        },
    };
    if end != bytes.len() {
        return Err(MetainfoError::TrailingData);
    }
    proof {
        assert(bytes@.subrange(0, bytes@.len() as int) =~= bytes@);
    }
    torrent_from_value(&value)
}

/// Splits the piece table into its 20-byte hash entries, in their
/// original order; fails exactly when the table's length is not a
/// multiple of twenty.
pub fn piece_hashes(info: &TorrentInfo) -> (r: Result<Vec<Vec<u8>>, MetainfoError>)
    ensures
        info.pieces@.len() % 20 == 0 ==> (r matches Ok(h) && h@.len() == info.pieces@.len() / 20
            && forall|k: int| 0 <= k < h@.len() ==> (#[trigger] h@[k])@ == info.pieces@.subrange(
            20 * k, 20 * k + 20)),
        info.pieces@.len() % 20 != 0 ==> (r matches Err(e) && e
            == MetainfoError::TruncatedPieceTable),
{
    let total: usize = info.pieces.len();
    if total % 20 != 0 {
        return Err(MetainfoError::TruncatedPieceTable);
    }
    let count: usize = total / 20;
    let mut out: Vec<Vec<u8>> = Vec::new();
    let mut k: usize = 0;
    while k < count
        invariant
            0 <= k <= count,
            count == info.pieces@.len() / 20,
            info.pieces@.len() % 20 == 0,
            total == info.pieces@.len(),
            out@.len() == k,
            forall|m: int| 0 <= m < k ==> (#[trigger] out@[m])@ == info.pieces@.subrange(
                20 * m, 20 * m + 20),
        decreases count - k,
    {
        assert(20 * (k as int) + 20 <= info.pieces@.len()) by (nonlinear_arith)
            requires
                0 <= (k as int) && (k as int) < (count as int),
                count == info.pieces@.len() / 20,
                info.pieces@.len() % 20 == 0,
        ;
        let piece = vstd::slice::slice_to_vec(
            vstd::slice::slice_subrange(info.pieces.as_slice(), 20 * k, 20 * k + 20),
        );
        out.push(piece);
        k += 1;
    }
    Ok(out)
}

/// Content identifier stability: the identifier is a function of the
/// decoded wire form alone. Two documents with the same wire form
/// carry `info` fields that re-encode to the same canonical bytes, so
/// they name the same 20-byte identifier.
pub proof fn lemma_content_identifier_stable(
    v1: BencodeValue,
    v2: BencodeValue,
    t1: TorrentFile,
    t2: TorrentFile,
)
    requires
        spec_encode(v1) == spec_encode(v2),
        spec_torrent_matches(v1, t1),
        spec_torrent_matches(v2, t2),
    ensures
        spec_info_bytes(t1.info) == spec_info_bytes(t2.info),
        sha1_of(spec_info_bytes(t1.info)) == sha1_of(spec_info_bytes(t2.info)),
{
    lemma_encode_injective(v1, v2);
    match (v1, v2) {
        (BencodeValue::Dict(c1), BencodeValue::Dict(c2)) => {
            lemma_value_eq_lookup(c1@, c2@, key_info());
            match (dict_lookup(c1@, key_info()), dict_lookup(c2@, key_info())) {
                (Some(BencodeValue::Dict(inf1)), Some(BencodeValue::Dict(inf2))) => {
                    lemma_value_eq_lookup(inf1@, inf2@, key_name());
                    lemma_value_eq_lookup(inf1@, inf2@, key_length());
                    lemma_value_eq_lookup(inf1@, inf2@, key_piece_length());
                    lemma_value_eq_lookup(inf1@, inf2@, key_pieces());
                    assert(t1.info.name@ == t2.info.name@);
                    assert(t1.info.pieces@ == t2.info.pieces@);
                    assert(t1.info.length == t2.info.length);
                    assert(t1.info.piece_length == t2.info.piece_length);
                    assert(spec_info_bytes(t1.info) == spec_info_bytes(t2.info));
                },
                _ => {
                    assert(false);
                },
            }
        },
        _ => {
            assert(false);
        },
    }
}

} // verus!
