//! Tracker client logic: building the coordination-server query string
//! and parsing the compact peer list out of the server's reply. The
//! HTTP transport itself is an outside collaborator.
use vstd::prelude::*;
use crate::bencode::{
    BencodeValue, BencodeError, dict_lookup, dict_get, decode_value, spec_encode, spec_span,
    dec_digits, encode_u64_digits, copy_bytes,
};
use crate::metainfo::{TorrentFile, spec_info_bytes, sha1_of, info_hash_generator};

verus! {

/// The parameters a participant reports when querying the tracker.
#[derive(Debug, Clone, PartialEq, Eq)]
pub struct TrackerRequest {
    pub peer_id: Vec<u8>,
    pub port: u16,
    pub uploaded: u64,
    pub downloaded: u64,
    pub left: u64,
    pub compact: u8,
}

/// The typed reading of a tracker reply: the poll interval and the raw
/// compact peer list (six bytes per participant).
#[derive(Debug, Clone, PartialEq, Eq)]
pub struct TrackerResponse {
    pub interval: u64,
    pub peers: Vec<u8>,
}

/// One participant: an IPv4 address and a port.
#[derive(Debug, Clone, Copy, PartialEq, Eq, Structural)]
pub struct PeerAddress {
    pub ip0: u8,
    pub ip1: u8,
    pub ip2: u8,
    pub ip3: u8,
    pub port: u16,
}

#[derive(Debug, Clone, Copy, PartialEq, Eq, Structural)]
pub enum TrackerField {
    Interval,
    Peers,
}

#[derive(Debug, Clone, Copy, PartialEq, Eq, Structural)]
pub enum TrackerError {
    /// The reply is not well-formed bencode.
    Bencode(BencodeError),
    /// Well-formed bencode followed by leftover bytes.
    TrailingData,
    /// The reply is not a dictionary.
    NotADict,
    /// A required key is absent.
    MissingField(TrackerField),
    /// A required key holds a value of the wrong kind.
    WrongFieldType(TrackerField),
    /// The compact peer list's length is not a multiple of six.
    InvalidPeerList,
}

pub open spec fn key_interval() -> Seq<u8> {
    seq![105u8, 110u8, 116u8, 101u8, 114u8, 118u8, 97u8, 108u8]
}

pub open spec fn key_peers() -> Seq<u8> {
    seq![112u8, 101u8, 101u8, 114u8, 115u8]
}

fn key_interval_vec() -> (r: Vec<u8>)
    ensures
        r@ == key_interval(),
{
    let mut v: Vec<u8> = Vec::new();
    v.push(105);
    v.push(110);
    v.push(116);
    v.push(101);
    v.push(114);
    v.push(118);
    v.push(97);
    v.push(108);
    proof {
        assert(v@ =~= key_interval());
    }
    v
}

fn key_peers_vec() -> (r: Vec<u8>)
    ensures
        r@ == key_peers(),
{
    let mut v: Vec<u8> = Vec::new();
    v.push(112);
    v.push(101);
    v.push(101);
    v.push(114);
    v.push(115);
    proof {
        assert(v@ =~= key_peers());
    }
    v
}

/// Bytes that stand for themselves in a query string; every other byte
/// is percent-encoded.
pub open spec fn is_unreserved(b: u8) -> bool {
    (48 <= b <= 57) || (65 <= b <= 90) || (97 <= b <= 122) || b == 45 || b == 46 || b == 95 || b
        == 126
}

/// An uppercase hexadecimal digit.
pub open spec fn hex_upper(n: u8) -> u8 {
    if n < 10 {
        (48 + n) as u8
    } else {
        (55 + n) as u8
    }
}

/// Percent-encoding of raw bytes: unreserved bytes stand as they are,
/// every other byte becomes a percent sign and two hexadecimal digits.
pub open spec fn spec_percent(s: Seq<u8>) -> Seq<u8>
    decreases s.len(),
{
    if s.len() == 0 {
        Seq::empty()
    } else {
        spec_percent_byte(s[0]) + spec_percent(s.drop_first())
    }
}

pub open spec fn spec_percent_byte(b: u8) -> Seq<u8> {
    if is_unreserved(b) {
        seq![b]
    } else {
        seq![37u8, hex_upper(b / 16), hex_upper(b % 16)]
    }
}

proof fn lemma_percent_push(s: Seq<u8>, b: u8)
    ensures
        spec_percent(s.push(b)) == spec_percent(s) + spec_percent_byte(b),
    decreases s.len(),
{
    if s.len() == 0 {
        assert(s.push(b).drop_first() =~= s);
        assert(spec_percent(s.push(b)) =~= spec_percent(s) + spec_percent_byte(b));
    } else {
        assert(s.push(b).drop_first() =~= s.drop_first().push(b));
        assert(s.push(b)[0] == s[0]);
        lemma_percent_push(s.drop_first(), b);
        assert(spec_percent(s.push(b)) =~= spec_percent(s) + spec_percent_byte(b));
    }
}

/// Percent-encodes raw bytes for a query string.
pub fn percent_encode(data: &[u8]) -> (r: Vec<u8>)
    ensures
        r@ == spec_percent(data@),
{
    let mut out: Vec<u8> = Vec::new();
    let mut i: usize = 0;
    proof {
        assert(data@.take(0) =~= Seq::<u8>::empty());
    }
    while i < data.len()
        invariant
            0 <= i <= data@.len(),
            out@ == spec_percent(data@.take(i as int)),
        decreases data@.len() - i,
    {
        let b: u8 = data[i];
        proof {
            lemma_percent_push(data@.take(i as int), b);
            assert(data@.take(i as int).push(b) =~= data@.take(i as int + 1));
        }
        if (48 <= b && b <= 57) || (65 <= b && b <= 90) || (97 <= b && b <= 122) || b == 45 || b
            == 46 || b == 95 || b == 126 {
            out.push(b);
        } else {
            out.push(37);
            let hi: u8 = b / 16;
            let lo: u8 = b % 16;
            out.push(if hi < 10 { 48 + hi } else { 55 + hi });
            out.push(if lo < 10 { 48 + lo } else { 55 + lo });
        }
        proof {
            assert(out@ =~= spec_percent(data@.take(i as int + 1)));
        }
        i += 1;
    }
    proof {
        assert(data@.take(data@.len() as int) =~= data@);
    }
    out
}

pub open spec fn qs_info_hash() -> Seq<u8> {
    seq![105u8, 110u8, 102u8, 111u8, 95u8, 104u8, 97u8, 115u8, 104u8, 61u8]
}

pub open spec fn qs_peer_id() -> Seq<u8> {
    seq![38u8, 112u8, 101u8, 101u8, 114u8, 95u8, 105u8, 100u8, 61u8]
}

pub open spec fn qs_port() -> Seq<u8> {
    seq![38u8, 112u8, 111u8, 114u8, 116u8, 61u8]
}

pub open spec fn qs_uploaded() -> Seq<u8> {
    seq![38u8, 117u8, 112u8, 108u8, 111u8, 97u8, 100u8, 101u8, 100u8, 61u8]
}

pub open spec fn qs_downloaded() -> Seq<u8> {
    seq![38u8, 100u8, 111u8, 119u8, 110u8, 108u8, 111u8, 97u8, 100u8, 101u8, 100u8, 61u8]
}

pub open spec fn qs_left() -> Seq<u8> {
    seq![38u8, 108u8, 101u8, 102u8, 116u8, 61u8]
}

pub open spec fn qs_compact() -> Seq<u8> {
    seq![38u8, 99u8, 111u8, 109u8, 112u8, 97u8, 99u8, 116u8, 61u8]
}

/// The whole tracker query string, over raw bytes: the percent-encoded
/// raw content identifier, the percent-encoded participant identifier,
/// and the decimal counters.
pub open spec fn spec_query(hash: Seq<u8>, req: TrackerRequest) -> Seq<u8> {
    qs_info_hash() + spec_percent(hash) + qs_peer_id() + spec_percent(req.peer_id@) + qs_port()
        + dec_digits(req.port as nat) + qs_uploaded() + dec_digits(req.uploaded as nat)
        + qs_downloaded() + dec_digits(req.downloaded as nat) + qs_left() + dec_digits(
        req.left as nat) + qs_compact() + dec_digits(req.compact as nat)
}

fn push_name(out: &mut Vec<u8>, a: u8, b: u8, c: u8, d: u8, e: u8, f: u8)
    ensures
        final(out)@ == old(out)@ + seq![a, b, c, d, e, f],
{
    out.push(a);
    out.push(b);
    out.push(c);
    out.push(d);
    out.push(e);
    out.push(f);
    proof {
        assert(out@ =~= old(out)@ + seq![a, b, c, d, e, f]);
    }
}

/// Builds the query string for the tracker from the metainfo document
/// and the participant's own parameters. The content identifier is
/// percent-encoded as raw digest bytes.
#[verifier::rlimit(50)]
pub fn build_query(content: &TorrentFile, req: &TrackerRequest) -> (r: Vec<u8>)
    ensures
        r@ == spec_query(sha1_of(spec_info_bytes(content.info)), *req),
{
    let hash = info_hash_generator(content);
    let mut out: Vec<u8> = Vec::new();
    // info_hash=
    push_name(&mut out, 105, 110, 102, 111, 95, 104);
    out.push(97);
    out.push(115);
    out.push(104);
    out.push(61);
    proof {
        assert(out@ =~= qs_info_hash());
    }
    let mut piece = percent_encode(hash.as_slice());
    out.append(&mut piece);
    // &peer_id=
    push_name(&mut out, 38, 112, 101, 101, 114, 95);
    out.push(105);
    out.push(100);
    out.push(61);
    let mut pid = percent_encode(req.peer_id.as_slice());
    out.append(&mut pid);
    // &port=
    out.push(38);
    out.push(112);
    out.push(111);
    out.push(114);
    out.push(116);
    out.push(61);
    let mut dport = encode_u64_digits(req.port as u64);
    out.append(&mut dport);
    // &uploaded=
    push_name(&mut out, 38, 117, 112, 108, 111, 97);
    out.push(100);
    out.push(101);
    out.push(100);
    out.push(61);
    let mut dup = encode_u64_digits(req.uploaded);
    out.append(&mut dup);
    // &downloaded=
    push_name(&mut out, 38, 100, 111, 119, 110, 108);
    push_name(&mut out, 111, 97, 100, 101, 100, 61);
    let mut ddown = encode_u64_digits(req.downloaded);
    out.append(&mut ddown);
    // &left=
    push_name(&mut out, 38, 108, 101, 102, 116, 61);
    let mut dleft = encode_u64_digits(req.left);
    out.append(&mut dleft);
    // &compact=
    push_name(&mut out, 38, 99, 111, 109, 112, 97);
    out.push(99);
    out.push(116);
    out.push(61);
    let mut dcompact = encode_u64_digits(req.compact as u64);
    out.append(&mut dcompact);
    proof {
        assert(out@ =~= spec_query(hash@, *req));
    }
    out
}

/// The participant that the six bytes at entry `k` of a compact peer
/// list describe: four address octets, then the port in network order.
pub open spec fn spec_peer_at(s: Seq<u8>, k: int) -> PeerAddress {
    PeerAddress {
        ip0: s[6 * k],
        ip1: s[6 * k + 1],
        ip2: s[6 * k + 2],
        ip3: s[6 * k + 3],
        port: (s[6 * k + 4] * 256 + s[6 * k + 5]) as u16,
    }
}

/// Splits a compact peer list into participant addresses; fails exactly
/// when the list's length is not a multiple of six.
pub fn parse_peers(peers: &[u8]) -> (r: Result<Vec<PeerAddress>, TrackerError>)
    ensures
        peers@.len() % 6 == 0 ==> (r matches Ok(list) && list@.len() == peers@.len() / 6
            && forall|k: int| 0 <= k < list@.len() ==> list@[k] == spec_peer_at(peers@, k)),
        peers@.len() % 6 != 0 ==> (r matches Err(e) && e == TrackerError::InvalidPeerList),
{
    let total: usize = peers.len();
    if total % 6 != 0 {
        return Err(TrackerError::InvalidPeerList);
    }
    let count: usize = total / 6;
    let mut out: Vec<PeerAddress> = Vec::new();
    let mut k: usize = 0;
    while k < count
        invariant
            0 <= k <= count,
            total == peers@.len(),
            count == peers@.len() / 6,
            peers@.len() % 6 == 0,
            out@.len() == k,
            forall|m: int| 0 <= m < k ==> out@[m] == spec_peer_at(peers@, m),
        decreases count - k,
    {
        assert(6 * (k as int) + 6 <= peers@.len()) by (nonlinear_arith)
            requires
                0 <= (k as int) && (k as int) < (count as int),
                count == peers@.len() / 6,
                peers@.len() % 6 == 0,
        ;
        let base: usize = 6 * k;
        let port: u16 = (peers[base + 4] as u16) * 256 + (peers[base + 5] as u16);
        let addr = PeerAddress {
            ip0: peers[base],
            ip1: peers[base + 1],
            ip2: peers[base + 2],
            ip3: peers[base + 3],
            port,
        };
        out.push(addr);
        k += 1;
    }
    Ok(out)
}

/// `t` is the typed reading of the decoded tracker reply `v`.
pub open spec fn spec_tracker_matches(v: BencodeValue, t: TrackerResponse) -> bool {
    &&& v matches BencodeValue::Dict(top)
    &&& dict_lookup(top@, key_interval()) matches Some(BencodeValue::Integer(n)) && n >= 0 && n
        == t.interval as i64
    &&& dict_lookup(top@, key_peers()) matches Some(BencodeValue::ByteString(p)) && p@ == t.peers@
}

/// Reads the typed fields out of a decoded tracker reply; fails exactly
/// when a key is absent or holds the wrong kind of value.
pub fn tracker_from_value(v: &BencodeValue) -> (r: Result<TrackerResponse, TrackerError>)
    ensures
        r matches Ok(t) ==> spec_tracker_matches(*v, t),
        r is Err ==> !(exists|t: TrackerResponse| spec_tracker_matches(*v, t)),
        r matches Err(e) ==> (e matches TrackerError::NotADict || e
            matches TrackerError::MissingField(_) || e matches TrackerError::WrongFieldType(_)),
{
    let top: &Vec<(Vec<u8>, BencodeValue)> = match v {
        BencodeValue::Dict(top) => top,
        _ => {
            return Err(TrackerError::NotADict);
        },
    };
    let k_interval = key_interval_vec();
    let interval: u64 = match dict_get(top, k_interval.as_slice()) {
        Some(BencodeValue::Integer(n)) => {
            if *n >= 0 {
                *n as u64
            } else {
                return Err(TrackerError::WrongFieldType(TrackerField::Interval));
            }
        },
        Some(_) => {
            return Err(TrackerError::WrongFieldType(TrackerField::Interval));
        },
        None => {
            return Err(TrackerError::MissingField(TrackerField::Interval));
        },
    };
    let k_peers = key_peers_vec();
    let peers: Vec<u8> = match dict_get(top, k_peers.as_slice()) {
        Some(BencodeValue::ByteString(p)) => copy_bytes(p),
        Some(_) => {
            return Err(TrackerError::WrongFieldType(TrackerField::Peers));
        },
        None => {
            return Err(TrackerError::MissingField(TrackerField::Peers));
        },
    };
    Ok(TrackerResponse { interval, peers })
}

/// Decodes a whole tracker reply and splits its compact peer list: the
/// poll interval and the participants, in their order on the wire.
pub fn parse_tracker_response(bytes: &[u8]) -> (r: Result<(u64, Vec<PeerAddress>), TrackerError>)
    ensures
        r matches Ok(p) ==> exists|v: BencodeValue, t: TrackerResponse|
            #[trigger] spec_tracker_matches(v, t) && spec_encode(v) == bytes@ && t.interval == p.0
                && t.peers@.len() % 6 == 0 && p.1@.len() == t.peers@.len() / 6 && (forall|k: int|
                0 <= k < p.1@.len() ==> p.1@[k] == spec_peer_at(t.peers@, k)),
        r matches Err(TrackerError::Bencode(_)) ==> spec_span(bytes@, 0) is None,
        r matches Err(TrackerError::TrailingData) ==> !(spec_span(bytes@, 0) == Some(
            bytes@.len() as int)),
        (r matches Err(TrackerError::NotADict) || r matches Err(TrackerError::MissingField(_))
            || r matches Err(TrackerError::WrongFieldType(_))) ==> exists|v: BencodeValue|
            #[trigger] spec_encode(v) == bytes@ && !(exists|t: TrackerResponse|
            spec_tracker_matches(v, t)),
        r matches Err(TrackerError::InvalidPeerList) ==> exists|v: BencodeValue, t: TrackerResponse|
            #[trigger] spec_tracker_matches(v, t) && spec_encode(v) == bytes@ && t.peers@.len() % 6
            != 0,
{
    let (value, end) = match decode_value(bytes, 0) {
        Ok(p) => p,
        Err(e) => {
            return Err(TrackerError::Bencode(e));
        },
    };
    if end != bytes.len() {
        return Err(TrackerError::TrailingData);
    }
    proof {
        assert(bytes@.subrange(0, bytes@.len() as int) =~= bytes@);
    }
    let resp = match tracker_from_value(&value) {
        Ok(t) => t,
        Err(e) => {
            return Err(e);
        },
    };
    let peers = match parse_peers(resp.peers.as_slice()) {
        Ok(list) => list,
        Err(e) => {
            return Err(e);
        },
    };
    Ok((resp.interval, peers))
}

} // verus!
