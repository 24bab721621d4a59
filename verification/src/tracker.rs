use vstd::prelude::*;
use crate::value::{SpecValue, Value};
use crate::codec::{spec_decode_top, dec_digits};
use crate::decode::{DecodeError, decode_bencoded_value};
use crate::encode::push_bytes;
use crate::chunks::{LengthError, spec_chunks, decode_chunks};
use crate::metainfo::dict_get;

verus! {

// The dictionary keys of the tracker response, as byte strings.
pub open spec fn key_interval() -> Seq<u8> {
    seq![105u8, 110u8, 116u8, 101u8, 114u8, 118u8, 97u8, 108u8]  // "interval"
}

pub open spec fn key_peers() -> Seq<u8> {
    seq![112u8, 101u8, 101u8, 114u8, 115u8]  // "peers"
}

fn interval_key() -> (k: Vec<u8>)
    ensures
        k@ == key_interval(),
{
    let k = vec![105u8, 110u8, 116u8, 101u8, 114u8, 118u8, 97u8, 108u8];
    proof {
        assert(k@ =~= key_interval());
    }
    k
}

fn peers_key() -> (k: Vec<u8>)
    ensures
        k@ == key_peers(),
{
    let k = vec![112u8, 101u8, 101u8, 114u8, 115u8];
    proof {
        assert(k@ =~= key_peers());
    }
    k
}

// The labels of the request query string, as byte strings.
pub open spec fn lbl_info_hash() -> Seq<u8> {
    seq![105u8, 110u8, 102u8, 111u8, 95u8, 104u8, 97u8, 115u8, 104u8, 61u8]  // "info_hash="
}

pub open spec fn lbl_peer_id() -> Seq<u8> {
    seq![38u8, 112u8, 101u8, 101u8, 114u8, 95u8, 105u8, 100u8, 61u8]  // "&peer_id="
}

pub open spec fn lbl_port() -> Seq<u8> {
    seq![38u8, 112u8, 111u8, 114u8, 116u8, 61u8]  // "&port="
}

pub open spec fn lbl_uploaded() -> Seq<u8> {
    seq![38u8, 117u8, 112u8, 108u8, 111u8, 97u8, 100u8, 101u8, 100u8, 61u8]  // "&uploaded="
}

pub open spec fn lbl_downloaded() -> Seq<u8> {
    seq![38u8, 100u8, 111u8, 119u8, 110u8, 108u8, 111u8, 97u8, 100u8, 101u8, 100u8, 61u8]  // "&downloaded="
}

pub open spec fn lbl_left() -> Seq<u8> {
    seq![38u8, 108u8, 101u8, 102u8, 116u8, 61u8]  // "&left="
}

pub open spec fn lbl_compact() -> Seq<u8> {
    seq![38u8, 99u8, 111u8, 109u8, 112u8, 97u8, 99u8, 116u8, 61u8]  // "&compact="
}

/// Bytes that stand for themselves in a URL query; all others are
/// escaped.
pub open spec fn is_unreserved(b: u8) -> bool {
    (48 <= b <= 57) || (65 <= b <= 90) || (97 <= b <= 122) || b == 45 || b == 46 || b == 95 || b
        == 126
}

/// The uppercase hexadecimal digit byte for a value below sixteen.
pub open spec fn hex_upper(n: int) -> u8 {
    if n < 10 {
        (48 + n) as u8
    } else {
        (55 + n) as u8
    }
}

/// Percent-encoding of one byte: itself when unreserved, else a percent
/// sign and two uppercase hexadecimal digits.
pub open spec fn pct_byte(b: u8) -> Seq<u8> {
    if is_unreserved(b) {
        seq![b]
    } else {
        seq![37u8, hex_upper(b as int / 16), hex_upper(b as int % 16)]
    }
}

/// Percent-encoding of a byte string, byte by byte: raw bytes are never
/// interpreted as text.
pub open spec fn pct(s: Seq<u8>) -> Seq<u8>
    decreases s.len(),
{
    if s.len() == 0 {
        Seq::empty()
    } else {
        pct_byte(s[0]) + pct(s.drop_first())
    }
}

/// The announce request: what is sent to the tracker, as query
/// parameters.
#[derive(Debug, Clone)]
pub struct TrackerRequest {
    /// The torrent's 20-byte identity.
    pub info_hash: [u8; 20],
    /// This peer's identifier, raw bytes.
    pub peer_id: Vec<u8>,
    pub port: u16,
    pub uploaded: usize,
    pub downloaded: usize,
    pub left: usize,
    /// Whether the compact peer-list form is requested.
    pub compact: u8,
}

/// The query string the request encodes to: every field under its
/// standard key, raw-byte fields percent-encoded byte by byte, numbers
/// in decimal.
pub open spec fn spec_query(r: TrackerRequest) -> Seq<u8> {
    lbl_info_hash() + pct(r.info_hash@) + lbl_peer_id() + pct(r.peer_id@) + lbl_port()
        + dec_digits(r.port as nat) + lbl_uploaded() + dec_digits(r.uploaded as nat)
        + lbl_downloaded() + dec_digits(r.downloaded as nat) + lbl_left() + dec_digits(
        r.left as nat,
    ) + lbl_compact() + dec_digits(r.compact as nat)
}

/// Append the percent-encoding of `bytes[i..]`.
fn push_pct_from(out: &mut Vec<u8>, bytes: &[u8], i: usize)
    requires
        i <= bytes@.len(),
    ensures
        final(out)@ == old(out)@ + pct(bytes@.skip(i as int)),
    decreases bytes@.len() - i,
{
    let ghost s = bytes@.skip(i as int);
    if i == bytes.len() {
        proof {
            assert(out@ =~= old(out)@ + pct(s));
        }
    } else {
        proof {
            assert(s[0] == bytes@[i as int]);
            assert(s.drop_first() =~= bytes@.skip(i + 1));
        }
        let b = bytes[i];
        if (48 <= b && b <= 57) || (65 <= b && b <= 90) || (97 <= b && b <= 122) || b == 45 || b
            == 46 || b == 95 || b == 126 {
            out.push(b);
        } else {
            out.push(37);
            let hi = b / 16;
            let lo = b % 16;
            out.push(if hi < 10 {
                48 + hi
            } else {
                55 + hi
            });
            out.push(if lo < 10 {
                48 + lo
            } else {
                55 + lo
            });
        }
        push_pct_from(out, bytes, i + 1);
        proof {
            assert(out@ =~= old(out)@ + pct(s));
        }
    }
}

/// Encode the announce request as the query part of a URL, ASCII bytes.
/// The identity and the peer id are percent-encoded byte by byte, since
/// neither need be valid text.
pub fn encode_request(req: &TrackerRequest) -> (q: Vec<u8>)
    ensures
        q@ == spec_query(*req),
{
    let mut out: Vec<u8> = Vec::new();
    let mut lbl = vec![105u8, 110u8, 102u8, 111u8, 95u8, 104u8, 97u8, 115u8, 104u8, 61u8];
    proof {
        assert(lbl@ =~= lbl_info_hash());
    }
    push_bytes(&mut out, &lbl);
    push_pct_from(&mut out, req.info_hash.as_slice(), 0);
    lbl = vec![38u8, 112u8, 101u8, 101u8, 114u8, 95u8, 105u8, 100u8, 61u8];
    proof {
        assert(lbl@ =~= lbl_peer_id());
    }
    push_bytes(&mut out, &lbl);
    push_pct_from(&mut out, req.peer_id.as_slice(), 0);
    lbl = vec![38u8, 112u8, 111u8, 114u8, 116u8, 61u8];
    proof {
        assert(lbl@ =~= lbl_port());
    }
    push_bytes(&mut out, &lbl);
    crate::encode::push_u64_dec(&mut out, req.port as u64);
    lbl = vec![38u8, 117u8, 112u8, 108u8, 111u8, 97u8, 100u8, 101u8, 100u8, 61u8];
    proof {
        assert(lbl@ =~= lbl_uploaded());
    }
    push_bytes(&mut out, &lbl);
    crate::encode::push_u64_dec(&mut out, req.uploaded as u64);
    lbl = vec![38u8, 100u8, 111u8, 119u8, 110u8, 108u8, 111u8, 97u8, 100u8, 101u8, 100u8, 61u8];
    proof {
        assert(lbl@ =~= lbl_downloaded());
    }
    push_bytes(&mut out, &lbl);
    crate::encode::push_u64_dec(&mut out, req.downloaded as u64);
    lbl = vec![38u8, 108u8, 101u8, 102u8, 116u8, 61u8];
    proof {
        assert(lbl@ =~= lbl_left());
    }
    push_bytes(&mut out, &lbl);
    crate::encode::push_u64_dec(&mut out, req.left as u64);
    lbl = vec![38u8, 99u8, 111u8, 109u8, 112u8, 97u8, 99u8, 116u8, 61u8];
    proof {
        assert(lbl@ =~= lbl_compact());
    }
    push_bytes(&mut out, &lbl);
    crate::encode::push_u64_dec(&mut out, req.compact as u64);
    proof {
        assert(req.info_hash@.skip(0) =~= req.info_hash@);
        assert(req.peer_id@.skip(0) =~= req.peer_id@);
        assert(out@ =~= spec_query(*req));
    }
    out
}

/// One peer of a compact tracker response: four address bytes and a
/// port, read big-endian from a six-byte record.
#[derive(Clone, Copy, Debug)]
pub struct Peer {
    pub ip: [u8; 4],
    pub port: u16,
}

/// What a six-byte record stands for: the address bytes and the port.
pub open spec fn spec_peer_of(c: Seq<u8>) -> (Seq<u8>, int) {
    (c.take(4), c[4] * 256 + c[5])
}

/// The peers of a tracker response, in response order.
#[derive(Debug, Clone)]
pub struct Peers(pub Vec<Peer>);

impl View for Peers {
    type V = Seq<(Seq<u8>, int)>;

    open spec fn view(&self) -> Seq<(Seq<u8>, int)> {
        self.0@.map_values(|p: Peer| (p.ip@, p.port as int))
    }
}

/// The tracker's answer: how long to wait before asking again, and the
/// peer list.
#[derive(Debug, Clone)]
pub struct TrackerResponse {
    pub interval: usize,
    pub peers: Peers,
}

impl View for TrackerResponse {
    type V = (int, Seq<(Seq<u8>, int)>);

    open spec fn view(&self) -> (int, Seq<(Seq<u8>, int)>) {
        (self.interval as int, self.peers@)
    }
}

/// The six-byte record a peer serializes back to: the address bytes,
/// then the port big-endian.
pub open spec fn peer_record(p: (Seq<u8>, int)) -> Seq<u8> {
    p.0 + seq![(p.1 / 256) as u8, (p.1 % 256) as u8]
}

/// Reading a six-byte record and serializing the peer again gives the
/// record back.
pub proof fn lemma_peer_record_of(c: Seq<u8>)
    requires
        c.len() == 6,
    ensures
        peer_record(spec_peer_of(c)) == c,
{
    let port = c[4] * 256 + c[5];
    assert(port / 256 == c[4] && port % 256 == c[5]) by (nonlinear_arith)
        requires
            port == c[4] * 256 + c[5],
            0 <= c[4] < 256,
            0 <= c[5] < 256,
    ;
    assert(peer_record(spec_peer_of(c)) =~= c);
}

/// Peers read out of a compact record string serialize back to exactly
/// that string: splitting into six-byte records, reading each peer, and
/// serializing every peer again is the identity.
pub proof fn lemma_peers_round_trip(pb: Seq<u8>)
    requires
        pb.len() % 6 == 0,
    ensures
        crate::chunks::spec_concat(
            spec_chunks(pb, 6).map_values(|c: Seq<u8>| spec_peer_of(c)).map_values(
                |p: (Seq<u8>, int)| peer_record(p),
            ),
        ) == pb,
{
    let cs = spec_chunks(pb, 6);
    let m = cs.map_values(|c: Seq<u8>| spec_peer_of(c)).map_values(
        |p: (Seq<u8>, int)| peer_record(p),
    );
    assert forall|i: int| 0 <= i < cs.len() implies m[i] == cs[i] by {
        let q = pb.len() / 6;
        vstd::arithmetic::div_mod::lemma_fundamental_div_mod(pb.len() as int, 6);
        vstd::arithmetic::mul::lemma_mul_inequality(i + 1, q as int, 6);
        assert(q as int * 6 == 6 * q) by (nonlinear_arith);
        assert((i + 1) * 6 <= pb.len());
        assert(cs[i] == pb.subrange(i * 6, (i + 1) * 6));
        assert(cs[i].len() == 6);
        lemma_peer_record_of(cs[i]);
    }
    assert(m =~= cs);
    crate::chunks::lemma_chunks_concat(pb, 6);
}

/// Serialize peers back into the compact six-byte-record form.
pub fn encode_peers(peers: &Peers) -> (r: Vec<u8>)
    ensures
        r@ == crate::chunks::spec_concat(peers@.map_values(|p: (Seq<u8>, int)| peer_record(p))),
{
    let mut out: Vec<u8> = Vec::new();
    encode_peers_from(peers, 0, &mut out);
    proof {
        let m = peers@.map_values(|p: (Seq<u8>, int)| peer_record(p));
        assert(m.skip(0) =~= m);
        assert(out@ =~= crate::chunks::spec_concat(m));
    }
    out
}

/// Append the records of `peers.0[i..]`, in order.
fn encode_peers_from(peers: &Peers, i: usize, out: &mut Vec<u8>)
    requires
        i <= peers.0@.len(),
    ensures
        final(out)@ == old(out)@ + crate::chunks::spec_concat(
            peers@.map_values(|p: (Seq<u8>, int)| peer_record(p)).skip(i as int),
        ),
    decreases peers.0@.len() - i,
{
    let ghost m = peers@.map_values(|p: (Seq<u8>, int)| peer_record(p));
    if i == peers.0.len() {
        proof {
            assert(crate::chunks::spec_concat(m.skip(i as int)) =~= Seq::<u8>::empty());
            assert(out@ =~= old(out)@ + crate::chunks::spec_concat(m.skip(i as int)));
        }
    } else {
        let p = &peers.0[i];
        out.push(p.ip[0]);
        out.push(p.ip[1]);
        out.push(p.ip[2]);
        out.push(p.ip[3]);
        out.push((p.port / 256) as u8);
        out.push((p.port % 256) as u8);
        encode_peers_from(peers, i + 1, out);
        proof {
            let s = m.skip(i as int);
            assert(s[0] == m[i as int]);
            assert(m[i as int] == peer_record((p.ip@, p.port as int)));
            assert(peer_record((p.ip@, p.port as int)) =~= seq![
                p.ip@[0],
                p.ip@[1],
                p.ip@[2],
                p.ip@[3],
                (p.port as int / 256) as u8,
                (p.port as int % 256) as u8,
            ]);
            assert(s.drop_first() =~= m.skip(i + 1));
            assert(out@ =~= old(out)@ + crate::chunks::spec_concat(s));
        }
    }
}

/// A required key of the tracker response that was absent or held a term
/// of the wrong kind.
#[derive(Clone, Copy, Debug, PartialEq, Eq, Structural)]
pub enum TrackerSchemaError {
    /// The top-level term is not a dictionary, or bytes follow it.
    NotADict,
    /// `interval` is absent, not an integer, or out of range.
    Interval,
    /// `peers` is absent or not a byte string.
    Peers,
}

/// Why a tracker response failed to decode.
#[derive(Clone, Copy, Debug, PartialEq, Eq, Structural)]
pub enum TrackerError {
    Decode(DecodeError),
    Schema(TrackerSchemaError),
    Length(LengthError),
}

/// What a tracker response must decode to: the interval and the peers,
/// each six-byte record split into address and big-endian port.
pub open spec fn spec_parse_response(s: Seq<u8>) -> Option<(int, Seq<(Seq<u8>, int)>)> {
    match spec_decode_top(s) {
        Some((SpecValue::Dict(es), rest)) => {
            if rest.len() != 0 {
                None
            } else {
                match (dict_get(es, key_interval()), dict_get(es, key_peers())) {
                    (Some(SpecValue::Int(iv)), Some(SpecValue::Bytes(pb))) => {
                        if !(0 <= iv <= usize::MAX) {
                            None
                        } else if pb.len() % 6 != 0 {
                            None
                        } else {
                            Some(
                                (iv, spec_chunks(pb, 6).map_values(|c: Seq<u8>| spec_peer_of(c))),
                            )
                        }
                    },
                    _ => None,
                }
            }
        },
        _ => None,
    }
}

/// Decode a tracker response body. Succeeds exactly on the inputs the
/// schema admits: a bencode dictionary filling the whole input, with an
/// `interval` integer and a `peers` byte string of six-byte records.
pub fn decode_response(bytes: &[u8]) -> (r: Result<TrackerResponse, TrackerError>)
    ensures
        match r {
            Ok(resp) => spec_parse_response(bytes@) == Some(resp@),
            Err(_) => spec_parse_response(bytes@) is None,
        },
{
    let (v, end) = match decode_bencoded_value(bytes) {
        Ok(pair) => pair,
        Err(e) => {
            return Err(TrackerError::Decode(e));
        },
    };
    if end != bytes.len() {
        proof {
            assert(bytes@.skip(end as int).len() != 0);
        }
        return Err(TrackerError::Schema(TrackerSchemaError::NotADict));
    }
    proof {
        assert(bytes@.skip(end as int).len() == 0);
    }
    match &v {
        Value::Dict(es) => {
            let interval: usize = match crate::metainfo::dict_find(es, &interval_key()) {
                Some(Value::Int(iv)) => {
                    if *iv < 0 || (*iv as u64) > (usize::MAX as u64) {
                        return Err(TrackerError::Schema(TrackerSchemaError::Interval));
                    }
                    *iv as usize
                },
                _ => {
                    return Err(TrackerError::Schema(TrackerSchemaError::Interval));
                },
            };
            match crate::metainfo::dict_find(es, &peers_key()) {
                Some(Value::Bytes(pb)) => {
                    let cs = match decode_chunks(pb.as_slice(), 6) {
                        Ok(cs) => cs,
                        Err(e) => {
                            return Err(TrackerError::Length(e));
                        },
                    };
                    let mut peers: Vec<Peer> = Vec::new();
                    let ghost cm = cs@.map_values(|c: Vec<u8>| c@);
                    proof {
                        assert forall|j: int| 0 <= j < cs@.len() implies (#[trigger] cs@[j])@.len()
                            == 6 by {
                            assert(cm[j] == spec_chunks(pb@, 6)[j]);
                        }
                    }
                    let mut i: usize = 0;
                    while i < cs.len()
                        invariant
                            i <= cs@.len(),
                            peers@.len() == i,
                            cm == cs@.map_values(|c: Vec<u8>| c@),
                            cm == spec_chunks(pb@, 6),
                            forall|j: int| 0 <= j < cs@.len() ==> (#[trigger] cs@[j])@.len() == 6,
                            forall|j: int|
                                0 <= j < i ==> (
                                (#[trigger] peers@[j]).ip@,
                                peers@[j].port as int,
                                ) == spec_peer_of(cm[j]),
                        decreases cs@.len() - i,
                    {
                        let c = &cs[i];
                        let p = Peer {
                            ip: [c[0], c[1], c[2], c[3]],
                            port: (c[4] as u16) * 256 + (c[5] as u16),
                        };
                        proof {
                            assert(p.ip@ =~= c@.take(4));
                        }
                        peers.push(p);
                        i = i + 1;
                    }
                    let resp = TrackerResponse { interval, peers: Peers(peers) };
                    proof {
                        assert(resp.peers@ =~= spec_chunks(pb@, 6).map_values(
                            |c: Seq<u8>| spec_peer_of(c),
                        ));
                    }
                    Ok(resp)
                },
                _ => Err(TrackerError::Schema(TrackerSchemaError::Peers)),
            }
        },
        _ => Err(TrackerError::Schema(TrackerSchemaError::NotADict)),
    }
}

} // verus!
