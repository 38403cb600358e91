//! The tracker announce: the request URL for a torrent, and the compact peer
//! list of the response.

use crate::ascii::{ascii_bytes, key_bytes};
use crate::decode::{decode_bencoded_value, parse_value, DecodeResult, Parsed, SyntaxError};
use crate::metainfo::{info_hash, Torrent};
use crate::primitives::{hex_digit, hex_encode, hex_text};
use crate::value::{dict_get, find_key, BencodeValue, Value};
use vstd::prelude::*;
use vstd::slice::slice_subrange;
use vstd::string::StringExecFns;

verus! {

/// A peer of the swarm: an IPv4 address, most significant byte first, and a
/// port.
#[derive(Debug, Clone, Copy, PartialEq, Eq)]
pub struct Peer {
    pub ip: [u8; 4],
    pub port: u16,
}

/// What a tracker answered to an announce.
#[derive(Debug, PartialEq, Eq)]
pub struct TrackerResponse {
    pub peers: Vec<Peer>,
}

/// Why a tracker's answer is not a compact peer list.
#[derive(Clone, Copy, Debug, PartialEq, Eq, Structural)]
pub enum ProtocolError {
    /// The body is not bencode.
    NotBencode(SyntaxError),
    /// The body is bencode, but no dictionary.
    NotADictionary,
    /// The dictionary has no `peers` key.
    MissingPeers,
    /// `peers` is not a byte string: the tracker did not answer in compact form.
    PeersNotCompact,
    /// The length of `peers` is not a multiple of six.
    PeersLength,
}

impl Peer {
    /// The peer is what the six bytes of `record` say: four bytes of address,
    /// then the port with its high byte first.
    pub open spec fn is_record(self, record: Seq<u8>) -> bool {
        &&& record.len() == 6
        &&& self.ip@ == record.subrange(0, 4)
        &&& self.port == record[4] * 256 + record[5]
    }
}

/// Every peer is the record at its place in `payload`, six bytes each.
pub open spec fn peers_of(peers: Seq<Peer>, payload: Seq<u8>) -> bool {
    &&& payload.len() == 6 * peers.len()
    &&& forall|i: int|
        0 <= i < peers.len() ==> (#[trigger] peers[i]).is_record(payload.subrange(6 * i, 6 * i + 6))
}

/// Splits a compact peer list into its peers, in order. A list whose length is
/// not a multiple of six is refused as a whole.
pub fn deserialize_peers(payload: &[u8]) -> (r: Result<Vec<Peer>, ProtocolError>)
    ensures
        match r {
            Ok(peers) => payload@.len() % 6 == 0 && peers_of(peers@, payload@),
            Err(e) => payload@.len() % 6 != 0 && e == ProtocolError::PeersLength,
        },
{
    if payload.len() % 6 != 0 {
        return Err(ProtocolError::PeersLength);
    }
    let count: usize = payload.len() / 6;
    let mut peers: Vec<Peer> = Vec::new();
    let mut i: usize = 0;
    while i < count
        invariant
            i <= count,
            payload@.len() == 6 * count,
            payload@.len() == payload.len(),
            peers@.len() == i,
            forall|k: int|
                0 <= k < i ==> (#[trigger] peers@[k]).is_record(
                    payload@.subrange(6 * k, 6 * k + 6),
                ),
        decreases count - i,
    {
        let at: usize = 6 * i;
        let ip: [u8; 4] = [payload[at], payload[at + 1], payload[at + 2], payload[at + 3]];
        let port: u16 = (payload[at + 4] as u16) * 256 + (payload[at + 5] as u16);
        let peer = Peer { ip, port };
        proof {
            let record = payload@.subrange(6 * i, 6 * i + 6);
            assert(peer.ip@ =~= record.subrange(0, 4));
            assert(peer.is_record(record));
        }
        peers.push(peer);
        i = i + 1;
    }
    Ok(peers)
}

/// The key under which a tracker gives its peers.
pub open spec fn peers_key() -> Seq<u8> {
    ascii_bytes("peers"@)
}

/// The compact peer list that a response body holds, or why it holds none:
/// the body has to begin with a bencode dictionary whose `peers` is a byte
/// string of a length that six divides. What follows the dictionary is not
/// looked at.
pub open spec fn compact_peers(body: Seq<u8>) -> Result<Seq<u8>, ProtocolError> {
    match parse_value(body, 0) {
        Parsed::Failed { kind, at } => Err(
            ProtocolError::NotBencode(SyntaxError { kind, offset: at as usize }),
        ),
        Parsed::Done { value: Value::Dict(entries), .. } => match dict_get(entries, peers_key()) {
            None => Err(ProtocolError::MissingPeers),
            Some(Value::Bytes(payload)) => if payload.len() % 6 == 0 {
                Ok(payload)
            } else {
                Err(ProtocolError::PeersLength)
            },
            Some(_) => Err(ProtocolError::PeersNotCompact),
        },
        Parsed::Done { .. } => Err(ProtocolError::NotADictionary),
    }
}

/// Decodes the body of a tracker's answer into its peers, in the order of the
/// records.
pub fn decode_tracker_response(body: &[u8]) -> (r: Result<TrackerResponse, ProtocolError>)
    ensures
        match r {
            Ok(response) => compact_peers(body@) matches Ok(payload) && peers_of(
                response.peers@,
                payload,
            ),
            Err(e) => compact_peers(body@) == Err::<Seq<u8>, ProtocolError>(e),
        },
{
    let decoded = match decode_bencoded_value(body) {
        Ok(decoded) => decoded,
        Err(e) => {
            return Err(ProtocolError::NotBencode(e));
        },
    };
    let DecodeResult(value, _) = decoded;
    match value {
        BencodeValue::Dictionary(entries) => {
            proof {
                reveal_strlit("peers");
            }
            match find_key(&entries, key_bytes("peers")) {
                None => Err(ProtocolError::MissingPeers),
                Some(at) => match &entries[at].1 {
                    BencodeValue::ByteString(payload) => match deserialize_peers(
                        payload.as_slice(),
                    ) {
                        Ok(peers) => Ok(TrackerResponse { peers }),
                        Err(e) => Err(e),
                    },
                    _ => Err(ProtocolError::PeersNotCompact),
                },
            }
        },
        _ => Err(ProtocolError::NotADictionary),
    }
}

/// The bytes as they stand in a URL: every byte, whatever it is, as `%` and
/// its two hexadecimal digits.
pub open spec fn percent_encoding(bytes: Seq<u8>) -> Seq<char>
    decreases bytes.len(),
{
    if bytes.len() == 0 {
        Seq::empty()
    } else {
        percent_encoding(bytes.drop_last()) + seq![
            '%',
            hex_digit(bytes.last() as int / 16),
            hex_digit(bytes.last() as int % 16),
        ]
    }
}

/// Writes the twenty bytes of a hash for a URL, each byte escaped.
pub fn urlencode_bytes(v: &[u8; 20]) -> (encoded: String)
    ensures
        encoded@ == percent_encoding(v@),
{
    let mut encoded = String::new();
    let mut i: usize = 0;
    assert(v@.take(0) =~= Seq::<u8>::empty());
    while i < 20
        invariant
            i <= 20,
            encoded@ == percent_encoding(v@.take(i as int)),
        decreases 20 - i,
    {
        proof {
            reveal_strlit("%");
        }
        encoded.append("%");
        let digits = hex_encode(slice_subrange(v.as_slice(), i, i + 1));
        encoded.append(digits.as_str());
        proof {
            let one = v@.subrange(i as int, i + 1);
            assert(one.drop_last() =~= Seq::<u8>::empty());
            assert(hex_text(one.drop_last()) =~= Seq::<char>::empty());
            assert(v@.take(i + 1).drop_last() =~= v@.take(i as int));
            assert("%"@ =~= seq!['%']);
            assert(encoded@ =~= percent_encoding(v@.take(i + 1)));
        }
        i = i + 1;
    }
    assert(v@.take(20) =~= v@);
    encoded
}

/// The character of a decimal digit.
pub open spec fn digit_char(d: int) -> char {
    seq!['0', '1', '2', '3', '4', '5', '6', '7', '8', '9'][d]
}

/// The shortest decimal numeral of `n`, as text.
pub open spec fn nat_text(n: nat) -> Seq<char>
    decreases n,
{
    if n < 10 {
        seq![digit_char(n as int)]
    } else {
        nat_text(n / 10).push(digit_char((n % 10) as int))
    }
}

/// The text of one decimal digit.
fn digit_str(d: u64) -> (text: &'static str)
    requires
        d < 10,
    ensures
        text@ == seq![digit_char(d as int)],
{
    proof {
        reveal_strlit("0");
        reveal_strlit("1");
        reveal_strlit("2");
        reveal_strlit("3");
        reveal_strlit("4");
        reveal_strlit("5");
        reveal_strlit("6");
        reveal_strlit("7");
        reveal_strlit("8");
        reveal_strlit("9");
    }
    let text = if d == 0 {
        "0"
    } else if d == 1 {
        "1"
    } else if d == 2 {
        "2"
    } else if d == 3 {
        "3"
    } else if d == 4 {
        "4"
    } else if d == 5 {
        "5"
    } else if d == 6 {
        "6"
    } else if d == 7 {
        "7"
    } else if d == 8 {
        "8"
    } else {
        "9"
    };
    assert(text@ =~= seq![digit_char(d as int)]);
    text
}

/// Appends the decimal numeral of `n` to `out`.
pub fn push_number(out: &mut String, n: u64)
    ensures
        final(out)@ == old(out)@ + nat_text(n as nat),
    decreases n,
{
    if n >= 10 {
        push_number(out, n / 10);
    }
    out.append(digit_str(n % 10));
    assert(final(out)@ =~= old(out)@ + nat_text(n as nat));
}

/// Why the tracker could not be reached.
#[derive(Clone, Copy, Debug, PartialEq, Eq, Structural)]
pub enum TransportError {
    /// The HTTP exchange failed before any answer came.
    Unreachable,
    /// The tracker answered with a status outside 200 to 299.
    Status(u16),
}

/// Why an announce gave no peers.
#[derive(Clone, Copy, Debug, PartialEq, Eq, Structural)]
pub enum AnnounceError {
    /// The tracker could not be reached. The announce is not tried again here.
    Transport(TransportError),
    /// The tracker answered, but not with a compact peer list.
    Protocol(ProtocolError),
}

/// The HTTP status says that the request succeeded.
pub open spec fn is_success(status: u16) -> bool {
    200 <= status < 300
}

/// Reads what the HTTP exchange with the tracker gave: a status that is no
/// success is a transport error and the body is not looked at; otherwise the
/// body is decoded.
pub fn read_announce_response(status: u16, body: &[u8]) -> (r: Result<
    TrackerResponse,
    AnnounceError,
>)
    ensures
        match r {
            Ok(response) => is_success(status) && (compact_peers(body@) matches Ok(payload)
                && peers_of(response.peers@, payload)),
            Err(AnnounceError::Transport(e)) => !is_success(status) && e
                == TransportError::Status(status),
            Err(AnnounceError::Protocol(e)) => is_success(status) && compact_peers(body@)
                == Err::<Seq<u8>, ProtocolError>(e),
        },
{
    if status < 200 || status >= 300 {
        return Err(AnnounceError::Transport(TransportError::Status(status)));
    }
    match decode_tracker_response(body) {
        Ok(response) => Ok(response),
        Err(e) => Err(AnnounceError::Protocol(e)),
    }
}

/// The URL of an announce: the tracker's URL, then the query with the info
/// hash escaped byte for byte, the peer id as it is, the numbers in decimal,
/// and the demand for a compact answer.
pub open spec fn announce_url(
    announce: Seq<char>,
    info_hash: Seq<u8>,
    peer_id: Seq<char>,
    port: nat,
    uploaded: nat,
    downloaded: nat,
    left: nat,
) -> Seq<char> {
    announce + "?info_hash="@ + percent_encoding(info_hash) + "&peer_id="@ + peer_id + "&port="@
        + nat_text(port) + "&uploaded="@ + nat_text(uploaded) + "&downloaded="@ + nat_text(
        downloaded,
    ) + "&left="@ + nat_text(left) + "&compact=1"@
}

/// Builds the URL of the announce of `torrent` to its tracker.
pub fn build_announce_request(
    torrent: &Torrent,
    peer_id: &str,
    port: u16,
    uploaded: u64,
    downloaded: u64,
    left: u64,
) -> (url: String)
    ensures
        url@ == announce_url(
            torrent@.announce,
            info_hash(torrent@.info),
            peer_id@,
            port as nat,
            uploaded as nat,
            downloaded as nat,
            left as nat,
        ),
{
    let info_hash = torrent.hash_info();
    let escaped = urlencode_bytes(&info_hash);
    let mut url = String::from_str(torrent.announce().as_str());
    url.append("?info_hash=");
    url.append(escaped.as_str());
    url.append("&peer_id=");
    url.append(peer_id);
    url.append("&port=");
    push_number(&mut url, port as u64);
    url.append("&uploaded=");
    push_number(&mut url, uploaded);
    url.append("&downloaded=");
    push_number(&mut url, downloaded);
    url.append("&left=");
    push_number(&mut url, left);
    url.append("&compact=1");
    url
}

} // verus!
