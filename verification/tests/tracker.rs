use torrent_core::decode::{SyntaxError, SyntaxErrorKind};
use torrent_core::metainfo::parse_torrent;
use torrent_core::tracker::{
    build_announce_request, decode_tracker_response, deserialize_peers, push_number,
    read_announce_response, urlencode_bytes, AnnounceError, Peer, ProtocolError, TrackerResponse,
    TransportError,
};

fn sample_torrent() -> Vec<u8> {
    let pieces: Vec<u8> = (0..60).collect();
    [
        &b"d8:announce35:http://tracker.example.com/announce4:info"[..],
        b"d6:lengthi92063e4:name10:sample.txt12:piece lengthi32768e6:pieces60:",
        &pieces,
        b"ee",
    ]
    .concat()
}

#[test]
fn splits_compact_peers_in_order() {
    let payload = [10, 0, 0, 1, 0x1a, 0xe1, 192, 168, 1, 255, 0xff, 0xff];
    assert_eq!(
        deserialize_peers(&payload),
        Ok(vec![
            Peer { ip: [10, 0, 0, 1], port: 6881 },
            Peer { ip: [192, 168, 1, 255], port: 65535 },
        ])
    );
}

#[test]
fn port_is_big_endian() {
    assert_eq!(
        deserialize_peers(&[1, 2, 3, 4, 0x01, 0x00]),
        Ok(vec![Peer { ip: [1, 2, 3, 4], port: 256 }])
    );
    assert_eq!(
        deserialize_peers(&[1, 2, 3, 4, 0x00, 0x01]),
        Ok(vec![Peer { ip: [1, 2, 3, 4], port: 1 }])
    );
}

#[test]
fn no_peers_is_an_empty_list() {
    assert_eq!(deserialize_peers(&[]), Ok(vec![]));
}

#[test]
fn peers_are_not_deduplicated() {
    let payload = [1, 1, 1, 1, 0, 80, 1, 1, 1, 1, 0, 80];
    assert_eq!(deserialize_peers(&payload).unwrap().len(), 2);
}

#[test]
fn peers_of_a_length_that_six_does_not_divide_are_refused() {
    for len in [1usize, 5, 7, 11, 13] {
        assert_eq!(deserialize_peers(&vec![0; len]), Err(ProtocolError::PeersLength));
    }
    for len in [6usize, 12, 600] {
        assert_eq!(deserialize_peers(&vec![0; len]).unwrap().len(), len / 6);
    }
}

#[test]
fn decodes_a_tracker_response() {
    let body = [&b"d8:intervali1800e5:peers12:"[..], &[10, 0, 0, 1, 0x1a, 0xe1], &[
        127, 0, 0, 1, 0, 80,
    ], b"e"]
        .concat();
    assert_eq!(
        decode_tracker_response(&body),
        Ok(TrackerResponse {
            peers: vec![
                Peer { ip: [10, 0, 0, 1], port: 6881 },
                Peer { ip: [127, 0, 0, 1], port: 80 },
            ]
        })
    );
}

#[test]
fn response_without_peers_is_a_protocol_error() {
    assert_eq!(
        decode_tracker_response(b"d14:failure reason4:nopee"),
        Err(ProtocolError::MissingPeers)
    );
    assert_eq!(decode_tracker_response(b"de"), Err(ProtocolError::MissingPeers));
}

#[test]
fn response_in_non_compact_form_is_a_protocol_error() {
    assert_eq!(
        decode_tracker_response(b"d5:peersld2:ip7:1.2.3.44:porti6881eeee"),
        Err(ProtocolError::PeersNotCompact)
    );
}

#[test]
fn response_with_a_residual_fragment_is_a_protocol_error() {
    assert_eq!(decode_tracker_response(b"d5:peers7:abcdefge"), Err(ProtocolError::PeersLength));
}

#[test]
fn response_that_is_no_dictionary_is_a_protocol_error() {
    assert_eq!(decode_tracker_response(b"l5:peerse"), Err(ProtocolError::NotADictionary));
    assert_eq!(decode_tracker_response(b"6:abcdef"), Err(ProtocolError::NotADictionary));
}

#[test]
fn response_that_is_not_bencode_is_a_protocol_error() {
    assert_eq!(
        decode_tracker_response(b"<html>"),
        Err(ProtocolError::NotBencode(SyntaxError {
            kind: SyntaxErrorKind::UnexpectedByte,
            offset: 0
        }))
    );
    assert_eq!(
        decode_tracker_response(b"d5:peers6:abc"),
        Err(ProtocolError::NotBencode(SyntaxError {
            kind: SyntaxErrorKind::LengthOutOfBounds,
            offset: 8
        }))
    );
}

#[test]
fn every_byte_of_a_hash_is_escaped() {
    let hash: [u8; 20] = [
        0x00, 0x41, 0x7a, 0x30, 0x2d, 0xff, 0x10, 0x0f, 0xa0, 0x09, 0x20, 0x25, 0x7e, 0x80, 0xab,
        0xcd, 0xef, 0x01, 0x23, 0x45,
    ];
    assert_eq!(
        urlencode_bytes(&hash),
        "%00%41%7a%30%2d%ff%10%0f%a0%09%20%25%7e%80%ab%cd%ef%01%23%45"
    );
}

#[test]
fn numbers_are_written_in_decimal() {
    let mut out = String::from("n=");
    push_number(&mut out, 0);
    out.push(',');
    push_number(&mut out, 6881);
    out.push(',');
    push_number(&mut out, u64::MAX);
    assert_eq!(out, "n=0,6881,18446744073709551615");
}

#[test]
fn builds_the_announce_url() {
    let torrent = parse_torrent(&sample_torrent()).unwrap();
    let url = build_announce_request(&torrent, "00112233445566778899", 6881, 0, 0, 92063);
    assert_eq!(
        url,
        "http://tracker.example.com/announce\
         ?info_hash=%f5%19%c3%a2%41%44%a8%64%9e%58%ef%c3%e3%59%b5%1a%38%60%54%d6\
         &peer_id=00112233445566778899&port=6881&uploaded=0&downloaded=0&left=92063&compact=1"
    );
}

#[test]
fn announce_url_carries_the_numbers_given() {
    let torrent = parse_torrent(&sample_torrent()).unwrap();
    let url = build_announce_request(&torrent, "-XX0001-abcdefghijkl", 51413, 1024, 2048, 0);
    assert!(url.ends_with(
        "&peer_id=-XX0001-abcdefghijkl&port=51413&uploaded=1024&downloaded=2048&left=0&compact=1"
    ));
}

#[test]
fn status_that_is_no_success_is_a_transport_error() {
    let body = b"d5:peers0:e";
    for status in [0u16, 100, 199, 300, 404, 500, 65535] {
        assert_eq!(
            read_announce_response(status, body),
            Err(AnnounceError::Transport(TransportError::Status(status)))
        );
    }
    assert_ne!(
        AnnounceError::Transport(TransportError::Unreachable),
        AnnounceError::Transport(TransportError::Status(0))
    );
}

#[test]
fn successful_status_gives_the_peers_or_a_protocol_error() {
    for status in [200u16, 204, 299] {
        assert_eq!(
            read_announce_response(status, b"d5:peers6:\x01\x02\x03\x04\x00\x50e"),
            Ok(TrackerResponse { peers: vec![Peer { ip: [1, 2, 3, 4], port: 80 }] })
        );
        assert_eq!(
            read_announce_response(status, b"d5:peersi1ee"),
            Err(AnnounceError::Protocol(ProtocolError::PeersNotCompact))
        );
    }
}
