use torrent_core::decode::{SyntaxError, SyntaxErrorKind};
use torrent_core::metainfo::{parse_torrent, MetainfoError, Torrent};
use torrent_core::schema::{Field, File, FileLayout, SchemaError};
use torrent_core::value::BencodeValue;

fn pieces(n: usize) -> Vec<u8> {
    (0..n).map(|i| i as u8).collect()
}

fn join(parts: &[&[u8]]) -> Vec<u8> {
    parts.concat()
}

fn byte_string(bytes: &[u8]) -> Vec<u8> {
    join(&[bytes.len().to_string().as_bytes(), b":", bytes])
}

fn single_file_info() -> Vec<u8> {
    join(&[
        b"d6:lengthi92063e4:name10:sample.txt12:piece lengthi32768e6:pieces",
        &byte_string(&pieces(60)),
        b"e",
    ])
}

fn torrent_with(announce: &str, info: &[u8]) -> Vec<u8> {
    join(&[b"d8:announce", &byte_string(announce.as_bytes()), b"4:info", info, b"e"])
}

fn sample() -> Torrent {
    parse_torrent(&torrent_with("http://tracker.example.com/announce", &single_file_info()))
        .unwrap()
}

fn schema_error(input: &[u8]) -> SchemaError {
    match parse_torrent(input) {
        Err(MetainfoError::Schema(e)) => e,
        other => panic!("expected a schema error, got {:?}", other),
    }
}

fn info_error(info: &[u8]) -> SchemaError {
    schema_error(&torrent_with("http://t/a", info))
}

fn hex(bytes: &[u8]) -> String {
    bytes.iter().map(|b| format!("{:02x}", b)).collect()
}

#[test]
fn parses_a_single_file_torrent() {
    let torrent = sample();
    assert_eq!(torrent.announce(), "http://tracker.example.com/announce");
    assert_eq!(torrent.info().name(), "sample.txt");
    assert_eq!(torrent.info().piece_length(), 32768);
    assert_eq!(torrent.info().pieces(), &pieces(60));
    assert_eq!(torrent.info().layout(), &FileLayout::SingleFile { length: 92063 });
    assert_eq!(torrent.length(), Some(92063));
}

#[test]
fn parses_a_multi_file_torrent() {
    let info = join(&[
        b"d5:filesld6:lengthi10e4:pathl3:dir5:a.txteed6:lengthi32e4:pathl5:b.bineee",
        b"4:name3:set12:piece lengthi16384e6:pieces",
        &byte_string(&pieces(20)),
        b"e",
    ]);
    let torrent = parse_torrent(&torrent_with("http://t/a", &info)).unwrap();
    assert_eq!(
        torrent.info().layout(),
        &FileLayout::MultiFile {
            files: vec![
                File { length: 10, path: vec!["dir".to_string(), "a.txt".to_string()] },
                File { length: 32, path: vec!["b.bin".to_string()] },
            ]
        }
    );
    assert_eq!(torrent.length(), Some(42));
    assert_eq!(torrent.info().name(), "set");
}

#[test]
fn total_length_of_no_files_is_zero() {
    let info = join(&[
        b"d5:filesle4:name1:n12:piece lengthi1e6:pieces0:e",
    ]);
    let torrent = parse_torrent(&torrent_with("http://t/a", &info)).unwrap();
    assert_eq!(torrent.length(), Some(0));
    assert!(torrent.piece_hashes().is_empty());
    assert!(torrent.pieces_hash().is_empty());
}

#[test]
fn total_length_that_does_not_fit_is_absent() {
    let file = b"d6:lengthi9223372036854775807e4:pathl1:xee";
    let info = join(&[
        b"d5:filesl",
        file,
        file,
        file,
        b"e4:name1:n12:piece lengthi1e6:pieces0:e",
    ]);
    match parse_torrent(&torrent_with("http://t/a", &info)) {
        Ok(torrent) => assert_eq!(torrent.length(), None),
        Err(e) => {
            assert_eq!(usize::BITS, 32);
            assert_eq!(e, MetainfoError::Schema(SchemaError::OutOfRange(Field::FileLength)));
        }
    }
}

#[test]
fn length_decides_the_layout_when_files_is_there_too() {
    let info = join(&[
        b"d5:filesle6:lengthi5e4:name1:n12:piece lengthi1e6:pieces0:e",
    ]);
    let torrent = parse_torrent(&torrent_with("http://t/a", &info)).unwrap();
    assert_eq!(torrent.info().layout(), &FileLayout::SingleFile { length: 5 });
}

#[test]
fn text_may_be_any_utf8() {
    let info = join(&[
        b"d6:lengthi1e4:name",
        &byte_string("na\u{ef}ve \u{2603}".as_bytes()),
        b"12:piece lengthi1e6:pieces0:e",
    ]);
    let torrent = parse_torrent(&torrent_with("http://t/\u{e9}", &info)).unwrap();
    assert_eq!(torrent.info().name(), "na\u{ef}ve \u{2603}");
    assert_eq!(torrent.announce(), "http://t/\u{e9}");
}

#[test]
fn what_follows_the_dictionary_is_not_looked_at() {
    let mut input = torrent_with("http://t/a", &single_file_info());
    input.extend_from_slice(b"trailing");
    assert_eq!(parse_torrent(&input).unwrap().length(), Some(92063));
}

#[test]
fn input_that_is_not_bencode_is_a_syntax_error() {
    assert_eq!(
        parse_torrent(b"d8:announce").map(|_| ()),
        Err(MetainfoError::Syntax(SyntaxError {
            kind: SyntaxErrorKind::UnexpectedEnd,
            offset: 11
        }))
    );
    assert_eq!(
        parse_torrent(b"").map(|_| ()),
        Err(MetainfoError::Syntax(SyntaxError { kind: SyntaxErrorKind::UnexpectedEnd, offset: 0 }))
    );
}

#[test]
fn root_must_be_a_dictionary() {
    assert_eq!(schema_error(b"le"), SchemaError::WrongKind(Field::Root));
    assert_eq!(schema_error(b"i1e"), SchemaError::WrongKind(Field::Root));
}

#[test]
fn announce_is_required_and_must_be_text() {
    assert_eq!(schema_error(b"de"), SchemaError::Missing(Field::Announce));
    assert_eq!(schema_error(b"d8:announcei1ee"), SchemaError::WrongKind(Field::Announce));
    let input = join(&[b"d8:announce2:", &[0xc3, 0x28], b"e"]);
    assert_eq!(schema_error(&input), SchemaError::NotText(Field::Announce));
}

#[test]
fn info_is_required_and_must_be_a_dictionary() {
    assert_eq!(schema_error(b"d8:announce1:ae"), SchemaError::Missing(Field::Info));
    assert_eq!(info_error(b"le"), SchemaError::WrongKind(Field::Info));
}

#[test]
fn name_is_required_and_must_be_text() {
    assert_eq!(info_error(b"de"), SchemaError::Missing(Field::Name));
    assert_eq!(info_error(b"d4:namei1ee"), SchemaError::WrongKind(Field::Name));
    let info = join(&[b"d4:name1:", &[0xff], b"e"]);
    assert_eq!(info_error(&info), SchemaError::NotText(Field::Name));
}

#[test]
fn piece_length_is_required_and_must_be_a_positive_integer() {
    assert_eq!(info_error(b"d4:name1:ne"), SchemaError::Missing(Field::PieceLength));
    assert_eq!(
        info_error(b"d4:name1:n12:piece length1:xe"),
        SchemaError::WrongKind(Field::PieceLength)
    );
    assert_eq!(
        info_error(b"d4:name1:n12:piece lengthi0ee"),
        SchemaError::OutOfRange(Field::PieceLength)
    );
    assert_eq!(
        info_error(b"d4:name1:n12:piece lengthi-1ee"),
        SchemaError::OutOfRange(Field::PieceLength)
    );
}

#[test]
fn pieces_is_required_and_must_be_whole_digests() {
    assert_eq!(
        info_error(b"d4:name1:n12:piece lengthi1ee"),
        SchemaError::Missing(Field::Pieces)
    );
    assert_eq!(
        info_error(b"d4:name1:n12:piece lengthi1e6:piecesi1ee"),
        SchemaError::WrongKind(Field::Pieces)
    );
    let info = join(&[
        b"d6:lengthi1e4:name1:n12:piece lengthi1e6:pieces",
        &byte_string(&pieces(21)),
        b"e",
    ]);
    assert_eq!(info_error(&info), SchemaError::PiecesLength);
    let info = join(&[
        b"d6:lengthi1e4:name1:n12:piece lengthi1e6:pieces",
        &byte_string(&pieces(19)),
        b"e",
    ]);
    assert_eq!(info_error(&info), SchemaError::PiecesLength);
}

#[test]
fn layout_is_required() {
    assert_eq!(
        info_error(b"d4:name1:n12:piece lengthi1e6:pieces0:e"),
        SchemaError::Missing(Field::Layout)
    );
    assert_eq!(
        info_error(b"d6:length1:x4:name1:n12:piece lengthi1e6:pieces0:e"),
        SchemaError::WrongKind(Field::Length)
    );
    assert_eq!(
        info_error(b"d6:lengthi-5e4:name1:n12:piece lengthi1e6:pieces0:e"),
        SchemaError::OutOfRange(Field::Length)
    );
    assert_eq!(
        info_error(b"d5:filesi1e4:name1:n12:piece lengthi1e6:pieces0:e"),
        SchemaError::WrongKind(Field::Files)
    );
}

#[test]
fn files_must_describe_files() {
    let with_files = |files: &[u8]| {
        info_error(&join(&[b"d5:filesl", files, b"e4:name1:n12:piece lengthi1e6:pieces0:e"]))
    };
    assert_eq!(with_files(b"i1e"), SchemaError::WrongKind(Field::File));
    assert_eq!(with_files(b"de"), SchemaError::Missing(Field::FileLength));
    assert_eq!(with_files(b"d6:lengthlee"), SchemaError::WrongKind(Field::FileLength));
    assert_eq!(with_files(b"d6:lengthi-1ee"), SchemaError::OutOfRange(Field::FileLength));
    assert_eq!(with_files(b"d6:lengthi1ee"), SchemaError::Missing(Field::FilePath));
    assert_eq!(with_files(b"d6:lengthi1e4:path1:xe"), SchemaError::WrongKind(Field::FilePath));
    assert_eq!(
        with_files(b"d6:lengthi1e4:pathl1:ai2eee"),
        SchemaError::WrongKind(Field::FilePath)
    );
    let bad_text = join(&[b"d6:lengthi1e4:pathl1:", &[0x80], b"ee"]);
    assert_eq!(with_files(&bad_text), SchemaError::NotText(Field::FilePath));
    assert_eq!(
        with_files(b"d6:lengthi1e4:pathl1:aeed6:lengthi1ee"),
        SchemaError::Missing(Field::FilePath)
    );
}

#[test]
fn info_hash_is_the_sha1_of_the_encoded_info() {
    let torrent = sample();
    assert_eq!(torrent.encoded_info(), single_file_info());
    assert_eq!(hex(&torrent.hash_info()), "f519c3a24144a8649e58efc3e359b51a386054d6");
}

#[test]
fn info_hash_is_the_same_when_computed_again() {
    let input = torrent_with("http://tracker.example.com/announce", &single_file_info());
    let first = parse_torrent(&input).unwrap();
    let second = parse_torrent(&input).unwrap();
    assert_eq!(first.hash_info(), first.hash_info());
    assert_eq!(first.hash_info(), second.hash_info());
}

#[test]
fn info_hash_does_not_depend_on_the_announce() {
    let a = parse_torrent(&torrent_with("http://one.example/announce", &single_file_info()));
    let b = parse_torrent(&torrent_with("udp://two.example:6969", &single_file_info()));
    assert_eq!(a.unwrap().hash_info(), b.unwrap().hash_info());
}

#[test]
fn info_hash_changes_with_a_byte_of_pieces() {
    let mut changed = pieces(60);
    changed[0] = 1;
    let info = join(&[
        b"d6:lengthi92063e4:name10:sample.txt12:piece lengthi32768e6:pieces",
        &byte_string(&changed),
        b"e",
    ]);
    let torrent = parse_torrent(&torrent_with("http://t/a", &info)).unwrap();
    assert_eq!(hex(&torrent.hash_info()), "c7cc13e191d32f8b231d7d41ad1b79e5442f513e");
    assert_ne!(torrent.hash_info(), sample().hash_info());
}

#[test]
fn info_hash_covers_fields_that_are_not_modelled() {
    let info = join(&[
        b"d4:name10:sample.txt6:lengthi92063e7:privatei1e12:piece lengthi32768e6:pieces",
        &byte_string(&pieces(60)),
        b"e",
    ]);
    let torrent = parse_torrent(&torrent_with("http://t/a", &info)).unwrap();
    let canonical = join(&[
        b"d6:lengthi92063e4:name10:sample.txt12:piece lengthi32768e6:pieces",
        &byte_string(&pieces(60)),
        b"7:privatei1ee",
    ]);
    assert_eq!(torrent.encoded_info(), canonical);
    assert_eq!(hex(&torrent.hash_info()), "b3508f00fa3396f2b4bc31f773ae7c4025f95a95");
    match torrent.info().dict() {
        BencodeValue::Dictionary(entries) => assert_eq!(entries.len(), 5),
        other => panic!("not a dictionary: {:?}", other),
    }
}

#[test]
fn piece_hashes_are_the_chunks_of_pieces() {
    let torrent = sample();
    let digests = torrent.piece_hashes();
    assert_eq!(digests.len(), 3);
    for (i, digest) in digests.iter().enumerate() {
        assert_eq!(&digest[..], &pieces(60)[20 * i..20 * i + 20]);
    }
}

#[test]
fn pieces_hash_is_hexadecimal() {
    assert_eq!(
        sample().pieces_hash(),
        vec![
            "000102030405060708090a0b0c0d0e0f10111213".to_string(),
            "1415161718191a1b1c1d1e1f2021222324252627".to_string(),
            "28292a2b2c2d2e2f303132333435363738393a3b".to_string(),
        ]
    );
}
