//! The metainfo model: a torrent read from the bytes of a `.torrent` file, its
//! info hash and its piece digests.

use crate::ascii::{ascii_bytes, key_bytes};
use crate::decode::{decode_bencoded_value, parse_value, DecodeResult, Parsed, SyntaxError};
use crate::encode::{canonical, encode, encoding};
use crate::primitives::{hex_encode, hex_text, sha1_digest, sha1_of};
use crate::properties::{lemma_canonical_lookup, lemma_encoding_is_injective};
use crate::schema::{
    files_length, files_view, info_of, lemma_files_length_prefix, read_layout, read_pieces,
    read_size, read_text, torrent_of, Field, FileLayout, FileModel, InfoModel, SchemaError,
    TorrentModel,
};
use crate::value::{dict_get, dict_lookup, dict_view, find_key, BencodeValue, Value};
use vstd::prelude::*;
use vstd::slice::slice_subrange;

verus! {

/// Why an input is no metainfo file.
#[derive(Clone, Copy, Debug, PartialEq, Eq, Structural)]
pub enum MetainfoError {
    /// The input is not bencode.
    Syntax(SyntaxError),
    /// The input is bencode, but no metainfo.
    Schema(SchemaError),
}

/// The torrent that the bytes of a metainfo file describe. The file has to
/// begin with a bencode value; what follows that value is not looked at.
pub open spec fn metainfo(bytes: Seq<u8>) -> Result<TorrentModel, MetainfoError> {
    match parse_value(bytes, 0) {
        Parsed::Failed { kind, at } => Err(
            MetainfoError::Syntax(SyntaxError { kind, offset: at as usize }),
        ),
        Parsed::Done { value, .. } => match torrent_of(value) {
            Err(e) => Err(MetainfoError::Schema(e)),
            Ok(torrent) => Ok(torrent),
        },
    }
}

/// The info of a torrent: the typed fields and the dictionary that they were
/// read from, kept whole so that encoding it again loses no field.
#[derive(Debug)]
pub struct Info {
    name: String,
    piece_length: usize,
    pieces: Vec<u8>,
    layout: FileLayout,
    dict: BencodeValue,
}

/// A torrent: the URL of its tracker, and its info.
#[derive(Debug)]
pub struct Torrent {
    announce: String,
    info: Info,
}

impl View for Info {
    type V = InfoModel;

    closed spec fn view(&self) -> InfoModel {
        InfoModel {
            name: self.name@,
            piece_length: self.piece_length as nat,
            pieces: self.pieces@,
            layout: self.layout@,
            dict: self.dict@,
        }
    }
}

impl View for Torrent {
    type V = TorrentModel;

    closed spec fn view(&self) -> TorrentModel {
        TorrentModel { announce: self.announce@, info: self.info@ }
    }
}

impl Info {
    /// The dictionary is well formed, and the typed fields are what it says.
    #[verifier::type_invariant]
    pub closed spec fn consistent(self) -> bool {
        self.dict@.wf() && info_of(self.dict@) == Ok::<InfoModel, SchemaError>(self@)
    }

    /// Reads the info that `value` describes, and keeps `value` in it.
    fn from_value(value: BencodeValue) -> (r: Result<Info, SchemaError>)
        requires
            value@.wf(),
        ensures
            match r {
                Ok(info) => info_of(value@) == Ok::<InfoModel, SchemaError>(info@),
                Err(e) => info_of(value@) == Err::<InfoModel, SchemaError>(e),
            },
    {
        let (name, piece_length, pieces, layout) = match &value {
            BencodeValue::Dictionary(entries) => {
                proof {
                    reveal_strlit("name");
                    reveal_strlit("piece length");
                    reveal_strlit("pieces");
                }
                let name = match read_text(dict_lookup(entries, key_bytes("name")), Field::Name) {
                    Ok(name) => name,
                    Err(e) => {
                        return Err(e);
                    },
                };
                let piece_length: usize = match read_size(
                    dict_lookup(entries, key_bytes("piece length")),
                    Field::PieceLength,
                    1,
                ) {
                    Ok(piece_length) => piece_length,
                    Err(e) => {
                        return Err(e);
                    },
                };
                let pieces = match read_pieces(dict_lookup(entries, key_bytes("pieces"))) {
                    Ok(pieces) => pieces,
                    Err(e) => {
                        return Err(e);
                    },
                };
                let layout = match read_layout(entries) {
                    Ok(layout) => layout,
                    Err(e) => {
                        return Err(e);
                    },
                };
                (name, piece_length, pieces, layout)
            },
            _ => {
                return Err(SchemaError::WrongKind(Field::Info));
            },
        };
        Ok(Info { name, piece_length, pieces, layout, dict: value })
    }
}

/// Reads the torrent that the bytes of a metainfo file describe.
pub fn parse_torrent(bytes: &[u8]) -> (r: Result<Torrent, MetainfoError>)
    ensures
        match r {
            Ok(torrent) => metainfo(bytes@) == Ok::<TorrentModel, MetainfoError>(torrent@),
            Err(e) => metainfo(bytes@) == Err::<TorrentModel, MetainfoError>(e),
        },
{
    let decoded = match decode_bencoded_value(bytes) {
        Ok(decoded) => decoded,
        Err(e) => {
            return Err(MetainfoError::Syntax(e));
        },
    };
    let DecodeResult(root, _) = decoded;
    match root {
        BencodeValue::Dictionary(mut entries) => {
            proof {
                reveal_strlit("announce");
                reveal_strlit("info");
            }
            let announce = match read_text(
                dict_lookup(&entries, key_bytes("announce")),
                Field::Announce,
            ) {
                Ok(announce) => announce,
                Err(e) => {
                    return Err(MetainfoError::Schema(e));
                },
            };
            match find_key(&entries, key_bytes("info")) {
                None => Err(MetainfoError::Schema(SchemaError::Missing(Field::Info))),
                Some(at) => {
                    assert(dict_view(entries@)[at as int].1.wf());
                    let (_, value) = entries.remove(at);
                    match Info::from_value(value) {
                        Ok(info) => Ok(Torrent { announce, info }),
                        Err(e) => Err(MetainfoError::Schema(e)),
                    }
                },
            }
        },
        _ => Err(MetainfoError::Schema(SchemaError::WrongKind(Field::Root))),
    }
}

/// The info hash of an info: the SHA-1 digest of the canonical encoding of its
/// dictionary.
pub open spec fn info_hash(info: InfoModel) -> Seq<u8> {
    sha1_of(encoding(info.dict))
}

/// The info hash is a function of the info alone: two torrents with the same
/// info have the same info hash, whatever their trackers.
pub proof fn lemma_info_hash_ignores_announce(a: TorrentModel, b: TorrentModel)
    requires
        a.info == b.info,
    ensures
        info_hash(a.info) == info_hash(b.info),
{
}

/// Two infos with different piece digests are hashed from different bytes.
/// Whether their hashes differ is SHA-1's matter.
pub proof fn lemma_pieces_change_encoded_info(a: InfoModel, b: InfoModel)
    requires
        a.dict.wf(),
        b.dict.wf(),
        info_of(a.dict) == Ok::<InfoModel, SchemaError>(a),
        info_of(b.dict) == Ok::<InfoModel, SchemaError>(b),
        a.pieces != b.pieces,
    ensures
        encoding(a.dict) != encoding(b.dict),
{
    if encoding(a.dict) == encoding(b.dict) {
        lemma_encoding_is_injective(a.dict, b.dict);
        let key = ascii_bytes("pieces"@);
        lemma_canonical_lookup(a.dict->Dict_0, key);
        lemma_canonical_lookup(b.dict->Dict_0, key);
        assert(dict_get(a.dict->Dict_0, key) == Some(Value::Bytes(a.pieces)));
        assert(dict_get(b.dict->Dict_0, key) == Some(Value::Bytes(b.pieces)));
        assert(canonical(Value::Bytes(a.pieces)) == Value::Bytes(a.pieces));
        assert(canonical(Value::Bytes(b.pieces)) == Value::Bytes(b.pieces));
        assert(canonical(a.dict)->Dict_0 == canonical(b.dict)->Dict_0);
    }
}

/// The `i`-th digest of a string of piece digests.
pub open spec fn piece_digest(pieces: Seq<u8>, i: int) -> Seq<u8> {
    pieces.subrange(20 * i, 20 * i + 20)
}

impl Info {
    /// The display name.
    pub fn name(&self) -> (name: &String)
        ensures
            name@ == self@.name,
    {
        &self.name
    }

    /// The number of bytes in a piece.
    pub fn piece_length(&self) -> (n: usize)
        ensures
            n == self@.piece_length,
            n >= 1,
    {
        proof {
            use_type_invariant(self);
        }
        self.piece_length
    }

    /// The digests of the pieces, twenty bytes each, one after another.
    pub fn pieces(&self) -> (pieces: &Vec<u8>)
        ensures
            pieces@ == self@.pieces,
            pieces@.len() % 20 == 0,
    {
        proof {
            use_type_invariant(self);
        }
        &self.pieces
    }

    /// The files.
    pub fn layout(&self) -> (layout: &FileLayout)
        ensures
            layout@ == self@.layout,
    {
        &self.layout
    }

    /// The dictionary that the info was read from.
    pub fn dict(&self) -> (dict: &BencodeValue)
        ensures
            dict@ == self@.dict,
            dict@.wf(),
            info_of(dict@) == Ok::<InfoModel, SchemaError>(self@),
    {
        proof {
            use_type_invariant(self);
        }
        &self.dict
    }
}

impl Torrent {
    /// The URL of the tracker.
    pub fn announce(&self) -> (announce: &String)
        ensures
            announce@ == self@.announce,
    {
        &self.announce
    }

    /// The info.
    pub fn info(&self) -> (info: &Info)
        ensures
            info@ == self@.info,
    {
        &self.info
    }

    /// The canonical encoding of the info dictionary, with every field that
    /// the file had.
    pub fn encoded_info(&self) -> (bytes: Vec<u8>)
        ensures
            bytes@ == encoding(self@.info.dict),
    {
        encode(&self.info.dict)
    }

    /// The info hash: the SHA-1 digest of the canonical encoding of the info
    /// dictionary. It does not depend on anything outside the info.
    pub fn hash_info(&self) -> (hash: [u8; 20])
        ensures
            hash@ == info_hash(self@.info),
    {
        let info = self.encoded_info();
        sha1_digest(info.as_slice())
    }

    /// The digests of the pieces, in piece order.
    pub fn piece_hashes(&self) -> (digests: Vec<[u8; 20]>)
        ensures
            20 * digests@.len() == self@.info.pieces.len(),
            forall|i: int|
                0 <= i < digests@.len() ==> (#[trigger] digests@[i])@ == piece_digest(
                    self@.info.pieces,
                    i,
                ),
    {
        proof {
            use_type_invariant(&self.info);
        }
        let pieces = &self.info.pieces;
        let count: usize = pieces.len() / 20;
        let mut digests: Vec<[u8; 20]> = Vec::new();
        let mut i: usize = 0;
        while i < count
            invariant
                i <= count,
                pieces@.len() == 20 * count,
                pieces@.len() == pieces.len(),
                digests@.len() == i,
                forall|k: int|
                    0 <= k < i ==> (#[trigger] digests@[k])@ == piece_digest(pieces@, k),
            decreases count - i,
        {
            let mut digest: [u8; 20] = [0u8;20];
            let mut j: usize = 0;
            while j < 20
                invariant
                    j <= 20,
                    i < count,
                    pieces@.len() == 20 * count,
                    pieces@.len() == pieces.len(),
                    forall|k: int| 0 <= k < j ==> digest@[k] == pieces@[20 * i + k],
                decreases 20 - j,
            {
                digest[j] = pieces[20 * i + j];
                j = j + 1;
            }
            assert(digest@ =~= piece_digest(pieces@, i as int));
            digests.push(digest);
            i = i + 1;
        }
        digests
    }

    /// The digests of the pieces in hexadecimal, in piece order.
    pub fn pieces_hash(&self) -> (digests: Vec<String>)
        ensures
            20 * digests@.len() == self@.info.pieces.len(),
            forall|i: int|
                0 <= i < digests@.len() ==> (#[trigger] digests@[i])@ == hex_text(
                    piece_digest(self@.info.pieces, i),
                ),
    {
        proof {
            use_type_invariant(&self.info);
        }
        let pieces = &self.info.pieces;
        let count: usize = pieces.len() / 20;
        let mut digests: Vec<String> = Vec::new();
        let mut i: usize = 0;
        while i < count
            invariant
                i <= count,
                pieces@.len() == 20 * count,
                pieces@.len() == pieces.len(),
                digests@.len() == i,
                forall|k: int|
                    0 <= k < i ==> (#[trigger] digests@[k])@ == hex_text(
                        piece_digest(pieces@, k),
                    ),
            decreases count - i,
        {
            let digest = hex_encode(slice_subrange(pieces.as_slice(), 20 * i, 20 * i + 20));
            digests.push(digest);
            i = i + 1;
        }
        digests
    }

    /// The number of bytes of all files of the torrent together: the length of
    /// the one file, or the sum of the lengths of the several. There is none
    /// where the sum is too large for this machine.
    pub fn length(&self) -> (total: Option<usize>)
        ensures
            match total {
                Some(n) => n == self@.info.layout.total_length(),
                None => self@.info.layout.total_length() > usize::MAX,
            },
    {
        match &self.info.layout {
            FileLayout::SingleFile { length } => Some(*length),
            FileLayout::MultiFile { files } => {
                let ghost model = files_view(files@);
                let mut total: usize = 0;
                let mut i: usize = 0;
                assert(model.take(0) =~= Seq::<FileModel>::empty());
                while i < files.len()
                    invariant
                        i <= files.len(),
                        model == files_view(files@),
                        self@.info.layout.total_length() == files_length(model),
                        total == files_length(model.take(i as int)),
                    decreases files.len() - i,
                {
                    proof {
                        assert(model.take(i + 1).drop_last() =~= model.take(i as int));
                        assert(model.take(i + 1).last().length == files@[i as int].length);
                        lemma_files_length_prefix(model, i + 1);
                    }
                    match total.checked_add(files[i].length) {
                        Some(sum) => {
                            total = sum;
                        },
                        None => {
                            return None;
                        },
                    }
                    i = i + 1;
                }
                assert(model.take(files.len() as int) =~= model);
                Some(total)
            },
        }
    }
}

} // verus!
