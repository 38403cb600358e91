//! The schema of a metainfo file: which fields a decoded dictionary must have
//! to describe a torrent, and the typed values read from them.

use crate::ascii::{ascii_bytes, key_bytes};
use crate::primitives::text_from_utf8;
use crate::value::{dict_get, dict_lookup, dict_view, list_view, option_view, BencodeValue, Value};
use vstd::prelude::*;
use vstd::slice::slice_to_vec;
use vstd::utf8::{decode_utf8, valid_utf8};

verus! {

/// A field of a metainfo file.
#[derive(Clone, Copy, Debug, PartialEq, Eq, Structural)]
pub enum Field {
    /// The whole file.
    Root,
    /// `announce`
    Announce,
    /// `info`
    Info,
    /// `name` in `info`
    Name,
    /// `piece length` in `info`
    PieceLength,
    /// `pieces` in `info`
    Pieces,
    /// `length` or `files` in `info`, whichever is there
    Layout,
    /// `length` in `info`
    Length,
    /// `files` in `info`
    Files,
    /// An item of `files`
    File,
    /// `length` in an item of `files`
    FileLength,
    /// `path` in an item of `files`, or one of its segments
    FilePath,
}

/// Why well-formed bencode is no metainfo file.
#[derive(Clone, Copy, Debug, PartialEq, Eq, Structural)]
pub enum SchemaError {
    /// A required field is not there.
    Missing(Field),
    /// A field holds a value of another bencode kind than it must.
    WrongKind(Field),
    /// A field that must be text is not UTF-8.
    NotText(Field),
    /// A number is negative, too large for this machine, or zero where a
    /// positive one is asked for.
    OutOfRange(Field),
    /// The length of `pieces` is not a multiple of twenty.
    PiecesLength,
}

/// A file of a torrent of several files, as mathematics.
pub struct FileModel {
    pub length: nat,
    pub path: Seq<Seq<char>>,
}

/// The files of a torrent, as mathematics.
pub enum LayoutModel {
    SingleFile { length: nat },
    MultiFile { files: Seq<FileModel> },
}

/// The info of a torrent, as mathematics: its typed fields, and the whole
/// dictionary that they were read from.
pub struct InfoModel {
    pub name: Seq<char>,
    pub piece_length: nat,
    pub pieces: Seq<u8>,
    pub layout: LayoutModel,
    pub dict: Value,
}

/// A torrent, as mathematics.
pub struct TorrentModel {
    pub announce: Seq<char>,
    pub info: InfoModel,
}

/// The text of a field that must be text.
pub open spec fn text_of(value: Option<Value>, field: Field) -> Result<Seq<char>, SchemaError> {
    match value {
        None => Err(SchemaError::Missing(field)),
        Some(Value::Bytes(bytes)) => if valid_utf8(bytes) {
            Ok(decode_utf8(bytes))
        } else {
            Err(SchemaError::NotText(field))
        },
        Some(_) => Err(SchemaError::WrongKind(field)),
    }
}

/// The number of a field that must be a size of at least `least`.
pub open spec fn size_of(value: Option<Value>, field: Field, least: int) -> Result<
    nat,
    SchemaError,
> {
    match value {
        None => Err(SchemaError::Missing(field)),
        Some(Value::Int(n)) => if least <= n <= usize::MAX {
            Ok(n as nat)
        } else {
            Err(SchemaError::OutOfRange(field))
        },
        Some(_) => Err(SchemaError::WrongKind(field)),
    }
}

/// The segments of a path, each of which must be text. The first segment that
/// is not decides the error.
pub open spec fn path_of(segments: Seq<Value>) -> Result<Seq<Seq<char>>, SchemaError>
    decreases segments.len(),
{
    if segments.len() == 0 {
        Ok(Seq::empty())
    } else {
        match path_of(segments.drop_last()) {
            Err(e) => Err(e),
            Ok(path) => match text_of(Some(segments.last()), Field::FilePath) {
                Err(e) => Err(e),
                Ok(segment) => Ok(path.push(segment)),
            },
        }
    }
}

/// The file that an item of `files` describes.
pub open spec fn file_of(item: Value) -> Result<FileModel, SchemaError> {
    match item {
        Value::Dict(entries) => match size_of(
            dict_get(entries, ascii_bytes("length"@)),
            Field::FileLength,
            0,
        ) {
            Err(e) => Err(e),
            Ok(length) => match dict_get(entries, ascii_bytes("path"@)) {
                None => Err(SchemaError::Missing(Field::FilePath)),
                Some(Value::List(segments)) => match path_of(segments) {
                    Err(e) => Err(e),
                    Ok(path) => Ok(FileModel { length, path }),
                },
                Some(_) => Err(SchemaError::WrongKind(Field::FilePath)),
            },
        },
        _ => Err(SchemaError::WrongKind(Field::File)),
    }
}

/// The files that the items of `files` describe. The first item that
/// describes none decides the error.
pub open spec fn files_of(items: Seq<Value>) -> Result<Seq<FileModel>, SchemaError>
    decreases items.len(),
{
    if items.len() == 0 {
        Ok(Seq::empty())
    } else {
        match files_of(items.drop_last()) {
            Err(e) => Err(e),
            Ok(files) => match file_of(items.last()) {
                Err(e) => Err(e),
                Ok(file) => Ok(files.push(file)),
            },
        }
    }
}

/// The files of a torrent, read from its info dictionary. Where `length` is
/// there the torrent is a single file, whatever else is there; otherwise
/// `files` must be.
pub open spec fn layout_of(entries: Seq<(Seq<u8>, Value)>) -> Result<LayoutModel, SchemaError> {
    match dict_get(entries, ascii_bytes("length"@)) {
        Some(value) => match size_of(Some(value), Field::Length, 0) {
            Err(e) => Err(e),
            Ok(length) => Ok(LayoutModel::SingleFile { length }),
        },
        None => match dict_get(entries, ascii_bytes("files"@)) {
            None => Err(SchemaError::Missing(Field::Layout)),
            Some(Value::List(items)) => match files_of(items) {
                Err(e) => Err(e),
                Ok(files) => Ok(LayoutModel::MultiFile { files }),
            },
            Some(_) => Err(SchemaError::WrongKind(Field::Files)),
        },
    }
}

/// The string of piece digests: a byte string whose length twenty divides.
pub open spec fn pieces_of(value: Option<Value>) -> Result<Seq<u8>, SchemaError> {
    match value {
        None => Err(SchemaError::Missing(Field::Pieces)),
        Some(Value::Bytes(bytes)) => if bytes.len() % 20 == 0 {
            Ok(bytes)
        } else {
            Err(SchemaError::PiecesLength)
        },
        Some(_) => Err(SchemaError::WrongKind(Field::Pieces)),
    }
}

/// The info that a value describes. The fields are read in the order name,
/// piece length, pieces, files, and the first that fails decides the error.
pub open spec fn info_of(value: Value) -> Result<InfoModel, SchemaError> {
    match value {
        Value::Dict(entries) => match text_of(
            dict_get(entries, ascii_bytes("name"@)),
            Field::Name,
        ) {
            Err(e) => Err(e),
            Ok(name) => match size_of(
                dict_get(entries, ascii_bytes("piece length"@)),
                Field::PieceLength,
                1,
            ) {
                Err(e) => Err(e),
                Ok(piece_length) => match pieces_of(dict_get(entries, ascii_bytes("pieces"@))) {
                    Err(e) => Err(e),
                    Ok(pieces) => match layout_of(entries) {
                        Err(e) => Err(e),
                        Ok(layout) => Ok(
                            InfoModel { name, piece_length, pieces, layout, dict: value },
                        ),
                    },
                },
            },
        },
        _ => Err(SchemaError::WrongKind(Field::Info)),
    }
}

/// The torrent that a value describes: a dictionary with the tracker's URL
/// under `announce` and the info under `info`.
pub open spec fn torrent_of(root: Value) -> Result<TorrentModel, SchemaError> {
    match root {
        Value::Dict(entries) => match text_of(
            dict_get(entries, ascii_bytes("announce"@)),
            Field::Announce,
        ) {
            Err(e) => Err(e),
            Ok(announce) => match dict_get(entries, ascii_bytes("info"@)) {
                None => Err(SchemaError::Missing(Field::Info)),
                Some(value) => match info_of(value) {
                    Err(e) => Err(e),
                    Ok(info) => Ok(TorrentModel { announce, info }),
                },
            },
        },
        _ => Err(SchemaError::WrongKind(Field::Root)),
    }
}

/// The sum of the lengths of the files.
pub open spec fn files_length(files: Seq<FileModel>) -> nat
    decreases files.len(),
{
    if files.len() == 0 {
        0
    } else {
        files_length(files.drop_last()) + files.last().length
    }
}

impl LayoutModel {
    /// The number of bytes of all files together.
    pub open spec fn total_length(self) -> nat {
        match self {
            LayoutModel::SingleFile { length } => length,
            LayoutModel::MultiFile { files } => files_length(files),
        }
    }
}

/// A file of a torrent of several files.
#[derive(Debug, PartialEq, Eq)]
pub struct File {
    pub length: usize,
    pub path: Vec<String>,
}

/// The files of a torrent: one file, or several with their paths.
#[derive(Debug, PartialEq, Eq)]
pub enum FileLayout {
    SingleFile { length: usize },
    MultiFile { files: Vec<File> },
}

/// What the texts stand for, in order.
pub open spec fn texts_view(texts: Seq<String>) -> Seq<Seq<char>> {
    Seq::new(texts.len(), |i: int| texts[i]@)
}

/// What the files stand for, in order.
pub open spec fn files_view(files: Seq<File>) -> Seq<FileModel> {
    Seq::new(files.len(), |i: int| files[i]@)
}

impl View for File {
    type V = FileModel;

    open spec fn view(&self) -> FileModel {
        FileModel { length: self.length as nat, path: texts_view(self.path@) }
    }
}

impl View for FileLayout {
    type V = LayoutModel;

    open spec fn view(&self) -> LayoutModel {
        match self {
            FileLayout::SingleFile { length } => LayoutModel::SingleFile { length: *length as nat },
            FileLayout::MultiFile { files } => LayoutModel::MultiFile { files: files_view(files@) },
        }
    }
}

/// An error in the first items of a path is the error of the whole path.
pub proof fn lemma_path_of_prefix(segments: Seq<Value>, n: int)
    requires
        0 <= n <= segments.len(),
        path_of(segments.take(n)) is Err,
    ensures
        path_of(segments) == path_of(segments.take(n)),
    decreases segments.len() - n,
{
    if n < segments.len() {
        assert(segments.take(n + 1).drop_last() =~= segments.take(n));
        lemma_path_of_prefix(segments, n + 1);
    } else {
        assert(segments.take(n) =~= segments);
    }
}

/// An error in the first items of `files` is the error of the whole list.
pub proof fn lemma_files_of_prefix(items: Seq<Value>, n: int)
    requires
        0 <= n <= items.len(),
        files_of(items.take(n)) is Err,
    ensures
        files_of(items) == files_of(items.take(n)),
    decreases items.len() - n,
{
    if n < items.len() {
        assert(items.take(n + 1).drop_last() =~= items.take(n));
        lemma_files_of_prefix(items, n + 1);
    } else {
        assert(items.take(n) =~= items);
    }
}

/// Reads a field that must be text.
pub(crate) fn read_text(value: Option<&BencodeValue>, field: Field) -> (r: Result<String, SchemaError>)
    ensures
        match r {
            Ok(text) => text_of(option_view(value), field) == Ok::<Seq<char>, SchemaError>(text@),
            Err(e) => text_of(option_view(value), field) == Err::<Seq<char>, SchemaError>(e),
        },
{
    match value {
        None => Err(SchemaError::Missing(field)),
        Some(BencodeValue::ByteString(bytes)) => match text_from_utf8(
            slice_to_vec(bytes.as_slice()),
        ) {
            Some(text) => Ok(text),
            None => Err(SchemaError::NotText(field)),
        },
        Some(_) => Err(SchemaError::WrongKind(field)),
    }
}

/// Reads a field that must be a size of at least `least`.
pub(crate) fn read_size(value: Option<&BencodeValue>, field: Field, least: i64) -> (r: Result<
    usize,
    SchemaError,
>)
    requires
        0 <= least,
    ensures
        match r {
            Ok(n) => size_of(option_view(value), field, least as int) == Ok::<nat, SchemaError>(
                n as nat,
            ),
            Err(e) => size_of(option_view(value), field, least as int) == Err::<
                nat,
                SchemaError,
            >(e),
        },
{
    match value {
        None => Err(SchemaError::Missing(field)),
        Some(BencodeValue::Integer(n)) => {
            if *n >= least && *n as u64 <= usize::MAX as u64 {
                Ok(*n as usize)
            } else {
                Err(SchemaError::OutOfRange(field))
            }
        },
        Some(_) => Err(SchemaError::WrongKind(field)),
    }
}

/// Reads the segments of a path.
pub(crate) fn read_path(segments: &Vec<BencodeValue>) -> (r: Result<Vec<String>, SchemaError>)
    ensures
        match r {
            Ok(path) => path_of(list_view(segments@)) == Ok::<Seq<Seq<char>>, SchemaError>(
                texts_view(path@),
            ),
            Err(e) => path_of(list_view(segments@)) == Err::<Seq<Seq<char>>, SchemaError>(e),
        },
{
    let ghost model = list_view(segments@);
    let mut path: Vec<String> = Vec::new();
    let mut i: usize = 0;
    assert(model.take(0) =~= Seq::<Value>::empty());
    assert(texts_view(path@) =~= Seq::<Seq<char>>::empty());
    while i < segments.len()
        invariant
            i <= segments.len(),
            model == list_view(segments@),
            path_of(model.take(i as int)) == Ok::<Seq<Seq<char>>, SchemaError>(texts_view(path@)),
        decreases segments.len() - i,
    {
        proof {
            assert(model.take(i + 1).drop_last() =~= model.take(i as int));
            assert(model.take(i + 1).last() == segments@[i as int]@);
        }
        match read_text(Some(&segments[i]), Field::FilePath) {
            Err(e) => {
                proof {
                    lemma_path_of_prefix(model, i + 1);
                }
                return Err(e);
            },
            Ok(segment) => {
                proof {
                    assert(texts_view(path@.push(segment)) =~= texts_view(path@).push(segment@));
                }
                path.push(segment);
            },
        }
        i = i + 1;
    }
    assert(model.take(segments.len() as int) =~= model);
    Ok(path)
}

/// Reads an item of `files`.
pub(crate) fn read_file(item: &BencodeValue) -> (r: Result<File, SchemaError>)
    ensures
        match r {
            Ok(file) => file_of(item@) == Ok::<FileModel, SchemaError>(file@),
            Err(e) => file_of(item@) == Err::<FileModel, SchemaError>(e),
        },
{
    match item {
        BencodeValue::Dictionary(entries) => {
            proof {
                reveal_strlit("length");
                reveal_strlit("path");
            }
            let length: usize = match read_size(
                dict_lookup(entries, key_bytes("length")),
                Field::FileLength,
                0,
            ) {
                Ok(length) => length,
                Err(e) => {
                    return Err(e);
                },
            };
            match dict_lookup(entries, key_bytes("path")) {
                None => Err(SchemaError::Missing(Field::FilePath)),
                Some(BencodeValue::List(segments)) => match read_path(segments) {
                    Ok(path) => Ok(File { length, path }),
                    Err(e) => Err(e),
                },
                Some(_) => Err(SchemaError::WrongKind(Field::FilePath)),
            }
        },
        _ => Err(SchemaError::WrongKind(Field::File)),
    }
}

/// Reads the items of `files`.
pub(crate) fn read_files(items: &Vec<BencodeValue>) -> (r: Result<Vec<File>, SchemaError>)
    ensures
        match r {
            Ok(files) => files_of(list_view(items@)) == Ok::<Seq<FileModel>, SchemaError>(
                files_view(files@),
            ),
            Err(e) => files_of(list_view(items@)) == Err::<Seq<FileModel>, SchemaError>(e),
        },
{
    let ghost model = list_view(items@);
    let mut files: Vec<File> = Vec::new();
    let mut i: usize = 0;
    assert(model.take(0) =~= Seq::<Value>::empty());
    assert(files_view(files@) =~= Seq::<FileModel>::empty());
    while i < items.len()
        invariant
            i <= items.len(),
            model == list_view(items@),
            files_of(model.take(i as int)) == Ok::<Seq<FileModel>, SchemaError>(
                files_view(files@),
            ),
        decreases items.len() - i,
    {
        proof {
            assert(model.take(i + 1).drop_last() =~= model.take(i as int));
            assert(model.take(i + 1).last() == items@[i as int]@);
        }
        match read_file(&items[i]) {
            Err(e) => {
                proof {
                    lemma_files_of_prefix(model, i + 1);
                }
                return Err(e);
            },
            Ok(file) => {
                proof {
                    assert(files_view(files@.push(file)) =~= files_view(files@).push(file@));
                }
                files.push(file);
            },
        }
        i = i + 1;
    }
    assert(model.take(items.len() as int) =~= model);
    Ok(files)
}

/// Reads the files of a torrent from its info dictionary.
pub(crate) fn read_layout(entries: &Vec<(Vec<u8>, BencodeValue)>) -> (r: Result<FileLayout, SchemaError>)
    ensures
        match r {
            Ok(layout) => layout_of(dict_view(entries@)) == Ok::<LayoutModel, SchemaError>(
                layout@,
            ),
            Err(e) => layout_of(dict_view(entries@)) == Err::<LayoutModel, SchemaError>(e),
        },
{
    proof {
        reveal_strlit("length");
        reveal_strlit("files");
    }
    match dict_lookup(entries, key_bytes("length")) {
        Some(value) => match read_size(Some(value), Field::Length, 0) {
            Ok(length) => Ok(FileLayout::SingleFile { length }),
            Err(e) => Err(e),
        },
        None => match dict_lookup(entries, key_bytes("files")) {
            None => Err(SchemaError::Missing(Field::Layout)),
            Some(BencodeValue::List(items)) => match read_files(items) {
                Ok(files) => Ok(FileLayout::MultiFile { files }),
                Err(e) => Err(e),
            },
            Some(_) => Err(SchemaError::WrongKind(Field::Files)),
        },
    }
}

/// Reads the string of piece digests.
pub(crate) fn read_pieces(value: Option<&BencodeValue>) -> (r: Result<Vec<u8>, SchemaError>)
    ensures
        match r {
            Ok(pieces) => pieces_of(option_view(value)) == Ok::<Seq<u8>, SchemaError>(pieces@),
            Err(e) => pieces_of(option_view(value)) == Err::<Seq<u8>, SchemaError>(e),
        },
{
    match value {
        None => Err(SchemaError::Missing(Field::Pieces)),
        Some(BencodeValue::ByteString(bytes)) => {
            if bytes.len() % 20 == 0 {
                Ok(slice_to_vec(bytes.as_slice()))
            } else {
                Err(SchemaError::PiecesLength)
            }
        },
        Some(_) => Err(SchemaError::WrongKind(Field::Pieces)),
    }
}

/// The first files are no longer than all of them.
pub proof fn lemma_files_length_prefix(files: Seq<FileModel>, n: int)
    requires
        0 <= n <= files.len(),
    ensures
        files_length(files.take(n)) <= files_length(files),
    decreases files.len() - n,
{
    if n < files.len() {
        assert(files.take(n + 1).drop_last() =~= files.take(n));
        lemma_files_length_prefix(files, n + 1);
    } else {
        assert(files.take(n) =~= files);
    }
}

} // verus!
