use crate::bencode::{
    decode, decoded, digits, enc_bytes, enc_int, entry_views, lemma_view, value_views, BValue,
    Bencode, TorrentError,
};
use crate::text::{decimal, push_decimal};
use crypto::digest::Digest;
use crypto::sha1::Sha1;
use vstd::prelude::*;
use vstd::utf8::{encode_utf8, is_ascii_chars_encode_utf8};

verus! {

/// One file of a torrent of several files.
#[derive(Debug)]
pub struct TorrentFile {
    path: Vec<Vec<u8>>,
    length: i64,
    md5sum: Option<Vec<u8>>,
}

/// The part of a torrent's metainfo that names its content.
#[derive(Debug)]
pub struct Info {
    name: Vec<u8>,
    pieces: Vec<u8>,
    piece_length: i64,
    md5sum: Option<Vec<u8>>,
    length: Option<i64>,
    files: Option<Vec<TorrentFile>>,
    private: Option<i64>,
    path: Option<Vec<Vec<u8>>>,
    root_hash: Option<Vec<u8>>,
}

/// The metainfo of a torrent, as far as its digest depends on it.
#[derive(Debug)]
pub struct Torrent {
    pub info: Info,
}

/// What a `TorrentFile` holds.
pub struct FileModel {
    pub path: Seq<Seq<u8>>,
    pub length: int,
    pub md5sum: Option<Seq<u8>>,
}

/// What an `Info` holds.
pub struct InfoModel {
    pub name: Seq<u8>,
    pub pieces: Seq<u8>,
    pub piece_length: int,
    pub md5sum: Option<Seq<u8>>,
    pub length: Option<int>,
    pub files: Option<Seq<FileModel>>,
    pub private: Option<int>,
    pub path: Option<Seq<Seq<u8>>>,
    pub root_hash: Option<Seq<u8>>,
}

/// What each of `parts` holds.
pub open spec fn byte_views(parts: Seq<Vec<u8>>) -> Seq<Seq<u8>> {
    parts.map_values(|p: Vec<u8>| p@)
}

/// What each of `files` holds.
pub open spec fn file_views(files: Seq<TorrentFile>) -> Seq<FileModel> {
    files.map_values(|f: TorrentFile| f@)
}

/// What the bytes hold, if there are any.
pub open spec fn opt_view(b: Option<Vec<u8>>) -> Option<Seq<u8>> {
    match b {
        Some(b) => Some(b@),
        None => None,
    }
}

/// The number, if there is one.
pub open spec fn opt_int_view(i: Option<i64>) -> Option<int> {
    match i {
        Some(i) => Some(i as int),
        None => None,
    }
}

impl View for TorrentFile {
    type V = FileModel;

    closed spec fn view(&self) -> FileModel {
        FileModel {
            path: byte_views(self.path@),
            length: self.length as int,
            md5sum: opt_view(self.md5sum),
        }
    }
}

impl View for Info {
    type V = InfoModel;

    closed spec fn view(&self) -> InfoModel {
        InfoModel {
            name: self.name@,
            pieces: self.pieces@,
            piece_length: self.piece_length as int,
            md5sum: opt_view(self.md5sum),
            length: opt_int_view(self.length),
            files: match self.files {
                Some(files) => Some(file_views(files@)),
                None => None,
            },
            private: opt_int_view(self.private),
            path: match self.path {
                Some(path) => Some(byte_views(path@)),
                None => None,
            },
            root_hash: opt_view(self.root_hash),
        }
    }
}

/// The bytes of a key.
pub open spec fn key(name: &str) -> Seq<u8> {
    encode_utf8(name@)
}

/// The value of the first entry called `key`.
pub open spec fn found(entries: Seq<(Seq<u8>, Bencode)>, key: Seq<u8>) -> Option<Bencode>
    decreases entries.len(),
{
    if entries.len() == 0 {
        None
    } else if entries[0].0 == key {
        Some(entries[0].1)
    } else {
        found(entries.drop_first(), key)
    }
}

/// The byte string under `key`, which may be missing. There is no answer
/// where the entry is of another kind.
pub open spec fn opt_bytes(entries: Seq<(Seq<u8>, Bencode)>, key: Seq<u8>) -> Option<
    Option<Seq<u8>>,
> {
    match found(entries, key) {
        None => Some(None),
        Some(Bencode::Bytes(b)) => Some(Some(b)),
        Some(_) => None,
    }
}

/// The integer under `key`, which may be missing. There is no answer
/// where the entry is of another kind.
pub open spec fn opt_int(entries: Seq<(Seq<u8>, Bencode)>, key: Seq<u8>) -> Option<Option<int>> {
    match found(entries, key) {
        None => Some(None),
        Some(Bencode::Int(i)) => Some(Some(i)),
        Some(_) => None,
    }
}

/// The path that `v` stands for: a list of byte strings.
pub open spec fn as_path(v: Bencode) -> Option<Seq<Seq<u8>>> {
    match v {
        Bencode::List(items) => if forall|i: int| 0 <= i < items.len() ==> (#[trigger] items[i])
            is Bytes {
            Some(items.map_values(|x: Bencode| x->Bytes_0))
        } else {
            None
        },
        _ => None,
    }
}

/// The path under `key`, which may be missing.
pub open spec fn opt_path(entries: Seq<(Seq<u8>, Bencode)>, key: Seq<u8>) -> Option<
    Option<Seq<Seq<u8>>>,
> {
    match found(entries, key) {
        None => Some(None),
        Some(v) => match as_path(v) {
            Some(p) => Some(Some(p)),
            None => None,
        },
    }
}

/// The file that `v` stands for: a dictionary with a path, a length and
/// perhaps a checksum.
pub open spec fn as_file(v: Bencode) -> Option<FileModel> {
    match v {
        Bencode::Dict(d) => match (
            found(d, key("path")),
            found(d, key("length")),
            opt_bytes(d, key("md5sum")),
        ) {
            (Some(p), Some(Bencode::Int(length)), Some(md5sum)) => match as_path(p) {
                Some(path) => Some(FileModel { path, length, md5sum }),
                None => None,
            },
            _ => None,
        },
        _ => None,
    }
}

/// The files that `v` stands for: a list of files.
pub open spec fn as_files(v: Bencode) -> Option<Seq<FileModel>> {
    match v {
        Bencode::List(items) => if forall|i: int|
            0 <= i < items.len() ==> as_file(#[trigger] items[i]) is Some {
            Some(items.map_values(|x: Bencode| as_file(x)->0))
        } else {
            None
        },
        _ => None,
    }
}

/// The files under `key`, which may be missing.
pub open spec fn opt_files(entries: Seq<(Seq<u8>, Bencode)>, key: Seq<u8>) -> Option<
    Option<Seq<FileModel>>,
> {
    match found(entries, key) {
        None => Some(None),
        Some(v) => match as_files(v) {
            Some(f) => Some(Some(f)),
            None => None,
        },
    }
}

/// The info that `v` stands for: a dictionary with a name, the pieces and
/// their length, and whatever else of the known entries it holds. Entries
/// under other keys play no part.
pub open spec fn as_info(v: Bencode) -> Option<InfoModel> {
    match v {
        Bencode::Dict(d) => match (
            found(d, key("name")),
            found(d, key("pieces")),
            found(d, key("piece length")),
        ) {
            (
                Some(Bencode::Bytes(name)),
                Some(Bencode::Bytes(pieces)),
                Some(Bencode::Int(piece_length)),
            ) => match (
                opt_bytes(d, key("md5sum")),
                opt_int(d, key("length")),
                opt_files(d, key("files")),
                opt_int(d, key("private")),
                opt_path(d, key("path")),
                opt_bytes(d, key("root hash")),
            ) {
                (
                    Some(md5sum),
                    Some(length),
                    Some(files),
                    Some(private),
                    Some(path),
                    Some(root_hash),
                ) => Some(
                    InfoModel {
                        name,
                        pieces,
                        piece_length,
                        md5sum,
                        length,
                        files,
                        private,
                        path,
                        root_hash,
                    },
                ),
                _ => None,
            },
            _ => None,
        },
        _ => None,
    }
}

/// The info of the metainfo `v`: that of the entry called `info` of the
/// dictionary `v`.
pub open spec fn info_of(v: Bencode) -> Result<InfoModel, TorrentError> {
    match v {
        Bencode::Dict(d) => match found(d, key("info")) {
            None => Err(TorrentError::MissingInfoDict),
            Some(i) => match as_info(i) {
                Some(info) => Ok(info),
                None => Err(TorrentError::BencodeError),
            },
        },
        _ => Err(TorrentError::BencodeError),
    }
}

/// The info of the metainfo that `bytes` encode.
pub open spec fn metainfo(bytes: Seq<u8>) -> Result<InfoModel, TorrentError> {
    match decoded(bytes) {
        Some(v) => info_of(v),
        None => Err(TorrentError::BencodeError),
    }
}

/// Whether two runs of bytes are the same.
fn same_bytes(a: &[u8], b: &[u8]) -> (r: bool)
    ensures
        r == (a@ == b@),
{
    if a.len() != b.len() {
        return false;
    }
    let mut i: usize = 0;
    while i < a.len()
        invariant
            i <= a.len() == b.len(),
            forall|j: int| 0 <= j < i ==> a@[j] == b@[j],
        decreases a.len() - i,
    {
        if a[i] != b[i] {
            return false;
        }
        i += 1;
    }
    assert(a@ =~= b@);
    true
}

/// Finds the value of the first entry called `name`.
fn lookup<'a>(entries: &'a Vec<(Vec<u8>, BValue)>, name: &str) -> (r: Option<&'a BValue>)
    ensures
        match r {
            Some(v) => found(entry_views(entries@), key(name)) == Some(v@),
            None => found(entry_views(entries@), key(name)) is None,
        },
{
    let wanted = name.as_bytes();
    let ghost all = entry_views(entries@);
    let mut i: usize = 0;
    assert(all.skip(0) =~= all);
    while i < entries.len()
        invariant
            i <= entries.len(),
            all == entry_views(entries@),
            wanted@ == key(name),
            found(all, key(name)) == found(all.skip(i as int), key(name)),
        decreases entries.len() - i,
    {
        proof {
            assert(all.skip(i as int)[0] == all[i as int]);
            assert(all.skip(i as int).drop_first() =~= all.skip(i + 1));
        }
        if same_bytes(entries[i].0.as_slice(), wanted) {
            return Some(&entries[i].1);
        }
        i += 1;
    }
    None
}

/// Reads the byte string under `name`, which may be missing.
fn get_opt_bytes(entries: &Vec<(Vec<u8>, BValue)>, name: &str) -> (r: Option<Option<Vec<u8>>>)
    ensures
        match r {
            Some(b) => opt_bytes(entry_views(entries@), key(name)) == Some(opt_view(b)),
            None => opt_bytes(entry_views(entries@), key(name)) is None,
        },
{
    match lookup(entries, name) {
        None => Some(None),
        Some(v) => {
            proof {
                lemma_view(*v);
            }
            match v {
                BValue::Bytes(b) => Some(Some(b.clone())),
                _ => None,
            }
        },
    }
}

/// Reads the integer under `name`, which may be missing.
fn get_opt_int(entries: &Vec<(Vec<u8>, BValue)>, name: &str) -> (r: Option<Option<i64>>)
    ensures
        match r {
            Some(i) => opt_int(entry_views(entries@), key(name)) == Some(opt_int_view(i)),
            None => opt_int(entry_views(entries@), key(name)) is None,
        },
{
    match lookup(entries, name) {
        None => Some(None),
        Some(v) => {
            proof {
                lemma_view(*v);
            }
            match v {
                BValue::Int(i) => Some(Some(*i)),
                _ => None,
            }
        },
    }
}

/// Reads a path: a list of byte strings.
fn read_path(v: &BValue) -> (r: Option<Vec<Vec<u8>>>)
    ensures
        match r {
            Some(p) => as_path(v@) == Some(byte_views(p@)),
            None => as_path(v@) is None,
        },
{
    proof {
        lemma_view(*v);
    }
    match v {
        BValue::List(items) => {
            let mut path: Vec<Vec<u8>> = Vec::new();
            let ghost all = value_views(items@);
            let mut i: usize = 0;
            while i < items.len()
                invariant
                    i <= items.len(),
                    all == value_views(items@),
                    v@ == Bencode::List(all),
                    path.len() == i,
                    forall|j: int| 0 <= j < i ==> (#[trigger] all[j]) == Bencode::Bytes(path[j]@),
                decreases items.len() - i,
            {
                proof {
                    lemma_view(items[i as int]);
                    assert(all[i as int] == items[i as int]@);
                }
                match &items[i] {
                    BValue::Bytes(b) => {
                        path.push(b.clone());
                    },
                    _ => {
                        assert(!(all[i as int] is Bytes));
                        return None;
                    },
                }
                i += 1;
            }
            assert(byte_views(path@) =~= all.map_values(|x: Bencode| x->Bytes_0));
            Some(path)
        },
        _ => None,
    }
}

/// Reads the path under `name`, which may be missing.
fn get_opt_path(entries: &Vec<(Vec<u8>, BValue)>, name: &str) -> (r: Option<Option<Vec<Vec<u8>>>>)
    ensures
        match r {
            Some(Some(p)) => opt_path(entry_views(entries@), key(name)) == Some(
                Some(byte_views(p@)),
            ),
            Some(None) => opt_path(entry_views(entries@), key(name)) == Some(
                None::<Seq<Seq<u8>>>,
            ),
            None => opt_path(entry_views(entries@), key(name)) is None,
        },
{
    match lookup(entries, name) {
        None => Some(None),
        Some(v) => match read_path(v) {
            Some(p) => Some(Some(p)),
            None => None,
        },
    }
}

/// Reads a file: a dictionary with a path, a length and perhaps a checksum.
fn read_file(v: &BValue) -> (r: Option<TorrentFile>)
    ensures
        match r {
            Some(f) => as_file(v@) == Some(f@),
            None => as_file(v@) is None,
        },
{
    proof {
        lemma_view(*v);
    }
    match v {
        BValue::Dict(d) => {
            let path = match lookup(d, "path") {
                Some(p) => match read_path(p) {
                    Some(path) => path,
                    None => {
                        return None;
                    },
                },
                None => {
                    return None;
                },
            };
            let length = match lookup(d, "length") {
                Some(l) => {
                    proof {
                        lemma_view(*l);
                    }
                    match l {
                        BValue::Int(i) => *i,
                        _ => {
                            return None;
                        },
                    }
                },
                None => {
                    return None;
                },
            };
            let md5sum = match get_opt_bytes(d, "md5sum") {
                Some(m) => m,
                None => {
                    return None;
                },
            };
            Some(TorrentFile { path, length, md5sum })
        },
        _ => None,
    }
}

/// Reads a list of files.
fn read_files(v: &BValue) -> (r: Option<Vec<TorrentFile>>)
    ensures
        match r {
            Some(f) => as_files(v@) == Some(file_views(f@)),
            None => as_files(v@) is None,
        },
{
    proof {
        lemma_view(*v);
    }
    match v {
        BValue::List(items) => {
            let mut files: Vec<TorrentFile> = Vec::new();
            let ghost all = value_views(items@);
            let mut i: usize = 0;
            while i < items.len()
                invariant
                    i <= items.len(),
                    all == value_views(items@),
                    v@ == Bencode::List(all),
                    files.len() == i,
                    forall|j: int| 0 <= j < i ==> as_file(#[trigger] all[j]) == Some(files[j]@),
                decreases items.len() - i,
            {
                assert(all[i as int] == items[i as int]@);
                match read_file(&items[i]) {
                    Some(f) => {
                        files.push(f);
                    },
                    None => {
                        return None;
                    },
                }
                i += 1;
            }
            assert(file_views(files@) =~= all.map_values(|x: Bencode| as_file(x)->0));
            Some(files)
        },
        _ => None,
    }
}

/// Reads the files under `name`, which may be missing.
fn get_opt_files(entries: &Vec<(Vec<u8>, BValue)>, name: &str) -> (r: Option<
    Option<Vec<TorrentFile>>,
>)
    ensures
        match r {
            Some(Some(f)) => opt_files(entry_views(entries@), key(name)) == Some(
                Some(file_views(f@)),
            ),
            Some(None) => opt_files(entry_views(entries@), key(name)) == Some(
                None::<Seq<FileModel>>,
            ),
            None => opt_files(entry_views(entries@), key(name)) is None,
        },
{
    match lookup(entries, name) {
        None => Some(None),
        Some(v) => match read_files(v) {
            Some(f) => Some(Some(f)),
            None => None,
        },
    }
}

/// Reads an info from the dictionary that stands for it.
fn read_info(v: &BValue) -> (r: Option<Info>)
    ensures
        match r {
            Some(info) => as_info(v@) == Some(info@),
            None => as_info(v@) is None,
        },
{
    proof {
        lemma_view(*v);
    }
    match v {
        BValue::Dict(d) => {
            let name = match lookup(d, "name") {
                Some(n) => {
                    proof {
                        lemma_view(*n);
                    }
                    match n {
                        BValue::Bytes(b) => b.clone(),
                        _ => {
                            return None;
                        },
                    }
                },
                None => {
                    return None;
                },
            };
            let pieces = match lookup(d, "pieces") {
                Some(n) => {
                    proof {
                        lemma_view(*n);
                    }
                    match n {
                        BValue::Bytes(b) => b.clone(),
                        _ => {
                            return None;
                        },
                    }
                },
                None => {
                    return None;
                },
            };
            let piece_length = match lookup(d, "piece length") {
                Some(n) => {
                    proof {
                        lemma_view(*n);
                    }
                    match n {
                        BValue::Int(i) => *i,
                        _ => {
                            return None;
                        },
                    }
                },
                None => {
                    return None;
                },
            };
            let md5sum = match get_opt_bytes(d, "md5sum") {
                Some(x) => x,
                None => {
                    return None;
                },
            };
            let length = match get_opt_int(d, "length") {
                Some(x) => x,
                None => {
                    return None;
                },
            };
            let files = match get_opt_files(d, "files") {
                Some(x) => x,
                None => {
                    return None;
                },
            };
            let private = match get_opt_int(d, "private") {
                Some(x) => x,
                None => {
                    return None;
                },
            };
            let path = match get_opt_path(d, "path") {
                Some(x) => x,
                None => {
                    return None;
                },
            };
            let root_hash = match get_opt_bytes(d, "root hash") {
                Some(x) => x,
                None => {
                    return None;
                },
            };
            Some(
                Info {
                    name,
                    pieces,
                    piece_length,
                    md5sum,
                    length,
                    files,
                    private,
                    path,
                    root_hash,
                },
            )
        },
        _ => None,
    }
}

impl Torrent {
    /// Reads the metainfo of a torrent. Of the dictionary only the entry
    /// called `info` is kept.
    pub fn decode(bytes: &[u8]) -> (r: Result<Torrent, TorrentError>)
        ensures
            match r {
                Ok(t) => metainfo(bytes@) == Ok::<InfoModel, TorrentError>(t.info@),
                Err(e) => metainfo(bytes@) == Err::<InfoModel, TorrentError>(e),
            },
    {
        let value = match decode(bytes) {
            Ok(v) => v,
            Err(e) => {
                return Err(e);
            },
        };
        proof {
            lemma_view(value);
        }
        match &value {
            BValue::Dict(d) => match lookup(d, "info") {
                None => Err(TorrentError::MissingInfoDict),
                Some(i) => match read_info(i) {
                    Some(info) => Ok(Torrent { info }),
                    None => Err(TorrentError::BencodeError),
                },
            },
            _ => Err(TorrentError::BencodeError),
        }
    }
}

impl Info {
    /// The name of the torrent's content.
    pub fn name(&self) -> (n: &Vec<u8>)
        ensures
            n@ == self@.name,
    {
        &self.name
    }
}

/// The encodings of the byte strings of `parts`, one after the other.
pub open spec fn enc_each(parts: Seq<Seq<u8>>) -> Seq<u8>
    decreases parts.len(),
{
    if parts.len() == 0 {
        Seq::empty()
    } else {
        enc_each(parts.drop_last()) + enc_bytes(parts.last())
    }
}

/// The encoding of a path: a list of byte strings.
pub open spec fn enc_path(path: Seq<Seq<u8>>) -> Seq<u8> {
    seq![108u8] + enc_each(path) + seq![101u8]
}

/// The entry of a byte string under `key`, or nothing where there is none.
pub open spec fn enc_opt_bytes(key: Seq<u8>, b: Option<Seq<u8>>) -> Seq<u8> {
    match b {
        Some(b) => enc_bytes(key) + enc_bytes(b),
        None => Seq::empty(),
    }
}

/// The entry of an integer under `key`, or nothing where there is none.
pub open spec fn enc_opt_int(key: Seq<u8>, i: Option<int>) -> Seq<u8> {
    match i {
        Some(i) => enc_bytes(key) + enc_int(i),
        None => Seq::empty(),
    }
}

/// The entry of a path under `key`, or nothing where there is none.
pub open spec fn enc_opt_path(key: Seq<u8>, p: Option<Seq<Seq<u8>>>) -> Seq<u8> {
    match p {
        Some(p) => enc_bytes(key) + enc_path(p),
        None => Seq::empty(),
    }
}

/// The encoding of a file: a dictionary of its length, its checksum if it
/// has one, and its path, the keys in ascending order.
pub open spec fn enc_file(f: FileModel) -> Seq<u8> {
    seq![100u8] + enc_bytes(key("length")) + enc_int(f.length) + enc_opt_bytes(
        key("md5sum"),
        f.md5sum,
    ) + enc_bytes(key("path")) + enc_path(f.path) + seq![101u8]
}

/// The encodings of `files`, one after the other.
pub open spec fn enc_files(files: Seq<FileModel>) -> Seq<u8>
    decreases files.len(),
{
    if files.len() == 0 {
        Seq::empty()
    } else {
        enc_files(files.drop_last()) + enc_file(files.last())
    }
}

/// The entry of the files under `key`, or nothing where there are none.
pub open spec fn enc_opt_files(key: Seq<u8>, files: Option<Seq<FileModel>>) -> Seq<u8> {
    match files {
        Some(files) => enc_bytes(key) + seq![108u8] + enc_files(files) + seq![101u8],
        None => Seq::empty(),
    }
}

/// The encoding of an info: a dictionary of what the info holds, the keys
/// in ascending order of their bytes.
pub open spec fn enc_info(info: InfoModel) -> Seq<u8> {
    seq![100u8] + enc_opt_files(key("files"), info.files) + enc_opt_int(
        key("length"),
        info.length,
    ) + enc_opt_bytes(key("md5sum"), info.md5sum) + enc_bytes(key("name")) + enc_bytes(info.name)
        + enc_opt_path(key("path"), info.path) + enc_bytes(key("piece length")) + enc_int(
        info.piece_length,
    ) + enc_bytes(key("pieces")) + enc_bytes(info.pieces) + enc_opt_int(
        key("private"),
        info.private,
    ) + enc_opt_bytes(key("root hash"), info.root_hash) + seq![101u8]
}

/// Appends `b` to `out`.
fn push_bytes(out: &mut Vec<u8>, b: &[u8])
    ensures
        final(out)@ == old(out)@ + b@,
{
    let mut i: usize = 0;
    while i < b.len()
        invariant
            i <= b.len(),
            out@ == old(out)@ + b@.take(i as int),
        decreases b.len() - i,
    {
        out.push(b[i]);
        assert(out@ =~= old(out)@ + b@.take(i + 1));
        i += 1;
    }
    assert(b@.take(b@.len() as int) =~= b@);
}

/// Appends the decimal notation of `n`.
fn push_digits(out: &mut Vec<u8>, n: u64)
    ensures
        final(out)@ == old(out)@ + digits(n as nat),
{
    let mut text: Vec<char> = Vec::new();
    push_decimal(&mut text, n);
    assert(text@ =~= decimal(n as nat));
    let mut i: usize = 0;
    while i < text.len()
        invariant
            i <= text.len(),
            text@ == decimal(n as nat),
            out@ == old(out)@ + digits(n as nat).take(i as int),
        decreases text.len() - i,
    {
        out.push(text[i] as u8);
        assert(out@ =~= old(out)@ + digits(n as nat).take(i + 1));
        i += 1;
    }
    assert(digits(n as nat).take(text@.len() as int) =~= digits(n as nat));
}

/// Appends the encoding of an integer.
fn push_int(out: &mut Vec<u8>, i: i64)
    ensures
        final(out)@ == old(out)@ + enc_int(i as int),
{
    out.push(105);
    if i < 0 {
        out.push(45);
        let m: u64 = (0 - (i as i128)) as u64;
        push_digits(out, m);
    } else {
        push_digits(out, i as u64);
    }
    out.push(101);
    assert(out@ =~= old(out)@ + enc_int(i as int));
}

/// Appends the encoding of a byte string.
fn push_string(out: &mut Vec<u8>, b: &[u8])
    ensures
        final(out)@ == old(out)@ + enc_bytes(b@),
{
    push_digits(out, b.len() as u64);
    out.push(58);
    push_bytes(out, b);
    assert(out@ =~= old(out)@ + enc_bytes(b@));
}

/// Appends the encoding of a key.
fn push_key(out: &mut Vec<u8>, name: &str)
    ensures
        final(out)@ == old(out)@ + enc_bytes(key(name)),
{
    push_string(out, name.as_bytes());
}

/// Appends the encoding of a path.
fn push_path(out: &mut Vec<u8>, path: &Vec<Vec<u8>>)
    ensures
        final(out)@ == old(out)@ + enc_path(byte_views(path@)),
{
    out.push(108);
    let ghost all = byte_views(path@);
    let mut i: usize = 0;
    assert(all.take(0) =~= Seq::<Seq<u8>>::empty());
    assert(out@ =~= old(out)@ + seq![108u8] + enc_each(all.take(0)));
    while i < path.len()
        invariant
            i <= path.len(),
            all == byte_views(path@),
            out@ == old(out)@ + seq![108u8] + enc_each(all.take(i as int)),
        decreases path.len() - i,
    {
        push_string(out, path[i].as_slice());
        proof {
            assert(all.take(i + 1).drop_last() =~= all.take(i as int));
            assert(all.take(i + 1).last() == path[i as int]@);
            assert(out@ =~= old(out)@ + seq![108u8] + enc_each(all.take(i + 1)));
        }
        i += 1;
    }
    assert(all.take(all.len() as int) =~= all);
    out.push(101);
    assert(out@ =~= old(out)@ + enc_path(all));
}

/// Appends the entry of a byte string, if there is one.
fn push_opt_bytes(out: &mut Vec<u8>, name: &str, b: &Option<Vec<u8>>)
    ensures
        final(out)@ == old(out)@ + enc_opt_bytes(key(name), opt_view(*b)),
{
    match b {
        Some(b) => {
            push_key(out, name);
            push_string(out, b.as_slice());
            assert(out@ =~= old(out)@ + (enc_bytes(key(name)) + enc_bytes(b@)));
        },
        None => {
            assert(out@ =~= old(out)@ + Seq::<u8>::empty());
        },
    }
}

/// Appends the entry of an integer, if there is one.
fn push_opt_int(out: &mut Vec<u8>, name: &str, i: Option<i64>)
    ensures
        final(out)@ == old(out)@ + enc_opt_int(key(name), opt_int_view(i)),
{
    match i {
        Some(i) => {
            push_key(out, name);
            push_int(out, i);
            assert(out@ =~= old(out)@ + (enc_bytes(key(name)) + enc_int(i as int)));
        },
        None => {
            assert(out@ =~= old(out)@ + Seq::<u8>::empty());
        },
    }
}

impl TorrentFile {
    /// Appends the encoding of the file.
    fn push_encoding(&self, out: &mut Vec<u8>)
        ensures
            final(out)@ == old(out)@ + enc_file(self@),
    {
        out.push(100);
        push_key(out, "length");
        push_int(out, self.length);
        push_opt_bytes(out, "md5sum", &self.md5sum);
        push_key(out, "path");
        push_path(out, &self.path);
        out.push(101);
        assert(out@ =~= old(out)@ + enc_file(self@));
    }
}

impl Info {
    /// The canonical encoding of the info: a dictionary with its keys in
    /// ascending order of their bytes.
    pub fn encoding(&self) -> (out: Vec<u8>)
        ensures
            out@ == enc_info(self@),
    {
        let mut out: Vec<u8> = Vec::new();
        out.push(100);
        match &self.files {
            Some(files) => {
                push_key(&mut out, "files");
                out.push(108);
                let ghost start = out@;
                let ghost all = file_views(files@);
                let mut i: usize = 0;
                assert(all.take(0) =~= Seq::<FileModel>::empty());
                assert(out@ =~= start + enc_files(all.take(0)));
                while i < files.len()
                    invariant
                        i <= files.len(),
                        all == file_views(files@),
                        out@ == start + enc_files(all.take(i as int)),
                    decreases files.len() - i,
                {
                    files[i].push_encoding(&mut out);
                    proof {
                        assert(all.take(i + 1).drop_last() =~= all.take(i as int));
                        assert(all.take(i + 1).last() == files[i as int]@);
                        assert(out@ =~= start + enc_files(all.take(i + 1)));
                    }
                    i += 1;
                }
                assert(all.take(all.len() as int) =~= all);
                out.push(101);
                assert(out@ =~= seq![100u8] + enc_opt_files(key("files"), self@.files));
            },
            None => {
                assert(out@ =~= seq![100u8] + enc_opt_files(key("files"), self@.files));
            },
        }
        push_opt_int(&mut out, "length", self.length);
        push_opt_bytes(&mut out, "md5sum", &self.md5sum);
        push_key(&mut out, "name");
        push_string(&mut out, self.name.as_slice());
        let ghost before_path = out@;
        match &self.path {
            Some(path) => {
                push_key(&mut out, "path");
                push_path(&mut out, path);
                assert(out@ =~= before_path + enc_opt_path(key("path"), self@.path));
            },
            None => {
                assert(out@ =~= before_path + enc_opt_path(key("path"), self@.path));
            },
        }
        push_key(&mut out, "piece length");
        push_int(&mut out, self.piece_length);
        push_key(&mut out, "pieces");
        push_string(&mut out, self.pieces.as_slice());
        push_opt_int(&mut out, "private", self.private);
        push_opt_bytes(&mut out, "root hash", &self.root_hash);
        out.push(101);
        assert(out@ =~= enc_info(self@));
        out
    }
}

/// The SHA-1 digest of `bytes`, as forty hexadecimal digits in lower case.
pub uninterp spec fn sha1_hex(bytes: Seq<u8>) -> Seq<char>;

/// The number of bytes from which on no digest can be made: the count of
/// bits must fit in 64 bits.
pub const SHA1_LIMIT: u64 = 0x2000_0000_0000_0000;

/// Feeds `bytes` to a fresh `crypto::sha1::Sha1` and returns what
/// `Digest::result_str` gives: the digest of exactly these bytes, in
/// hexadecimal notation. `Digest::input` stops the program where the
/// number of bits does not fit in 64 bits.
#[verifier::external_body]
fn sha1(bytes: &[u8]) -> (hex: String)
    requires
        bytes@.len() < SHA1_LIMIT,
    ensures
        hex@ == sha1_hex(bytes@),
{
    let mut hasher = Sha1::new();
    hasher.input(bytes);
    hasher.result_str()
}

/// The start of the address of a torrent.
pub open spec fn magnet_prefix() -> Seq<char> {
    "magnet:?xt=urn:btih:"@
}

/// The digest of the info that `bytes` hold: that of its canonical encoding.
pub open spec fn digest_of(bytes: Seq<u8>) -> Result<Seq<char>, TorrentError> {
    match metainfo(bytes) {
        Ok(info) => if enc_info(info).len() < SHA1_LIMIT {
            Ok(sha1_hex(enc_info(info)))
        } else {
            Err(TorrentError::TooLong)
        },
        Err(e) => Err(e),
    }
}

/// The SHA-1 digest of `bytes` in hexadecimal notation, unless they are
/// too many.
pub fn digest(bytes: &[u8]) -> (r: Option<String>)
    ensures
        match r {
            Some(hex) => bytes@.len() < SHA1_LIMIT && hex@ == sha1_hex(bytes@),
            None => bytes@.len() >= SHA1_LIMIT,
        },
{
    if bytes.len() as u64 >= SHA1_LIMIT {
        None
    } else {
        Some(sha1(bytes))
    }
}

/// The digest of a torrent depends on its info alone: two dictionaries
/// with the same entry called `info` give the same info, whatever else
/// they hold.
pub proof fn lemma_info_alone_counts(
    a: Seq<(Seq<u8>, Bencode)>,
    b: Seq<(Seq<u8>, Bencode)>,
)
    requires
        found(a, key("info")) == found(b, key("info")),
    ensures
        info_of(Bencode::Dict(a)) == info_of(Bencode::Dict(b)),
{
}

impl Torrent {
    /// The digest of the torrent: that of the canonical encoding of its info.
    pub fn info_hash(&self) -> (hex: String)
        requires
            enc_info(self.info@).len() < SHA1_LIMIT,
        ensures
            hex@ == sha1_hex(enc_info(self.info@)),
    {
        let bytes = self.info.encoding();
        sha1(bytes.as_slice())
    }
}

/// The address under which a torrent with the digest `hash` is shared.
pub fn to_uri(hash: &str) -> (uri: String)
    ensures
        uri@ == magnet_prefix() + hash@,
{
    let mut uri = "magnet:?xt=urn:btih:".to_owned();
    uri.append(hash);
    uri
}

/// The address under which the torrent whose metainfo `bytes` hold is shared.
pub fn torrent_magnet(bytes: &[u8]) -> (r: Result<String, TorrentError>)
    ensures
        match r {
            Ok(uri) => digest_of(bytes@) is Ok && uri@ == magnet_prefix() + digest_of(
                bytes@,
            )->Ok_0,
            Err(e) => digest_of(bytes@) == Err::<Seq<char>, TorrentError>(e),
        },
{
    match Torrent::decode(bytes) {
        Ok(torrent) => {
            let encoding = torrent.info.encoding();
            match digest(encoding.as_slice()) {
                Some(hash) => Ok(to_uri(hash.as_str())),
                None => Err(TorrentError::TooLong),
            }
        },
        Err(e) => Err(e),
    }
}

/// Whether `a` and `b` are the same up to place `i`, where `a` has the
/// smaller byte.
pub open spec fn differ_at(a: Seq<u8>, b: Seq<u8>, i: int) -> bool {
    0 <= i < a.len() && i < b.len() && a.take(i) == b.take(i) && a[i] < b[i]
}

/// Whether the bytes `a` come before the bytes `b` in the order of raw
/// bytes, by a byte in which they differ.
pub open spec fn comes_before(a: Seq<u8>, b: Seq<u8>) -> bool {
    exists|i: int| differ_at(a, b, i)
}

/// The keys of an info, and those of a file, are written in ascending
/// order of their bytes.
pub proof fn lemma_keys_ascend()
    ensures
        comes_before(key("files"), key("length")),
        comes_before(key("length"), key("md5sum")),
        comes_before(key("md5sum"), key("name")),
        comes_before(key("name"), key("path")),
        comes_before(key("path"), key("piece length")),
        comes_before(key("piece length"), key("pieces")),
        comes_before(key("pieces"), key("private")),
        comes_before(key("private"), key("root hash")),
        comes_before(key("md5sum"), key("path")),
{
    reveal_strlit("files");
    is_ascii_chars_encode_utf8("files"@);
    reveal_strlit("length");
    is_ascii_chars_encode_utf8("length"@);
    reveal_strlit("md5sum");
    is_ascii_chars_encode_utf8("md5sum"@);
    reveal_strlit("name");
    is_ascii_chars_encode_utf8("name"@);
    reveal_strlit("path");
    is_ascii_chars_encode_utf8("path"@);
    reveal_strlit("piece length");
    is_ascii_chars_encode_utf8("piece length"@);
    reveal_strlit("pieces");
    is_ascii_chars_encode_utf8("pieces"@);
    reveal_strlit("private");
    is_ascii_chars_encode_utf8("private"@);
    reveal_strlit("root hash");
    is_ascii_chars_encode_utf8("root hash"@);
    assert(differ_at(key("files"), key("length"), 0)) by {
        assert(key("files").take(0) =~= key("length").take(0));
    }
    assert(differ_at(key("length"), key("md5sum"), 0)) by {
        assert(key("length").take(0) =~= key("md5sum").take(0));
    }
    assert(differ_at(key("md5sum"), key("name"), 0)) by {
        assert(key("md5sum").take(0) =~= key("name").take(0));
    }
    assert(differ_at(key("name"), key("path"), 0)) by {
        assert(key("name").take(0) =~= key("path").take(0));
    }
    assert(differ_at(key("path"), key("piece length"), 1)) by {
        assert(key("path").take(1) =~= key("piece length").take(1));
    }
    assert(differ_at(key("piece length"), key("pieces"), 5)) by {
        assert(key("piece length").take(5) =~= key("pieces").take(5));
    }
    assert(differ_at(key("pieces"), key("private"), 1)) by {
        assert(key("pieces").take(1) =~= key("private").take(1));
    }
    assert(differ_at(key("private"), key("root hash"), 0)) by {
        assert(key("private").take(0) =~= key("root hash").take(0));
    }
    assert(differ_at(key("md5sum"), key("path"), 0)) by {
        assert(key("md5sum").take(0) =~= key("path").take(0));
    }
}

} // verus!
