use vstd::prelude::*;
use crate::value::{SpecValue, Value, deep_seq, deep_entries, wf_val};
use crate::codec::{spec_decode_top, spec_encode, norm};
use crate::decode::{DecodeError, decode_bencoded_value};
use crate::encode::encode_bencoded_value;
use crate::chunks::{LengthError, spec_chunks, spec_concat, decode_chunks, encode_chunks};
use crate::hashing::{sha1_of, sha1_digest, hex_of, hex_encode};

verus! {

// The dictionary keys of the metainfo format, as byte strings.
pub open spec fn key_announce() -> Seq<u8> {
    seq![97u8, 110u8, 110u8, 111u8, 117u8, 110u8, 99u8, 101u8]  // "announce"
}

pub open spec fn key_info() -> Seq<u8> {
    seq![105u8, 110u8, 102u8, 111u8]  // "info"
}

pub open spec fn key_name() -> Seq<u8> {
    seq![110u8, 97u8, 109u8, 101u8]  // "name"
}

pub open spec fn key_piece_length() -> Seq<u8> {
    seq![112u8, 105u8, 101u8, 99u8, 101u8, 32u8, 108u8, 101u8, 110u8, 103u8, 116u8, 104u8]  // "piece length"
}

pub open spec fn key_pieces() -> Seq<u8> {
    seq![112u8, 105u8, 101u8, 99u8, 101u8, 115u8]  // "pieces"
}

pub open spec fn key_length() -> Seq<u8> {
    seq![108u8, 101u8, 110u8, 103u8, 116u8, 104u8]  // "length"
}

pub open spec fn key_files() -> Seq<u8> {
    seq![102u8, 105u8, 108u8, 101u8, 115u8]  // "files"
}

pub open spec fn key_path() -> Seq<u8> {
    seq![112u8, 97u8, 116u8, 104u8]  // "path"
}

fn announce_key() -> (k: Vec<u8>)
    ensures
        k@ == key_announce(),
{
    let k = vec![97u8, 110u8, 110u8, 111u8, 117u8, 110u8, 99u8, 101u8];
    proof {
        assert(k@ =~= key_announce());
    }
    k
}

fn info_key() -> (k: Vec<u8>)
    ensures
        k@ == key_info(),
{
    let k = vec![105u8, 110u8, 102u8, 111u8];
    proof {
        assert(k@ =~= key_info());
    }
    k
}

fn name_key() -> (k: Vec<u8>)
    ensures
        k@ == key_name(),
{
    let k = vec![110u8, 97u8, 109u8, 101u8];
    proof {
        assert(k@ =~= key_name());
    }
    k
}

fn piece_length_key() -> (k: Vec<u8>)
    ensures
        k@ == key_piece_length(),
{
    let k = vec![112u8, 105u8, 101u8, 99u8, 101u8, 32u8, 108u8, 101u8, 110u8, 103u8, 116u8, 104u8];
    proof {
        assert(k@ =~= key_piece_length());
    }
    k
}

fn pieces_key() -> (k: Vec<u8>)
    ensures
        k@ == key_pieces(),
{
    let k = vec![112u8, 105u8, 101u8, 99u8, 101u8, 115u8];
    proof {
        assert(k@ =~= key_pieces());
    }
    k
}

fn length_key() -> (k: Vec<u8>)
    ensures
        k@ == key_length(),
{
    let k = vec![108u8, 101u8, 110u8, 103u8, 116u8, 104u8];
    proof {
        assert(k@ =~= key_length());
    }
    k
}

fn files_key() -> (k: Vec<u8>)
    ensures
        k@ == key_files(),
{
    let k = vec![102u8, 105u8, 108u8, 101u8, 115u8];
    proof {
        assert(k@ =~= key_files());
    }
    k
}

fn path_key() -> (k: Vec<u8>)
    ensures
        k@ == key_path(),
{
    let k = vec![112u8, 97u8, 116u8, 104u8];
    proof {
        assert(k@ =~= key_path());
    }
    k
}

/// The value under `key`, at its first occurrence in decode order.
pub open spec fn dict_get(es: Seq<(Seq<u8>, SpecValue)>, key: Seq<u8>) -> Option<SpecValue>
    decreases es.len(),
{
    if es.len() == 0 {
        None
    } else if es[0].0 == key {
        Some(es[0].1)
    } else {
        dict_get(es.drop_first(), key)
    }
}

/// Whether two byte vectors hold the same bytes.
pub fn bytes_eq(a: &Vec<u8>, b: &Vec<u8>) -> (r: bool)
    ensures
        r == (a@ == b@),
{
    if a.len() != b.len() {
        return false;
    }
    let mut i: usize = 0;
    while i < a.len()
        invariant
            i <= a@.len(),
            a@.len() == b@.len(),
            forall|j: int| 0 <= j < i ==> a@[j] == b@[j],
        decreases a@.len() - i,
    {
        if a[i] != b[i] {
            return false;
        }
        i = i + 1;
    }
    proof {
        assert(a@ =~= b@);
    }
    true
}

/// Look `key` up among the entries `es[i..]`, first occurrence wins.
fn dict_find_from<'a>(es: &'a Vec<(Vec<u8>, Value)>, key: &Vec<u8>, i: usize) -> (r: Option<
    &'a Value,
>)
    requires
        i <= es@.len(),
    ensures
        match r {
            Some(v) => dict_get(deep_entries(es@).skip(i as int), key@) == Some(v@),
            None => dict_get(deep_entries(es@).skip(i as int), key@) is None,
        },
    decreases es@.len() - i,
{
    let ghost d = deep_entries(es@);
    if i == es.len() {
        proof {
            assert(d.skip(i as int).len() == 0);
        }
        None
    } else {
        proof {
            assert(d.skip(i as int)[0] == d[i as int]);
            assert(d.skip(i as int).drop_first() =~= d.skip(i + 1));
        }
        if bytes_eq(&es[i].0, key) {
            Some(&es[i].1)
        } else {
            dict_find_from(es, key, i + 1)
        }
    }
}

/// Look `key` up in a dictionary's entries, first occurrence wins.
pub fn dict_find<'a>(es: &'a Vec<(Vec<u8>, Value)>, key: &Vec<u8>) -> (r: Option<&'a Value>)
    ensures
        match r {
            Some(v) => dict_get(deep_entries(es@), key@) == Some(v@),
            None => dict_get(deep_entries(es@), key@) is None,
        },
{
    let r = dict_find_from(es, key, 0);
    proof {
        assert(deep_entries(es@).skip(0) =~= deep_entries(es@));
    }
    r
}

/// A required key of the metainfo schema that was absent or held a term
/// of the wrong kind.
#[derive(Clone, Copy, Debug, PartialEq, Eq, Structural)]
pub enum SchemaError {
    /// The top-level term is not a dictionary, or bytes follow it.
    NotADict,
    /// `announce` is absent or not a byte string.
    Announce,
    /// `info` is absent or not a dictionary.
    Info,
    /// `name` is absent or not a byte string.
    Name,
    /// `piece length` is absent, not an integer, or out of range.
    PieceLength,
    /// `pieces` is absent or not a byte string.
    Pieces,
    /// Neither or both of `length` and `files` are present, or the one
    /// present has the wrong kind or an out-of-range value.
    FileLayout,
    /// A `files` entry is not a dictionary with `length` and `path`.
    FileEntry,
    /// A `path` element is not a byte string.
    Path,
}

/// Why a metainfo parse failed: malformed bencode, a broken schema, or a
/// piece-hash string whose length is no multiple of twenty.
#[derive(Clone, Copy, Debug, PartialEq, Eq, Structural)]
pub enum MetainfoError {
    Decode(DecodeError),
    Schema(SchemaError),
    Length(LengthError),
}

/// The mathematical content of a parsed torrent.
pub struct SpecTorrent {
    pub announce: Seq<u8>,
    pub info: SpecInfo,
}

pub struct SpecInfo {
    pub name: Seq<u8>,
    pub plength: int,
    pub pieces: Seq<Seq<u8>>,
    pub keys: SpecKeys,
}

pub enum SpecKeys {
    SingleFile { length: int },
    MultiFile { files: Seq<SpecFile> },
}

pub struct SpecFile {
    pub length: int,
    pub path: Seq<Seq<u8>>,
}

/// The piece hashes of a torrent: twenty bytes each, in order.
#[derive(Debug, Clone)]
pub struct Hashes(pub Vec<Vec<u8>>);

impl View for Hashes {
    type V = Seq<Seq<u8>>;

    open spec fn view(&self) -> Seq<Seq<u8>> {
        self.0@.map_values(|c: Vec<u8>| c@)
    }
}

/// One file of a multi-file torrent: its byte length and the segments of
/// its relative path.
#[derive(Debug, Clone)]
pub struct File {
    pub length: usize,
    pub path: Vec<Vec<u8>>,
}

impl View for File {
    type V = SpecFile;

    open spec fn view(&self) -> SpecFile {
        SpecFile { length: self.length as int, path: self.path@.map_values(|p: Vec<u8>| p@) }
    }
}

/// The file layout of a torrent: exactly one of a single length or a
/// list of files.
#[derive(Debug, Clone)]
pub enum Keys {
    SingleFile { length: usize },
    MultiFile { files: Vec<File> },
}

impl View for Keys {
    type V = SpecKeys;

    open spec fn view(&self) -> SpecKeys {
        match self {
            Keys::SingleFile { length } => SpecKeys::SingleFile { length: *length as int },
            Keys::MultiFile { files } => SpecKeys::MultiFile {
                files: files@.map_values(|f: File| f@),
            },
        }
    }
}

/// The info dictionary of a torrent, in typed form.
#[derive(Debug, Clone)]
pub struct Info {
    pub name: Vec<u8>,
    pub plength: usize,
    pub pieces: Hashes,
    pub keys: Keys,
}

impl View for Info {
    type V = SpecInfo;

    open spec fn view(&self) -> SpecInfo {
        SpecInfo {
            name: self.name@,
            plength: self.plength as int,
            pieces: self.pieces@,
            keys: self.keys@,
        }
    }
}

impl Info {
    /// Every length of the info fits a signed 64-bit integer, so the
    /// info can be re-encoded as bencode.
    pub open spec fn wf(&self) -> bool {
        &&& self.plength as int <= i64::MAX as int
        &&& match self.keys {
            Keys::SingleFile { length } => length as int <= i64::MAX as int,
            Keys::MultiFile { files } => forall|i: int|
                0 <= i < files@.len() ==> (#[trigger] files@[i]).length as int <= i64::MAX as int,
        }
    }
}

/// A parsed torrent: its announce URL and its info dictionary.
#[derive(Debug, Clone)]
pub struct Torrent {
    pub announce: Vec<u8>,
    pub info: Info,
}

impl View for Torrent {
    type V = SpecTorrent;

    open spec fn view(&self) -> SpecTorrent {
        SpecTorrent { announce: self.announce@, info: self.info@ }
    }
}

/// What a `files` list element must parse to.
pub open spec fn spec_parse_file(v: SpecValue) -> Option<SpecFile> {
    match v {
        SpecValue::Dict(fes) => match (dict_get(fes, key_length()), dict_get(fes, key_path())) {
            (Some(SpecValue::Int(l)), Some(SpecValue::List(ps))) => {
                if !(0 <= l <= usize::MAX) {
                    None
                } else {
                    match spec_parse_path(ps) {
                        Some(path) => Some(SpecFile { length: l, path }),
                        None => None,
                    }
                }
            },
            _ => None,
        },
        _ => None,
    }
}

/// What a `path` list must parse to: byte strings only.
pub open spec fn spec_parse_path(vs: Seq<SpecValue>) -> Option<Seq<Seq<u8>>>
    decreases vs.len(),
{
    if vs.len() == 0 {
        Some(Seq::empty())
    } else {
        match vs[0] {
            SpecValue::Bytes(b) => match spec_parse_path(vs.drop_first()) {
                Some(rest) => Some(seq![b] + rest),
                None => None,
            },
            _ => None,
        }
    }
}

pub open spec fn spec_parse_files(vs: Seq<SpecValue>) -> Option<Seq<SpecFile>>
    decreases vs.len(),
{
    if vs.len() == 0 {
        Some(Seq::empty())
    } else {
        match (spec_parse_file(vs[0]), spec_parse_files(vs.drop_first())) {
            (Some(f), Some(rest)) => Some(seq![f] + rest),
            _ => None,
        }
    }
}

/// The file layout, decided by which of `length` and `files` is present:
/// exactly one must be, and ambiguity is rejected.
pub open spec fn spec_parse_keys(
    len_v: Option<SpecValue>,
    files_v: Option<SpecValue>,
) -> Option<SpecKeys> {
    match (len_v, files_v) {
        (Some(SpecValue::Int(l)), None) => {
            if 0 <= l <= usize::MAX {
                Some(SpecKeys::SingleFile { length: l })
            } else {
                None
            }
        },
        (None, Some(SpecValue::List(fs))) => match spec_parse_files(fs) {
            Some(files) => Some(SpecKeys::MultiFile { files }),
            None => None,
        },
        _ => None,
    }
}

/// What the `info` term must parse to.
pub open spec fn spec_parse_info(v: SpecValue) -> Option<SpecInfo> {
    match v {
        SpecValue::Dict(ies) => match (
            dict_get(ies, key_name()),
            dict_get(ies, key_piece_length()),
            dict_get(ies, key_pieces()),
        ) {
            (
                Some(SpecValue::Bytes(nm)),
                Some(SpecValue::Int(pl)),
                Some(SpecValue::Bytes(pb)),
            ) => {
                if !(0 <= pl <= usize::MAX) {
                    None
                } else if pb.len() % 20 != 0 {
                    None
                } else {
                    match spec_parse_keys(dict_get(ies, key_length()), dict_get(ies, key_files())) {
                        Some(keys) => Some(
                            SpecInfo { name: nm, plength: pl, pieces: spec_chunks(pb, 20), keys },
                        ),
                        None => None,
                    }
                }
            },
            _ => None,
        },
        _ => None,
    }
}

/// What a metainfo file must parse to: a bencode dictionary filling the
/// whole input, with `announce` and a well-formed `info`.
pub open spec fn spec_parse_torrent(s: Seq<u8>) -> Option<SpecTorrent> {
    match spec_decode_top(s) {
        Some((SpecValue::Dict(es), rest)) => {
            if rest.len() != 0 {
                None
            } else {
                match (dict_get(es, key_announce()), dict_get(es, key_info())) {
                    (Some(SpecValue::Bytes(an)), Some(iv)) => match spec_parse_info(iv) {
                        Some(info) => Some(SpecTorrent { announce: an, info }),
                        None => None,
                    },
                    _ => None,
                }
            }
        },
        _ => None,
    }
}

/// Copy a byte vector.
pub(crate) fn copy_bytes(a: &Vec<u8>) -> (r: Vec<u8>)
    ensures
        r@ == a@,
{
    vstd::slice::slice_to_vec(a.as_slice())
}

/// Parse one `files` entry.
fn parse_file(v: &Value) -> (r: Result<File, MetainfoError>)
    ensures
        match r {
            Ok(f) => spec_parse_file(v@) == Some(f@) && f.length as int <= i64::MAX as int,
            Err(_) => spec_parse_file(v@) is None,
        },
{
    match v {
        Value::Dict(fes) => {
            let lv = dict_find(fes, &length_key());
            let pv = dict_find(fes, &path_key());
            match (lv, pv) {
                (Some(Value::Int(l)), Some(Value::List(ps))) => {
                    if *l < 0 || (*l as u64) > (usize::MAX as u64) {
                        return Err(MetainfoError::Schema(SchemaError::FileEntry));
                    }
                    proof {
                        assert(deep_seq(ps@).skip(0) =~= deep_seq(ps@));
                    }
                    match parse_path_from(ps, 0) {
                        Ok(path) => Ok(File { length: *l as usize, path }),
                        Err(e) => Err(e),
                    }
                },
                _ => Err(MetainfoError::Schema(SchemaError::FileEntry)),
            }
        },
        _ => Err(MetainfoError::Schema(SchemaError::FileEntry)),
    }
}

/// Parse the elements `ps[i..]` of a `path` list.
fn parse_path_from(ps: &Vec<Value>, i: usize) -> (r: Result<Vec<Vec<u8>>, MetainfoError>)
    requires
        i <= ps@.len(),
    ensures
        match r {
            Ok(path) => spec_parse_path(deep_seq(ps@).skip(i as int)) == Some(
                path@.map_values(|p: Vec<u8>| p@),
            ),
            Err(_) => spec_parse_path(deep_seq(ps@).skip(i as int)) is None,
        },
    decreases ps@.len() - i,
{
    let ghost d = deep_seq(ps@);
    if i == ps.len() {
        let path: Vec<Vec<u8>> = Vec::new();
        proof {
            assert(d.skip(i as int).len() == 0);
            assert(path@.map_values(|p: Vec<u8>| p@) =~= Seq::<Seq<u8>>::empty());
        }
        return Ok(path);
    }
    proof {
        assert(d.skip(i as int)[0] == d[i as int]);
        assert(d.skip(i as int).drop_first() =~= d.skip(i + 1));
    }
    match &ps[i] {
        Value::Bytes(b) => match parse_path_from(ps, i + 1) {
            Ok(rest) => {
                let ghost tail = rest@;
                let mut rest = rest;
                rest.insert(0, copy_bytes(b));
                proof {
                    assert(rest@.map_values(|p: Vec<u8>| p@) =~= seq![b@] + tail.map_values(
                        |p: Vec<u8>| p@,
                    ));
                }
                Ok(rest)
            },
            Err(e) => Err(e),
        },
        _ => Err(MetainfoError::Schema(SchemaError::Path)),
    }
}

/// Parse the elements `fs[i..]` of a `files` list.
fn parse_files_from(fs: &Vec<Value>, i: usize) -> (r: Result<Vec<File>, MetainfoError>)
    requires
        i <= fs@.len(),
    ensures
        match r {
            Ok(files) => {
                &&& spec_parse_files(deep_seq(fs@).skip(i as int)) == Some(
                    files@.map_values(|f: File| f@),
                )
                &&& forall|j: int|
                    0 <= j < files@.len() ==> (#[trigger] files@[j]).length as int <= i64::MAX as int
            },
            Err(_) => spec_parse_files(deep_seq(fs@).skip(i as int)) is None,
        },
    decreases fs@.len() - i,
{
    let ghost d = deep_seq(fs@);
    if i == fs.len() {
        let files: Vec<File> = Vec::new();
        proof {
            assert(d.skip(i as int).len() == 0);
            assert(files@.map_values(|f: File| f@) =~= Seq::<SpecFile>::empty());
        }
        return Ok(files);
    }
    proof {
        assert(d.skip(i as int)[0] == d[i as int]);
        assert(d.skip(i as int).drop_first() =~= d.skip(i + 1));
    }
    match parse_file(&fs[i]) {
        Err(e) => Err(e),
        Ok(f) => match parse_files_from(fs, i + 1) {
            Err(e) => Err(e),
            Ok(rest) => {
                let ghost tail = rest@;
                let ghost fd = f@;
                let mut rest = rest;
                rest.insert(0, f);
                proof {
                    assert(rest@.map_values(|f2: File| f2@) =~= seq![fd] + tail.map_values(
                        |f2: File| f2@,
                    ));
                }
                Ok(rest)
            },
        },
    }
}

/// Parse the `info` term.
fn parse_info(v: &Value) -> (r: Result<Info, MetainfoError>)
    ensures
        match r {
            Ok(info) => spec_parse_info(v@) == Some(info@) && info.wf(),
            Err(_) => spec_parse_info(v@) is None,
        },
{
    match v {
        Value::Dict(ies) => {
            let nm = match dict_find(ies, &name_key()) {
                Some(Value::Bytes(b)) => copy_bytes(b),
                _ => {
                    return Err(MetainfoError::Schema(SchemaError::Name));
                },
            };
            let pl: usize = match dict_find(ies, &piece_length_key()) {
                Some(Value::Int(l)) => {
                    if *l < 0 || (*l as u64) > (usize::MAX as u64) {
                        return Err(MetainfoError::Schema(SchemaError::PieceLength));
                    }
                    *l as usize
                },
                _ => {
                    return Err(MetainfoError::Schema(SchemaError::PieceLength));
                },
            };
            let pieces = match dict_find(ies, &pieces_key()) {
                Some(Value::Bytes(pb)) => match decode_chunks(pb.as_slice(), 20) {
                    Ok(cs) => Hashes(cs),
                    Err(e) => {
                        return Err(MetainfoError::Length(e));
                    },
                },
                _ => {
                    return Err(MetainfoError::Schema(SchemaError::Pieces));
                },
            };
            let lv = dict_find(ies, &length_key());
            let fv = dict_find(ies, &files_key());
            let keys = match (lv, fv) {
                (Some(Value::Int(l)), None) => {
                    if *l < 0 || (*l as u64) > (usize::MAX as u64) {
                        return Err(MetainfoError::Schema(SchemaError::FileLayout));
                    }
                    Keys::SingleFile { length: *l as usize }
                },
                (None, Some(Value::List(fs))) => match parse_files_from(fs, 0) {
                    Ok(files) => {
                        proof {
                            assert(deep_seq(fs@).skip(0) =~= deep_seq(fs@));
                        }
                        Keys::MultiFile { files }
                    },
                    Err(e) => {
                        proof {
                            assert(deep_seq(fs@).skip(0) =~= deep_seq(fs@));
                        }
                        return Err(e);
                    },
                },
                _ => {
                    return Err(MetainfoError::Schema(SchemaError::FileLayout));
                },
            };
            Ok(Info { name: nm, plength: pl, pieces, keys })
        },
        _ => Err(MetainfoError::Schema(SchemaError::Info)),
    }
}

/// Parse a metainfo file: decode the bencode dictionary that fills the
/// whole input and project it into the typed model. Succeeds exactly on
/// the inputs the schema admits, and never on any other.
pub fn parse(bytes: &[u8]) -> (r: Result<Torrent, MetainfoError>)
    ensures
        match r {
            Ok(t) => spec_parse_torrent(bytes@) == Some(t@) && t.info.wf(),
            Err(_) => spec_parse_torrent(bytes@) is None,
        },
{
    let (v, end) = match decode_bencoded_value(bytes) {
        Ok(pair) => pair,
        Err(e) => {
            return Err(MetainfoError::Decode(e));
        },
    };
    if end != bytes.len() {
        proof {
            assert(bytes@.skip(end as int).len() != 0);
        }
        return Err(MetainfoError::Schema(SchemaError::NotADict));
    }
    proof {
        assert(bytes@.skip(end as int).len() == 0);
    }
    match &v {
        Value::Dict(es) => {
            let an = match dict_find(es, &announce_key()) {
                Some(Value::Bytes(b)) => copy_bytes(b),
                _ => {
                    return Err(MetainfoError::Schema(SchemaError::Announce));
                },
            };
            let iv = match dict_find(es, &info_key()) {
                Some(found) => found,
                None => {
                    return Err(MetainfoError::Schema(SchemaError::Info));
                },
            };
            match parse_info(iv) {
                Ok(info) => Ok(Torrent { announce: an, info }),
                Err(e) => Err(e),
            }
        },
        _ => Err(MetainfoError::Schema(SchemaError::NotADict)),
    }
}

/// The bencode term a file entry re-encodes to.
pub open spec fn file_value(f: SpecFile) -> SpecValue {
    SpecValue::Dict(
        seq![
            (key_length(), SpecValue::Int(f.length)),
            (key_path(), SpecValue::List(f.path.map_values(|p: Seq<u8>| SpecValue::Bytes(p)))),
        ],
    )
}

/// The bencode term the info dictionary re-encodes to.
pub open spec fn spec_info_value(i: SpecInfo) -> SpecValue {
    SpecValue::Dict(
        seq![
            (key_name(), SpecValue::Bytes(i.name)),
            (key_piece_length(), SpecValue::Int(i.plength)),
            (key_pieces(), SpecValue::Bytes(spec_concat(i.pieces))),
        ] + match i.keys {
            SpecKeys::SingleFile { length } => seq![(key_length(), SpecValue::Int(length))],
            SpecKeys::MultiFile { files } => seq![
                (key_files(), SpecValue::List(files.map_values(|f: SpecFile| file_value(f)))),
            ],
        },
    )
}

/// The torrent's identity: the SHA-1 digest of the canonical encoding of
/// its info dictionary. A function of the info's content alone.
pub open spec fn info_hash_spec(i: SpecInfo) -> Seq<u8> {
    sha1_of(spec_encode(norm(spec_info_value(i))))
}

/// The info hash is pure: torrents whose info content is equal get the
/// same identity, on every call.
pub proof fn lemma_info_hash_pure(t1: Torrent, t2: Torrent)
    requires
        t1.info@ == t2.info@,
    ensures
        info_hash_spec(t1.info@) == info_hash_spec(t2.info@),
{
}

/// The term an info dictionary re-encodes to is well formed: every
/// integer in it fits a signed 64-bit word.
pub proof fn lemma_info_value_wf(info: Info)
    requires
        info.wf(),
    ensures
        wf_val(spec_info_value(info@)),
{
    let es = spec_info_value(info@)->Dict_0;
    assert forall|i: int| 0 <= i < es.len() implies wf_val(#[trigger] es[i].1) by {
        if i == 3 {
            match info.keys {
                Keys::SingleFile { length: _ } => {},
                Keys::MultiFile { files } => {
                    let fs = info@.keys->MultiFile_files;
                    let vals = fs.map_values(|f: SpecFile| file_value(f));
                    assert forall|j: int| 0 <= j < vals.len() implies wf_val(
                        #[trigger] vals[j],
                    ) by {
                        assert(vals[j] == file_value(fs[j]));
                        assert(fs[j] == files@[j]@);
                        let fes = file_value(fs[j])->Dict_0;
                        assert(fes[0].1 == SpecValue::Int(fs[j].length));
                        assert(files@[j].length as int <= i64::MAX as int);
                        assert forall|k: int| 0 <= k < fes.len() implies wf_val(
                            #[trigger] fes[k].1,
                        ) by {
                            if k == 1 {
                                let ps = fs[j].path.map_values(|p: Seq<u8>| SpecValue::Bytes(p));
                                assert forall|m: int| 0 <= m < ps.len() implies wf_val(
                                    #[trigger] ps[m],
                                ) by {
                                    assert(ps[m] == SpecValue::Bytes(fs[j].path[m]));
                                }
                            }
                        }
                    }
                },
            }
        }
    }
}

/// What can be said of the hash without assuming anything of SHA-1:
/// infos whose content differs even after normalization have different
/// canonical encodings, so their identities can only coincide where
/// SHA-1 itself collides on distinct inputs.
pub proof fn lemma_info_hash_separates(t1: Torrent, t2: Torrent)
    requires
        t1.info.wf(),
        t2.info.wf(),
        norm(spec_info_value(t1.info@)) != norm(spec_info_value(t2.info@)),
    ensures
        spec_encode(norm(spec_info_value(t1.info@))) != spec_encode(
            norm(spec_info_value(t2.info@)),
        ),
{
    lemma_info_value_wf(t1.info);
    lemma_info_value_wf(t2.info);
    if spec_encode(norm(spec_info_value(t1.info@))) == spec_encode(
        norm(spec_info_value(t2.info@)),
    ) {
        crate::roundtrip::lemma_encode_injective(
            spec_info_value(t1.info@),
            spec_info_value(t2.info@),
        );
    }
}

/// Rebuild the bencode term of one file entry.
fn file_to_value(f: &File) -> (v: Value)
    requires
        f.length as int <= i64::MAX as int,
    ensures
        v@ == file_value(f@),
{
    let mut path_vals: Vec<Value> = Vec::new();
    let mut i: usize = 0;
    while i < f.path.len()
        invariant
            i <= f.path@.len(),
            path_vals@.len() == i,
            forall|j: int|
                0 <= j < i ==> (#[trigger] path_vals@[j])@ == SpecValue::Bytes(f.path@[j]@),
        decreases f.path@.len() - i,
    {
        path_vals.push(Value::Bytes(copy_bytes(&f.path[i])));
        i = i + 1;
    }
    let mut es: Vec<(Vec<u8>, Value)> = Vec::new();
    es.push((length_key(), Value::Int(f.length as i64)));
    es.push((path_key(), Value::List(path_vals)));
    let v = Value::Dict(es);
    proof {
        assert(deep_seq(es@[1].1->List_0@) =~= f@.path.map_values(|p: Seq<u8>| SpecValue::Bytes(p)));
        assert(deep_entries(es@) =~= file_value(f@)->Dict_0);
    }
    v
}

/// Rebuild the bencode terms of the file entries, in order.
fn files_to_values(files: &Vec<File>) -> (r: Vec<Value>)
    requires
        forall|i: int|
            0 <= i < files@.len() ==> (#[trigger] files@[i]).length as int <= i64::MAX as int,
    ensures
        r@.len() == files@.len(),
        forall|j: int| 0 <= j < r@.len() ==> (#[trigger] r@[j])@ == file_value(files@[j]@),
{
    let mut r: Vec<Value> = Vec::new();
    let mut i: usize = 0;
    while i < files.len()
        invariant
            i <= files@.len(),
            r@.len() == i,
            forall|i2: int|
                0 <= i2 < files@.len() ==> (#[trigger] files@[i2]).length as int <= i64::MAX as int,
            forall|j: int| 0 <= j < i ==> (#[trigger] r@[j])@ == file_value(files@[j]@),
        decreases files@.len() - i,
    {
        r.push(file_to_value(&files[i]));
        i = i + 1;
    }
    r
}

/// Rebuild the bencode term of the info dictionary.
fn info_to_value(info: &Info) -> (v: Value)
    requires
        info.wf(),
    ensures
        v@ == spec_info_value(info@),
{
    let mut es: Vec<(Vec<u8>, Value)> = Vec::new();
    es.push((name_key(), Value::Bytes(copy_bytes(&info.name))));
    es.push((piece_length_key(), Value::Int(info.plength as i64)));
    es.push((pieces_key(), Value::Bytes(encode_chunks(&info.pieces.0))));
    match &info.keys {
        Keys::SingleFile { length } => {
            es.push((length_key(), Value::Int(*length as i64)));
        },
        Keys::MultiFile { files } => {
            let vals = files_to_values(files);
            proof {
                assert(deep_seq(vals@) =~= info@.keys->MultiFile_files.map_values(
                    |f: SpecFile| file_value(f),
                ));
            }
            es.push((files_key(), Value::List(vals)));
        },
    }
    let v = Value::Dict(es);
    proof {
        assert(deep_entries(es@) =~= spec_info_value(info@)->Dict_0);
    }
    v
}

impl Torrent {
    /// The torrent's 20-byte identity: the info dictionary is re-encoded
    /// canonically (keys in sorted order at every depth) and hashed with
    /// SHA-1. Equal info content always gives an equal hash.
    pub fn info_hash(&self) -> (r: [u8; 20])
        requires
            self.info.wf(),
        ensures
            r@ == info_hash_spec(self.info@),
    {
        let v = info_to_value(&self.info);
        let enc = encode_bencoded_value(&v);
        sha1_digest(enc.as_slice())
    }

    /// The identity in lowercase hexadecimal, as it is reported.
    pub fn info_hash_hex(&self) -> (r: String)
        requires
            self.info.wf(),
        ensures
            r@ == hex_of(info_hash_spec(self.info@)),
    {
        let h = self.info_hash();
        hex_encode(h.as_slice())
    }
}

} // verus!
