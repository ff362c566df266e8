use vstd::prelude::*;
use crate::value::{Value, enc, canonical};
use crate::grammar::{DecodeError, MAX_DEPTH, parse_value};
use crate::decode::{decode_exact, bytes_equal};
use crate::encode::encode;

verus! {

broadcast use {vstd::std_specs::vec::group_vec_axioms, vstd::seq::group_seq_axioms};

/// The size of one piece's hash in `pieces`.
pub const HASH_LEN: usize = 20;

/// Why a decoded value is not torrent metadata.
#[derive(Clone, Copy, Debug, PartialEq, Eq)]
pub enum MetaError {
    /// The bytes are not one bencoded value.
    Decode(DecodeError),
    /// The top-level value is not a dictionary.
    NotADictionary,
    /// A required key is absent, or holds a value of the wrong kind.
    MissingField,
    /// `announce` is not UTF-8 text.
    InvalidAnnounceUrl,
    /// `name` is not UTF-8 text.
    InvalidName,
    /// `piece length` is zero or negative.
    InvalidPieceLength,
    /// The length of `pieces` is not a multiple of `HASH_LEN`.
    MalformedPieceHashes,
    /// `info` holds both `length` and `files`, or neither.
    AmbiguousLayout,
    /// A length is negative, a file entry is malformed, or the total does not fit 64 bits.
    InvalidLength,
}

/// The descriptive part of torrent metadata.
#[derive(Debug)]
pub struct Info {
    pub name: String,
    pub piece_length: u64,
    pub pieces: Vec<u8>,
    /// The total size of the content: the single file's length, or the sum over all files.
    pub length: u64,
    /// The files of a multi-file layout, in order; empty for a single file.
    pub files: Vec<FileEntry>,
}

/// Torrent metadata: the tracker URL, the description of the content, and
/// the content identifier, a digest of the canonical encoding of `info`.
#[derive(Debug)]
pub struct Torrent {
    pub announce: String,
    pub info: Info,
    pub info_hash: Vec<u8>,
}

/// The SHA-1 digest of `b`.
pub uninterp spec fn sha1_of(b: Seq<u8>) -> Seq<u8>;

/// Relies on the sha1 crate's `Sha1::digest`: the SHA-1 digest of the bytes,
/// 20 bytes long (its output size is `U20`).
#[verifier::external_body]
fn sha1_digest(b: &Vec<u8>) -> (r: Vec<u8>)
    ensures
        r@ == sha1_of(b@),
        r@.len() == 20,
{
    <sha1::Sha1 as sha1::Digest>::digest(b.as_slice()).to_vec()
}

/// What `String::from_utf8` makes of `b`: its text where `b` is UTF-8, else nothing.
pub uninterp spec fn utf8_text(b: Seq<u8>) -> Option<Seq<char>>;

/// Relies on std's `String::from_utf8`: `Ok` exactly when the bytes are valid
/// UTF-8, holding the text they encode.
#[verifier::external_body]
fn utf8_string(b: Vec<u8>) -> (r: Option<String>)
    ensures
        r is Some <==> utf8_text(b@) is Some,
        r matches Some(s) ==> s@ == utf8_text(b@)->0,
{
    String::from_utf8(b).ok()
}

/// The position of the first entry with key `k`.
pub open spec fn key_pos(e: Seq<(Vec<u8>, Value)>, k: Seq<u8>) -> Option<nat>
    decreases e.len(),
{
    if e.len() == 0 {
        None
    } else if e[0].0@ == k {
        Some(0)
    } else {
        match key_pos(e.drop_first(), k) {
            Some(i) => Some(i + 1),
            None => None,
        }
    }
}

/// The value under key `k` of a dictionary.
pub open spec fn dict_get(v: Value, k: Seq<u8>) -> Option<Value> {
    match v {
        Value::Dictionary(e) => match key_pos(e@, k) {
            Some(i) => Some(e@[i as int].1),
            None => None,
        },
        _ => None,
    }
}

pub open spec fn key_announce() -> Seq<u8> { seq![97u8, 110, 110, 111, 117, 110, 99, 101] }
pub open spec fn key_info() -> Seq<u8> { seq![105u8, 110, 102, 111] }
pub open spec fn key_name() -> Seq<u8> { seq![110u8, 97, 109, 101] }
pub open spec fn key_piece_length() -> Seq<u8> { seq![112u8, 105, 101, 99, 101, 32, 108, 101, 110, 103, 116, 104] }
pub open spec fn key_pieces() -> Seq<u8> { seq![112u8, 105, 101, 99, 101, 115] }
pub open spec fn key_length() -> Seq<u8> { seq![108u8, 101, 110, 103, 116, 104] }
pub open spec fn key_files() -> Seq<u8> { seq![102u8, 105, 108, 101, 115] }
pub open spec fn key_path() -> Seq<u8> { seq![112u8, 97, 116, 104] }

/// Every value of `s` is a byte string.
pub open spec fn all_bytes(s: Seq<Value>) -> bool {
    forall|i: int| 0 <= i < s.len() ==> #[trigger] s[i] is ByteString
}

/// The length of one entry of `files`: a dictionary with a non-negative
/// integer `length` and a `path` that is a list of byte strings.
pub open spec fn file_length(f: Value) -> Option<int> {
    match (dict_get(f, key_length()), dict_get(f, key_path())) {
        (Some(Value::Integer(n)), Some(Value::List(ps))) =>
            if n >= 0 && all_bytes(ps@) { Some(n as int) } else { None },
        _ => None,
    }
}

/// The path components of one entry of `files`.
pub open spec fn file_path(f: Value) -> Seq<Seq<u8>> {
    match dict_get(f, key_path()) {
        Some(Value::List(ps)) => Seq::new(ps@.len(), |i: int| ps@[i]->ByteString_0@),
        _ => seq![],
    }
}

/// The per-file layout that `info` states: each entry's path and length, in
/// list order; empty for a single-file layout.
pub open spec fn layout_files(info: Value) -> Seq<(Seq<Seq<u8>>, int)> {
    match dict_get(info, key_files()) {
        Some(Value::List(fs)) => Seq::new(fs@.len(), |j: int| (file_path(fs@[j]), file_length(fs@[j])->0)),
        _ => seq![],
    }
}

/// One file of a multi-file layout.
#[derive(Debug)]
pub struct FileEntry {
    pub path: Vec<Vec<u8>>,
    pub length: u64,
}

/// What a list of file entries holds: each path's components and the length.
pub open spec fn files_view(fs: Seq<FileEntry>) -> Seq<(Seq<Seq<u8>>, int)> {
    Seq::new(fs.len(), |j: int| (Seq::new(fs[j].path@.len(), |i: int| fs[j].path@[i]@), fs[j].length as int))
}

/// The total length of `files`, where every entry is valid and every running
/// total fits 64 bits.
pub open spec fn files_total(files: Seq<Value>) -> Option<int>
    decreases files.len(),
{
    if files.len() == 0 {
        Some(0)
    } else {
        match (files_total(files.drop_last()), file_length(files.last())) {
            (Some(t), Some(l)) => if t + l <= u64::MAX { Some(t + l) } else { None },
            _ => None,
        }
    }
}

/// The total content length that `info` states.
pub open spec fn layout_length(info: Value) -> Result<int, MetaError> {
    let single = dict_get(info, key_length());
    let multi = dict_get(info, key_files());
    if single is Some == multi is Some {
        Err(MetaError::AmbiguousLayout)
    } else if single is Some {
        match single->0 {
            Value::Integer(n) => if n >= 0 { Ok(n as int) } else { Err(MetaError::InvalidLength) },
            _ => Err(MetaError::InvalidLength),
        }
    } else {
        match multi->0 {
            Value::List(fs) => match files_total(fs@) {
                Some(t) => Ok(t),
                None => Err(MetaError::InvalidLength),
            },
            _ => Err(MetaError::InvalidLength),
        }
    }
}

/// Torrent metadata as a decoded value states it: announce, name, piece length,
/// pieces, total length, the encoding of `info` that the identifier digests,
/// and the per-file layout.
pub open spec fn metadata(v: Value) -> Result<(Seq<char>, Seq<char>, int, Seq<u8>, int, Seq<u8>, Seq<(Seq<Seq<u8>>, int)>), MetaError> {
    if !(v is Dictionary) {
        Err(MetaError::NotADictionary)
    } else {
        match (dict_get(v, key_announce()), dict_get(v, key_info())) {
            (Some(Value::ByteString(a)), Some(info)) => if !(info is Dictionary) {
                Err(MetaError::MissingField)
            } else if utf8_text(a@) is None {
                Err(MetaError::InvalidAnnounceUrl)
            } else {
                match (dict_get(info, key_name()), dict_get(info, key_piece_length()), dict_get(info, key_pieces())) {
                    (Some(Value::ByteString(nm)), Some(Value::Integer(pl)), Some(Value::ByteString(pc))) =>
                        if utf8_text(nm@) is None {
                            Err(MetaError::InvalidName)
                        } else if pl <= 0 {
                            Err(MetaError::InvalidPieceLength)
                        } else if pc@.len() % (HASH_LEN as nat) != 0 {
                            Err(MetaError::MalformedPieceHashes)
                        } else {
                            match layout_length(info) {
                                Ok(len) => Ok((utf8_text(a@)->0, utf8_text(nm@)->0, pl as int, pc@, len, enc(info), layout_files(info))),
                                Err(e) => Err(e),
                            }
                        },
                    _ => Err(MetaError::MissingField),
                }
            },
            _ => Err(MetaError::MissingField),
        }
    }
}


/// What `from_value` owes for `v`: the torrent it returns holds what
/// `metadata(v)` states, or it fails with the error `metadata(v)` gives.
pub open spec fn mapped_from(v: Value, r: Result<Torrent, MetaError>) -> bool {
    match metadata(v) {
        Ok((a, n, pl, pc, len, ie, fl)) => r matches Ok(t) && t.announce@ == a && t.info.name@ == n
            && t.info.piece_length == pl && t.info.pieces@ == pc && t.info.length == len
            && t.info_hash@ == sha1_of(ie) && files_view(t.info.files@) == fl,
        Err(e) => r == Err::<Torrent, MetaError>(e),
    }
}

/// The value under the first entry with key `k`.
fn entry<'a>(entries: &'a Vec<(Vec<u8>, Value)>, k: &Vec<u8>) -> (r: Option<&'a Value>)
    ensures
        match key_pos(entries@, k@) {
            Some(i) => r matches Some(x) && *x == entries@[i as int].1,
            None => r is None,
        },
{
    let mut i: usize = 0;
    assert(entries@.skip(0) =~= entries@);
    while i < entries.len()
        invariant
            0 <= i <= entries.len(),
            key_pos(entries@, k@) == match key_pos(entries@.skip(i as int), k@) {
                Some(j) => Some((j + i) as nat),
                None => None::<nat>,
            },
        decreases entries.len() - i,
    {
        assert(entries@.skip(i as int)[0] == entries@[i as int]);
        if bytes_equal(&entries[i].0, k) {
            return Some(&entries[i].1);
        }
        assert(entries@.skip(i as int).drop_first() =~= entries@.skip(i + 1));
        i = i + 1;
    }
    None
}

/// The value under key `k` of `v`, where `v` is a dictionary.
fn lookup<'a>(v: &'a Value, k: &Vec<u8>) -> (r: Option<&'a Value>)
    ensures
        r is Some <==> dict_get(*v, k@) is Some,
        r matches Some(x) ==> dict_get(*v, k@) == Some(*x),
{
    match v {
        Value::Dictionary(e) => entry(e, k),
        _ => None,
    }
}

/// A vector holding the bytes of `a`.
fn bytes_of(a: &[u8]) -> (r: Vec<u8>)
    ensures
        r@ == a@,
{
    let mut r: Vec<u8> = Vec::new();
    let mut i: usize = 0;
    while i < a.len()
        invariant
            0 <= i <= a.len(),
            r@ == a@.take(i as int),
        decreases a.len() - i,
    {
        r.push(a[i]);
        i = i + 1;
        assert(r@ =~= a@.take(i as int));
    }
    assert(a@.take(i as int) =~= a@);
    r
}

/// The components of a `path` list, where each is a byte string.
fn read_path(ps: &Vec<Value>) -> (r: Option<Vec<Vec<u8>>>)
    ensures
        r is Some <==> all_bytes(ps@),
        r matches Some(p) ==> p@.len() == ps@.len()
            && forall|i: int| 0 <= i < p@.len() ==> #[trigger] p@[i]@ == ps@[i]->ByteString_0@,
{
    let mut out: Vec<Vec<u8>> = Vec::new();
    let mut i: usize = 0;
    while i < ps.len()
        invariant
            0 <= i <= ps.len(),
            out@.len() == i,
            forall|m: int| 0 <= m < i ==> #[trigger] ps@[m] is ByteString,
            forall|m: int| 0 <= m < i ==> #[trigger] out@[m]@ == ps@[m]->ByteString_0@,
        decreases ps.len() - i,
    {
        match &ps[i] {
            Value::ByteString(b) => {
                out.push(bytes_of(b.as_slice()));
            },
            _ => {
                return None;
            },
        }
        i = i + 1;
    }
    Some(out)
}

/// The files of a `files` list and their total length.
fn read_files(files: &Vec<Value>) -> (r: Option<(u64, Vec<FileEntry>)>)
    ensures
        match files_total(files@) {
            Some(t) => r matches Some((x, fe)) && x as int == t
                && files_view(fe@) == Seq::new(files@.len(), |j: int| (file_path(files@[j]), file_length(files@[j])->0)),
            None => r is None,
        },
{
    let k_length = bytes_of(&[108u8, 101, 110, 103, 116, 104]);
    let k_path = bytes_of(&[112u8, 97, 116, 104]);
    assert(k_length@ =~= key_length());
    assert(k_path@ =~= key_path());
    let mut total: u64 = 0;
    let mut fe: Vec<FileEntry> = Vec::new();
    let mut i: usize = 0;
    assert(files@.take(0) =~= Seq::<Value>::empty());
    assert(files_view(fe@) =~= Seq::new(0 as nat, |j: int| (file_path(files@[j]), file_length(files@[j])->0)));
    while i < files.len()
        invariant
            0 <= i <= files.len(),
            k_length@ == key_length(),
            k_path@ == key_path(),
            files_total(files@.take(i as int)) == Some(total as int),
            fe@.len() == i,
            files_view(fe@) == Seq::new(i as nat, |j: int| (file_path(files@[j]), file_length(files@[j])->0)),
        decreases files.len() - i,
    {
        let f = &files[i];
        proof {
            assert(files@.take(i + 1).drop_last() =~= files@.take(i as int));
            assert(files@.take(i + 1).last() == files@[i as int]);
        }
        let (len, path): (u64, Vec<Vec<u8>>) = match (lookup(f, &k_length), lookup(f, &k_path)) {
            (Some(Value::Integer(n)), Some(Value::List(ps))) => {
                if *n < 0 {
                    proof { lemma_files_total_fails(files@, i + 1); }
                    return None;
                }
                match read_path(ps) {
                    Some(p) => {
                        assert(Seq::new(p@.len(), |m: int| p@[m]@) =~= file_path(*f));
                        assert(file_length(*f) == Some(*n as int));
                        (*n as u64, p)
                    },
                    None => {
                        proof { lemma_files_total_fails(files@, i + 1); }
                        return None;
                    },
                }
            },
            _ => {
                proof { lemma_files_total_fails(files@, i + 1); }
                return None;
            },
        };
        assert(Seq::new(path@.len(), |m: int| path@[m]@) == file_path(files@[i as int]));
        assert(file_length(files@[i as int]) == Some(len as int));
        if total > u64::MAX - len {
            proof { lemma_files_total_fails(files@, i + 1); }
            return None;
        }
        total = total + len;
        let ghost before = fe@;
        let ghost pv = path@;
        fe.push(FileEntry { path, length: len });
        proof {
            let want = Seq::new((i + 1) as nat, |j: int| (file_path(files@[j]), file_length(files@[j])->0));
            assert(fe@[i as int].path@ == pv);
            assert forall|j: int| 0 <= j < i + 1 implies #[trigger] files_view(fe@)[j] == want[j] by {
                if j < i {
                    assert(fe@[j] == before[j]);
                    assert(files_view(before)[j] == files_view(fe@)[j]);
                } else {
                    assert(files_view(fe@)[j].0 =~= file_path(files@[j]));
                }
            }
            assert(files_view(fe@) =~= want);
        }
        i = i + 1;
    }
    assert(files@.take(i as int) =~= files@);
    Some((total, fe))
}

proof fn lemma_files_total_fails(files: Seq<Value>, k: int)
    requires
        0 <= k <= files.len(),
        files_total(files.take(k)) is None,
    ensures
        files_total(files) is None,
    decreases files.len() - k,
{
    if k < files.len() {
        assert(files.take(k + 1).drop_last() =~= files.take(k));
        lemma_files_total_fails(files, k + 1);
    } else {
        assert(files.take(k) =~= files);
    }
}

/// The total content length and the per-file layout that `info` states.
fn layout(info: &Value, k_length: &Vec<u8>, k_files: &Vec<u8>) -> (r: Result<(u64, Vec<FileEntry>), MetaError>)
    requires
        k_length@ == key_length(),
        k_files@ == key_files(),
    ensures
        match layout_length(*info) {
            Ok(n) => r matches Ok((x, fe)) && x as int == n && files_view(fe@) == layout_files(*info),
            Err(e) => r == Err::<(u64, Vec<FileEntry>), MetaError>(e),
        },
{
    let single = lookup(info, k_length);
    let multi = lookup(info, k_files);
    if single.is_some() == multi.is_some() {
        return Err(MetaError::AmbiguousLayout);
    }
    match single {
        Some(Value::Integer(n)) => {
            if *n < 0 {
                Err(MetaError::InvalidLength)
            } else {
                let fe: Vec<FileEntry> = Vec::new();
                assert(files_view(fe@) =~= layout_files(*info));
                Ok((*n as u64, fe))
            }
        },
        Some(_) => Err(MetaError::InvalidLength),
        None => match multi {
            Some(Value::List(fs)) => match read_files(fs) {
                Some(t) => Ok(t),
                None => Err(MetaError::InvalidLength),
            },
            _ => Err(MetaError::InvalidLength),
        },
    }
}

impl Info {
    /// An empty description: no name, no pieces, nothing to download.
    pub fn new() -> (r: Info)
        ensures
            r.name@.len() == 0,
            r.piece_length == 0,
            r.pieces@.len() == 0,
            r.length == 0,
            r.files@.len() == 0,
    {
        Info {
            name: String::new(),
            piece_length: 0,
            pieces: Vec::new(),
            length: 0,
            files: Vec::new(),
        }
    }
}

impl Torrent {
    /// Empty metadata: no tracker, and an empty description.
    pub fn new() -> (r: Torrent)
        ensures
            r.announce@.len() == 0,
            r.info.name@.len() == 0,
            r.info.piece_length == 0,
            r.info.pieces@.len() == 0,
            r.info.length == 0,
            r.info_hash@.len() == 0,
    {
        Torrent { announce: String::new(), info: Info::new(), info_hash: Vec::new() }
    }

    /// The total size of the content.
    pub fn length(self) -> (r: u64)
        ensures
            r == self.info.length,
    {
        self.info.length
    }

    /// The metadata that the decoded value `v` states.
    pub fn from_value(v: &Value) -> (r: Result<Torrent, MetaError>)
        ensures
            mapped_from(*v, r),
    {
        if !matches!(v, Value::Dictionary(_)) {
            return Err(MetaError::NotADictionary);
        }
        let k_announce = bytes_of(&[97u8, 110, 110, 111, 117, 110, 99, 101]);
        let k_info = bytes_of(&[105u8, 110, 102, 111]);
        let k_name = bytes_of(&[110u8, 97, 109, 101]);
        let k_piece_length = bytes_of(&[112u8, 105, 101, 99, 101, 32, 108, 101, 110, 103, 116, 104]);
        let k_pieces = bytes_of(&[112u8, 105, 101, 99, 101, 115]);
        let k_length = bytes_of(&[108u8, 101, 110, 103, 116, 104]);
        let k_files = bytes_of(&[102u8, 105, 108, 101, 115]);
        assert(k_announce@ =~= key_announce());
        assert(k_info@ =~= key_info());
        assert(k_name@ =~= key_name());
        assert(k_piece_length@ =~= key_piece_length());
        assert(k_pieces@ =~= key_pieces());
        assert(k_length@ =~= key_length());
        assert(k_files@ =~= key_files());
        let (a, info) = match (lookup(v, &k_announce), lookup(v, &k_info)) {
            (Some(Value::ByteString(a)), Some(info)) => (a, info),
            _ => {
                return Err(MetaError::MissingField);
            },
        };
        if !matches!(info, Value::Dictionary(_)) {
            return Err(MetaError::MissingField);
        }
        let announce = match utf8_string(bytes_of(a.as_slice())) {
            Some(t) => t,
            None => {
                return Err(MetaError::InvalidAnnounceUrl);
            },
        };
        let (nm, pl, pc) = match (lookup(info, &k_name), lookup(info, &k_piece_length), lookup(info, &k_pieces)) {
            (Some(Value::ByteString(nm)), Some(Value::Integer(pl)), Some(Value::ByteString(pc))) => (nm, *pl, pc),
            _ => {
                return Err(MetaError::MissingField);
            },
        };
        let name = match utf8_string(bytes_of(nm.as_slice())) {
            Some(t) => t,
            None => {
                return Err(MetaError::InvalidName);
            },
        };
        if pl <= 0 {
            return Err(MetaError::InvalidPieceLength);
        }
        if pc.len() % HASH_LEN != 0 {
            return Err(MetaError::MalformedPieceHashes);
        }
        let (length, files) = match layout(info, &k_length, &k_files) {
            Ok(n) => n,
            Err(e) => {
                return Err(e);
            },
        };
        let info_hash = sha1_digest(&encode(info));
        Ok(Torrent {
            announce,
            info: Info { name, piece_length: pl as u64, pieces: bytes_of(pc.as_slice()), length, files },
            info_hash,
        })
    }

    /// The metadata held in the bytes of a torrent file: exactly one bencoded
    /// value, which `from_value` then reads.
    pub fn from_file(data: &[u8]) -> (r: Result<Torrent, MetaError>)
        ensures
            match parse_value(data@, 0) {
                Err(e) => r == Err::<Torrent, MetaError>(MetaError::Decode(e)),
                Ok((c, rest)) => if rest.len() != 0 {
                    r == Err::<Torrent, MetaError>(MetaError::Decode(DecodeError::TrailingBytes))
                } else {
                    exists|v: Value| enc(v) == c && canonical(v, MAX_DEPTH as nat) && #[trigger] mapped_from(v, r)
                },
            },
    {
        match decode_exact(data) {
            Ok(v) => Torrent::from_value(&v),
            Err(e) => Err(MetaError::Decode(e)),
        }
    }
}

/// The metadata held in the bytes of a torrent file, as `Torrent::from_file` reads it.
pub fn read_file(data: &[u8]) -> (r: Result<Torrent, MetaError>)
    ensures
        match parse_value(data@, 0) {
            Err(e) => r == Err::<Torrent, MetaError>(MetaError::Decode(e)),
            Ok((c, rest)) => if rest.len() != 0 {
                r == Err::<Torrent, MetaError>(MetaError::Decode(DecodeError::TrailingBytes))
            } else {
                exists|v: Value| enc(v) == c && canonical(v, MAX_DEPTH as nat) && #[trigger] mapped_from(v, r)
            },
        },
{
    Torrent::from_file(data)
}

} // verus!
