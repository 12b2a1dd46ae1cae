//! The `.torrent` metainfo parser: typed torrent descriptors built from a
//! decoded bencode dictionary, and the info-hash, the SHA-1 digest of the
//! `info` value's canonical encoding, which identifies the content.
use crate::bencode::{
    spec_dict_get, view_of_list, view_of_pairs, deep_sort, spec_encode, DecodeError, Value,
    ValueView,
};
use crate::text::{hex_of_bytes, hex_string};
use crypto::digest::Digest;
use vstd::prelude::*;

verus! {

/// The digest that `sha1_hash` computes: a function of the input bytes
/// alone, identical in every process.
pub uninterp spec fn sha1_of(b: Seq<u8>) -> Seq<u8>;

/// Relies on the `crypto` crate's `Sha1` (`new`, `input`, `result`): the
/// 20-byte SHA-1 digest of the input, a function of the input alone.
#[verifier::external_body]
pub fn sha1_hash(bytes: &[u8]) -> (r: [u8; 20])
    ensures
        r@ == sha1_of(bytes@),
{
    let mut hasher = crypto::sha1::Sha1::new();
    hasher.input(bytes);
    let mut out = [0u8; 20];
    hasher.result(&mut out);
    out
}

/// The bytes of a key literal, as they appear in a torrent dictionary.
pub open spec fn key_bytes(s: &str) -> Seq<u8> {
    vstd::utf8::encode_utf8(s@)
}

/// Why torrent bytes were rejected.
#[derive(Debug, PartialEq, Clone)]
pub enum TorrentParseError {
    /// The bytes are not a bencode document.
    DecodeError(DecodeError),
    /// The document's structure or a required field is wrong; the text names
    /// what was missing or mismatched.
    FormatError(String),
}

/// One file of a torrent: its name (for a multi-file torrent, the path
/// components joined with `/`), its size in bytes, and an optional MD5 sum.
#[derive(Debug, PartialEq, Clone)]
pub struct SingleFile {
    pub file_name: String,
    pub length: usize,
    pub md5sum: Option<String>,
}

/// The files of a multi-file torrent under their root directory name.
#[derive(Debug, PartialEq, Clone)]
pub struct MultiFile {
    pub root_dir_name: String,
    pub files: Vec<SingleFile>,
}

/// What a torrent holds: one file, or a directory of files.
#[derive(Debug, PartialEq, Clone)]
pub enum FileInfo {
    Single(SingleFile),
    Multi(MultiFile),
}

/// The torrent's `info` dictionary: piece size, the pieces' SHA-1 hashes
/// (kept as lowercase hex strings), the private flag, and the file layout.
#[derive(Debug, PartialEq, Clone)]
pub struct InfoDict {
    pub piece_length: usize,
    pub pieces: Vec<String>,
    pub private: bool,
    pub file_info: FileInfo,
}

/// A parsed `.torrent` descriptor, immutable once built.
#[derive(Debug, PartialEq, Clone)]
pub struct MetaInfo {
    pub info_hash: [u8; 20],
    pub info: InfoDict,
    pub announce: String,
    pub announce_list: Option<Vec<(usize, String)>>,
    pub creation_date: Option<u64>,
    pub comment: Option<String>,
    pub created_by: Option<String>,
    pub encoding: Option<String>,
}

pub struct SingleFileView {
    pub file_name: Seq<char>,
    pub length: int,
    pub md5sum: Option<Seq<char>>,
}

pub struct MultiFileView {
    pub root_dir_name: Seq<char>,
    pub files: Seq<SingleFileView>,
}

pub enum FileInfoView {
    Single(SingleFileView),
    Multi(MultiFileView),
}

pub struct InfoDictView {
    pub piece_length: int,
    pub pieces: Seq<Seq<char>>,
    pub private: bool,
    pub file_info: FileInfoView,
}

pub struct MetaInfoView {
    pub info_hash: Seq<u8>,
    pub info: InfoDictView,
    pub announce: Seq<char>,
    pub announce_list: Option<Seq<(int, Seq<char>)>>,
    pub creation_date: Option<int>,
    pub comment: Option<Seq<char>>,
    pub created_by: Option<Seq<char>>,
    pub encoding: Option<Seq<char>>,
}

impl View for SingleFile {
    type V = SingleFileView;

    open spec fn view(&self) -> SingleFileView {
        SingleFileView {
            file_name: self.file_name@,
            length: self.length as int,
            md5sum: match self.md5sum {
                Option::Some(ref s) => Option::Some(s@),
                Option::None => Option::None,
            },
        }
    }
}

pub open spec fn view_of_files(s: Seq<SingleFile>) -> Seq<SingleFileView>
    decreases s,
{
    if s.len() == 0 {
        Seq::empty()
    } else {
        view_of_files(s.drop_last()).push(s.last()@)
    }
}

pub open spec fn view_of_strings(s: Seq<String>) -> Seq<Seq<char>>
    decreases s,
{
    if s.len() == 0 {
        Seq::empty()
    } else {
        view_of_strings(s.drop_last()).push(s.last()@)
    }
}

pub open spec fn view_of_tier_list(s: Seq<(usize, String)>) -> Seq<(int, Seq<char>)>
    decreases s,
{
    if s.len() == 0 {
        Seq::empty()
    } else {
        view_of_tier_list(s.drop_last()).push((s.last().0 as int, s.last().1@))
    }
}

impl View for MultiFile {
    type V = MultiFileView;

    open spec fn view(&self) -> MultiFileView {
        MultiFileView { root_dir_name: self.root_dir_name@, files: view_of_files(self.files@) }
    }
}

impl View for FileInfo {
    type V = FileInfoView;

    open spec fn view(&self) -> FileInfoView {
        match self {
            FileInfo::Single(f) => FileInfoView::Single(f@),
            FileInfo::Multi(m) => FileInfoView::Multi(m@),
        }
    }
}

impl View for InfoDict {
    type V = InfoDictView;

    open spec fn view(&self) -> InfoDictView {
        InfoDictView {
            piece_length: self.piece_length as int,
            pieces: view_of_strings(self.pieces@),
            private: self.private,
            file_info: self.file_info@,
        }
    }
}

impl View for MetaInfo {
    type V = MetaInfoView;

    open spec fn view(&self) -> MetaInfoView {
        MetaInfoView {
            info_hash: self.info_hash@,
            info: self.info@,
            announce: self.announce@,
            announce_list: match self.announce_list {
                Option::Some(ref l) => Option::Some(view_of_tier_list(l@)),
                Option::None => Option::None,
            },
            creation_date: match self.creation_date {
                Option::Some(d) => Option::Some(d as int),
                Option::None => Option::None,
            },
            comment: match self.comment {
                Option::Some(ref s) => Option::Some(s@),
                Option::None => Option::None,
            },
            created_by: match self.created_by {
                Option::Some(ref s) => Option::Some(s@),
                Option::None => Option::None,
            },
            encoding: match self.encoding {
                Option::Some(ref s) => Option::Some(s@),
                Option::None => Option::None,
            },
        }
    }
}

/// The characters of a byte-string value read as UTF-8, where the value is a
/// byte string and the bytes are valid UTF-8: how both required and optional
/// text fields are read (a wrong type or bad text in an optional field drops
/// the field silently; in a required field it fails the parse).
pub open spec fn as_utf8_bstring(v: Option<ValueView>) -> Option<Seq<char>> {
    match v {
        Option::Some(ValueView::BString(b)) => if vstd::utf8::valid_utf8(b) {
            Option::Some(vstd::utf8::decode_utf8(b))
        } else {
            Option::None
        },
        _ => Option::None,
    }
}

/// A single-file descriptor read from a dictionary: required `name` (text)
/// and `length` (non-negative integer that fits a machine size), optional
/// `md5`.
pub open spec fn spec_single_file_of(v: ValueView) -> Option<SingleFileView> {
    match v {
        ValueView::Dict(ps) => match (
            as_utf8_bstring(spec_dict_get(ps, key_bytes("name"))),
            spec_dict_get(ps, key_bytes("length")),
        ) {
            (Option::Some(n), Option::Some(ValueView::Integer(l))) => if 0 <= l <= usize::MAX {
                Option::Some(
                    SingleFileView {
                        file_name: n,
                        length: l,
                        md5sum: as_utf8_bstring(spec_dict_get(ps, key_bytes("md5"))),
                    },
                )
            } else {
                Option::None
            },
            _ => Option::None,
        },
        _ => Option::None,
    }
}

/// Path components joined with `/`.
pub open spec fn spec_join_path(comps: Seq<Seq<char>>) -> Seq<char>
    decreases comps.len(),
{
    if comps.len() == 0 {
        Seq::empty()
    } else if comps.len() == 1 {
        comps[0]
    } else {
        spec_join_path(comps.drop_last()) + seq!['/'] + comps.last()
    }
}

/// The path components from position `i` on: every entry must be a text
/// byte string.
pub open spec fn spec_path_components_from(parts: Seq<ValueView>, i: int) -> Option<
    Seq<Seq<char>>,
>
    decreases parts.len() - i,
{
    if i < 0 || i >= parts.len() {
        Option::Some(Seq::empty())
    } else {
        match (as_utf8_bstring(Option::Some(parts[i])), spec_path_components_from(parts, i + 1)) {
            (Option::Some(c), Option::Some(rest)) => Option::Some(seq![c] + rest),
            _ => Option::None,
        }
    }
}

/// One file entry of a multi-file torrent: required `length` and `path` (a
/// list of text components, joined with `/` for the file name), optional
/// `md5`.
pub open spec fn spec_multi_entry_of(v: ValueView) -> Option<SingleFileView> {
    match v {
        ValueView::Dict(ps) => match (
            spec_dict_get(ps, key_bytes("length")),
            spec_dict_get(ps, key_bytes("path")),
        ) {
            (
                Option::Some(ValueView::Integer(l)),
                Option::Some(ValueView::List(parts)),
            ) => match spec_path_components_from(parts, 0) {
                Option::Some(comps) => if 0 <= l <= usize::MAX {
                    Option::Some(
                        SingleFileView {
                            file_name: spec_join_path(comps),
                            length: l,
                            md5sum: as_utf8_bstring(spec_dict_get(ps, key_bytes("md5"))),
                        },
                    )
                } else {
                    Option::None
                },
                Option::None => Option::None,
            },
            _ => Option::None,
        },
        _ => Option::None,
    }
}

/// The file entries from position `i` on.
pub open spec fn spec_multi_entries_from(items: Seq<ValueView>, i: int) -> Option<
    Seq<SingleFileView>,
>
    decreases items.len() - i,
{
    if i < 0 || i >= items.len() {
        Option::Some(Seq::empty())
    } else {
        match (spec_multi_entry_of(items[i]), spec_multi_entries_from(items, i + 1)) {
            (Option::Some(f), Option::Some(rest)) => Option::Some(seq![f] + rest),
            _ => Option::None,
        }
    }
}

/// A multi-file descriptor read from a dictionary: required `name` (the root
/// directory) and `files` (a list of file entries).
pub open spec fn spec_multi_file_of(v: ValueView) -> Option<MultiFileView> {
    match v {
        ValueView::Dict(ps) => match (
            as_utf8_bstring(spec_dict_get(ps, key_bytes("name"))),
            spec_dict_get(ps, key_bytes("files")),
        ) {
            (
                Option::Some(r),
                Option::Some(ValueView::List(items)),
            ) => match spec_multi_entries_from(items, 0) {
                Option::Some(fs) => Option::Some(MultiFileView { root_dir_name: r, files: fs }),
                Option::None => Option::None,
            },
            _ => Option::None,
        },
        _ => Option::None,
    }
}

/// The file layout of an `info` dictionary: exactly one of `length`
/// (single-file) and `files` (multi-file) must be present.
pub open spec fn spec_file_info_of(v: ValueView) -> Option<FileInfoView> {
    match v {
        ValueView::Dict(ps) => {
            let has_length = spec_dict_get(ps, key_bytes("length")) is Some;
            let has_files = spec_dict_get(ps, key_bytes("files")) is Some;
            if has_length && !has_files {
                match spec_single_file_of(v) {
                    Option::Some(f) => Option::Some(FileInfoView::Single(f)),
                    Option::None => Option::None,
                }
            } else if !has_length && has_files {
                match spec_multi_file_of(v) {
                    Option::Some(m) => Option::Some(FileInfoView::Multi(m)),
                    Option::None => Option::None,
                }
            } else {
                Option::None
            }
        },
        _ => Option::None,
    }
}

/// The pieces' hashes as hex text: the concatenated 20-byte records of the
/// `pieces` byte string, each spelled as 40 lowercase hex digits.
pub open spec fn spec_pieces_of(pb: Seq<u8>) -> Seq<Seq<char>> {
    Seq::new((pb.len() / 20) as nat, |k: int| hex_of_bytes(pb.subrange(20 * k, 20 * k + 20)))
}

/// An `info` dictionary: required `piece length` (non-negative integer that
/// fits a machine size) and `pieces` (a byte string of whole 20-byte
/// records), the `private` flag true exactly when present as the integer 1,
/// and the file layout.
pub open spec fn spec_info_dict_of(v: ValueView) -> Option<InfoDictView> {
    match v {
        ValueView::Dict(ps) => match (
            spec_dict_get(ps, key_bytes("piece length")),
            spec_dict_get(ps, key_bytes("pieces")),
        ) {
            (
                Option::Some(ValueView::Integer(l)),
                Option::Some(ValueView::BString(pb)),
            ) => match spec_file_info_of(v) {
                Option::Some(fi) => if 0 <= l <= usize::MAX && pb.len() % 20 == 0 {
                    Option::Some(
                        InfoDictView {
                            piece_length: l,
                            pieces: spec_pieces_of(pb),
                            private: spec_is_private(spec_dict_get(ps, key_bytes("private"))),
                            file_info: fi,
                        },
                    )
                } else {
                    Option::None
                },
                Option::None => Option::None,
            },
            _ => Option::None,
        },
        _ => Option::None,
    }
}

/// The `private` flag is set exactly when the field is present as the
/// integer 1.
pub open spec fn spec_is_private(v: Option<ValueView>) -> bool {
    match v {
        Option::Some(ValueView::Integer(p)) => p == 1,
        _ => false,
    }
}

/// One announce tier's urls, each paired with the tier's position: every
/// entry must be a text byte string.
pub open spec fn spec_tier_from(ann: Seq<ValueView>, idx: int, i: int) -> Option<
    Seq<(int, Seq<char>)>,
>
    decreases ann.len() - i,
{
    if i < 0 || i >= ann.len() {
        Option::Some(Seq::empty())
    } else {
        match (as_utf8_bstring(Option::Some(ann[i])), spec_tier_from(ann, idx, i + 1)) {
            (Option::Some(u), Option::Some(rest)) => Option::Some(seq![(idx, u)] + rest),
            _ => Option::None,
        }
    }
}

/// The flattened announce list from tier `i` on: every tier must be a list
/// of text byte strings; the tier's position is its priority.
pub open spec fn spec_tiers_from(tiers: Seq<ValueView>, i: int) -> Option<Seq<(int, Seq<char>)>>
    decreases tiers.len() - i,
{
    if i < 0 || i >= tiers.len() {
        Option::Some(Seq::empty())
    } else {
        match tiers[i] {
            ValueView::List(ann) => match (spec_tier_from(ann, i, 0), spec_tiers_from(
                tiers,
                i + 1,
            )) {
                (Option::Some(part), Option::Some(rest)) => Option::Some(part + rest),
                _ => Option::None,
            },
            _ => Option::None,
        }
    }
}

/// A whole `.torrent` descriptor: required `info` (whose canonical encoding
/// is hashed for the info-hash) and `announce`; `announce-list`,
/// `creation date`, `comment`, `created by` and `encoding` are optional and
/// dropped silently when absent or malformed.
pub open spec fn spec_metainfo_of(v: ValueView) -> Option<MetaInfoView> {
    match v {
        ValueView::Dict(ps) => match (
            spec_dict_get(ps, key_bytes("info")),
            as_utf8_bstring(spec_dict_get(ps, key_bytes("announce"))),
        ) {
            (Option::Some(iv), Option::Some(a)) => match spec_info_dict_of(iv) {
                Option::Some(info) => Option::Some(
                    MetaInfoView {
                        info_hash: sha1_of(spec_encode(deep_sort(iv))),
                        info: info,
                        announce: a,
                        announce_list: match spec_dict_get(ps, key_bytes("announce-list")) {
                            Option::Some(ValueView::List(tiers)) => spec_tiers_from(tiers, 0),
                            _ => Option::None,
                        },
                        creation_date: match spec_dict_get(ps, key_bytes("creation date")) {
                            Option::Some(ValueView::Integer(d)) => if 0 <= d <= u64::MAX {
                                Option::Some(d)
                            } else {
                                Option::None
                            },
                            _ => Option::None,
                        },
                        comment: as_utf8_bstring(spec_dict_get(ps, key_bytes("comment"))),
                        created_by: as_utf8_bstring(spec_dict_get(ps, key_bytes("created by"))),
                        encoding: as_utf8_bstring(spec_dict_get(ps, key_bytes("encoding"))),
                    },
                ),
                Option::None => Option::None,
            },
            _ => Option::None,
        },
        _ => Option::None,
    }
}


pub proof fn lemma_view_of_files_index(s: Seq<SingleFile>)
    ensures
        view_of_files(s).len() == s.len(),
        forall|i: int| 0 <= i < s.len() ==> view_of_files(s)[i] == s[i]@,
    decreases s,
{
    if s.len() > 0 {
        lemma_view_of_files_index(s.drop_last());
        assert(view_of_files(s) == view_of_files(s.drop_last()).push(s.last()@));
        assert forall|i: int| 0 <= i < s.len() implies view_of_files(s)[i] == s[i]@ by {
            if i < s.len() - 1 {
                assert(view_of_files(s)[i] == view_of_files(s.drop_last())[i]);
                assert(s.drop_last()[i] == s[i]);
            } else {
                assert(s.last() == s[i]);
            }
        }
    }
}

pub proof fn lemma_view_of_strings_index(s: Seq<String>)
    ensures
        view_of_strings(s).len() == s.len(),
        forall|i: int| 0 <= i < s.len() ==> view_of_strings(s)[i] == s[i]@,
    decreases s,
{
    if s.len() > 0 {
        lemma_view_of_strings_index(s.drop_last());
        assert(view_of_strings(s) == view_of_strings(s.drop_last()).push(s.last()@));
        assert forall|i: int| 0 <= i < s.len() implies view_of_strings(s)[i] == s[i]@ by {
            if i < s.len() - 1 {
                assert(view_of_strings(s)[i] == view_of_strings(s.drop_last())[i]);
                assert(s.drop_last()[i] == s[i]);
            } else {
                assert(s.last() == s[i]);
            }
        }
    }
}

pub proof fn lemma_view_of_tier_list_index(s: Seq<(usize, String)>)
    ensures
        view_of_tier_list(s).len() == s.len(),
        forall|i: int|
            0 <= i < s.len() ==> view_of_tier_list(s)[i] == (s[i].0 as int, s[i].1@),
    decreases s,
{
    if s.len() > 0 {
        lemma_view_of_tier_list_index(s.drop_last());
        assert(view_of_tier_list(s) == view_of_tier_list(s.drop_last()).push(
            (s.last().0 as int, s.last().1@),
        ));
        assert forall|i: int| 0 <= i < s.len() implies view_of_tier_list(s)[i] == (
            s[i].0 as int,
            s[i].1@,
        ) by {
            if i < s.len() - 1 {
                assert(view_of_tier_list(s)[i] == view_of_tier_list(s.drop_last())[i]);
                assert(s.drop_last()[i] == s[i]);
            } else {
                assert(s.last() == s[i]);
            }
        }
    }
}

/// A format error with this text.
fn fmt_err(m: &str) -> (r: TorrentParseError)
    ensures
        r matches TorrentParseError::FormatError(_),
{
    TorrentParseError::FormatError(m.to_owned())
}

/// Look a key up and read it as UTF-8 text.
fn get_utf8(ps: &Vec<(Vec<u8>, Value)>, key: &[u8]) -> (r: Option<String>)
    ensures
        (match r {
            Some(s) => as_utf8_bstring(spec_dict_get(view_of_pairs(ps@), key@)) == Option::Some(
                s@,
            ),
            None => as_utf8_bstring(spec_dict_get(view_of_pairs(ps@), key@)) is None,
        }),
{
    match crate::bencode::dict_get(ps, key) {
        Some(v) => v.bstring_utf8(),
        None => None,
    }
}

/// Look a key up and read it as a non-negative integer that fits a machine
/// size.
fn get_size(ps: &Vec<(Vec<u8>, Value)>, key: &[u8]) -> (r: Option<usize>)
    ensures
        (match r {
            Some(n) => spec_dict_get(view_of_pairs(ps@), key@) matches Option::Some(
                ValueView::Integer(l),
            ) && l == n as int && 0 <= l <= usize::MAX,
            None => !(spec_dict_get(view_of_pairs(ps@), key@) matches Option::Some(
                ValueView::Integer(l),
            ) && 0 <= l <= usize::MAX),
        }),
{
    match crate::bencode::dict_get(ps, key) {
        Some(v) => match v.integer() {
            Some(l) => {
                let l = *l;
                if l >= 0 && (l as u64) <= (usize::MAX as u64) {
                    Some(l as usize)
                } else {
                    None
                }
            },
            None => None,
        },
        None => None,
    }
}

/// Path components joined with `/`.
#[verifier::loop_isolation(false)]
fn join_path(comps: &Vec<String>) -> (r: String)
    ensures
        r@ == spec_join_path(view_of_strings(comps@)),
{
    proof {
        lemma_view_of_strings_index(comps@);
    }
    let len = comps.len();
    if len == 0 {
        let r = String::new();
        proof {
            assert(r@ =~= spec_join_path(view_of_strings(comps@)));
        }
        return r;
    }
    let mut s = comps[0].clone();
    let ghost cv = view_of_strings(comps@);
    proof {
        assert(cv.take(1).len() == 1);
        assert(cv.take(1)[0] == cv[0]);
        assert(s@ == spec_join_path(cv.take(1)));
    }
    let mut j: usize = 1;
    while j < len
        invariant
            1 <= j <= len,
            s@ == spec_join_path(cv.take(j as int)),
        decreases len - j,
    {
        s.append("/");
        s.append(comps[j].as_str());
        proof {
            reveal_strlit("/");
            assert("/"@ =~= seq!['/']);
            assert(cv.take(j + 1).drop_last() =~= cv.take(j as int));
            assert(cv.take(j + 1).last() == cv[j as int]);
            assert(cv.take(j + 1).len() == j + 1 >= 2);
        }
        j = j + 1;
    }
    proof {
        assert(cv.take(len as int) =~= cv);
    }
    s
}

impl SingleFile {
    /// Read a single-file descriptor from a decoded value.
    pub fn from_value(val: &Value) -> (r: Result<SingleFile, TorrentParseError>)
        ensures
            (match r {
                Ok(f) => spec_single_file_of(val@) == Option::Some(f@),
                Err(e) => spec_single_file_of(val@) is None && e
                    matches TorrentParseError::FormatError(_),
            }),
    {
        let ps = match val.dict() {
            Some(ps) => ps,
            None => {
                return Err(fmt_err("single file is not a dictionary"));
            },
        };
        let file_name = match get_utf8(ps, "name".as_bytes()) {
            Some(n) => n,
            None => {
                return Err(fmt_err("missing key: name"));
            },
        };
        let length = match get_size(ps, "length".as_bytes()) {
            Some(l) => l,
            None => {
                return Err(fmt_err("missing key: length"));
            },
        };
        let md5sum = get_utf8(ps, "md5".as_bytes());
        Ok(SingleFile { file_name, length, md5sum })
    }
}

/// Read one file entry of a multi-file torrent.
#[verifier::loop_isolation(false)]
fn multi_entry_from_value(val: &Value) -> (r: Result<SingleFile, TorrentParseError>)
    ensures
        (match r {
            Ok(f) => spec_multi_entry_of(val@) == Option::Some(f@),
            Err(e) => spec_multi_entry_of(val@) is None && e
                matches TorrentParseError::FormatError(_),
        }),
{
    let ps = match val.dict() {
        Some(ps) => ps,
        None => {
            return Err(fmt_err("file entry is not a dictionary"));
        },
    };
    let length = match get_size(ps, "length".as_bytes()) {
        Some(l) => l,
        None => {
            return Err(fmt_err("missing key: length"));
        },
    };
    let parts = match crate::bencode::dict_get(ps, "path".as_bytes()) {
        Some(v) => match v.list() {
            Some(parts) => parts,
            None => {
                return Err(fmt_err("path is not a list"));
            },
        },
        None => {
            return Err(fmt_err("missing key: path"));
        },
    };
    let ghost pv = view_of_list(parts@);
    proof {
        crate::bencode::lemma_view_of_list_index(parts@);
    }
    let mut comps: Vec<String> = Vec::new();
    let plen = parts.len();
    let mut i: usize = 0;
    while i < plen
        invariant
            0 <= i <= plen,
            (match spec_path_components_from(pv, i as int) {
                Option::Some(rest) => spec_path_components_from(pv, 0) == Option::Some(
                    view_of_strings(comps@) + rest,
                ),
                Option::None => spec_path_components_from(pv, 0) is None,
            }),
        decreases plen - i,
    {
        match parts[i].bstring_utf8() {
            Some(c) => {
                proof {
                    lemma_view_of_strings_index(comps@);
                    lemma_view_of_strings_index(comps@.push(c));
                    assert(comps@.push(c).drop_last() =~= comps@);
                    assert forall|rest: Seq<Seq<char>>|
                        view_of_strings(comps@) + (seq![c@] + rest) =~= view_of_strings(
                            comps@.push(c),
                        ) + rest by {
                        assert(view_of_strings(comps@.push(c)) == view_of_strings(comps@).push(
                            c@,
                        ));
                    }
                }
                comps.push(c);
            },
            None => {
                return Err(fmt_err("path component is not text"));
            },
        }
        i = i + 1;
    }
    proof {
        assert(view_of_strings(comps@) + Seq::<Seq<char>>::empty() =~= view_of_strings(comps@));
    }
    let file_name = join_path(&comps);
    let md5sum = get_utf8(ps, "md5".as_bytes());
    Ok(SingleFile { file_name, length, md5sum })
}

impl MultiFile {
    /// Read a multi-file descriptor from a decoded value.
    #[verifier::loop_isolation(false)]
    pub fn from_value(val: &Value) -> (r: Result<MultiFile, TorrentParseError>)
        ensures
            (match r {
                Ok(m) => spec_multi_file_of(val@) == Option::Some(m@),
                Err(e) => spec_multi_file_of(val@) is None && e
                    matches TorrentParseError::FormatError(_),
            }),
    {
        let ps = match val.dict() {
            Some(ps) => ps,
            None => {
                return Err(fmt_err("multi file is not a dictionary"));
            },
        };
        let root_dir_name = match get_utf8(ps, "name".as_bytes()) {
            Some(n) => n,
            None => {
                return Err(fmt_err("missing key: name"));
            },
        };
        let items = match crate::bencode::dict_get(ps, "files".as_bytes()) {
            Some(v) => match v.list() {
                Some(items) => items,
                None => {
                    return Err(fmt_err("files is not a list"));
                },
            },
            None => {
                return Err(fmt_err("missing key: files"));
            },
        };
        let ghost iv = view_of_list(items@);
        proof {
            crate::bencode::lemma_view_of_list_index(items@);
        }
        let mut files: Vec<SingleFile> = Vec::new();
        let ilen = items.len();
        let mut i: usize = 0;
        while i < ilen
            invariant
                0 <= i <= ilen,
                (match spec_multi_entries_from(iv, i as int) {
                    Option::Some(rest) => spec_multi_entries_from(iv, 0) == Option::Some(
                        view_of_files(files@) + rest,
                    ),
                    Option::None => spec_multi_entries_from(iv, 0) is None,
                }),
            decreases ilen - i,
        {
            match multi_entry_from_value(&items[i]) {
                Ok(f) => {
                    proof {
                        lemma_view_of_files_index(files@);
                        lemma_view_of_files_index(files@.push(f));
                        assert(files@.push(f).drop_last() =~= files@);
                        assert forall|rest: Seq<SingleFileView>|
                            view_of_files(files@) + (seq![f@] + rest) =~= view_of_files(
                                files@.push(f),
                            ) + rest by {
                            assert(view_of_files(files@.push(f)) == view_of_files(files@).push(
                                f@,
                            ));
                        }
                    }
                    files.push(f);
                },
                Err(e) => {
                    return Err(e);
                },
            }
            i = i + 1;
        }
        proof {
            assert(view_of_files(files@) + Seq::<SingleFileView>::empty() =~= view_of_files(
                files@,
            ));
        }
        Ok(MultiFile { root_dir_name, files })
    }
}

impl FileInfo {
    /// Read the file layout from an `info` dictionary: exactly one of
    /// `length` and `files` must be present.
    pub fn from_value(val: &Value) -> (r: Result<FileInfo, TorrentParseError>)
        ensures
            (match r {
                Ok(fi) => spec_file_info_of(val@) == Option::Some(fi@),
                Err(e) => spec_file_info_of(val@) is None && e
                    matches TorrentParseError::FormatError(_),
            }),
    {
        let ps = match val.dict() {
            Some(ps) => ps,
            None => {
                return Err(fmt_err("file info is not a dictionary"));
            },
        };
        let has_length = crate::bencode::dict_get(ps, "length".as_bytes()).is_some();
        let has_files = crate::bencode::dict_get(ps, "files".as_bytes()).is_some();
        if has_length && !has_files {
            match SingleFile::from_value(val) {
                Ok(f) => Ok(FileInfo::Single(f)),
                Err(e) => Err(e),
            }
        } else if !has_length && has_files {
            match MultiFile::from_value(val) {
                Ok(m) => Ok(FileInfo::Multi(m)),
                Err(e) => Err(e),
            }
        } else {
            Err(fmt_err("exactly one of length and files must be present"))
        }
    }

    /// The total size of the torrent's content in bytes.
    #[verifier::loop_isolation(false)]
    pub fn size(&self) -> (r: usize)
        requires
            spec_size(self@) <= usize::MAX,
        ensures
            r as int == spec_size(self@),
    {
        match self {
            FileInfo::Single(f) => f.length,
            FileInfo::Multi(m) => {
                proof {
                    lemma_view_of_files_index(m.files@);
                }
                let ghost fv = view_of_files(m.files@);
                let mut total: usize = 0;
                let len = m.files.len();
                let mut i: usize = 0;
                while i < len
                    invariant
                        0 <= i <= len,
                        total as int == spec_total(fv.take(i as int)),
                    decreases len - i,
                {
                    proof {
                        assert(fv.take(i + 1).drop_last() =~= fv.take(i as int));
                        assert(fv.take(i + 1).last() == fv[i as int]);
                        lemma_total_bounds(fv, i + 1);
                        assert(fv.take(fv.len() as int) =~= fv);
                    }
                    total = total + m.files[i].length;
                    i = i + 1;
                }
                proof {
                    assert(fv.take(len as int) =~= fv);
                }
                total
            },
        }
    }
}

/// The total size named by a file layout.
pub open spec fn spec_size(fi: FileInfoView) -> int {
    match fi {
        FileInfoView::Single(f) => f.length,
        FileInfoView::Multi(m) => spec_total(m.files),
    }
}

/// The sum of the files' lengths.
pub open spec fn spec_total(files: Seq<SingleFileView>) -> int
    decreases files.len(),
{
    if files.len() == 0 {
        0
    } else {
        spec_total(files.drop_last()) + files.last().length
    }
}

/// With every length non-negative, a prefix sum never exceeds the total.
proof fn lemma_total_bounds(files: Seq<SingleFileView>, i: int)
    requires
        0 <= i <= files.len(),
        forall|k: int| 0 <= k < files.len() ==> (#[trigger] files[k].length) >= 0,
    ensures
        spec_total(files.take(i)) <= spec_total(files),
        spec_total(files.take(i)) >= 0,
    decreases files.len() - i,
{
    assert(forall|k: int| 0 <= k < i ==> files.take(i)[k] == files[k]);
    lemma_total_nonneg(files.take(i));
    if i < files.len() {
        lemma_total_bounds(files, i + 1);
        assert(files.take(i + 1).drop_last() =~= files.take(i));
        assert(files.take(i + 1).last() == files[i]);
    } else {
        assert(files.take(i) =~= files);
    }
}

proof fn lemma_total_nonneg(files: Seq<SingleFileView>)
    requires
        forall|k: int| 0 <= k < files.len() ==> (#[trigger] files[k].length) >= 0,
    ensures
        spec_total(files) >= 0,
    decreases files.len(),
{
    if files.len() > 0 {
        lemma_total_nonneg(files.drop_last());
    }
}


impl InfoDict {
    /// Read the `info` dictionary from a decoded value.
    #[verifier::loop_isolation(false)]
    pub fn from_value(val: &Value) -> (r: Result<InfoDict, TorrentParseError>)
        ensures
            (match r {
                Ok(d) => spec_info_dict_of(val@) == Option::Some(d@),
                Err(e) => spec_info_dict_of(val@) is None && e
                    matches TorrentParseError::FormatError(_),
            }),
    {
        let ps = match val.dict() {
            Some(ps) => ps,
            None => {
                return Err(fmt_err("info is not a dictionary"));
            },
        };
        let piece_length = match get_size(ps, "piece length".as_bytes()) {
            Some(l) => l,
            None => {
                return Err(fmt_err("missing key: piece length"));
            },
        };
        let pb = match crate::bencode::dict_get(ps, "pieces".as_bytes()) {
            Some(v) => match v.bstring() {
                Some(pb) => pb,
                None => {
                    return Err(fmt_err("pieces is not a byte string"));
                },
            },
            None => {
                return Err(fmt_err("missing key: pieces"));
            },
        };
        if pb.len() % 20 != 0 {
            return Err(fmt_err("pieces is not whole 20-byte records"));
        }
        let count = pb.len() / 20;
        let mut pieces: Vec<String> = Vec::new();
        let mut k: usize = 0;
        while k < count
            invariant
                0 <= k <= count,
                view_of_strings(pieces@) == spec_pieces_of(pb@).take(k as int),
            decreases count - k,
        {
            let h = hex_string(&pb.as_slice()[20 * k..20 * k + 20]);
            proof {
                let pcs = spec_pieces_of(pb@);
                assert(pcs[k as int] == hex_of_bytes(pb@.subrange(20 * k as int, 20 * k + 20)));
                assert(h@ == pcs[k as int]);
                lemma_view_of_strings_index(pieces@);
                lemma_view_of_strings_index(pieces@.push(h));
                assert(pieces@.push(h).drop_last() =~= pieces@);
                assert(view_of_strings(pieces@.push(h)) == view_of_strings(pieces@).push(h@));
                assert(pcs.take(k as int).push(pcs[k as int]) =~= pcs.take(k + 1));
            }
            pieces.push(h);
            k = k + 1;
        }
        proof {
            assert(spec_pieces_of(pb@).take(count as int) =~= spec_pieces_of(pb@));
        }
        let private = match crate::bencode::dict_get(ps, "private".as_bytes()) {
            Some(v) => match v.integer() {
                Some(p) => *p == 1,
                None => false,
            },
            None => false,
        };
        let file_info = match FileInfo::from_value(val) {
            Ok(fi) => fi,
            Err(e) => {
                return Err(e);
            },
        };
        Ok(InfoDict { piece_length, pieces, private, file_info })
    }
}

/// Read one announce tier: each entry must be a text url, each paired with
/// the tier's position.
#[verifier::loop_isolation(false)]
fn announce_tier(ann: &Vec<Value>, idx: usize) -> (r: Option<Vec<(usize, String)>>)
    ensures
        (match r {
            Some(part) => spec_tier_from(view_of_list(ann@), idx as int, 0) == Option::Some(
                view_of_tier_list(part@),
            ),
            None => spec_tier_from(view_of_list(ann@), idx as int, 0) is None,
        }),
{
    let ghost av = view_of_list(ann@);
    proof {
        crate::bencode::lemma_view_of_list_index(ann@);
    }
    let mut part: Vec<(usize, String)> = Vec::new();
    let alen = ann.len();
    let mut j: usize = 0;
    while j < alen
        invariant
            0 <= j <= alen,
            (match spec_tier_from(av, idx as int, j as int) {
                Option::Some(rest) => spec_tier_from(av, idx as int, 0) == Option::Some(
                    view_of_tier_list(part@) + rest,
                ),
                Option::None => spec_tier_from(av, idx as int, 0) is None,
            }),
        decreases alen - j,
    {
        match ann[j].bstring_utf8() {
            Some(u) => {
                proof {
                    lemma_view_of_tier_list_index(part@);
                    lemma_view_of_tier_list_index(part@.push((idx, u)));
                    assert(part@.push((idx, u)).drop_last() =~= part@);
                    assert(view_of_tier_list(part@.push((idx, u))) == view_of_tier_list(
                        part@,
                    ).push((idx as int, u@)));
                    assert forall|rest: Seq<(int, Seq<char>)>|
                        view_of_tier_list(part@) + (seq![(idx as int, u@)] + rest)
                            =~= view_of_tier_list(part@.push((idx, u))) + rest by {}
                }
                part.push((idx, u));
            },
            None => {
                return None;
            },
        }
        j = j + 1;
    }
    proof {
        assert(view_of_tier_list(part@) + Seq::<(int, Seq<char>)>::empty() =~= view_of_tier_list(
            part@,
        ));
    }
    Some(part)
}

impl MetaInfo {
    /// Flatten an `announce-list` value: tier by tier, each a list of text
    /// urls, each url paired with its tier's position.
    #[verifier::loop_isolation(false)]
    pub fn interpret_announce_list(tiers: &Vec<Value>) -> (r: Option<Vec<(usize, String)>>)
        ensures
            (match r {
                Some(l) => spec_tiers_from(view_of_list(tiers@), 0) == Option::Some(
                    view_of_tier_list(l@),
                ),
                None => spec_tiers_from(view_of_list(tiers@), 0) is None,
            }),
    {
        let ghost tv = view_of_list(tiers@);
        proof {
            crate::bencode::lemma_view_of_list_index(tiers@);
        }
        let mut res: Vec<(usize, String)> = Vec::new();
        let tlen = tiers.len();
        let mut i: usize = 0;
        while i < tlen
            invariant
                0 <= i <= tlen,
                (match spec_tiers_from(tv, i as int) {
                    Option::Some(rest) => spec_tiers_from(tv, 0) == Option::Some(
                        view_of_tier_list(res@) + rest,
                    ),
                    Option::None => spec_tiers_from(tv, 0) is None,
                }),
            decreases tlen - i,
        {
            let ann = match tiers[i].list() {
                Some(ann) => ann,
                None => {
                    return None;
                },
            };
            let part = match announce_tier(ann, i) {
                Some(part) => part,
                None => {
                    return None;
                },
            };
            proof {
                lemma_view_of_tier_list_index(res@);
                lemma_view_of_tier_list_index(part@);
                lemma_view_of_tier_list_index(res@ + part@);
                assert forall|rest: Seq<(int, Seq<char>)>|
                    view_of_tier_list(res@) + (view_of_tier_list(part@) + rest)
                        =~= view_of_tier_list(res@ + part@) + rest by {
                    assert(view_of_tier_list(res@ + part@) =~= view_of_tier_list(res@)
                        + view_of_tier_list(part@)) by {
                        assert(forall|k: int|
                            0 <= k < res@.len() ==> (res@ + part@)[k] == res@[k]);
                        assert(forall|k: int|
                            res@.len() <= k < res@.len() + part@.len() ==> (res@ + part@)[k]
                                == part@[k - res@.len()]);
                    }
                }
            }
            let mut part = part;
            res.append(&mut part);
            i = i + 1;
        }
        proof {
            assert(view_of_tier_list(res@) + Seq::<(int, Seq<char>)>::empty() =~= view_of_tier_list(
                res@,
            ));
        }
        Some(res)
    }

    /// Read a whole `.torrent` descriptor from a decoded value, computing
    /// the info-hash over the `info` value's canonical encoding.
    pub fn from_value(val: &Value) -> (r: Result<MetaInfo, TorrentParseError>)
        ensures
            (match r {
                Ok(m) => spec_metainfo_of(val@) == Option::Some(m@),
                Err(e) => spec_metainfo_of(val@) is None && e
                    matches TorrentParseError::FormatError(_),
            }),
    {
        let ps = match val.dict() {
            Some(ps) => ps,
            None => {
                return Err(fmt_err("torrent is not a dictionary"));
            },
        };
        let info_val = match crate::bencode::dict_get(ps, "info".as_bytes()) {
            Some(v) => v,
            None => {
                return Err(fmt_err("missing key: info"));
            },
        };
        let encoded = info_val.encode();
        let info_hash = sha1_hash(encoded.as_slice());
        let info = match InfoDict::from_value(info_val) {
            Ok(d) => d,
            Err(e) => {
                return Err(e);
            },
        };
        let announce = match get_utf8(ps, "announce".as_bytes()) {
            Some(a) => a,
            None => {
                return Err(fmt_err("missing key: announce"));
            },
        };
        let announce_list = match crate::bencode::dict_get(ps, "announce-list".as_bytes()) {
            Some(v) => match v.list() {
                Some(tiers) => MetaInfo::interpret_announce_list(tiers),
                None => None,
            },
            None => None,
        };
        let creation_date = match crate::bencode::dict_get(ps, "creation date".as_bytes()) {
            Some(v) => match v.integer() {
                Some(d) => {
                    let d = *d;
                    if d >= 0 {
                        Some(d as u64)
                    } else {
                        None
                    }
                },
                None => None,
            },
            None => None,
        };
        let comment = get_utf8(ps, "comment".as_bytes());
        let created_by = get_utf8(ps, "created by".as_bytes());
        let encoding = get_utf8(ps, "encoding".as_bytes());
        Ok(
            MetaInfo {
                info_hash,
                info,
                announce,
                announce_list,
                creation_date,
                comment,
                created_by,
                encoding,
            },
        )
    }
}


impl MetaInfo {
    /// Read a whole `.torrent` file.  The bytes must be one bencode
    /// dictionary spanning the input exactly; the info-hash is the SHA-1 of
    /// the `info` value's canonical encoding, which `lemma_decode_sound`
    /// shows is the verbatim byte range the value was decoded from.
    pub fn parse(bytes: &[u8]) -> (r: Result<MetaInfo, TorrentParseError>)
        ensures
            (match r {
                Ok(m) => crate::bencode::spec_decode(bytes@) matches Ok(v) && spec_metainfo_of(v)
                    == Option::Some(m@),
                Err(e) => match e {
                    TorrentParseError::DecodeError(de) => crate::bencode::spec_decode(bytes@)
                        == Err::<ValueView, DecodeError>(de),
                    TorrentParseError::FormatError(_) => crate::bencode::spec_decode(bytes@)
                        matches Ok(v) && spec_metainfo_of(v) is None,
                },
            }),
    {
        match Value::decode(bytes) {
            Ok(v) => MetaInfo::from_value(&v),
            Err(e) => Err(TorrentParseError::DecodeError(e)),
        }
    }
}

} // verus!
