//! The read-only filesystem that serves a finished index: what each request
//! of the mount host is answered with. Nothing here writes; every request
//! that would is refused.

use vstd::prelude::*;
use vstd::utf8::encode_utf8;
use crate::glob::{glob_match_ci, glob_matches_ci, is_literal, is_literal_pattern};
use crate::indexer::{
    copy_units, is_listed, last_index_of, names_of, parent_text, path_key_lc_from_u16,
    DeletedIndex, EntryMeta, EntryOrDir, IndexModel, MetaView, NodeView,
};
use crate::text::{
    chars_of, lossy_text_of, push_all, string_of, utf16_decode_lossy, utf16_encode, utf16_of,
};
use crate::util::{
    epoch, is_root_key, key_of, normalize_and_canonicalize_for_key, root_key, EpochTime,
};

verus! {

/// Why a request is refused.
#[derive(Clone, Copy, Debug, PartialEq, Eq, Structural)]
pub enum FsError {
    /// The request would write, or opens in a way that is not served.
    AccessDenied,
    /// Nothing is stored under the path, or the file's content is gone.
    NotFound,
    /// The request does not fit what the handle was opened as.
    InvalidRequest,
    /// A directory was opened as something that must not be one.
    FileIsADirectory,
    /// A file was opened as a directory.
    NotADirectory,
    /// The host's buffer for directory entries is full.
    BufferOverflow,
    /// The request is not served at all.
    NotImplemented,
}

/// What the host wants done with the target of an open request.
#[derive(Clone, Copy, Debug, PartialEq, Eq, Structural)]
pub enum Disposition {
    Supersede,
    Open,
    Create,
    OpenIf,
    Overwrite,
    OverwriteIf,
    /// A value that the host's contract does not define.
    Other,
}

/// The option flags of an open request that matter here.
#[derive(Clone, Copy, Debug, PartialEq, Eq, Structural)]
pub struct OpenOptions {
    /// The target must be a directory.
    pub directory_file: bool,
    /// The target must not be a directory.
    pub non_directory_file: bool,
    /// The target is to be deleted when the handle is closed.
    pub delete_on_close: bool,
    /// A reparse point is to be opened as itself. The tree has none, so the
    /// flag changes nothing.
    pub open_reparse_point: bool,
}

/// The attribute under which an entry is shown.
#[derive(Clone, Copy, Debug, PartialEq, Eq, Structural)]
pub enum Attributes {
    Directory,
    ReadOnly,
}

/// What is kept for an open handle.
#[derive(Debug, Clone)]
pub struct HandleCtx {
    /// Whether the handle was opened as a directory.
    pub is_dir: bool,
    /// The record number of the file, for a handle opened as a file.
    pub mft_no: Option<u64>,
    /// The path that was opened, in UTF-16.
    pub _path_u16: Vec<u16>,
}

/// The answer to an open request that is served.
#[derive(Debug)]
pub struct CreateFileInfo {
    pub context: HandleCtx,
    pub is_dir: bool,
    pub new_file_created: bool,
}

/// One entry of a directory listing.
#[derive(Debug)]
pub struct FindData {
    pub attributes: Attributes,
    pub creation_time: EpochTime,
    pub last_access_time: EpochTime,
    pub last_write_time: EpochTime,
    pub file_size: u64,
    /// The display name, in UTF-16.
    pub file_name: Vec<u16>,
}

/// The mathematical value of a [`FindData`].
pub struct FindDataView {
    pub attributes: Attributes,
    pub creation_time: EpochTime,
    pub last_access_time: EpochTime,
    pub last_write_time: EpochTime,
    pub file_size: u64,
    pub file_name: Seq<u16>,
}

impl View for FindData {
    type V = FindDataView;

    open spec fn view(&self) -> FindDataView {
        FindDataView {
            attributes: self.attributes,
            creation_time: self.creation_time,
            last_access_time: self.last_access_time,
            last_write_time: self.last_write_time,
            file_size: self.file_size,
            file_name: self.file_name@,
        }
    }
}

/// The values of a sequence of listing entries.
pub open spec fn entries_of(v: Seq<FindData>) -> Seq<FindDataView> {
    Seq::new(v.len(), |i: int| v[i]@)
}

/// What is reported of one node.
#[derive(Clone, Copy, Debug, PartialEq, Eq, Structural)]
pub struct FileInfo {
    pub attributes: Attributes,
    pub creation_time: EpochTime,
    pub last_access_time: EpochTime,
    pub last_write_time: EpochTime,
    pub file_size: u64,
    pub number_of_links: u32,
    pub file_index: u64,
}

/// The sizes reported of the volume, in bytes.
#[derive(Clone, Copy, Debug, PartialEq, Eq, Structural)]
pub struct DiskSpaceInfo {
    pub byte_count: u64,
    pub free_byte_count: u64,
    pub available_byte_count: u64,
}

/// What is reported of the volume.
#[derive(Debug)]
pub struct VolumeInfo {
    pub name: String,
    pub serial_number: u32,
    pub max_component_length: u32,
    pub case_preserved_names: bool,
    pub unicode_on_disk: bool,
    pub persistent_acls: bool,
    pub named_streams: bool,
    pub fs_name: String,
}

/// How the host took one entry of a listing.
#[derive(Clone, Copy, Debug, PartialEq, Eq, Structural)]
pub enum FillOutcome {
    Accepted,
    /// The host's buffer has no room for the entry.
    BufferFull,
    /// The entry's name is longer than the host can take.
    NameTooLong,
}

/// The time of the epoch, as a value.
pub open spec fn epoch_time() -> EpochTime {
    EpochTime { secs: 0 }
}

/// `t`, or the epoch where there is none.
pub open spec fn time_or_epoch(t: Option<EpochTime>) -> EpochTime {
    match t {
        Some(t) => t,
        None => epoch_time(),
    }
}

/// The attribute under which the entry `m` is shown.
pub open spec fn attributes_of(m: MetaView) -> Attributes {
    if m.is_dir {
        Attributes::Directory
    } else {
        Attributes::ReadOnly
    }
}

/// The listing entry of a directory with the display name `name`.
pub open spec fn dir_entry(name: Seq<u16>) -> FindDataView {
    FindDataView {
        attributes: Attributes::Directory,
        creation_time: epoch_time(),
        last_access_time: epoch_time(),
        last_write_time: epoch_time(),
        file_size: 0,
        file_name: name,
    }
}

/// The listing entry of the file `m`.
pub open spec fn file_entry(m: MetaView) -> FindDataView {
    FindDataView {
        attributes: attributes_of(m),
        creation_time: time_or_epoch(m.created),
        last_access_time: time_or_epoch(m.accessed),
        last_write_time: time_or_epoch(m.modified),
        file_size: m.size,
        file_name: m.name,
    }
}

/// What is reported of the file `m` by itself: one link, and its record
/// number as its index.
pub open spec fn file_info_of(m: MetaView) -> FileInfo {
    FileInfo {
        attributes: attributes_of(m),
        creation_time: time_or_epoch(m.created),
        last_access_time: time_or_epoch(m.accessed),
        last_write_time: time_or_epoch(m.modified),
        file_size: m.size,
        number_of_links: 1,
        file_index: m.mft_no,
    }
}

/// The FNV-1a hash of `bytes`, in 64 bits.
pub open spec fn fnv1a(bytes: Seq<u8>) -> u64
    decreases bytes.len(),
{
    if bytes.len() == 0 {
        0xcbf29ce484222325
    } else {
        (fnv1a(bytes.drop_last()) ^ (bytes.last() as u64)).wrapping_mul(0x100000001b3)
    }
}

/// The file index of the node stored under `key`: the FNV-1a hash of the
/// key's UTF-8 bytes, with 1 in place of a hash of zero.
pub open spec fn file_index_of(key: Seq<char>) -> u64 {
    let h = fnv1a(encode_utf8(key));
    if h == 0 {
        1
    } else {
        h
    }
}

/// What is reported of the directory stored under `key`.
pub open spec fn dir_info(key: Seq<char>) -> FileInfo {
    FileInfo {
        attributes: Attributes::Directory,
        creation_time: epoch_time(),
        last_access_time: epoch_time(),
        last_write_time: epoch_time(),
        file_size: 0,
        number_of_links: 1,
        file_index: file_index_of(key),
    }
}

/// Whether `s` ends with `tail`.
pub open spec fn ends_with(s: Seq<char>, tail: Seq<char>) -> bool {
    s.len() >= tail.len() && s.skip(s.len() - tail.len()) == tail
}

/// The key of the directory that a listing request means by the key `k`: a
/// last component `*` or `*.*` is dropped, and what then is empty, `\.` or
/// `\..` is the root.
pub open spec fn listing_key(k: Seq<char>) -> Seq<char> {
    let cut = if ends_with(k, seq!['\\', '*', '.', '*']) || ends_with(k, seq!['\\', '*']) {
        parent_text(k)
    } else {
        k
    };
    if cut == seq!['\\', '.'] || cut == seq!['\\', '.', '.'] || cut.len() == 0 {
        root_key()
    } else {
        cut
    }
}

/// The key of the directory that a listing request means by the UTF-16 path
/// `name`.
pub open spec fn dir_listing_key(name: Seq<u16>) -> Seq<char> {
    listing_key(key_of(lossy_text_of(name)))
}

/// Whether the key `k` stands for the root.
pub open spec fn is_root(k: Seq<char>) -> bool {
    key_of(k) == root_key()
}

/// Whether the disposition `d` asks to create or to overwrite.
pub open spec fn writes(d: Disposition) -> bool {
    d == Disposition::Create || d == Disposition::Supersede || d == Disposition::Overwrite || d
        == Disposition::OverwriteIf
}

/// Whether the disposition `d` asks to open what is there.
pub open spec fn opens(d: Disposition) -> bool {
    d == Disposition::Open || d == Disposition::OpenIf
}

/// What an open request is answered with: as what the target is opened, a
/// directory (`true`) or a file, and with which record number; or why it is
/// refused.
pub open spec fn open_outcome(m: IndexModel, name: Seq<u16>, d: Disposition, o: OpenOptions)
    -> Result<(bool, Option<u64>), FsError> {
    let key = dir_listing_key(name);
    if writes(d) || o.delete_on_close {
        Err(FsError::AccessDenied)
    } else if is_root(key) {
        Ok((true, None))
    } else if !m.nodes.contains_key(key) {
        if opens(d) {
            Err(FsError::NotFound)
        } else {
            Err(FsError::AccessDenied)
        }
    } else {
        match m.nodes[key] {
            NodeView::Dir => if o.non_directory_file {
                Err(FsError::FileIsADirectory)
            } else {
                Ok((true, None))
            },
            NodeView::File(meta) => if o.directory_file {
                Err(FsError::NotADirectory)
            } else if !opens(d) {
                Err(FsError::AccessDenied)
            } else {
                Ok((false, Some(meta.mft_no)))
            },
        }
    }
}

/// What is reported of the node at the UTF-16 path `name`.
pub open spec fn info_outcome(m: IndexModel, name: Seq<u16>) -> Result<FileInfo, FsError> {
    let key = dir_listing_key(name);
    if is_root(key) {
        Ok(dir_info(root_key()))
    } else if !m.nodes.contains_key(key) {
        Err(FsError::NotFound)
    } else {
        match m.nodes[key] {
            NodeView::Dir => Ok(dir_info(key)),
            NodeView::File(meta) => Ok(file_info_of(meta)),
        }
    }
}

/// Which record a read request reads: the one the handle was opened for,
/// unless the handle is a directory's, the path is the root, or the handle
/// carries no record.
pub open spec fn read_record_of(name: Seq<u16>, is_dir: bool, mft_no: Option<u64>) -> Result<
    u64,
    FsError,
> {
    if is_dir || key_of(key_of(lossy_text_of(name))) == root_key() {
        Err(FsError::InvalidRequest)
    } else {
        match mft_no {
            Some(n) => Ok(n),
            None => Err(FsError::InvalidRequest),
        }
    }
}

/// Where in a content of `len` bytes a read at `offset` begins: a negative
/// offset counts as zero.
pub open spec fn read_start(offset: i64) -> nat {
    if offset < 0 {
        0
    } else {
        offset as nat
    }
}

/// The largest number of bytes that one read reports.
pub open spec fn read_limit() -> nat {
    0xffff_ffff
}

/// How many bytes a read at `offset` into a buffer of `room` bytes takes
/// from a content of `len` bytes: as many as the content holds from the
/// offset on and as the buffer has room for, and no more than
/// [`read_limit`], the most that the count returned can say.
pub open spec fn read_count(len: nat, offset: i64, room: nat) -> nat {
    let start = read_start(offset);
    if start >= len {
        0
    } else {
        let there = (len - start) as nat;
        let fit = if room <= there {
            room
        } else {
            there
        };
        if fit <= read_limit() {
            fit
        } else {
            read_limit()
        }
    }
}

/// Whether a read at `offset` into a buffer of `room` bytes finds the
/// content `data` wiped: it begins at the start of a content that is not
/// empty, and every byte it would take is zero.
pub open spec fn reads_wiped(data: Seq<u8>, offset: i64, room: nat) -> bool {
    &&& read_start(offset) == 0
    &&& data.len() > 0
    &&& forall|i: int| 0 <= i < read_count(data.len(), offset, room) ==> data[i] == 0
}

/// Computes [`file_index_of`].
pub fn file_index_from_key(key: &str) -> (h: u64)
    ensures
        h == file_index_of(key@),
        h != 0,
{
    let bytes = key.as_bytes();
    let mut h: u64 = 0xcbf29ce484222325;
    let mut i: usize = 0;
    assert(bytes@.take(0) =~= Seq::<u8>::empty());
    while i < bytes.len()
        invariant
            i <= bytes.len(),
            h == fnv1a(bytes@.take(i as int)),
        decreases bytes.len() - i,
    {
        let b = bytes[i];
        assert(bytes@.take(i + 1).drop_last() =~= bytes@.take(i as int));
        h = (h ^ (b as u64)).wrapping_mul(0x100000001b3);
        i += 1;
    }
    assert(bytes@.take(bytes.len() as int) =~= bytes@);
    if h == 0 {
        1
    } else {
        h
    }
}

/// Computes [`listing_key`] for the key `k`.
fn listing_key_of(k: &str) -> (r: String)
    ensures
        r@ == listing_key(k@),
{
    let p = chars_of(k);
    let n = p.len();
    let star_all = n >= 4 && p[n - 4] == '\\' && p[n - 3] == '*' && p[n - 2] == '.' && p[n - 1]
        == '*';
    let star = n >= 2 && p[n - 2] == '\\' && p[n - 1] == '*';
    proof {
        if n >= 4 {
            let tail = p@.skip(n - 4);
            assert(tail.len() == 4);
            assert(tail[0] == p@[n - 4] && tail[1] == p@[n - 3] && tail[2] == p@[n - 2] && tail[3]
                == p@[n - 1]);
            if star_all {
                assert(tail =~= seq!['\\', '*', '.', '*']);
            }
        }
        if n >= 2 {
            let tail = p@.skip(n - 2);
            assert(tail.len() == 2);
            assert(tail[0] == p@[n - 2] && tail[1] == p@[n - 1]);
            if star {
                assert(tail =~= seq!['\\', '*']);
            }
        }
    }
    let mut cut: Vec<char> = Vec::new();
    if star_all || star {
        let mut at: usize = n;
        assert(p@.take(at as int) =~= p@);
        while at > 0 && p[at - 1] != '\\'
            invariant
                at <= n,
                n == p.len(),
                last_index_of(p@, '\\') == last_index_of(p@.take(at as int), '\\'),
            decreases at,
        {
            assert(p@.take(at as int).drop_last() =~= p@.take(at - 1));
            at -= 1;
        }
        if at <= 1 {
            cut.push('\\');
            assert(cut@ =~= root_key());
        } else {
            let mut i: usize = 0;
            while i < at - 1
                invariant
                    i <= at - 1,
                    at <= p.len(),
                    cut@ == p@.take(i as int),
                decreases at - 1 - i,
            {
                cut.push(p[i]);
                i += 1;
                assert(p@.take(i as int) == p@.take(i as int - 1).push(p@[i as int - 1]));
            }
        }
        assert(cut@ == parent_text(p@));
    } else {
        push_all(&mut cut, &p);
        assert(cut@ =~= p@);
    }
    let is_dot = cut.len() == 2 && cut[0] == '\\' && cut[1] == '.';
    let is_dotdot = cut.len() == 3 && cut[0] == '\\' && cut[1] == '.' && cut[2] == '.';
    proof {
        if is_dot {
            assert(cut@ =~= seq!['\\', '.']);
        }
        if is_dotdot {
            assert(cut@ =~= seq!['\\', '.', '.']);
        }
    }
    if is_dot || is_dotdot || cut.len() == 0 {
        let mut root: Vec<char> = Vec::new();
        root.push('\\');
        assert(root@ =~= root_key());
        string_of(&root)
    } else {
        string_of(&cut)
    }
}

/// The key of the directory that a listing request means by the UTF-16 path
/// `name`.
pub fn key_for_dir_listing(name: &[u16]) -> (key: String)
    ensures
        key@ == dir_listing_key(name@),
{
    let k = path_key_lc_from_u16(name);
    listing_key_of(k.as_str())
}

/// How the listing goes on after the host took an entry: it stops with
/// buffer-overflow when the host's buffer is full, and goes on otherwise; an
/// entry whose name is too long is passed over.
pub fn after_fill(outcome: FillOutcome) -> (r: Result<(), FsError>)
    ensures
        r == if outcome == FillOutcome::BufferFull {
            Err::<(), FsError>(FsError::BufferOverflow)
        } else {
            Ok::<(), FsError>(())
        },
{
    match outcome {
        FillOutcome::BufferFull => Err(FsError::BufferOverflow),
        FillOutcome::Accepted => Ok(()),
        FillOutcome::NameTooLong => Ok(()),
    }
}

impl EntryMeta {
    /// The listing entry of the file.
    pub fn to_find_data(&self) -> (d: FindData)
        ensures
            d@ == file_entry(self@),
    {
        FindData {
            attributes: if self.is_dir {
                Attributes::Directory
            } else {
                Attributes::ReadOnly
            },
            creation_time: time_or(self.created),
            last_access_time: time_or(self.accessed),
            last_write_time: time_or(self.modified),
            file_size: self.size,
            file_name: copy_units(&self.name_u16),
        }
    }

    /// What is reported of the file by itself.
    pub fn to_file_info(&self) -> (fi: FileInfo)
        ensures
            fi == file_info_of(self@),
    {
        FileInfo {
            attributes: if self.is_dir {
                Attributes::Directory
            } else {
                Attributes::ReadOnly
            },
            creation_time: time_or(self.created),
            last_access_time: time_or(self.accessed),
            last_write_time: time_or(self.modified),
            file_size: self.size,
            number_of_links: 1,
            file_index: self.mft_no,
        }
    }
}

/// `t`, or the epoch where there is none.
fn time_or(t: Option<EpochTime>) -> (r: EpochTime)
    ensures
        r == time_or_epoch(t),
{
    match t {
        Some(t) => t,
        None => epoch(),
    }
}

/// The listing entry of a directory with the display name `name`.
fn mk_dir_entry(name: Vec<u16>) -> (d: FindData)
    ensures
        d@ == dir_entry(name@),
{
    FindData {
        attributes: Attributes::Directory,
        creation_time: epoch(),
        last_access_time: epoch(),
        last_write_time: epoch(),
        file_size: 0,
        file_name: name,
    }
}

/// Whether the units `a` come before the units `b` in the order of
/// dictionaries: at the first place where they differ `a` holds the smaller
/// unit, or `a` ends there and `b` does not.
pub open spec fn units_before(a: Seq<u16>, b: Seq<u16>) -> bool
    decreases a.len(),
{
    if b.len() == 0 {
        false
    } else if a.len() == 0 {
        true
    } else if a[0] != b[0] {
        a[0] < b[0]
    } else {
        units_before(a.skip(1), b.skip(1))
    }
}

/// Whether each name of `names` comes before the next.
pub open spec fn ascending(names: Seq<Seq<u16>>) -> bool {
    forall|i: int, j: int| 0 <= i < j < names.len() ==> units_before(names[i], names[j])
}

/// The part of `s` before its first separator: the whole where it has
/// none.
pub open spec fn first_piece(s: Seq<char>) -> Seq<char>
    decreases s.len(),
{
    if s.len() == 0 || s[0] == '\\' {
        Seq::<char>::empty()
    } else {
        seq![s[0]] + first_piece(s.skip(1))
    }
}

/// The first component of the key `k` as a display name: none for the root,
/// for a key without leading separator, and for an empty first component.
pub open spec fn first_level_name(k: Seq<char>) -> Option<Seq<u16>> {
    if k == root_key() || k.len() == 0 || k[0] != '\\' {
        None
    } else {
        let first = first_piece(k.skip(1));
        if first.len() == 0 {
            None
        } else {
            Some(utf16_of(first))
        }
    }
}

/// Whether `names` are the first-level names of the keys `keys`: each of
/// them once, in ascending order.
pub open spec fn is_first_level_list(keys: Set<Seq<char>>, names: Seq<Seq<u16>>) -> bool {
    &&& ascending(names)
    &&& forall|x: Seq<u16>|
        names.contains(x) <==> exists|k: Seq<char>|
            keys.contains(k) && #[trigger] first_level_name(k) == Some(x)
}

/// Whether `names` are the names that a listing of the directory stored
/// under `key` goes through: the directory's children in order of arrival,
/// or, where the root has none, the first-level names of all node keys.
pub open spec fn is_name_list(m: IndexModel, key: Seq<char>, names: Seq<Seq<u16>>) -> bool {
    let own = if m.children_names.contains_key(key) {
        m.children_names[key]
    } else {
        Seq::<Seq<u16>>::empty()
    };
    if own.len() == 0 && is_root(key) {
        is_first_level_list(m.nodes.dom(), names)
    } else {
        names == own
    }
}

/// The key under which the child `name` of the directory at `key` is
/// looked up.
pub open spec fn child_key(key: Seq<char>, name: Seq<u16>) -> Seq<char> {
    if is_root(key) {
        key_of(seq!['\\'] + lossy_text_of(name))
    } else {
        key_of(key + seq!['\\'] + lossy_text_of(name))
    }
}

/// The listing entry for the child `name` of the directory at `key`: that
/// of the node found under the child's key; where none is found, a
/// directory of that name directly under the root, and nothing elsewhere.
pub open spec fn child_entry(m: IndexModel, key: Seq<char>, name: Seq<u16>) -> Option<
    FindDataView,
> {
    let k = child_key(key, name);
    if m.nodes.contains_key(k) {
        match m.nodes[k] {
            NodeView::Dir => Some(dir_entry(name)),
            NodeView::File(meta) => Some(file_entry(meta)),
        }
    } else if is_root(key) {
        Some(dir_entry(name))
    } else {
        None
    }
}

/// The listing entries for the children `names` of the directory at `key`,
/// in their order.
pub open spec fn child_entries(m: IndexModel, key: Seq<char>, names: Seq<Seq<u16>>) -> Seq<
    FindDataView,
>
    decreases names.len(),
{
    if names.len() == 0 {
        Seq::<FindDataView>::empty()
    } else {
        match child_entry(m, key, names[0]) {
            Some(e) => seq![e] + child_entries(m, key, names.skip(1)),
            None => child_entries(m, key, names.skip(1)),
        }
    }
}

/// The entries `.` and `..`.
pub open spec fn dot_entries() -> Seq<FindDataView> {
    seq![dir_entry(utf16_of(seq!['.'])), dir_entry(utf16_of(seq!['.', '.']))]
}

/// Whether the pattern `pat` asks for everything: it is empty, `*` or `*.*`.
pub open spec fn asks_for_all(pat: Seq<char>) -> bool {
    pat.len() == 0 || pat == seq!['*'] || pat == seq!['*', '.', '*']
}

/// The listing entries for those children among `names` of the directory at
/// `key` that the pattern `pat` selects, in their order; behind the first
/// entry nothing follows where the pattern holds no wildcard.
pub open spec fn selected_entries(
    m: IndexModel,
    key: Seq<char>,
    names: Seq<Seq<u16>>,
    pat: Seq<char>,
) -> Seq<FindDataView>
    decreases names.len(),
{
    if names.len() == 0 {
        Seq::<FindDataView>::empty()
    } else if !asks_for_all(pat) && !glob_matches_ci(lossy_text_of(names[0]), pat) {
        selected_entries(m, key, names.skip(1), pat)
    } else {
        match child_entry(m, key, names[0]) {
            Some(e) => if is_literal(pat) {
                seq![e]
            } else {
                seq![e] + selected_entries(m, key, names.skip(1), pat)
            },
            None => selected_entries(m, key, names.skip(1), pat),
        }
    }
}

/// Whether a listing through the handle `(is_dir, path)` is served: the
/// handle was opened as a directory, or its path means the root or a known
/// directory.
pub open spec fn lists_directory(m: IndexModel, is_dir: bool, path: Seq<u16>) -> bool {
    let key = dir_listing_key(path);
    is_dir || is_root(key) || (m.nodes.contains_key(key) && m.nodes[key] is Dir)
}

/// Whether `a` comes before `b`, as [`units_before`] says.
fn comes_before(a: &Vec<u16>, b: &Vec<u16>) -> (r: bool)
    ensures
        r == units_before(a@, b@),
{
    let mut i: usize = 0;
    assert(a@.skip(0) =~= a@);
    assert(b@.skip(0) =~= b@);
    while i < a.len() && i < b.len()
        invariant
            i <= a.len(),
            i <= b.len(),
            units_before(a@, b@) == units_before(a@.skip(i as int), b@.skip(i as int)),
        decreases a.len() - i,
    {
        if a[i] != b[i] {
            return a[i] < b[i];
        }
        assert(a@.skip(i as int).skip(1) =~= a@.skip(i + 1));
        assert(b@.skip(i as int).skip(1) =~= b@.skip(i + 1));
        i += 1;
    }
    i < b.len()
}

/// Whether `a` and `b` hold the same units.
fn same_units(a: &Vec<u16>, b: &Vec<u16>) -> (r: bool)
    ensures
        r == (a@ == b@),
{
    if a.len() != b.len() {
        return false;
    }
    let mut i: usize = 0;
    while i < a.len()
        invariant
            i <= a.len(),
            a.len() == b.len(),
            a@.take(i as int) == b@.take(i as int),
        decreases a.len() - i,
    {
        if a[i] != b[i] {
            return false;
        }
        i += 1;
        assert(a@.take(i as int) == a@.take(i as int - 1).push(a@[i as int - 1]));
        assert(b@.take(i as int) == b@.take(i as int - 1).push(b@[i as int - 1]));
    }
    assert(a@.take(a.len() as int) == a@);
    assert(b@.take(b.len() as int) == b@);
    true
}

/// Of two different names one comes before the other.
pub proof fn lemma_units_total(a: Seq<u16>, b: Seq<u16>)
    ensures
        a == b || units_before(a, b) || units_before(b, a),
        !(units_before(a, b) && units_before(b, a)),
        !units_before(a, a),
    decreases a.len(),
{
    if a.len() > 0 && b.len() > 0 {
        lemma_units_total(a.skip(1), b.skip(1));
        if a[0] == b[0] && a.skip(1) == b.skip(1) {
            assert(a =~= seq![a[0]] + a.skip(1));
            assert(b =~= seq![b[0]] + b.skip(1));
        }
    } else if a.len() == 0 && b.len() == 0 {
        assert(a =~= b);
    }
    if a.len() > 0 {
        lemma_units_total(a.skip(1), a.skip(1));
    }
}

/// What comes before a name that comes before a third comes before the
/// third.
pub proof fn lemma_units_transitive(a: Seq<u16>, b: Seq<u16>, c: Seq<u16>)
    requires
        units_before(a, b),
        units_before(b, c),
    ensures
        units_before(a, c),
    decreases a.len(),
{
    if a.len() > 0 && b.len() > 0 && c.len() > 0 {
        if a[0] == b[0] && b[0] == c[0] {
            lemma_units_transitive(a.skip(1), b.skip(1), c.skip(1));
        }
    }
}

/// Puts `name` into the ascending list `list`, unless it is there.
fn insert_ascending(list: &mut Vec<Vec<u16>>, name: Vec<u16>)
    requires
        ascending(names_of(old(list)@)),
    ensures
        ascending(names_of(final(list)@)),
        forall|x: Seq<u16>|
            names_of(final(list)@).contains(x) <==> (names_of(old(list)@).contains(x) || x
                == name@),
{
    let ghost before = names_of(list@);
    let mut i: usize = 0;
    while i < list.len() && comes_before(&list[i], &name)
        invariant
            i <= list.len(),
            list == old(list),
            before == names_of(list@),
            forall|j: int| 0 <= j < i ==> units_before(#[trigger] before[j], name@),
        decreases list.len() - i,
    {
        assert(before[i as int] == list@[i as int]@);
        i += 1;
    }
    if i < list.len() && same_units(&list[i], &name) {
        assert(before[i as int] == name@);
        return ;
    }
    proof {
        if i < list.len() {
            assert(before[i as int] == list@[i as int]@);
            lemma_units_total(before[i as int], name@);
        }
    }
    list.insert(i, name);
    proof {
        let after = names_of(list@);
        assert(after =~= before.take(i as int).push(name@) + before.skip(i as int));
        assert forall|a: int, b: int| 0 <= a < b < after.len() implies units_before(
            after[a],
            after[b],
        ) by {
            if b < i {
                assert(after[a] == before[a] && after[b] == before[b]);
            } else if b == i {
                assert(after[a] == before[a]);
            } else if a == i {
                assert(after[b] == before[b - 1]);
                if b - 1 > i {
                    lemma_units_transitive(name@, before[i as int], before[b - 1]);
                }
            } else if a < i {
                assert(after[a] == before[a] && after[b] == before[b - 1]);
            } else {
                assert(after[a] == before[a - 1] && after[b] == before[b - 1]);
            }
        }
        assert forall|x: Seq<u16>| after.contains(x) <==> (before.contains(x) || x == name@) by {
            if after.contains(x) {
                let t = choose|t: int| 0 <= t < after.len() && after[t] == x;
                if t < i {
                    assert(before[t] == x);
                } else if t > i {
                    assert(before[t - 1] == x);
                }
            }
            if before.contains(x) {
                let t = choose|t: int| 0 <= t < before.len() && before[t] == x;
                if t < i {
                    assert(after[t] == x);
                } else {
                    assert(after[t + 1] == x);
                }
            }
            if x == name@ {
                assert(after[i as int] == x);
            }
        }
    }
}

/// The first component of the key `k` as a display name, if it has one.
fn first_level_of(k: &str) -> (r: Option<Vec<u16>>)
    ensures
        match r {
            Some(name) => first_level_name(k@) == Some(name@),
            None => first_level_name(k@) is None,
        },
{
    let p = chars_of(k);
    if p.len() == 0 || p[0] != '\\' {
        return None;
    }
    if p.len() == 1 {
        assert(p@ =~= root_key());
        return None;
    }
    assert(p@ != root_key());
    let ghost rest = p@.skip(1);
    let mut first: Vec<char> = Vec::new();
    let mut i: usize = 1;
    assert(rest.skip(0) =~= rest);
    assert(first@ + first_piece(rest) =~= first_piece(rest));
    while i < p.len() && p[i] != '\\'
        invariant
            1 <= i <= p.len(),
            rest == p@.skip(1),
            first_piece(rest) == first@ + first_piece(rest.skip(i - 1)),
        decreases p.len() - i,
    {
        let ghost before = first@;
        first.push(p[i]);
        proof {
            let tail = rest.skip(i - 1);
            assert(tail[0] == p@[i as int]);
            assert(tail.skip(1) =~= rest.skip(i as int));
            assert(first@ + first_piece(rest.skip(i as int)) =~= before + (seq![tail[0]]
                + first_piece(tail.skip(1))));
        }
        i += 1;
    }
    proof {
        let tail = rest.skip(i - 1);
        if i < p.len() {
            assert(tail[0] == p@[i as int]);
        }
        assert(first_piece(tail) =~= Seq::<char>::empty());
        assert(first@ + first_piece(tail) =~= first@);
    }
    if first.len() == 0 {
        None
    } else {
        Some(utf16_encode(string_of(&first).as_str()))
    }
}

/// The filesystem that serves a finished index.
pub struct UnUnlinkFs {
    /// The device that was scanned.
    pub _device_path: String,
    /// The index of what was found there. It is only read.
    pub index: DeletedIndex,
}

impl UnUnlinkFs {
    /// Whether the index that is served is well-formed.
    pub open spec fn wf(&self) -> bool {
        self.index.wf()
    }

    /// The filesystem that serves `index`, scanned from `device_path`.
    pub fn new(device_path: String, index: DeletedIndex) -> (fs: UnUnlinkFs)
        requires
            index.wf(),
        ensures
            fs.wf(),
            fs.index == index,
            fs._device_path == device_path,
    {
        UnUnlinkFs { _device_path: device_path, index }
    }

    /// The answer that opens `full` as a directory.
    fn open_dir_ctx(&self, full: &[u16]) -> (r: CreateFileInfo)
        ensures
            r.is_dir,
            !r.new_file_created,
            r.context.is_dir,
            r.context.mft_no is None,
            r.context._path_u16@ == full@,
    {
        CreateFileInfo {
            context: HandleCtx { is_dir: true, mft_no: None, _path_u16: units_of(full) },
            is_dir: true,
            new_file_created: false,
        }
    }

    /// The answer that opens `full` as the file of record `mft_no`.
    fn open_file_ctx(&self, full: &[u16], mft_no: u64) -> (r: CreateFileInfo)
        ensures
            !r.is_dir,
            !r.new_file_created,
            !r.context.is_dir,
            r.context.mft_no == Some(mft_no),
            r.context._path_u16@ == full@,
    {
        CreateFileInfo {
            context: HandleCtx { is_dir: false, mft_no: Some(mft_no), _path_u16: units_of(full) },
            is_dir: false,
            new_file_created: false,
        }
    }

    /// Answers an open request for the UTF-16 path `file_name`. Nothing is
    /// ever created: a root or directory is opened as a directory, a file
    /// as a file with its record number, and every request that would
    /// create, overwrite or delete is refused.
    pub fn create_file(
        &self,
        file_name: &[u16],
        create_disposition: Disposition,
        create_options: OpenOptions,
    ) -> (r: Result<CreateFileInfo, FsError>)
        requires
            self.wf(),
        ensures
            match r {
                Ok(info) => {
                    &&& open_outcome(self.index@, file_name@, create_disposition, create_options)
                        == Ok::<(bool, Option<u64>), FsError>((info.is_dir, info.context.mft_no))
                    &&& info.context.is_dir == info.is_dir
                    &&& info.context._path_u16@ == file_name@
                    &&& !info.new_file_created
                },
                Err(e) => open_outcome(self.index@, file_name@, create_disposition, create_options)
                    == Err::<(bool, Option<u64>), FsError>(e),
            },
    {
        let open_key = key_for_dir_listing(file_name);
        let writing = match create_disposition {
            Disposition::Create => true,
            Disposition::Supersede => true,
            Disposition::Overwrite => true,
            Disposition::OverwriteIf => true,
            _ => false,
        };
        let opening = match create_disposition {
            Disposition::Open => true,
            Disposition::OpenIf => true,
            _ => false,
        };
        if writing || create_options.delete_on_close {
            return Err(FsError::AccessDenied);
        }
        if is_root_key(open_key.as_str()) {
            return Ok(self.open_dir_ctx(file_name));
        }
        match self.index.get(open_key.as_str()) {
            Some(EntryOrDir::Dir) => {
                if create_options.non_directory_file {
                    return Err(FsError::FileIsADirectory);
                }
                Ok(self.open_dir_ctx(file_name))
            },
            Some(EntryOrDir::File(m)) => {
                if create_options.directory_file {
                    return Err(FsError::NotADirectory);
                }
                if !opening {
                    return Err(FsError::AccessDenied);
                }
                Ok(self.open_file_ctx(file_name, m.mft_no))
            },
            None => {
                if opening {
                    Err(FsError::NotFound)
                } else {
                    Err(FsError::AccessDenied)
                }
            },
        }
    }

    /// Nothing is to be done when the last handle to a file is closed.
    pub fn cleanup(&self, _file_name: &[u16], _context: &HandleCtx) {
    }

    /// Nothing is to be done when a handle is released.
    pub fn close_file(&self, _file_name: &[u16], _context: &HandleCtx) {
    }

    /// Reports the node at the UTF-16 path `file_name`: the root and every
    /// directory as a directory of the epoch, with the hash of its key as
    /// its index; a file with what is known of it, and its record number as
    /// its index.
    pub fn get_file_information(&self, file_name: &[u16]) -> (r: Result<FileInfo, FsError>)
        requires
            self.wf(),
        ensures
            r == info_outcome(self.index@, file_name@),
    {
        let key = key_for_dir_listing(file_name);
        if is_root_key(key.as_str()) {
            proof {
                reveal_strlit("\\");
                assert("\\"@ =~= root_key());
            }
            return Ok(
                FileInfo {
                    attributes: Attributes::Directory,
                    creation_time: epoch(),
                    last_access_time: epoch(),
                    last_write_time: epoch(),
                    file_size: 0,
                    number_of_links: 1,
                    file_index: file_index_from_key("\\"),
                },
            );
        }
        match self.index.get(key.as_str()) {
            Some(EntryOrDir::Dir) => Ok(
                FileInfo {
                    attributes: Attributes::Directory,
                    creation_time: epoch(),
                    last_access_time: epoch(),
                    last_write_time: epoch(),
                    file_size: 0,
                    number_of_links: 1,
                    file_index: file_index_from_key(key.as_str()),
                },
            ),
            Some(EntryOrDir::File(m)) => Ok(m.to_file_info()),
            None => Err(FsError::NotFound),
        }
    }

    /// The first-level names of all node keys, each once, in ascending
    /// order.
    pub fn first_level_names(&self) -> (names: Vec<Vec<u16>>)
        requires
            self.wf(),
        ensures
            is_first_level_list(self.index@.nodes.dom(), names_of(names@)),
    {
        let keys = self.index.node_keys();
        let mut list: Vec<Vec<u16>> = Vec::new();
        let mut i: usize = 0;
        while i < keys.len()
            invariant
                i <= keys.len(),
                ascending(names_of(list@)),
                forall|x: Seq<u16>|
                    names_of(list@).contains(x) <==> exists|j: int|
                        0 <= j < i && #[trigger] first_level_name(keys@[j]@) == Some(x),
            decreases keys.len() - i,
        {
            let ghost before = names_of(list@);
            match first_level_of(keys[i].as_str()) {
                Some(name) => {
                    let ghost added = name@;
                    insert_ascending(&mut list, name);
                    proof {
                        assert forall|x: Seq<u16>| names_of(list@).contains(x) <==> exists|j: int|
                            0 <= j < i + 1 && #[trigger] first_level_name(keys@[j]@) == Some(
                                x,
                            ) by {
                            if names_of(list@).contains(x) {
                                if before.contains(x) {
                                    let j = choose|j: int|
                                        0 <= j < i && #[trigger] first_level_name(keys@[j]@)
                                            == Some(x);
                                    assert(0 <= j < i + 1 && first_level_name(keys@[j]@) == Some(
                                        x,
                                    ));
                                } else {
                                    assert(first_level_name(keys@[i as int]@) == Some(x));
                                }
                            }
                            if exists|j: int|
                                0 <= j < i + 1 && #[trigger] first_level_name(keys@[j]@) == Some(
                                    x,
                                ) {
                                let j = choose|j: int|
                                    0 <= j < i + 1 && #[trigger] first_level_name(keys@[j]@)
                                        == Some(x);
                                if j < i {
                                    assert(before.contains(x));
                                }
                            }
                        }
                    }
                },
                None => {
                    proof {
                        assert forall|x: Seq<u16>| names_of(list@).contains(x) <==> exists|j: int|
                            0 <= j < i + 1 && #[trigger] first_level_name(keys@[j]@) == Some(
                                x,
                            ) by {
                            if names_of(list@).contains(x) {
                                let j = choose|j: int|
                                    0 <= j < i && #[trigger] first_level_name(keys@[j]@) == Some(
                                        x,
                                    );
                                assert(0 <= j < i + 1 && first_level_name(keys@[j]@) == Some(x));
                            }
                            if exists|j: int|
                                0 <= j < i + 1 && #[trigger] first_level_name(keys@[j]@) == Some(
                                    x,
                                ) {
                                let j = choose|j: int|
                                    0 <= j < i + 1 && #[trigger] first_level_name(keys@[j]@)
                                        == Some(x);
                                assert(j < i);
                            }
                        }
                    }
                },
            }
            i += 1;
        }
        proof {
            let dom = self.index@.nodes.dom();
            assert forall|x: Seq<u16>| names_of(list@).contains(x) <==> exists|k: Seq<char>|
                dom.contains(k) && #[trigger] first_level_name(k) == Some(x) by {
                if names_of(list@).contains(x) {
                    let j = choose|j: int|
                        0 <= j < i && #[trigger] first_level_name(keys@[j]@) == Some(x);
                    assert(self.index@.nodes.contains_key(keys@[j]@));
                    assert(dom.contains(keys@[j]@) && first_level_name(keys@[j]@) == Some(x));
                }
                if exists|k: Seq<char>| dom.contains(k) && #[trigger] first_level_name(k) == Some(x) {
                    let k = choose|k: Seq<char>|
                        dom.contains(k) && #[trigger] first_level_name(k) == Some(x);
                    assert(self.index@.nodes.contains_key(k));
                    assert(is_listed(keys@, k));
                    let j = choose|j: int| 0 <= j < keys@.len() && #[trigger] keys@[j]@ == k;
                    assert(0 <= j < i && first_level_name(keys@[j]@) == Some(x));
                }
            }
        }
        list
    }

    /// The names that a listing of the directory stored under `key` goes
    /// through.
    pub fn name_list(&self, key: &str) -> (names: Vec<Vec<u16>>)
        requires
            self.wf(),
        ensures
            is_name_list(self.index@, key@, names_of(names@)),
    {
        let children = self.index.list_children(key);
        if children.len() == 0 && is_root_key(key) {
            self.first_level_names()
        } else {
            children
        }
    }

    /// The listing entry for the child `name` of the directory stored under
    /// `key`, if the child is shown.
    fn child_entry_of(&self, key: &str, at_root: bool, name: &Vec<u16>) -> (r: Option<FindData>)
        requires
            self.wf(),
            at_root == is_root(key@),
        ensures
            match r {
                Some(e) => child_entry(self.index@, key@, name@) == Some(e@),
                None => child_entry(self.index@, key@, name@) is None,
            },
    {
        let text = chars_of(utf16_decode_lossy(name.as_slice()).as_str());
        let mut path: Vec<char> = Vec::new();
        if !at_root {
            push_all(&mut path, &chars_of(key));
        }
        path.push('\\');
        push_all(&mut path, &text);
        proof {
            if at_root {
                assert(path@ =~= seq!['\\'] + lossy_text_of(name@));
            } else {
                assert(path@ =~= key@ + seq!['\\'] + lossy_text_of(name@));
            }
        }
        let ck = normalize_and_canonicalize_for_key(string_of(&path).as_str());
        match self.index.get(ck.as_str()) {
            Some(EntryOrDir::Dir) => Some(mk_dir_entry(copy_units(name))),
            Some(EntryOrDir::File(m)) => Some(m.to_find_data()),
            None => if at_root {
                Some(mk_dir_entry(copy_units(name)))
            } else {
                None
            },
        }
    }

    /// Whether a listing through the handle `context` is served.
    fn serves_listing(&self, key: &str, context: &HandleCtx) -> (r: bool)
        requires
            self.wf(),
            key@ == dir_listing_key(context._path_u16@),
        ensures
            r == lists_directory(self.index@, context.is_dir, context._path_u16@),
    {
        if context.is_dir {
            true
        } else if is_root_key(key) {
            true
        } else {
            match self.index.get(key) {
                Some(EntryOrDir::Dir) => true,
                _ => false,
            }
        }
    }

    /// Lists the directory that the handle `context` was opened for: `.`
    /// and `..`, then an entry for each child in order. A handle that is no
    /// directory's, on a path that is none, is refused as an invalid
    /// request.
    pub fn find_files(&self, context: &HandleCtx) -> (r: Result<Vec<FindData>, FsError>)
        requires
            self.wf(),
        ensures
            match r {
                Ok(entries) => {
                    &&& lists_directory(self.index@, context.is_dir, context._path_u16@)
                    &&& exists|names: Seq<Seq<u16>>|
                        {
                            &&& is_name_list(
                                self.index@,
                                dir_listing_key(context._path_u16@),
                                names,
                            )
                            &&& entries_of(entries@) == dot_entries() + #[trigger] child_entries(
                                self.index@,
                                dir_listing_key(context._path_u16@),
                                names,
                            )
                        }
                },
                Err(e) => e == FsError::InvalidRequest && !lists_directory(
                    self.index@,
                    context.is_dir,
                    context._path_u16@,
                ),
            },
    {
        let parent_key = key_for_dir_listing(context._path_u16.as_slice());
        if !self.serves_listing(parent_key.as_str(), context) {
            return Err(FsError::InvalidRequest);
        }
        let at_root = is_root_key(parent_key.as_str());
        let mut out: Vec<FindData> = Vec::new();
        out.push(mk_dir_entry(utf16_encode(".")));
        out.push(mk_dir_entry(utf16_encode("..")));
        proof {
            reveal_strlit(".");
            reveal_strlit("..");
            assert("."@ =~= seq!['.']);
            assert(".."@ =~= seq!['.', '.']);
            assert(entries_of(out@) =~= dot_entries());
        }
        let children = self.name_list(parent_key.as_str());
        let ghost names = names_of(children@);
        let ghost m = self.index@;
        let ghost key = parent_key@;
        let mut i: usize = 0;
        proof {
            assert(names.skip(0) =~= names);
            assert(entries_of(out@) + child_entries(m, key, names) =~= dot_entries()
                + child_entries(m, key, names));
        }
        while i < children.len()
            invariant
                i <= children.len(),
                self.wf(),
                m == self.index@,
                key == parent_key@,
                at_root == is_root(key),
                names == names_of(children@),
                entries_of(out@) + child_entries(m, key, names.skip(i as int)) == dot_entries()
                    + child_entries(m, key, names),
            decreases children.len() - i,
        {
            let ghost before = entries_of(out@);
            let ghost rest = names.skip(i as int);
            proof {
                assert(rest[0] == children@[i as int]@);
                assert(rest.skip(1) =~= names.skip(i + 1));
            }
            match self.child_entry_of(parent_key.as_str(), at_root, &children[i]) {
                Some(e) => {
                    out.push(e);
                    proof {
                        assert(entries_of(out@) =~= before.push(e@));
                        assert(entries_of(out@) + child_entries(m, key, names.skip(i + 1))
                            =~= before + (seq![e@] + child_entries(m, key, rest.skip(1))));
                    }
                },
                None => {},
            }
            i += 1;
        }
        proof {
            assert(names.skip(children.len() as int) =~= Seq::<Seq<u16>>::empty());
            assert(entries_of(out@) + Seq::<FindDataView>::empty() =~= entries_of(out@));
        }
        Ok(out)
    }

    /// Lists those children of the directory that the handle `context` was
    /// opened for which the UTF-16 pattern `search_pattern` selects: first
    /// `.` and `..` where the pattern asks for everything, then the
    /// selected entries in order, and no more than the first of them where
    /// the pattern holds no wildcard.
    pub fn find_files_with_pattern(&self, search_pattern: &[u16], context: &HandleCtx) -> (r:
        Result<Vec<FindData>, FsError>)
        requires
            self.wf(),
        ensures
            match r {
                Ok(entries) => {
                    &&& lists_directory(self.index@, context.is_dir, context._path_u16@)
                    &&& exists|names: Seq<Seq<u16>>|
                        {
                            &&& is_name_list(
                                self.index@,
                                dir_listing_key(context._path_u16@),
                                names,
                            )
                            &&& entries_of(entries@) == (if asks_for_all(
                                lossy_text_of(search_pattern@),
                            ) {
                                dot_entries()
                            } else {
                                Seq::<FindDataView>::empty()
                            }) + #[trigger] selected_entries(
                                self.index@,
                                dir_listing_key(context._path_u16@),
                                names,
                                lossy_text_of(search_pattern@),
                            )
                        }
                },
                Err(e) => e == FsError::InvalidRequest && !lists_directory(
                    self.index@,
                    context.is_dir,
                    context._path_u16@,
                ),
            },
    {
        let parent_key = key_for_dir_listing(context._path_u16.as_slice());
        let pat = utf16_decode_lossy(search_pattern);
        let pat_chars = chars_of(pat.as_str());
        let is_star = pat_chars.len() == 1 && pat_chars[0] == '*';
        let is_star_dot_star = pat_chars.len() == 3 && pat_chars[0] == '*' && pat_chars[1] == '.'
            && pat_chars[2] == '*';
        proof {
            if is_star {
                assert(pat_chars@ =~= seq!['*']);
            }
            if is_star_dot_star {
                assert(pat_chars@ =~= seq!['*', '.', '*']);
            }
        }
        let pat_is_all = pat_chars.len() == 0 || is_star || is_star_dot_star;
        let literal = is_literal_pattern(pat.as_str());
        if !self.serves_listing(parent_key.as_str(), context) {
            return Err(FsError::InvalidRequest);
        }
        let at_root = is_root_key(parent_key.as_str());
        let children = self.name_list(parent_key.as_str());
        let mut out: Vec<FindData> = Vec::new();
        if pat_is_all {
            out.push(mk_dir_entry(utf16_encode(".")));
            out.push(mk_dir_entry(utf16_encode("..")));
            proof {
                reveal_strlit(".");
                reveal_strlit("..");
                assert("."@ =~= seq!['.']);
                assert(".."@ =~= seq!['.', '.']);
                assert(entries_of(out@) =~= dot_entries());
            }
        } else {
            assert(entries_of(out@) =~= Seq::<FindDataView>::empty());
        }
        let ghost head = entries_of(out@);
        let ghost names = names_of(children@);
        let ghost m = self.index@;
        let ghost key = parent_key@;
        let ghost p = pat@;
        let mut i: usize = 0;
        let mut done: bool = false;
        proof {
            assert(names.skip(0) =~= names);
        }
        while i < children.len() && !done
            invariant
                i <= children.len(),
                self.wf(),
                m == self.index@,
                key == parent_key@,
                p == pat@,
                pat_is_all == asks_for_all(p),
                literal == is_literal(p),
                at_root == is_root(key),
                names == names_of(children@),
                !done ==> entries_of(out@) + selected_entries(m, key, names.skip(i as int), p)
                    == head + selected_entries(m, key, names, p),
                done ==> entries_of(out@) == head + selected_entries(m, key, names, p),
            decreases children.len() - i,
        {
            let ghost before = entries_of(out@);
            let ghost rest = names.skip(i as int);
            proof {
                assert(rest[0] == children@[i as int]@);
                assert(rest.skip(1) =~= names.skip(i + 1));
            }
            let shown = utf16_decode_lossy(children[i].as_slice());
            if pat_is_all || glob_match_ci(shown.as_str(), pat.as_str()) {
                match self.child_entry_of(parent_key.as_str(), at_root, &children[i]) {
                    Some(e) => {
                        out.push(e);
                        proof {
                            assert(entries_of(out@) =~= before.push(e@));
                            if literal {
                                assert(entries_of(out@) =~= before + seq![e@]);
                            } else {
                                assert(entries_of(out@) + selected_entries(
                                    m,
                                    key,
                                    names.skip(i + 1),
                                    p,
                                ) =~= before + (seq![e@] + selected_entries(
                                    m,
                                    key,
                                    rest.skip(1),
                                    p,
                                )));
                            }
                        }
                        if literal {
                            done = true;
                        }
                    },
                    None => {},
                }
            }
            i += 1;
        }
        proof {
            if !done {
                assert(names.skip(children.len() as int) =~= Seq::<Seq<u16>>::empty());
                assert(entries_of(out@) + Seq::<FindDataView>::empty() =~= entries_of(out@));
            }
        }
        Ok(out)
    }

    /// Which record a read through the handle `context` on the UTF-16 path
    /// `file_name` reads; an invalid request where the handle is a
    /// directory's, the path is the root, or the handle carries no record.
    pub fn read_record(&self, file_name: &[u16], context: &HandleCtx) -> (r: Result<u64, FsError>)
        ensures
            r == read_record_of(file_name@, context.is_dir, context.mft_no),
    {
        let key_lc = path_key_lc_from_u16(file_name);
        if context.is_dir || is_root_key(key_lc.as_str()) {
            return Err(FsError::InvalidRequest);
        }
        match context.mft_no {
            Some(n) => Ok(n),
            None => Err(FsError::InvalidRequest),
        }
    }

    /// Serves a read at `offset` through the handle `context`, given what
    /// the reader made of the file's record: its whole content in `data`, or
    /// nothing where the reader failed.
    ///
    /// The bytes of the content from `offset` on are copied to the front of
    /// `buffer`, as many as there are and as fit, though no more than the
    /// count returned can say, and their number is returned; the rest of
    /// `buffer` stays as it is. A read that begins at
    /// the start of the content and would copy nothing but zero bytes finds
    /// the file wiped: it copies nothing and reports that the file is not
    /// found.
    pub fn read_file(
        &self,
        file_name: &[u16],
        offset: i64,
        buffer: &mut [u8],
        context: &HandleCtx,
        data: Option<&[u8]>,
    ) -> (r: Result<u32, FsError>)
        ensures
            final(buffer)@.len() == old(buffer)@.len(),
            match r {
                Ok(n) => {
                    &&& read_record_of(file_name@, context.is_dir, context.mft_no) is Ok
                    &&& data is Some
                    &&& !reads_wiped(data->0@, offset, old(buffer)@.len())
                    &&& n == read_count(data->0@.len(), offset, old(buffer)@.len())
                    &&& forall|i: int|
                        0 <= i < n ==> final(buffer)@[i] == data->0@[read_start(offset) + i]
                    &&& forall|i: int|
                        n <= i < old(buffer)@.len() ==> final(buffer)@[i] == old(buffer)@[i]
                },
                Err(e) => {
                    &&& final(buffer)@ == old(buffer)@
                    &&& if read_record_of(file_name@, context.is_dir, context.mft_no) is Err
                        || data is None {
                        e == FsError::InvalidRequest
                    } else {
                        e == FsError::NotFound && reads_wiped(
                            data->0@,
                            offset,
                            old(buffer)@.len(),
                        )
                    }
                },
            },
    {
        match self.read_record(file_name, context) {
            Err(e) => {
                return Err(e);
            },
            Ok(_) => {},
        }
        let data: &[u8] = match data {
            Some(d) => d,
            None => {
                return Err(FsError::InvalidRequest);
            },
        };
        if offset > 0 && (offset as u64) >= (data.len() as u64) {
            return Ok(0);
        }
        let off: usize = if offset < 0 {
            0
        } else {
            offset as usize
        };
        if off >= data.len() {
            return Ok(0);
        }
        let fit: usize = if buffer.len() <= data.len() - off {
            buffer.len()
        } else {
            data.len() - off
        };
        let max: usize = if fit <= 0xffff_ffff {
            fit
        } else {
            0xffff_ffff
        };
        if off == 0 {
            let mut i: usize = 0;
            let mut all_zero: bool = true;
            while i < max
                invariant
                    i <= max <= data.len(),
                    all_zero == (forall|j: int| 0 <= j < i ==> data@[j] == 0),
                decreases max - i,
            {
                if data[i] != 0 {
                    all_zero = false;
                }
                i += 1;
            }
            if all_zero {
                return Err(FsError::NotFound);
            }
        }
        let mut i: usize = 0;
        while i < max
            invariant
                i <= max,
                max <= buffer.len(),
                off + max <= data.len(),
                buffer@.len() == old(buffer)@.len(),
                forall|j: int| 0 <= j < i ==> buffer@[j] == data@[off + j],
                forall|j: int| i <= j < buffer@.len() ==> buffer@[j] == old(buffer)@[j],
            decreases max - i,
        {
            buffer[i] = data[off + i];
            i += 1;
        }
        Ok(max as u32)
    }

    /// Refused: nothing can be changed.
    pub fn set_file_time(&self, _file_name: &[u16], _context: &HandleCtx) -> (r: Result<
        (),
        FsError,
    >)
        ensures
            r == Err::<(), FsError>(FsError::AccessDenied),
    {
        Err(FsError::AccessDenied)
    }

    /// Refused: nothing can be changed.
    pub fn delete_file(&self, _file_name: &[u16], _context: &HandleCtx) -> (r: Result<(), FsError>)
        ensures
            r == Err::<(), FsError>(FsError::AccessDenied),
    {
        Err(FsError::AccessDenied)
    }

    /// Refused: nothing can be changed.
    pub fn delete_directory(&self, _file_name: &[u16], _context: &HandleCtx) -> (r: Result<
        (),
        FsError,
    >)
        ensures
            r == Err::<(), FsError>(FsError::AccessDenied),
    {
        Err(FsError::AccessDenied)
    }

    /// Refused: nothing can be changed.
    pub fn move_file(
        &self,
        _file_name: &[u16],
        _new_file_name: &[u16],
        _replace_if_existing: bool,
        _context: &HandleCtx,
    ) -> (r: Result<(), FsError>)
        ensures
            r == Err::<(), FsError>(FsError::AccessDenied),
    {
        Err(FsError::AccessDenied)
    }

    /// Refused: nothing can be changed.
    pub fn set_end_of_file(&self, _file_name: &[u16], _offset: i64, _context: &HandleCtx) -> (r:
        Result<(), FsError>)
        ensures
            r == Err::<(), FsError>(FsError::AccessDenied),
    {
        Err(FsError::AccessDenied)
    }

    /// Refused: nothing can be changed.
    pub fn set_allocation_size(
        &self,
        _file_name: &[u16],
        _alloc_size: i64,
        _context: &HandleCtx,
    ) -> (r: Result<(), FsError>)
        ensures
            r == Err::<(), FsError>(FsError::AccessDenied),
    {
        Err(FsError::AccessDenied)
    }

    /// The sizes reported of the volume: one gibibyte each.
    pub fn get_disk_free_space(&self) -> (r: Result<DiskSpaceInfo, FsError>)
        ensures
            r == Ok::<DiskSpaceInfo, FsError>(
                DiskSpaceInfo {
                    byte_count: 1073741824,
                    free_byte_count: 1073741824,
                    available_byte_count: 1073741824,
                },
            ),
    {
        Ok(
            DiskSpaceInfo {
                byte_count: 1024 * 1024 * 1024,
                free_byte_count: 1024 * 1024 * 1024,
                available_byte_count: 1024 * 1024 * 1024,
            },
        )
    }

    /// What is reported of the volume: an NTFS volume named `RecMagic` that
    /// keeps the case of names, stores them in Unicode, keeps access
    /// control lists and has named streams.
    pub fn get_volume_information(&self) -> (r: Result<VolumeInfo, FsError>)
        ensures
            r is Ok,
            r->Ok_0.name@ == "RecMagic"@,
            r->Ok_0.fs_name@ == "NTFS"@,
            r->Ok_0.serial_number == 0,
            r->Ok_0.max_component_length == 255,
            r->Ok_0.case_preserved_names,
            r->Ok_0.unicode_on_disk,
            r->Ok_0.persistent_acls,
            r->Ok_0.named_streams,
    {
        Ok(
            VolumeInfo {
                name: string_of(&chars_of("RecMagic")),
                serial_number: 0,
                max_component_length: 255,
                case_preserved_names: true,
                unicode_on_disk: true,
                persistent_acls: true,
                named_streams: true,
                fs_name: string_of(&chars_of("NTFS")),
            },
        )
    }

    /// Nothing is to be done when the volume is mounted.
    pub fn mounted(&self, _mount_point: &[u16]) -> (r: Result<(), FsError>)
        ensures
            r is Ok,
    {
        Ok(())
    }

    /// Nothing is to be done when the volume is unmounted.
    pub fn unmounted(&self) -> (r: Result<(), FsError>)
        ensures
            r is Ok,
    {
        Ok(())
    }

    /// Not served: security descriptors are not kept.
    pub fn get_file_security(&self, _file_name: &[u16], _context: &HandleCtx) -> (r: Result<
        u32,
        FsError,
    >)
        ensures
            r == Err::<u32, FsError>(FsError::NotImplemented),
    {
        Err(FsError::NotImplemented)
    }

    /// Refused: nothing can be changed.
    pub fn set_file_security(&self, _file_name: &[u16], _context: &HandleCtx) -> (r: Result<
        (),
        FsError,
    >)
        ensures
            r == Err::<(), FsError>(FsError::AccessDenied),
    {
        Err(FsError::AccessDenied)
    }
}

/// A copy of the units `full`.
fn units_of(full: &[u16]) -> (r: Vec<u16>)
    ensures
        r@ == full@,
{
    let mut r: Vec<u16> = Vec::new();
    let mut i: usize = 0;
    while i < full.len()
        invariant
            i <= full.len(),
            r@ == full@.take(i as int),
        decreases full.len() - i,
    {
        r.push(full[i]);
        i += 1;
        assert(full@.take(i as int) == full@.take(i as int - 1).push(full@[i as int - 1]));
    }
    assert(full@.take(full.len() as int) == full@);
    r
}

/// Two ascending lists of the same names are the same list.
pub proof fn lemma_ascending_is_unique(a: Seq<Seq<u16>>, b: Seq<Seq<u16>>)
    requires
        ascending(a),
        ascending(b),
        forall|x: Seq<u16>| a.contains(x) <==> b.contains(x),
    ensures
        a == b,
    decreases a.len(),
{
    if a.len() == 0 {
        if b.len() > 0 {
            assert(b.contains(b[0]));
            assert(a.contains(b[0]));
        }
        assert(a =~= b);
    } else {
        assert(a.contains(a[0]));
        assert(b.contains(a[0]));
        let j = choose|j: int| 0 <= j < b.len() && b[j] == a[0];
        assert(b.contains(b[0]));
        assert(a.contains(b[0]));
        let i = choose|i: int| 0 <= i < a.len() && a[i] == b[0];
        lemma_units_total(a[0], b[0]);
        if j > 0 {
            assert(units_before(b[0], b[j]));
            if i > 0 {
                assert(units_before(a[0], a[i]));
            }
        }
        assert(a[0] == b[0]);
        let a1 = a.skip(1);
        let b1 = b.skip(1);
        assert(ascending(a1)) by {
            assert forall|p: int, q: int| 0 <= p < q < a1.len() implies units_before(
                a1[p],
                a1[q],
            ) by {
                assert(units_before(a[p + 1], a[q + 1]));
            }
        }
        assert(ascending(b1)) by {
            assert forall|p: int, q: int| 0 <= p < q < b1.len() implies units_before(
                b1[p],
                b1[q],
            ) by {
                assert(units_before(b[p + 1], b[q + 1]));
            }
        }
        assert forall|x: Seq<u16>| a1.contains(x) <==> b1.contains(x) by {
            lemma_units_total(a[0], a[0]);
            if a1.contains(x) {
                let p = choose|p: int| 0 <= p < a1.len() && a1[p] == x;
                assert(a[p + 1] == x);
                assert(units_before(a[0], a[p + 1]));
                assert(a.contains(x));
                assert(b.contains(x));
                let q = choose|q: int| 0 <= q < b.len() && b[q] == x;
                assert(q > 0);
                assert(b1[q - 1] == x);
            }
            if b1.contains(x) {
                let q = choose|q: int| 0 <= q < b1.len() && b1[q] == x;
                assert(b[q + 1] == x);
                assert(units_before(b[0], b[q + 1]));
                assert(b.contains(x));
                assert(a.contains(x));
                let p = choose|p: int| 0 <= p < a.len() && a[p] == x;
                assert(p > 0);
                assert(a1[p - 1] == x);
            }
        }
        lemma_ascending_is_unique(a1, b1);
        assert(a =~= seq![a[0]] + a1);
        assert(b =~= seq![b[0]] + b1);
    }
}

/// The names that a listing goes through are determined by the index and
/// the directory's key.
pub proof fn lemma_name_list_is_unique(
    m: IndexModel,
    key: Seq<char>,
    a: Seq<Seq<u16>>,
    b: Seq<Seq<u16>>,
)
    requires
        is_name_list(m, key, a),
        is_name_list(m, key, b),
    ensures
        a == b,
{
    let own = if m.children_names.contains_key(key) {
        m.children_names[key]
    } else {
        Seq::<Seq<u16>>::empty()
    };
    if own.len() == 0 && is_root(key) {
        lemma_ascending_is_unique(a, b);
    }
}

} // verus!
