//! The index of recovered entries: every known node under its key, and for
//! every directory the display names of its children in the order in which
//! they arrived, unique without regard to case.

use vstd::prelude::*;
use vstd::hash_map::StringHashMap;
use vstd::hash_set::StringHashSet;
use crate::text::{
    chars_of, decimal, decimal_digits, lossy_text_of, lowercase_of, push_all, string_of,
    to_lowercase, utf16_decode_lossy, utf16_encode, utf16_of,
};
use crate::util::{
    candidate_path_of, join, key_of, lemma_key_of_root, nonempty, nonempty_components,
    normalize_and_canonicalize_for_key, normalize_candidate_path, root_key, split, texts,
    unix_ts_to_system_time, EpochTime,
};

verus! {

/// What is known of a recovered file.
#[derive(Debug, Clone)]
pub struct EntryMeta {
    /// The number of the record in the master file table.
    pub mft_no: u64,
    pub is_dir: bool,
    /// The size in bytes.
    pub size: u64,
    pub created: Option<EpochTime>,
    pub modified: Option<EpochTime>,
    pub accessed: Option<EpochTime>,
    /// The display name, in UTF-16, in the case it came in.
    pub name_u16: Vec<u16>,
}

/// A node of the tree: a directory, which carries nothing, or a file.
#[derive(Debug, Clone)]
pub enum EntryOrDir {
    Dir,
    File(EntryMeta),
}

/// The mathematical value of an [`EntryMeta`].
pub struct MetaView {
    pub mft_no: u64,
    pub is_dir: bool,
    pub size: u64,
    pub created: Option<EpochTime>,
    pub modified: Option<EpochTime>,
    pub accessed: Option<EpochTime>,
    pub name: Seq<u16>,
}

/// The mathematical value of an [`EntryOrDir`].
pub enum NodeView {
    Dir,
    File(MetaView),
}

impl View for EntryMeta {
    type V = MetaView;

    open spec fn view(&self) -> MetaView {
        MetaView {
            mft_no: self.mft_no,
            is_dir: self.is_dir,
            size: self.size,
            created: self.created,
            modified: self.modified,
            accessed: self.accessed,
            name: self.name_u16@,
        }
    }
}

impl View for EntryOrDir {
    type V = NodeView;

    open spec fn view(&self) -> NodeView {
        match self {
            EntryOrDir::Dir => NodeView::Dir,
            EntryOrDir::File(m) => NodeView::File(m@),
        }
    }
}

/// The lowercase text under which the display name `name` is compared.
pub open spec fn low_name(name: Seq<u16>) -> Seq<char> {
    lowercase_of(lossy_text_of(name))
}

/// The code units held by a vector of names.
pub open spec fn names_of(v: Seq<Vec<u16>>) -> Seq<Seq<u16>> {
    Seq::new(v.len(), |i: int| v[i]@)
}

/// The three maps of the index, as mathematical values.
pub struct IndexModel {
    /// Every known node, by key.
    pub nodes: Map<Seq<char>, NodeView>,
    /// For each directory key the display names of its children, in order
    /// of arrival.
    pub children_names: Map<Seq<char>, Seq<Seq<u16>>>,
    /// For each directory key the lowercase forms of its children's names.
    pub children_ci: Map<Seq<char>, Set<Seq<char>>>,
}

/// Whether the list `names` and the set `lows` describe the same children:
/// the names have pairwise different lowercase forms, and `lows` holds
/// exactly these forms.
pub open spec fn names_match(names: Seq<Seq<u16>>, lows: Set<Seq<char>>) -> bool {
    &&& lows.finite()
    &&& lows.len() == names.len()
    &&& forall|i: int| 0 <= i < names.len() ==> lows.contains(#[trigger] low_name(names[i]))
    &&& forall|x: Seq<char>|
        lows.contains(x) ==> exists|i: int| 0 <= i < names.len() && #[trigger] low_name(names[i]) == x
    &&& forall|i: int, j: int|
        0 <= i < j < names.len() ==> #[trigger] low_name(names[i]) != #[trigger] low_name(names[j])
}

/// The directory components named by the path text `path`: the non-empty
/// pieces of its candidate path.
pub open spec fn dir_components(path: Seq<char>) -> Seq<Seq<char>> {
    nonempty(split(candidate_path_of(path)))
}

/// The path made of the components `comps`: the root for none of them.
pub open spec fn dir_path(comps: Seq<Seq<char>>) -> Seq<char> {
    if comps.len() == 0 {
        root_key()
    } else {
        join(comps)
    }
}

/// The position of the last `c` in `s`, or -1 where there is none.
pub open spec fn last_index_of<T>(s: Seq<T>, c: T) -> int
    decreases s.len(),
{
    if s.len() == 0 {
        -1
    } else if s.last() == c {
        s.len() - 1
    } else {
        last_index_of(s.drop_last(), c)
    }
}

/// The part of a path before its last separator: the root where that
/// separator stands first, or where there is none.
pub open spec fn parent_text(full: Seq<char>) -> Seq<char> {
    let at = last_index_of(full, '\\');
    if at <= 0 {
        root_key()
    } else {
        full.take(at)
    }
}

/// The part of a name in UTF-16 behind its last backslash unit: the whole
/// where there is none.
pub open spec fn base_name(full: Seq<u16>) -> Seq<u16> {
    full.skip(last_index_of(full, 0x5cu16) + 1)
}

/// The display text `text` made the `n`th of its name: `_n` goes before the
/// last dot, unless that dot stands first or there is none; then it goes
/// at the end.
pub open spec fn renamed(text: Seq<char>, n: nat) -> Seq<char> {
    let at = last_index_of(text, '.');
    if at > 0 {
        text.take(at) + seq!['_'] + decimal(n) + text.skip(at)
    } else {
        text + seq!['_'] + decimal(n)
    }
}

/// The display name `desired` made the `n`th of its name.
pub open spec fn numbered_name(desired: Seq<u16>, n: nat) -> Seq<u16> {
    utf16_of(renamed(lossy_text_of(desired), n))
}

/// Whether no name in `taken` equals `name` without regard to case.
pub open spec fn is_free(taken: Set<Seq<char>>, name: Seq<u16>) -> bool {
    !taken.contains(low_name(name))
}

/// The least number from `from` to `limit` under which `desired` is free.
pub open spec fn first_free_number(
    taken: Set<Seq<char>>,
    desired: Seq<u16>,
    from: nat,
    limit: nat,
) -> Option<nat>
    decreases limit + 1 - from,
{
    if from > limit {
        None
    } else if is_free(taken, numbered_name(desired, from)) {
        Some(from)
    } else {
        first_free_number(taken, desired, from + 1, limit)
    }
}

/// The largest number that is tried for a name.
pub open spec fn last_number() -> nat {
    0xffff_ffff
}

/// The name under which `desired` enters a directory whose children's
/// lowercase names are `taken`: `desired` itself where it is free, else its
/// numbered form with the least number from 2 on that is free. There is
/// none where every number up to [`last_number`] is taken.
pub open spec fn unique_name(taken: Set<Seq<char>>, desired: Seq<u16>) -> Option<Seq<u16>> {
    if is_free(taken, desired) {
        Some(desired)
    } else {
        match first_free_number(taken, desired, 2, last_number()) {
            Some(n) => Some(numbered_name(desired, n)),
            None => None,
        }
    }
}

impl IndexModel {
    /// The index that holds nothing, not even the root.
    pub open spec fn empty() -> IndexModel {
        IndexModel { nodes: Map::empty(), children_names: Map::empty(), children_ci: Map::empty() }
    }

    /// The index in which the two child collections of `key` surely exist:
    /// those that are there stay as they are, a missing one is added, empty.
    pub open spec fn touch_lists(self, key: Seq<char>) -> IndexModel {
        IndexModel {
            nodes: self.nodes,
            children_names: if self.children_names.contains_key(key) {
                self.children_names
            } else {
                self.children_names.insert(key, Seq::empty())
            },
            children_ci: if self.children_ci.contains_key(key) {
                self.children_ci
            } else {
                self.children_ci.insert(key, Set::empty())
            },
        }
    }

    /// The index in which `key` surely is a known node with its two child
    /// collections: a node that is there stays what it is, a missing one is
    /// added as a directory.
    pub open spec fn touch_dir(self, key: Seq<char>) -> IndexModel {
        IndexModel {
            nodes: if self.nodes.contains_key(key) {
                self.nodes
            } else {
                self.nodes.insert(key, NodeView::Dir)
            },
            children_names: self.touch_lists(key).children_names,
            children_ci: self.touch_lists(key).children_ci,
        }
    }

    /// The index in which `key` leads to `node`, whatever it led to before.
    pub open spec fn store(self, key: Seq<char>, node: NodeView) -> IndexModel {
        IndexModel {
            nodes: self.nodes.insert(key, node),
            children_names: self.children_names,
            children_ci: self.children_ci,
        }
    }

    /// The index in which the directory `parent` lists the child `name`
    /// at the end.
    pub open spec fn add_child(self, parent: Seq<char>, name: Seq<u16>) -> IndexModel {
        IndexModel {
            nodes: self.nodes,
            children_names: self.children_names.insert(
                parent,
                self.children_names[parent].push(name),
            ),
            children_ci: self.children_ci.insert(
                parent,
                self.children_ci[parent].insert(low_name(name)),
            ),
        }
    }

    /// The index in which the directory `parent` lists the child `name`,
    /// unless it lists a child of that name already, case ignored.
    pub open spec fn register_child(self, parent: Seq<char>, name: Seq<u16>) -> IndexModel {
        if self.children_ci[parent].contains(low_name(name)) {
            self
        } else {
            self.add_child(parent, name)
        }
    }

    /// Whether a directory is stored under `key`.
    pub open spec fn is_dir(self, key: Seq<char>) -> bool {
        self.nodes.contains_key(key) && self.nodes[key] is Dir
    }

    /// Whether a directory can stand under `key`: one stands there, or
    /// nothing is stored there and `key` is the root or lies directly below
    /// a known directory. A file that is stored under `key` stays, and no
    /// directory takes its place.
    pub open spec fn admits_dir(self, key: Seq<char>) -> bool {
        if self.nodes.contains_key(key) {
            self.nodes[key] is Dir
        } else {
            key == root_key() || self.is_dir(parent_text(key))
        }
    }

    /// Whether a file can be stored under `key`: nothing is stored there,
    /// `key` is not the root, and it lies directly below a known directory.
    pub open spec fn admits_file(self, key: Seq<char>) -> bool {
        !self.nodes.contains_key(key) && key != root_key() && self.is_dir(parent_text(key))
    }

    /// The walk from the root down along `comps`: the index it leaves, and
    /// whether it reached the end.
    ///
    /// The walk begins by touching the root. At each component it looks at
    /// the key of the path so far: where a directory can stand under that
    /// key, the component is registered as a child of the directory before
    /// it and the key is touched; where none can, the walk ends there and
    /// changes nothing more.
    pub open spec fn walk(self, comps: Seq<Seq<char>>) -> (IndexModel, bool)
        decreases comps.len(),
    {
        if comps.len() == 0 {
            if self.admits_dir(root_key()) {
                (self.touch_dir(root_key()), true)
            } else {
                (self, false)
            }
        } else {
            let init = comps.drop_last();
            let before = self.walk(init);
            let key = key_of(dir_path(comps));
            if before.1 && before.0.admits_dir(key) {
                (
                    before.0.register_child(key_of(dir_path(init)), utf16_of(comps.last())).touch_dir(
                        key,
                    ),
                    true,
                )
            } else {
                (before.0, false)
            }
        }
    }

    /// The index in which the root and the directories along `comps` exist,
    /// as far as the walk along `comps` gets.
    pub open spec fn ensure_dirs(self, comps: Seq<Seq<char>>) -> IndexModel {
        self.walk(comps).0
    }

    /// Whether the walk along `comps` reaches the end, so that every
    /// directory along `comps` exists after it.
    pub open spec fn reaches(self, comps: Seq<Seq<char>>) -> bool {
        self.walk(comps).1
    }

    /// The index after the directory at the UTF-16 path `full` is entered.
    pub open spec fn insert_dir(self, full: Seq<u16>) -> IndexModel {
        self.ensure_dirs(dir_components(candidate_path_of(lossy_text_of(full))))
    }

    /// Whether entering the directory at the UTF-16 path `full` brings it
    /// into the index: no file stands in the way of its path.
    pub open spec fn takes_dir(self, full: Seq<u16>) -> bool {
        self.reaches(dir_components(candidate_path_of(lossy_text_of(full))))
    }

    /// The candidate path of the directory that takes the file at the UTF-16
    /// path `full`.
    pub open spec fn file_parent(full: Seq<u16>) -> Seq<char> {
        candidate_path_of(parent_text(candidate_path_of(lossy_text_of(full))))
    }

    /// The name under which the file at the UTF-16 path `full` would like to
    /// be listed.
    pub open spec fn file_base(full: Seq<u16>) -> Seq<u16> {
        base_name(utf16_of(candidate_path_of(lossy_text_of(full))))
    }

    /// The index with the directories of the file at `full` in place, as far
    /// as the walk gets, and, where it reaches the end, with child
    /// collections for the directory that takes the file.
    pub open spec fn with_file_dirs(self, full: Seq<u16>) -> IndexModel {
        let walked = self.ensure_dirs(dir_components(Self::file_parent(full)));
        if self.reaches(dir_components(Self::file_parent(full))) {
            walked.touch_lists(key_of(Self::file_parent(full)))
        } else {
            walked
        }
    }

    /// The key of the file at `full` once it is listed as `name`.
    pub open spec fn file_key(full: Seq<u16>, name: Seq<u16>) -> Seq<char> {
        let parent = Self::file_parent(full);
        if parent == root_key() {
            key_of(seq!['\\'] + lossy_text_of(name))
        } else {
            key_of(parent + seq!['\\'] + lossy_text_of(name))
        }
    }

    /// The name under which the file at `full` is entered, if it is entered.
    /// It is, where the walk along its directories reaches the end, a name
    /// is free for it in the last of them, and a file can be stored under
    /// the key it gets with that name.
    pub open spec fn file_name(self, full: Seq<u16>) -> Option<Seq<u16>> {
        let dirs = self.with_file_dirs(full);
        if !self.reaches(dir_components(Self::file_parent(full))) {
            None
        } else {
            match unique_name(
                dirs.children_ci[key_of(Self::file_parent(full))],
                Self::file_base(full),
            ) {
                None => None,
                Some(name) => if dirs.admits_file(Self::file_key(full, name)) {
                    Some(name)
                } else {
                    None
                },
            }
        }
    }

    /// The index after the file at the UTF-16 path `full` is entered with
    /// the metadata `meta`: its directories are ensured, it is listed in the
    /// last of them under a unique name, and stored under its key with that
    /// name. Where the file is not entered, only the directories are
    /// ensured, as far as the walk gets.
    pub open spec fn insert_file(self, full: Seq<u16>, meta: MetaView) -> IndexModel {
        let dirs = self.with_file_dirs(full);
        match self.file_name(full) {
            None => dirs,
            Some(name) => dirs.add_child(key_of(Self::file_parent(full)), name).store(
                Self::file_key(full, name),
                NodeView::File(MetaView { name: name, ..meta }),
            ),
        }
    }

    /// Whether the directory above every node but the root is a known
    /// directory.
    pub open spec fn parents_are_dirs(self) -> bool {
        forall|k: Seq<char>|
            #![trigger self.nodes.contains_key(k)]
            self.nodes.contains_key(k) && k != root_key() ==> self.is_dir(parent_text(k))
    }

    /// Whether the root, where it is known, is a directory.
    pub open spec fn root_is_dir(self) -> bool {
        self.nodes.contains_key(root_key()) ==> self.nodes[root_key()] is Dir
    }

    /// Whether the index is coherent: the root is a directory, every other
    /// node lies directly below a known directory, and the two child
    /// collections agree.
    pub open spec fn coherent(self) -> bool {
        &&& self.root_is_dir()
        &&& self.parents_are_dirs()
        &&& self.children_agree()
    }

    /// Whether the two child collections go together: they are kept for the
    /// same directories, and for each of them the names and the lowercase
    /// set describe the same children.
    pub open spec fn children_agree(self) -> bool {
        &&& self.children_names.dom() == self.children_ci.dom()
        &&& forall|k: Seq<char>| #[trigger]
            self.children_names.contains_key(k) ==> names_match(
                self.children_names[k],
                self.children_ci[k],
            )
    }
}

/// Whether the key `k` stands in the list `keys`.
pub open spec fn is_listed(keys: Seq<String>, k: Seq<char>) -> bool {
    exists|i: int| 0 <= i < keys.len() && #[trigger] keys[i]@ == k
}

/// The children of one directory: their display names in order of arrival,
/// and the lowercase forms of these names for the uniqueness test.
pub struct ChildList {
    names: Vec<Vec<u16>>,
    lows: StringHashSet,
}

/// The index of recovered entries.
///
/// Its value is an [`IndexModel`]. The nodes are kept in a hash map; their
/// keys are also kept in the order in which they were first stored. The
/// child collections of the directories stand in a vector, and a second
/// hash map leads from a directory's key to its place there.
pub struct DeletedIndex {
    nodes: StringHashMap<EntryOrDir>,
    node_keys: Vec<String>,
    places: StringHashMap<usize>,
    lists: Vec<ChildList>,
}

impl View for DeletedIndex {
    type V = IndexModel;

    closed spec fn view(&self) -> IndexModel {
        IndexModel {
            nodes: Map::new(
                |k: Seq<char>| self.nodes@.contains_key(k),
                |k: Seq<char>| self.nodes@[k]@,
            ),
            children_names: Map::new(
                |k: Seq<char>| self.places@.contains_key(k),
                |k: Seq<char>| names_of(self.lists@[self.places@[k] as int].names@),
            ),
            children_ci: Map::new(
                |k: Seq<char>| self.places@.contains_key(k),
                |k: Seq<char>| self.lists@[self.places@[k] as int].lows@,
            ),
        }
    }
}

impl Default for DeletedIndex {
    /// The index that holds nothing, not even the root.
    fn default() -> (idx: DeletedIndex)
        ensures
            idx.wf(),
            idx@ == IndexModel::empty(),
    {
        DeletedIndex::new()
    }
}

impl DeletedIndex {
    /// The invariant of the representation: every directory's place lies in
    /// the vector of child collections, no two directories share a place,
    /// and the key list holds exactly the keys of the nodes.
    pub closed spec fn repr(&self) -> bool {
        &&& forall|k: Seq<char>| #[trigger]
            self.places@.contains_key(k) ==> self.places@[k] < self.lists@.len()
        &&& forall|k1: Seq<char>, k2: Seq<char>|
            #![trigger self.places@[k1], self.places@[k2]]
            self.places@.contains_key(k1) && self.places@.contains_key(k2) && self.places@[k1]
                == self.places@[k2] ==> k1 == k2
        &&& forall|i: int|
            0 <= i < self.node_keys@.len() ==> self.nodes@.contains_key(
                #[trigger] self.node_keys@[i]@,
            )
        &&& forall|k: Seq<char>| #[trigger]
            self.nodes@.contains_key(k) ==> is_listed(self.node_keys@, k)
    }

    /// The invariant of the index: its representation is in order and its
    /// value is coherent.
    pub open spec fn wf(&self) -> bool {
        self.repr() && self@.coherent()
    }

    /// The index that holds nothing, not even the root.
    pub fn new() -> (idx: DeletedIndex)
        ensures
            idx.wf(),
            idx@ == IndexModel::empty(),
    {
        let idx = DeletedIndex {
            nodes: StringHashMap::new(),
            node_keys: Vec::new(),
            places: StringHashMap::new(),
            lists: Vec::new(),
        };
        assert(idx@.nodes =~= Map::empty());
        assert(idx@.children_names =~= Map::empty());
        assert(idx@.children_ci =~= Map::empty());
        assert(idx@.children_names.dom() =~= idx@.children_ci.dom());
        idx
    }

    /// The node stored under the key `key_lc`, if there is one.
    pub fn get(&self, key_lc: &str) -> (r: Option<&EntryOrDir>)
        ensures
            match r {
                Some(e) => self@.nodes.contains_key(key_lc@) && e@ == self@.nodes[key_lc@],
                None => !self@.nodes.contains_key(key_lc@),
            },
    {
        self.nodes.get(key_lc)
    }

    /// Stores `node` under `key`, in place of what was stored there.
    fn store(&mut self, key: &str, node: EntryOrDir)
        requires
            old(self).wf(),
            !old(self)@.nodes.contains_key(key@),
            (node@ is Dir && old(self)@.admits_dir(key@)) || (node@ is File && old(self)@.admits_file(
                key@,
            )),
        ensures
            final(self).wf(),
            final(self)@ == old(self)@.store(key@, node@),
    {
        if !self.nodes.contains_key(key) {
            let k = string_of(&chars_of(key));
            self.node_keys.push(k);
        }
        let k = string_of(&chars_of(key));
        self.nodes.insert(k, node);
        proof {
            lemma_store_keeps_coherent(old(self)@, key@, node@);
            let added = !old(self).nodes@.contains_key(key@);
            assert(self@.nodes =~= old(self)@.store(key@, node@).nodes);
            assert(self@.children_names =~= old(self)@.children_names);
            assert(self@.children_ci =~= old(self)@.children_ci);
            assert forall|i: int| 0 <= i < self.node_keys@.len() implies self.nodes@.contains_key(
                #[trigger] self.node_keys@[i]@,
            ) by {
                if i < old(self).node_keys@.len() {
                    assert(self.node_keys@[i] == old(self).node_keys@[i]);
                    assert(old(self).nodes@.contains_key(old(self).node_keys@[i]@));
                }
            }
            assert forall|k: Seq<char>| #[trigger] self.nodes@.contains_key(k) implies is_listed(
                self.node_keys@,
                k,
            ) by {
                if added && k == key@ {
                    assert(self.node_keys@[self.node_keys@.len() - 1]@ == k);
                } else {
                    assert(old(self).nodes@.contains_key(k));
                    let i = choose|i: int|
                        0 <= i < old(self).node_keys@.len() && #[trigger] old(self).node_keys@[i]@
                            == k;
                    assert(self.node_keys@[i] == old(self).node_keys@[i]);
                    assert(self.node_keys@[i]@ == k);
                }
            }
        }
    }

    /// Makes sure that `key` has its two child collections.
    fn touch_lists(&mut self, key: &str)
        requires
            old(self).wf(),
        ensures
            final(self).wf(),
            final(self)@ == old(self)@.touch_lists(key@),
    {
        if !self.places.contains_key(key) {
            let k = string_of(&chars_of(key));
            let at = self.lists.len();
            self.places.insert(k, at);
            self.lists.push(ChildList { names: Vec::new(), lows: StringHashSet::new() });
            assert(names_of(self.lists@[at as int].names@) =~= Seq::<Seq<u16>>::empty());
            assert forall|k: Seq<char>| #[trigger] self.places@.contains_key(k) implies names_of(
                self.lists@[self.places@[k] as int].names@,
            ) == old(self)@.touch_lists(key@).children_names[k] by {
                if k != key@ {
                    assert(old(self).places@.contains_key(k));
                }
            }
        }
        proof {
            assert(self@.nodes =~= old(self)@.nodes);
            assert(self@.children_names =~= old(self)@.touch_lists(key@).children_names);
            assert(self@.children_ci =~= old(self)@.touch_lists(key@).children_ci);
            lemma_touch_keeps_agreement(old(self)@, key@);
        }
    }

    /// Makes sure that `key` is a known node with its two child collections.
    fn touch(&mut self, key: &str)
        requires
            old(self).wf(),
            old(self)@.admits_dir(key@),
        ensures
            final(self).wf(),
            final(self)@ == old(self)@.touch_dir(key@),
    {
        if !self.nodes.contains_key(key) {
            self.store(key, EntryOrDir::Dir);
        }
        self.touch_lists(key);
    }

    /// The lowercase text under which `name` is compared.
    fn low_text(name: &Vec<u16>) -> (low: String)
        ensures
            low@ == low_name(name@),
    {
        let text = utf16_decode_lossy(name.as_slice());
        to_lowercase(text.as_str())
    }

    /// The place of the child collections of `parent`.
    fn place_of(&self, parent: &str) -> (at: usize)
        requires
            self.wf(),
            self@.children_names.contains_key(parent@),
        ensures
            self.places@.contains_key(parent@),
            at == self.places@[parent@],
            at < self.lists@.len(),
    {
        match self.places.get(parent) {
            Some(at) => *at,
            None => 0,
        }
    }

    /// Lists the child `name`, whose lowercase form is `low`, at the end of
    /// the children of `parent`.
    fn add(&mut self, parent: &str, name: Vec<u16>, low: String)
        requires
            old(self).wf(),
            old(self)@.children_names.contains_key(parent@),
            low@ == low_name(name@),
            is_free(old(self)@.children_ci[parent@], name@),
        ensures
            final(self).wf(),
            final(self)@ == old(self)@.add_child(parent@, name@),
    {
        let at = self.place_of(parent);
        let ghost before = self.lists@[at as int];
        self.lists[at].lows.insert(low);
        self.lists[at].names.push(name);
        proof {
            let after = self.lists@[at as int];
            assert(after.lows@ == before.lows@.insert(low_name(name@)));
            assert(names_of(after.names@) =~= names_of(before.names@).push(name@));
            assert forall|k: Seq<char>| #[trigger]
                self.places@.contains_key(k) && k != parent@ implies self.lists@[self.places@[k] as int]
                == old(self).lists@[self.places@[k] as int] by {
                assert(self.places@[k] != self.places@[parent@]);
            }
            assert(self@.nodes =~= old(self)@.add_child(parent@, name@).nodes);
            assert(self@.children_names =~= old(self)@.add_child(parent@, name@).children_names);
            assert(self@.children_ci =~= old(self)@.add_child(parent@, name@).children_ci);
            lemma_add_keeps_agreement(old(self)@, parent@, name@);
        }
    }

    /// Lists the child `name` under `parent`, unless a child of that name,
    /// case ignored, is listed there already.
    fn register(&mut self, parent: &str, name: Vec<u16>)
        requires
            old(self).wf(),
            old(self)@.children_names.contains_key(parent@),
        ensures
            final(self).wf(),
            final(self)@ == old(self)@.register_child(parent@, name@),
    {
        let low = Self::low_text(&name);
        let at = self.place_of(parent);
        if !self.lists[at].lows.contains(low.as_str()) {
            self.add(parent, name, low);
        }
    }
    /// Whether a directory is stored under `key`.
    fn holds_dir(&self, key: &str) -> (r: bool)
        ensures
            r == self@.is_dir(key@),
    {
        match self.nodes.get(key) {
            Some(EntryOrDir::Dir) => true,
            _ => false,
        }
    }

    /// Whether a directory is stored directly above `key`.
    fn holds_dir_above(&self, key: &str) -> (r: bool)
        ensures
            r == self@.is_dir(parent_text(key@)),
    {
        let above = string_of(&parent_chars(&chars_of(key)));
        self.holds_dir(above.as_str())
    }

    /// Whether a directory can stand under `key`.
    fn can_take_dir(&self, key: &str) -> (r: bool)
        ensures
            r == self@.admits_dir(key@),
    {
        match self.nodes.get(key) {
            Some(EntryOrDir::Dir) => true,
            Some(EntryOrDir::File(_)) => false,
            None => is_root_text(key) || self.holds_dir_above(key),
        }
    }

    /// Whether a file can be stored under `key`.
    fn can_take_file(&self, key: &str) -> (r: bool)
        ensures
            r == self@.admits_file(key@),
    {
        !self.nodes.contains_key(key) && !is_root_text(key) && self.holds_dir_above(key)
    }

    /// Makes sure that the root and every directory along the path
    /// `dir_path_str` exist, from the root down, each listed in the
    /// directory above it. Where a file is stored under the key that a
    /// directory of the path needs, the file stays and the walk ends there.
    /// Returns whether the walk reached the end of the path.
    pub fn ensure_dirs_from_root(&mut self, dir_path_str: &str) -> (reached: bool)
        requires
            old(self).wf(),
        ensures
            final(self).wf(),
            final(self)@ == old(self)@.ensure_dirs(dir_components(dir_path_str@)),
            reached == old(self)@.reaches(dir_components(dir_path_str@)),
            reached ==> final(self)@.is_dir(key_of(dir_path(dir_components(dir_path_str@)))),
            reached ==> final(self)@.children_names.contains_key(
                key_of(dir_path(dir_components(dir_path_str@))),
            ),
    {
        let norm = normalize_candidate_path(dir_path_str);
        let comps = nonempty_components(&chars_of(norm.as_str()));
        let ghost all = texts(comps@);
        let mut parent_key = normalize_and_canonicalize_for_key("\\");
        proof {
            reveal_strlit("\\");
            assert("\\"@ =~= root_key());
            lemma_key_of_root();
            assert(all.take(0) =~= Seq::<Seq<char>>::empty());
        }
        let mut ok = self.can_take_dir(parent_key.as_str());
        if ok {
            self.touch(parent_key.as_str());
        }
        let mut acc: Vec<char> = Vec::new();
        let mut i: usize = 0;
        while i < comps.len()
            invariant
                i <= comps.len(),
                all == texts(comps@),
                self.wf(),
                (self@, ok) == old(self)@.walk(all.take(i as int)),
                acc@ == join(all.take(i as int)),
                ok ==> parent_key@ == key_of(dir_path(all.take(i as int))),
                ok ==> self@.children_names.contains_key(parent_key@),
                ok ==> self@.is_dir(parent_key@),
            decreases comps.len() - i,
        {
            let ghost done = all.take(i as int);
            let ghost next = all.take(i + 1);
            proof {
                assert(next.drop_last() =~= done);
                assert(next.last() == comps@[i as int]@);
            }
            acc.push('\\');
            push_all(&mut acc, &comps[i]);
            proof {
                assert(acc@ =~= join(done) + seq!['\\'] + comps@[i as int]@);
                assert(acc@ == dir_path(next));
            }
            if ok {
                let dir_key = normalize_and_canonicalize_for_key(string_of(&acc).as_str());
                if self.can_take_dir(dir_key.as_str()) {
                    let name = utf16_encode(string_of(&comps[i]).as_str());
                    self.register(parent_key.as_str(), name);
                    self.touch(dir_key.as_str());
                    parent_key = dir_key;
                } else {
                    ok = false;
                }
            }
            i += 1;
        }
        proof {
            assert(all.take(comps.len() as int) =~= all);
        }
        ok
    }

    /// The name under which `desired` can be listed in the directory
    /// `parent_key`: as it is where no child has that name, case ignored,
    /// else with the least number from 2 on that makes it new; none where
    /// no number is left.
    fn choose_name(&self, parent_key: &str, desired: &Vec<u16>) -> (r: Option<Vec<u16>>)
        requires
            self.wf(),
            self@.children_names.contains_key(parent_key@),
        ensures
            match r {
                Some(name) => unique_name(self@.children_ci[parent_key@], desired@) == Some(name@)
                    && is_free(self@.children_ci[parent_key@], name@),
                None => unique_name(self@.children_ci[parent_key@], desired@) is None,
            },
    {
        let ghost taken = self@.children_ci[parent_key@];
        let at = self.place_of(parent_key);
        let low = Self::low_text(desired);
        if !self.lists[at].lows.contains(low.as_str()) {
            return Some(copy_units(desired));
        }
        let text = chars_of(utf16_decode_lossy(desired.as_slice()).as_str());
        let mut n: u32 = 2;
        loop
            invariant
                2 <= n,
                self.wf(),
                taken == self@.children_ci[parent_key@],
                self@.children_names.contains_key(parent_key@),
                at == self.places@[parent_key@],
                at < self.lists@.len(),
                text@ == lossy_text_of(desired@),
                !is_free(taken, desired@),
                first_free_number(taken, desired@, 2, last_number()) == first_free_number(
                    taken,
                    desired@,
                    n as nat,
                    last_number(),
                ),
            decreases u32::MAX - n,
        {
            let shown = renamed_text(&text, n);
            let candidate = utf16_encode(string_of(&shown).as_str());
            let low = Self::low_text(&candidate);
            proof {
                assert(candidate@ == numbered_name(desired@, n as nat));
                assert(n as nat <= last_number());
            }
            if !self.lists[at].lows.contains(low.as_str()) {
                assert(first_free_number(taken, desired@, n as nat, last_number()) == Some(
                    n as nat,
                ));
                return Some(candidate);
            }
            assert(first_free_number(taken, desired@, n as nat, last_number())
                == first_free_number(taken, desired@, (n + 1) as nat, last_number()));
            if n == u32::MAX {
                assert(first_free_number(taken, desired@, (n + 1) as nat, last_number()) is None);
                return None;
            }
            n += 1;
        }
    }

    /// Enters the file at the UTF-16 path `full_path_u16` with the metadata
    /// `meta`: ensures its directories, lists it in the last of them under a
    /// name of its own and stores it under its key, with that name as its
    /// display name. Returns whether the file was entered. It is not where
    /// a file stands in the way of one of its directories, where every
    /// numbered form of its name is taken, or where its key is the root's,
    /// is taken, or does not lie directly below a directory; what is stored
    /// already is never replaced.
    pub fn insert_file(&mut self, full_path_u16: &[u16], meta: EntryMeta) -> (entered: bool)
        requires
            old(self).wf(),
        ensures
            final(self).wf(),
            final(self)@ == old(self)@.insert_file(full_path_u16@, meta@),
            entered == old(self)@.file_name(full_path_u16@) is Some,
    {
        let ghost m0 = self@;
        let ghost full = full_path_u16@;
        let ghost comps = dir_components(IndexModel::file_parent(full));
        let full_str = normalize_candidate_path(utf16_decode_lossy(full_path_u16).as_str());
        let parent_raw = parent_chars(&chars_of(full_str.as_str()));
        let parent_str = normalize_candidate_path(string_of(&parent_raw).as_str());
        assert(parent_str@ == IndexModel::file_parent(full));
        let reached = self.ensure_dirs_from_root(parent_str.as_str());
        assert(self@ == m0.ensure_dirs(comps) && reached == m0.reaches(comps));
        if !reached {
            assert(self@ == m0.with_file_dirs(full));
            assert(m0.file_name(full) is None);
            return false;
        }
        let parent_key = normalize_and_canonicalize_for_key(parent_str.as_str());
        self.touch_lists(parent_key.as_str());
        let ghost dirs = self@;
        assert(dirs == m0.with_file_dirs(full));
        let base = base_units(&utf16_encode(full_str.as_str()));
        assert(base@ == IndexModel::file_base(full));
        match self.choose_name(parent_key.as_str(), &base) {
            None => {
                assert(m0.file_name(full) is None);
                false
            },
            Some(unique) => {
                let mut shown: Vec<char> = Vec::new();
                let parent_chars = chars_of(parent_str.as_str());
                let at_root = parent_chars.len() == 1 && parent_chars[0] == '\\';
                proof {
                    if at_root {
                        assert(parent_chars@ =~= root_key());
                    }
                }
                if !at_root {
                    push_all(&mut shown, &parent_chars);
                }
                shown.push('\\');
                push_all(
                    &mut shown,
                    &chars_of(utf16_decode_lossy(unique.as_slice()).as_str()),
                );
                proof {
                    if at_root {
                        assert(shown@ =~= seq!['\\'] + lossy_text_of(unique@));
                    } else {
                        assert(shown@ =~= parent_str@ + seq!['\\'] + lossy_text_of(unique@));
                    }
                }
                let key = normalize_and_canonicalize_for_key(string_of(&shown).as_str());
                assert(key@ == IndexModel::file_key(full, unique@));
                if !self.can_take_file(key.as_str()) {
                    assert(m0.file_name(full) is None);
                    return false;
                }
                assert(m0.file_name(full) == Some(unique@));
                let low = Self::low_text(&unique);
                self.add(parent_key.as_str(), copy_units(&unique), low);
                let named = EntryMeta {
                    mft_no: meta.mft_no,
                    is_dir: meta.is_dir,
                    size: meta.size,
                    created: meta.created,
                    modified: meta.modified,
                    accessed: meta.accessed,
                    name_u16: unique,
                };
                self.store(key.as_str(), EntryOrDir::File(named));
                true
            },
        }
    }

    /// Enters the directory at the UTF-16 path `full_dir_u16`, with every
    /// directory above it. Returns whether the directory was entered; it is
    /// not where a file stands in the way of its path.
    pub fn insert_dir(&mut self, full_dir_u16: &[u16]) -> (entered: bool)
        requires
            old(self).wf(),
        ensures
            final(self).wf(),
            final(self)@ == old(self)@.insert_dir(full_dir_u16@),
            entered == old(self)@.takes_dir(full_dir_u16@),
    {
        let dir_str = normalize_candidate_path(utf16_decode_lossy(full_dir_u16).as_str());
        self.ensure_dirs_from_root(dir_str.as_str())
    }

    /// The display names of the children of the directory stored under
    /// `dir_key_lc`, in order of arrival: none where no such directory is
    /// known.
    pub fn list_children(&self, dir_key_lc: &str) -> (names: Vec<Vec<u16>>)
        requires
            self.wf(),
        ensures
            names_of(names@) == if self@.children_names.contains_key(dir_key_lc@) {
                self@.children_names[dir_key_lc@]
            } else {
                Seq::<Seq<u16>>::empty()
            },
    {
        let mut out: Vec<Vec<u16>> = Vec::new();
        match self.places.get(dir_key_lc) {
            None => {
                assert(names_of(out@) =~= Seq::<Seq<u16>>::empty());
            },
            Some(place) => {
                let at = *place;
                let mut i: usize = 0;
                assert(names_of(out@) =~= names_of(self.lists@[at as int].names@).take(0));
                while i < self.lists[at].names.len()
                    invariant
                        at < self.lists@.len(),
                        i <= self.lists@[at as int].names@.len(),
                        names_of(out@) == names_of(self.lists@[at as int].names@).take(i as int),
                    decreases self.lists@[at as int].names@.len() - i,
                {
                    let ghost before = names_of(out@);
                    out.push(copy_units(&self.lists[at].names[i]));
                    i += 1;
                    assert(names_of(out@) =~= before.push(self.lists@[at as int].names@[i - 1]@));
                    assert(names_of(out@) =~= names_of(self.lists@[at as int].names@).take(
                        i as int,
                    ));
                }
                assert(names_of(self.lists@[at as int].names@).take(i as int) =~= names_of(
                    self.lists@[at as int].names@,
                ));
            },
        }
        out
    }
    /// The keys of all nodes.
    pub fn node_keys(&self) -> (keys: &Vec<String>)
        requires
            self.wf(),
        ensures
            forall|i: int| 0 <= i < keys@.len() ==> self@.nodes.contains_key(#[trigger] keys@[i]@),
            forall|k: Seq<char>| #[trigger] self@.nodes.contains_key(k) ==> is_listed(keys@, k),
    {
        &self.node_keys
    }
}

/// Storing a node where nothing is stored, a directory where one can
/// stand or a file where one can be stored, keeps the index coherent.
pub proof fn lemma_store_keeps_coherent(m: IndexModel, key: Seq<char>, node: NodeView)
    requires
        m.coherent(),
        !m.nodes.contains_key(key),
        (node is Dir && m.admits_dir(key)) || (node is File && m.admits_file(key)),
    ensures
        m.store(key, node).coherent(),
{
    let t = m.store(key, node);
    assert forall|k: Seq<char>|
        #![trigger t.nodes.contains_key(k)]
        t.nodes.contains_key(k) && k != root_key() implies t.is_dir(parent_text(k)) by {
        if k == key {
            assert(m.is_dir(parent_text(k)));
        } else {
            assert(m.nodes.contains_key(k));
            assert(m.is_dir(parent_text(k)));
        }
    }
}

/// Touching a key under which a directory can stand keeps the index
/// coherent, and leaves a directory with its child collections there.
pub proof fn lemma_touch_dir_keeps_coherent(m: IndexModel, key: Seq<char>)
    requires
        m.coherent(),
        m.admits_dir(key),
    ensures
        m.touch_dir(key).coherent(),
        m.touch_dir(key).is_dir(key),
        m.touch_dir(key).children_names.contains_key(key),
{
    lemma_touch_keeps_agreement(m, key);
    if !m.nodes.contains_key(key) {
        lemma_store_keeps_coherent(m, key, NodeView::Dir);
    }
}

/// Giving a directory its child collections keeps the collections in
/// agreement.
pub proof fn lemma_touch_keeps_agreement(m: IndexModel, key: Seq<char>)
    requires
        m.children_agree(),
    ensures
        m.touch_lists(key).children_agree(),
        m.touch_dir(key).children_agree(),
{
    let t = m.touch_lists(key);
    assert(t.children_names.dom() =~= t.children_ci.dom());
    assert forall|k: Seq<char>| #[trigger] t.children_names.contains_key(k) implies names_match(
        t.children_names[k],
        t.children_ci[k],
    ) by {
        if m.children_names.contains_key(k) {
        } else {
            assert(k == key);
            assert(t.children_names[k] =~= Seq::<Seq<u16>>::empty());
        }
    }
}

/// Listing a child whose name is free keeps the child collections in
/// agreement.
pub proof fn lemma_add_keeps_agreement(m: IndexModel, parent: Seq<char>, name: Seq<u16>)
    requires
        m.children_agree(),
        m.children_names.contains_key(parent),
        is_free(m.children_ci[parent], name),
    ensures
        m.add_child(parent, name).children_agree(),
{
    let t = m.add_child(parent, name);
    assert(m.children_ci.contains_key(parent));
    assert(t.children_names.dom() =~= t.children_ci.dom());
    assert forall|k: Seq<char>| #[trigger] t.children_names.contains_key(k) implies names_match(
        t.children_names[k],
        t.children_ci[k],
    ) by {
        assert(m.children_names.contains_key(k));
        if k == parent {
            let names = m.children_names[k];
            let lows = m.children_ci[k];
            let names2 = names.push(name);
            let lows2 = lows.insert(low_name(name));
            assert(names_match(names, lows));
            assert forall|i: int| 0 <= i < names2.len() implies lows2.contains(
                #[trigger] low_name(names2[i]),
            ) by {
                if i < names.len() {
                    assert(lows.contains(low_name(names[i])));
                }
            }
            assert forall|x: Seq<char>| lows2.contains(x) implies exists|i: int|
                0 <= i < names2.len() && #[trigger] low_name(names2[i]) == x by {
                if x == low_name(name) {
                    assert(low_name(names2[names.len() as int]) == x);
                } else {
                    let i = choose|i: int| 0 <= i < names.len() && #[trigger] low_name(names[i]) == x;
                    assert(low_name(names2[i]) == x);
                }
            }
            assert forall|i: int, j: int| 0 <= i < j < names2.len() implies #[trigger] low_name(
                names2[i],
            ) != #[trigger] low_name(names2[j]) by {
                if j < names.len() {
                    assert(low_name(names[i]) != low_name(names[j]));
                } else {
                    assert(lows.contains(low_name(names[i])));
                }
            }
        }
    }
}

/// A copy of the code units `v`.
pub fn copy_units(v: &Vec<u16>) -> (r: Vec<u16>)
    ensures
        r@ == v@,
{
    let mut r: Vec<u16> = Vec::new();
    let mut i: usize = 0;
    while i < v.len()
        invariant
            i <= v.len(),
            r@ == v@.take(i as int),
        decreases v.len() - i,
    {
        r.push(v[i]);
        i += 1;
        assert(v@.take(i as int) == v@.take(i as int - 1).push(v@[i as int - 1]));
    }
    assert(v@.take(v.len() as int) == v@);
    r
}

/// Where the last `c` stands in `text`, if anywhere.
fn last_char_index(text: &Vec<char>, c: char) -> (r: Option<usize>)
    ensures
        match r {
            Some(at) => at < text.len() && at == last_index_of(text@, c),
            None => last_index_of(text@, c) == -1,
        },
{
    let mut i: usize = text.len();
    assert(text@.take(i as int) =~= text@);
    while i > 0
        invariant
            i <= text.len(),
            last_index_of(text@, c) == last_index_of(text@.take(i as int), c),
        decreases i,
    {
        if text[i - 1] == c {
            return Some(i - 1);
        }
        assert(text@.take(i as int).drop_last() =~= text@.take(i - 1));
        i -= 1;
    }
    None
}

/// Where the last unit `c` stands in `units`, if anywhere.
fn last_unit_index(units: &Vec<u16>, c: u16) -> (r: Option<usize>)
    ensures
        match r {
            Some(at) => at < units.len() && at == last_index_of(units@, c),
            None => last_index_of(units@, c) == -1,
        },
{
    let mut i: usize = units.len();
    assert(units@.take(i as int) =~= units@);
    while i > 0
        invariant
            i <= units.len(),
            last_index_of(units@, c) == last_index_of(units@.take(i as int), c),
        decreases i,
    {
        if units[i - 1] == c {
            return Some(i - 1);
        }
        assert(units@.take(i as int).drop_last() =~= units@.take(i - 1));
        i -= 1;
    }
    None
}

/// The display text `text` made the `n`th of its name.
fn renamed_text(text: &Vec<char>, n: u32) -> (r: Vec<char>)
    ensures
        r@ == renamed(text@, n as nat),
{
    let digits = decimal_digits(n as u64);
    let mut out: Vec<char> = Vec::new();
    let cut: usize = match last_char_index(text, '.') {
        Some(at) => if at > 0 {
            at
        } else {
            text.len()
        },
        None => text.len(),
    };
    let mut i: usize = 0;
    while i < cut
        invariant
            i <= cut <= text.len(),
            out@ == text@.take(i as int),
        decreases cut - i,
    {
        out.push(text[i]);
        i += 1;
        assert(text@.take(i as int) == text@.take(i as int - 1).push(text@[i as int - 1]));
    }
    out.push('_');
    push_all(&mut out, &digits);
    let ghost head = out@;
    while i < text.len()
        invariant
            cut <= i <= text.len(),
            out@ == head + text@.subrange(cut as int, i as int),
        decreases text.len() - i,
    {
        out.push(text[i]);
        i += 1;
        assert(text@.subrange(cut as int, i as int) == text@.subrange(cut as int, i as int - 1).push(
            text@[i as int - 1],
        ));
    }
    proof {
        assert(text@.subrange(cut as int, text.len() as int) =~= text@.skip(cut as int));
        if cut == text.len() {
            assert(text@.take(cut as int) =~= text@);
            assert(out@ =~= text@ + seq!['_'] + decimal(n as nat));
        } else {
            assert(out@ =~= text@.take(cut as int) + seq!['_'] + decimal(n as nat) + text@.skip(
                cut as int,
            ));
        }
    }
    out
}

/// Whether `key` is the root key.
fn is_root_text(key: &str) -> (r: bool)
    ensures
        r == (key@ == root_key()),
{
    let p = chars_of(key);
    let r = p.len() == 1 && p[0] == '\\';
    proof {
        if r {
            assert(p@ =~= root_key());
        }
    }
    r
}

/// The part of the path `full` before its last separator.
fn parent_chars(full: &Vec<char>) -> (r: Vec<char>)
    ensures
        r@ == parent_text(full@),
{
    let mut out: Vec<char> = Vec::new();
    match last_char_index(full, '\\') {
        Some(at) => {
            if at == 0 {
                out.push('\\');
                assert(out@ =~= root_key());
            } else {
                let mut i: usize = 0;
                while i < at
                    invariant
                        i <= at <= full.len(),
                        out@ == full@.take(i as int),
                    decreases at - i,
                {
                    out.push(full[i]);
                    i += 1;
                    assert(full@.take(i as int) == full@.take(i as int - 1).push(
                        full@[i as int - 1],
                    ));
                }
            }
        },
        None => {
            out.push('\\');
            assert(out@ =~= root_key());
        },
    }
    out
}

/// The part of the name `full` behind its last backslash unit.
fn base_units(full: &Vec<u16>) -> (r: Vec<u16>)
    ensures
        r@ == base_name(full@),
{
    let from: usize = match last_unit_index(full, 0x5c) {
        Some(at) => at + 1,
        None => 0,
    };
    let mut out: Vec<u16> = Vec::new();
    let mut i: usize = from;
    while i < full.len()
        invariant
            from <= i <= full.len(),
            out@ == full@.subrange(from as int, i as int),
        decreases full.len() - i,
    {
        out.push(full[i]);
        i += 1;
        assert(full@.subrange(from as int, i as int) == full@.subrange(
            from as int,
            i as int - 1,
        ).push(full@[i as int - 1]));
    }
    assert(full@.subrange(from as int, full.len() as int) =~= full@.skip(from as int));
    out
}

/// The key of the path that the UTF-16 units `full` spell.
pub fn path_key_lc_from_u16(full: &[u16]) -> (key: String)
    ensures
        key@ == key_of(lossy_text_of(full@)),
{
    normalize_and_canonicalize_for_key(utf16_decode_lossy(full).as_str())
}

/// Whether the candidate path `s` names something directly under the root:
/// it begins with a separator and holds no other.
pub open spec fn is_basename(s: Seq<char>) -> bool {
    s.len() > 0 && s[0] == '\\' && forall|i: int| 1 <= i < s.len() ==> s[i] != '\\'
}

/// Whether the candidate path `norm_full` holds nothing but a base name
/// behind its leading separator.
pub fn is_basename_only(norm_full: &str) -> (r: bool)
    ensures
        r == is_basename(norm_full@),
{
    let p = chars_of(norm_full);
    if p.len() == 0 || p[0] != '\\' {
        return false;
    }
    let mut i: usize = 1;
    while i < p.len()
        invariant
            1 <= i <= p.len(),
            p@ == norm_full@,
            forall|j: int| 1 <= j < i ==> p@[j] != '\\',
        decreases p.len() - i,
    {
        if p[i] == '\\' {
            return false;
        }
        i += 1;
    }
    true
}

/// What a scanner found in one unused record of the master file table.
#[derive(Debug, Clone)]
pub struct Candidate {
    /// The number of the record.
    pub mft_no: u64,
    /// The path as far as it could be rebuilt: only the base name where
    /// the link to the parent was lost.
    pub path: String,
    /// The size in bytes.
    pub size: u64,
    pub is_dir: bool,
    /// Seconds since the Unix epoch.
    pub created: Option<i64>,
    pub modified: Option<i64>,
    pub accessed: Option<i64>,
}

/// The mathematical value of a [`Candidate`].
pub struct CandidateView {
    pub mft_no: u64,
    pub path: Seq<char>,
    pub size: u64,
    pub is_dir: bool,
    pub created: Option<i64>,
    pub modified: Option<i64>,
    pub accessed: Option<i64>,
}

impl View for Candidate {
    type V = CandidateView;

    open spec fn view(&self) -> CandidateView {
        CandidateView {
            mft_no: self.mft_no,
            path: self.path@,
            size: self.size,
            is_dir: self.is_dir,
            created: self.created,
            modified: self.modified,
            accessed: self.accessed,
        }
    }
}

/// The values of a sequence of candidates.
pub open spec fn candidates_of(v: Seq<Candidate>) -> Seq<CandidateView> {
    Seq::new(v.len(), |i: int| v[i]@)
}

/// The directory under the root that takes what has lost its parent.
pub open spec fn fakepath_prefix() -> Seq<char> {
    seq!['\\', 'f', 'a', 'k', 'e', 'p', 'a', 't', 'h', '\\']
}

/// The path under which a candidate with the raw path `path` is placed: its
/// candidate path, moved under `\fakepath\` where it is a bare base name.
pub open spec fn staged_path(path: Seq<char>) -> Seq<char> {
    let full = candidate_path_of(path);
    if is_basename(full) && full.len() > 1 {
        fakepath_prefix() + full.skip(1)
    } else {
        full
    }
}

/// The point in time of an optional Unix timestamp in seconds: the epoch
/// for a timestamp that is not positive.
pub open spec fn time_of(ts: Option<i64>) -> Option<EpochTime> {
    match ts {
        Some(t) => Some(
            EpochTime {
                secs: if t <= 0 {
                    0
                } else {
                    t as u64
                },
            },
        ),
        None => None,
    }
}

/// The metadata with which the file candidate `c` is entered.
pub open spec fn staged_meta(c: CandidateView) -> MetaView {
    MetaView {
        mft_no: c.mft_no,
        is_dir: false,
        size: c.size,
        created: time_of(c.created),
        modified: time_of(c.modified),
        accessed: time_of(c.accessed),
        name: base_name(utf16_of(staged_path(c.path))),
    }
}

impl IndexModel {
    /// The index after the candidate `c` is placed.
    pub open spec fn place(self, c: CandidateView) -> IndexModel {
        let full = utf16_of(staged_path(c.path));
        if c.is_dir {
            self.insert_dir(full)
        } else {
            self.insert_file(full, staged_meta(c))
        }
    }

    /// Whether placing the candidate `c` enters it.
    pub open spec fn places(self, c: CandidateView) -> bool {
        if c.is_dir {
            self.takes_dir(utf16_of(staged_path(c.path)))
        } else {
            self.file_name(utf16_of(staged_path(c.path))) is Some
        }
    }

    /// The index after the candidates `cs` are placed, first to last.
    pub open spec fn place_all(self, cs: Seq<CandidateView>) -> IndexModel
        decreases cs.len(),
    {
        if cs.len() == 0 {
            self
        } else {
            self.place_all(cs.drop_last()).place(cs.last())
        }
    }

    /// How many of the candidates `cs` are entered when they are placed,
    /// first to last.
    pub open spec fn placed_count(self, cs: Seq<CandidateView>) -> nat
        decreases cs.len(),
    {
        if cs.len() == 0 {
            0
        } else {
            self.placed_count(cs.drop_last()) + if self.place_all(cs.drop_last()).places(
                cs.last(),
            ) {
                1nat
            } else {
                0nat
            }
        }
    }
}

/// The point in time of an optional Unix timestamp.
fn optional_time(ts: Option<i64>) -> (t: Option<EpochTime>)
    ensures
        t == time_of(ts),
{
    match ts {
        Some(t) => Some(unix_ts_to_system_time(t)),
        None => None,
    }
}

/// The path under which a candidate with the raw path `path` is placed.
pub fn staged_path_of(path: &str) -> (full: String)
    ensures
        full@ == staged_path(path@),
{
    let full = normalize_candidate_path(path);
    if is_basename_only(full.as_str()) {
        let chars = chars_of(full.as_str());
        if chars.len() > 1 {
            let mut out: Vec<char> = Vec::new();
            out.push('\\');
            out.push('f');
            out.push('a');
            out.push('k');
            out.push('e');
            out.push('p');
            out.push('a');
            out.push('t');
            out.push('h');
            out.push('\\');
            assert(out@ =~= fakepath_prefix());
            let mut i: usize = 1;
            while i < chars.len()
                invariant
                    1 <= i <= chars.len(),
                    out@ == fakepath_prefix() + chars@.subrange(1, i as int),
                decreases chars.len() - i,
            {
                out.push(chars[i]);
                i += 1;
                assert(chars@.subrange(1, i as int) == chars@.subrange(1, i as int - 1).push(
                    chars@[i as int - 1],
                ));
            }
            assert(chars@.subrange(1, chars.len() as int) =~= chars@.skip(1));
            return string_of(&out);
        }
    }
    full
}

/// Places one candidate in the index. Returns whether it was entered.
pub fn place_candidate(idx: &mut DeletedIndex, c: &Candidate) -> (entered: bool)
    requires
        old(idx).wf(),
    ensures
        final(idx).wf(),
        final(idx)@ == old(idx)@.place(c@),
        entered == old(idx)@.places(c@),
{
    let full_str = staged_path_of(c.path.as_str());
    let full_u16 = utf16_encode(full_str.as_str());
    if c.is_dir {
        idx.insert_dir(full_u16.as_slice())
    } else {
        let meta = EntryMeta {
            mft_no: c.mft_no,
            is_dir: false,
            size: c.size,
            created: optional_time(c.created),
            modified: optional_time(c.modified),
            accessed: optional_time(c.accessed),
            name_u16: base_units(&full_u16),
        };
        idx.insert_file(full_u16.as_slice(), meta)
    }
}

/// Places the staged candidates in the index, first to last, and empties
/// the staging buffer. Returns how many of them were entered.
pub fn apply_staging(idx: &mut DeletedIndex, staging: &mut Vec<Candidate>) -> (found: u64)
    requires
        old(idx).wf(),
    ensures
        final(idx).wf(),
        final(idx)@ == old(idx)@.place_all(candidates_of(old(staging)@)),
        found == old(idx)@.placed_count(candidates_of(old(staging)@)),
        final(staging)@.len() == 0,
{
    let ghost all = candidates_of(staging@);
    let mut found: u64 = 0;
    let mut i: usize = 0;
    assert(all.take(0) =~= Seq::<CandidateView>::empty());
    while i < staging.len()
        invariant
            i <= staging.len(),
            staging == old(staging),
            all == candidates_of(staging@),
            idx.wf(),
            idx@ == old(idx)@.place_all(all.take(i as int)),
            found == old(idx)@.placed_count(all.take(i as int)),
            found <= i,
        decreases staging.len() - i,
    {
        proof {
            assert(all.take(i + 1).drop_last() =~= all.take(i as int));
            assert(all.take(i + 1).last() == staging@[i as int]@);
        }
        if place_candidate(idx, &staging[i]) {
            found += 1;
        }
        i += 1;
    }
    assert(all.take(staging.len() as int) =~= all);
    staging.clear();
    found
}

/// The root's own path names no directory below the root.
pub proof fn lemma_no_components_of_root()
    ensures
        dir_components(root_key()) == Seq::<Seq<char>>::empty(),
{
    let r = root_key();
    crate::util::lemma_candidate_path_of_root();
    let e = Seq::<char>::empty();
    assert(r.drop_last() =~= e);
    assert(split(e) =~= seq![e]);
    assert(split(r) =~= seq![e, e]);
    let two = seq![e, e];
    let none = Seq::<Seq<char>>::empty();
    assert(two.drop_last() =~= seq![e]);
    assert(seq![e].drop_last() =~= none);
    assert(nonempty(none) =~= none);
    assert(seq![e].last() == e);
    assert(nonempty(seq![e]) == nonempty(none));
    assert(two.last() == e);
    assert(nonempty(two) == nonempty(seq![e]));
}

} // verus!
