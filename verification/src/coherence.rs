//! The laws of the index: what holds of its mathematical value after any
//! sequence of entries, proved from the definitions of the operations.

use vstd::prelude::*;
use crate::indexer::{
    dir_components, dir_path, first_free_number, is_free, last_number, lemma_add_keeps_agreement,
    lemma_store_keeps_coherent, lemma_touch_dir_keeps_coherent, lemma_touch_keeps_agreement,
    low_name, names_match, numbered_name, staged_meta, staged_path, unique_name, CandidateView,
    IndexModel, MetaView, NodeView,
};
use crate::text::{lossy_text_of, utf16_of};
use crate::util::{candidate_path_of, key_of, lemma_key_of_root, root_key};

verus! {

impl IndexModel {
    /// Whether every node of `self` is a node of `later`, and the same one.
    pub open spec fn nodes_kept_in(self, later: IndexModel) -> bool {
        forall|k: Seq<char>| #[trigger]
            self.nodes.contains_key(k) ==> later.nodes.contains_key(k) && later.nodes[k]
                == self.nodes[k]
    }
}

/// The index that holds nothing is coherent.
pub proof fn lemma_empty_is_coherent()
    ensures
        IndexModel::empty().coherent(),
{
    assert(IndexModel::empty().children_names.dom() =~= IndexModel::empty().children_ci.dom());
}

/// Registering a child in a directory that has its child collections keeps
/// the index coherent.
pub proof fn lemma_register_keeps_coherent(m: IndexModel, parent: Seq<char>, name: Seq<u16>)
    requires
        m.coherent(),
        m.children_names.contains_key(parent),
    ensures
        m.register_child(parent, name).coherent(),
        m.register_child(parent, name).nodes == m.nodes,
        m.register_child(parent, name).children_names.dom() == m.children_names.dom(),
{
    if !m.children_ci[parent].contains(low_name(name)) {
        lemma_add_keeps_agreement(m, parent, name);
        assert(m.add_child(parent, name).children_names.dom() =~= m.children_names.dom());
    }
}

/// Index coherence along a walk.
///
/// A walk from the root down keeps a coherent index coherent, and every
/// node that was known stays what it was. Where the walk reaches the end
/// of its path, the root and the directory at the end are known
/// directories with their child collections.
pub proof fn lemma_walk_keeps_coherent(m: IndexModel, comps: Seq<Seq<char>>)
    requires
        m.coherent(),
    ensures
        m.ensure_dirs(comps).coherent(),
        m.nodes_kept_in(m.ensure_dirs(comps)),
        m.reaches(comps) ==> m.ensure_dirs(comps).is_dir(key_of(dir_path(comps))),
        m.reaches(comps) ==> m.ensure_dirs(comps).children_names.contains_key(
            key_of(dir_path(comps)),
        ),
        m.reaches(comps) ==> m.ensure_dirs(comps).is_dir(root_key()),
    decreases comps.len(),
{
    if comps.len() == 0 {
        lemma_key_of_root();
        if m.admits_dir(root_key()) {
            lemma_touch_dir_keeps_coherent(m, root_key());
        }
    } else {
        let init = comps.drop_last();
        lemma_walk_keeps_coherent(m, init);
        let before = m.walk(init);
        let key = key_of(dir_path(comps));
        if before.1 && before.0.admits_dir(key) {
            let above = key_of(dir_path(init));
            lemma_register_keeps_coherent(before.0, above, utf16_of(comps.last()));
            let listed = before.0.register_child(above, utf16_of(comps.last()));
            assert(listed.admits_dir(key));
            lemma_touch_dir_keeps_coherent(listed, key);
            let after = listed.touch_dir(key);
            assert forall|k: Seq<char>| #[trigger] m.nodes.contains_key(k) implies after.nodes.contains_key(
                k,
            ) && after.nodes[k] == m.nodes[k] by {
                assert(before.0.nodes.contains_key(k));
            }
        }
    }
}

/// Index coherence: entering a directory keeps a coherent index coherent,
/// and replaces no node.
pub proof fn lemma_insert_dir_keeps_coherent(m: IndexModel, full: Seq<u16>)
    requires
        m.coherent(),
    ensures
        m.insert_dir(full).coherent(),
        m.nodes_kept_in(m.insert_dir(full)),
{
    lemma_walk_keeps_coherent(m, dir_components(candidate_path_of(lossy_text_of(full))));
}

/// Index coherence: entering a file keeps a coherent index coherent, and
/// replaces no node. After it the root, where known, is a directory, the
/// directory above every other node is a known directory, and the child
/// collections agree.
pub proof fn lemma_insert_file_keeps_coherent(m: IndexModel, full: Seq<u16>, meta: MetaView)
    requires
        m.coherent(),
    ensures
        m.insert_file(full, meta).coherent(),
        m.nodes_kept_in(m.insert_file(full, meta)),
{
    let parent = IndexModel::file_parent(full);
    let comps = dir_components(parent);
    lemma_walk_keeps_coherent(m, comps);
    let walked = m.ensure_dirs(comps);
    lemma_touch_keeps_agreement(walked, key_of(parent));
    let dirs = m.with_file_dirs(full);
    assert(dirs.nodes == walked.nodes);
    assert(dirs.coherent());
    assert(m.nodes_kept_in(dirs));
    match m.file_name(full) {
        None => {},
        Some(name) => {
            let pk = key_of(parent);
            lemma_unique_name_is_least(dirs.children_ci[pk], IndexModel::file_base(full));
            lemma_add_keeps_agreement(dirs, pk, name);
            let listed = dirs.add_child(pk, name);
            assert(listed.nodes == dirs.nodes);
            assert(listed.coherent());
            let key = IndexModel::file_key(full, name);
            lemma_store_keeps_coherent(
                listed,
                key,
                NodeView::File(MetaView { name: name, ..meta }),
            );
        },
    }
}

/// Index coherence: placing a candidate keeps a coherent index coherent,
/// and replaces no node.
pub proof fn lemma_place_keeps_coherent(m: IndexModel, c: CandidateView)
    requires
        m.coherent(),
    ensures
        m.place(c).coherent(),
        m.nodes_kept_in(m.place(c)),
{
    let full = utf16_of(staged_path(c.path));
    if c.is_dir {
        lemma_insert_dir_keeps_coherent(m, full);
    } else {
        lemma_insert_file_keeps_coherent(m, full, staged_meta(c));
    }
}

/// Index coherence: after any sequence of candidates placed in a coherent
/// index, the index is coherent, and no node that was known has been
/// replaced.
pub proof fn lemma_place_all_keeps_coherent(m: IndexModel, cs: Seq<CandidateView>)
    requires
        m.coherent(),
    ensures
        m.place_all(cs).coherent(),
        m.nodes_kept_in(m.place_all(cs)),
    decreases cs.len(),
{
    if cs.len() > 0 {
        lemma_place_all_keeps_coherent(m, cs.drop_last());
        let before = m.place_all(cs.drop_last());
        lemma_place_keeps_coherent(before, cs.last());
        let after = before.place(cs.last());
        assert forall|k: Seq<char>| #[trigger] m.nodes.contains_key(k) implies after.nodes.contains_key(
            k,
        ) && after.nodes[k] == m.nodes[k] by {
            assert(before.nodes.contains_key(k));
        }
    }
}

/// Case-insensitive uniqueness, the choice of a name.
///
/// The name under which an entry is listed is free among the names taken.
/// It is the desired name where that is free. Else it is the desired name
/// with a number, and that number is the least from 2 on that gives a free
/// name. No name is found only where the desired name is taken with every
/// number up to the last.
pub proof fn lemma_unique_name_is_least(taken: Set<Seq<char>>, desired: Seq<u16>)
    ensures
        match unique_name(taken, desired) {
            Some(name) => {
                &&& is_free(taken, name)
                &&& is_free(taken, desired) ==> name == desired
                &&& !is_free(taken, desired) ==> exists|n: nat|
                    {
                        &&& 2 <= n <= last_number()
                        &&& name == #[trigger] numbered_name(desired, n)
                        &&& forall|k: nat|
                            2 <= k < n ==> !is_free(taken, #[trigger] numbered_name(desired, k))
                    }
            },
            None => {
                &&& !is_free(taken, desired)
                &&& forall|k: nat|
                    2 <= k <= last_number() ==> !is_free(
                        taken,
                        #[trigger] numbered_name(desired, k),
                    )
            },
        },
{
    if !is_free(taken, desired) {
        lemma_first_free_number(taken, desired, 2, last_number());
    }
}

/// The first free number is free, and no number before it is.
pub proof fn lemma_first_free_number(
    taken: Set<Seq<char>>,
    desired: Seq<u16>,
    from: nat,
    limit: nat,
)
    ensures
        match first_free_number(taken, desired, from, limit) {
            Some(n) => {
                &&& from <= n <= limit
                &&& is_free(taken, numbered_name(desired, n))
                &&& forall|k: nat|
                    from <= k < n ==> !is_free(taken, #[trigger] numbered_name(desired, k))
            },
            None => forall|k: nat|
                from <= k <= limit ==> !is_free(taken, #[trigger] numbered_name(desired, k)),
        },
    decreases limit + 1 - from,
{
    if from <= limit && !is_free(taken, numbered_name(desired, from)) {
        lemma_first_free_number(taken, desired, from + 1, limit);
    }
}

/// Index coherence, the children: in a coherent index a directory has as
/// many child names as lowercase forms, every child name has its lowercase
/// form in the set, and every form in the set is that of exactly one child
/// name.
pub proof fn lemma_children_correspond(m: IndexModel, dir: Seq<char>)
    requires
        m.children_agree(),
        m.children_names.contains_key(dir),
    ensures
        m.children_ci.contains_key(dir),
        m.children_ci[dir].finite(),
        m.children_names[dir].len() == m.children_ci[dir].len(),
        forall|i: int|
            0 <= i < m.children_names[dir].len() ==> m.children_ci[dir].contains(
                #[trigger] low_name(m.children_names[dir][i]),
            ),
        forall|x: Seq<char>, i: int, j: int|
            #![trigger low_name(m.children_names[dir][i]), low_name(m.children_names[dir][j]), m.children_ci[dir].contains(x)]
            m.children_ci[dir].contains(x) && 0 <= i < m.children_names[dir].len() && 0 <= j
                < m.children_names[dir].len() && low_name(m.children_names[dir][i]) == x
                && low_name(m.children_names[dir][j]) == x ==> i == j,
        forall|x: Seq<char>|
            m.children_ci[dir].contains(x) ==> exists|i: int|
                0 <= i < m.children_names[dir].len() && #[trigger] low_name(
                    m.children_names[dir][i],
                ) == x,
{
    assert(m.children_ci.dom().contains(dir));
    assert(names_match(m.children_names[dir], m.children_ci[dir]));
    let names = m.children_names[dir];
    assert forall|x: Seq<char>, i: int, j: int|
        #![trigger low_name(names[i]), low_name(names[j]), m.children_ci[dir].contains(x)]
        m.children_ci[dir].contains(x) && 0 <= i < names.len() && 0 <= j < names.len() && low_name(
            names[i],
        ) == x && low_name(names[j]) == x implies i == j by {
        if i < j {
            assert(low_name(names[i]) != low_name(names[j]));
        } else if j < i {
            assert(low_name(names[j]) != low_name(names[i]));
        }
    }
}

/// Case-insensitive uniqueness: in a coherent index no two children of a
/// directory have names that differ only by case.
pub proof fn lemma_children_differ_beyond_case(m: IndexModel, dir: Seq<char>, i: int, j: int)
    requires
        m.children_agree(),
        m.children_names.contains_key(dir),
        0 <= i < m.children_names[dir].len(),
        0 <= j < m.children_names[dir].len(),
        i != j,
    ensures
        low_name(m.children_names[dir][i]) != low_name(m.children_names[dir][j]),
{
    lemma_children_correspond(m, dir);
}

} // verus!
