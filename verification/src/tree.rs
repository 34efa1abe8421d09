//! Immutable tree snapshots over the store, the matcher-driven
//! recursive entries walk, the recursive diff of two snapshots, and the
//! three-way tree merge with conflict simplification.

use vstd::prelude::*;
use crate::hex::{lex_lt, bytes_eq, bytes_lt};
use crate::repo_path::{RepoPath, RepoPathComponent, path_lt, path_leq, repo_path_lt, lemma_path_trichotomy, lemma_path_transitive};
use crate::backend::{
    BackendError, ObjectId, TreeId, FileId, ConflictId, TreeValue, TreeValueView, TreeEntry,
    TreeEntryView, TreeData, Conflict, ConflictTerm, ConflictView, lookup, entries_sorted,
    opt_value_view, tree_value_eq, opt_tree_value_eq,
};
use crate::store::{
    Store, StoreView, store_wf, store_extends, value_ok, tree_ok, conflict_ok, index_of_id,
    lemma_extends_preserves_ok,
};
use crate::matchers::{Matcher, EverythingMatcher, Visit};
use crate::files::{MergeResult, fold_merge};

verus! {

/// An error during a tree merge.
#[derive(Debug)]
pub enum TreeMergeError {
    /// Reading a file blob failed during content conflict resolution.
    ReadError { file_id: FileId },
    /// Any other store failure.
    BackendError(BackendError),
}

/// The mathematical value of a snapshot: its directory, id, and entry
/// table.
pub struct TreeView {
    pub dir: Seq<Seq<u8>>,
    pub id: Seq<u8>,
    pub data: Seq<TreeEntryView>,
}

/// An immutable directory snapshot: the entry table stored under `id`,
/// seen at directory `dir`.  The "null" tree has an empty id and no
/// entries and denotes absence.
#[derive(Debug)]
pub struct Tree {
    dir: RepoPath,
    id: TreeId,
    data: TreeData,
}

impl View for Tree {
    type V = TreeView;

    closed spec fn view(&self) -> TreeView {
        TreeView { dir: self.dir@, id: self.id@, data: self.data@ }
    }
}

/// The snapshot is the null tree or reflects a stored tree.
pub open spec fn valid_tree(sv: StoreView, t: TreeView) -> bool {
    ||| (t.id.len() == 0 && t.data.len() == 0)
    ||| (t.id.len() == 8 && index_of_id(t.id) < sv.trees.len() && t.data == sv.trees[index_of_id(
        t.id,
    ) as int])
}

/// The table position bounding every subtree reference of the snapshot.
pub open spec fn tree_bound(t: TreeView) -> int {
    if t.id.len() == 0 {
        0
    } else {
        index_of_id(t.id) as int
    }
}

impl Clone for Tree {
    fn clone(&self) -> (r: Self)
        ensures
            r@ == self@,
    {
        Tree { dir: self.dir.clone(), id: self.id.clone(), data: self.data.clone() }
    }
}

impl Tree {
    /// A snapshot from its parts.
    pub fn new(dir: RepoPath, id: TreeId, data: TreeData) -> (r: Self)
        ensures
            r@.dir == dir@,
            r@.id == id@,
            r@.data == data@,
    {
        Tree { dir, id, data }
    }

    /// The null tree at `dir`: absent, with an empty id and no entries.
    pub fn null(dir: RepoPath) -> (r: Self)
        ensures
            r@.dir == dir@,
            r@.id.len() == 0,
            r@.data.len() == 0,
    {
        let r = Tree { dir, id: TreeId::from_bytes(Vec::new()), data: TreeData::new() };
        proof {
            assert(r@.data =~= Seq::<TreeEntryView>::empty());
        }
        r
    }

    pub fn dir(&self) -> (r: &RepoPath)
        ensures
            r@ == self@.dir,
    {
        &self.dir
    }

    pub fn id(&self) -> (r: &TreeId)
        ensures
            r@ == self@.id,
    {
        &self.id
    }

    pub fn data(&self) -> (r: &TreeData)
        ensures
            r@ == self@.data,
    {
        &self.data
    }

    /// Entries are sorted by basename.
    pub open spec fn wf(&self) -> bool {
        entries_sorted(self@.data)
    }

    /// The entries of this directory alone, in basename order.
    pub fn entries_non_recursive(&self) -> (r: &Vec<TreeEntry>)
        ensures
            r@.len() == self@.data.len(),
            forall|i: int| 0 <= i < r@.len() ==> (#[trigger] r@[i])@ == self@.data[i],
    {
        self.data.entries()
    }

    /// The entry named `basename`, if any.
    pub fn entry(&self, basename: &RepoPathComponent) -> (r: Option<&TreeEntry>)
        requires
            self.wf(),
        ensures
            match r {
                Some(e) => lookup(self@.data, basename@) == Some(e@.value) && e@.name == basename@,
                None => lookup(self@.data, basename@) is None,
            },
    {
        self.data.entry(basename)
    }

    /// The value stored at `basename`, if any.
    pub fn value(&self, basename: &RepoPathComponent) -> (r: Option<&TreeValue>)
        requires
            self.wf(),
        ensures
            opt_value_view(r) == lookup(self@.data, basename@),
    {
        self.data.value(basename)
    }

    /// The snapshot of the child directory stored under `id`, at
    /// `dir/name`; for use when the id is already known from a walk.
    pub fn known_sub_tree(&self, store: &Store, name: &RepoPathComponent, id: &TreeId) -> (r: Tree)
        requires
            store_wf(store@),
            id@.len() == 8,
            index_of_id(id@) < store@.trees.len(),
        ensures
            r@.dir == self@.dir.push(name@),
            r@.id == id@,
            r@.data == store@.trees[index_of_id(id@) as int],
            valid_tree(store@, r@),
            r.wf(),
    {
        let subdir = self.dir.join(name);
        let data = match store.get_tree_data(id) {
            Ok(data) => data,
            Err(_) => TreeData::new(),  // unreachable: the id is stored
        };
        Tree { dir: subdir, id: id.clone(), data }
    }

    /// The snapshot of the child directory named `name`, when the entry
    /// is a subtree; `None` otherwise.
    pub fn sub_tree(&self, store: &Store, name: &RepoPathComponent) -> (r: Option<Tree>)
        requires
            store_wf(store@),
            valid_tree(store@, self@),
        ensures
            match lookup(self@.data, name@) {
                Some(TreeValueView::Tree(id)) => r is Some && r->Some_0@.dir == self@.dir.push(
                    name@,
                ) && r->Some_0@.id == id && r->Some_0@.data == store@.trees[index_of_id(
                    id,
                ) as int] && valid_tree(store@, r->Some_0@),
                _ => r is None,
            },
    {
        proof {
            lemma_valid_tree_sorted(store@, self@);
        }
        match self.data.value(name) {
            Some(v) => match v {
                TreeValue::Tree(sub_tree_id) => {
                    proof {
                        lemma_lookup_value_ok(store@, self@, name@);
                    }
                    let id = sub_tree_id.clone();
                    Some(self.known_sub_tree(store, name, &id))
                },
                _ => None,
            },
            None => None,
        }
    }

    /// The value at `path` below this root snapshot: the root itself
    /// for the empty path, otherwise the entry reached by descending
    /// through subtrees.
    pub fn path_value(&self, store: &Store, path: &RepoPath) -> (r: Option<TreeValue>)
        requires
            store_wf(store@),
            valid_tree(store@, self@),
            self@.dir.len() == 0,
        ensures
            opt_owned_view(r) == path_value_model(store@, self@, path@),
    {
        match path.split() {
            None => Some(TreeValue::Tree(self.id.clone())),
            Some((dir, basename)) => {
                match self.sub_tree_recursive(store, &dir) {
                    None => None,
                    Some(tree) => {
                        proof {
                            lemma_valid_tree_sorted(store@, tree@);
                        }
                        match tree.data.value(&basename) {
                            Some(v) => Some(v.clone()),
                            None => None,
                        }
                    },
                }
            },
        }
    }

    /// Descends through subtrees along `components`.
    fn sub_tree_recursive(&self, store: &Store, dir: &RepoPath) -> (r: Option<Tree>)
        requires
            store_wf(store@),
            valid_tree(store@, self@),
        ensures
            match subtree_model(store@, self@, dir@) {
                Some(t) => r is Some && r->Some_0@.id == t.id && r->Some_0@.data == t.data
                    && valid_tree(store@, r->Some_0@),
                None => r is None,
            },
    {
        let comps = dir.components();
        let mut current = self.clone();
        let mut i: usize = 0;
        proof {
            assert(dir@.skip(0) =~= dir@);
        }
        loop
            invariant
                store_wf(store@),
                valid_tree(store@, current@),
                i <= dir@.len(),
                comps@.len() == dir@.len(),
                forall|j: int| 0 <= j < comps@.len() ==> (#[trigger] comps@[j])@ == dir@[j],
                subtree_model(store@, self@, dir@) == subtree_model(
                    store@,
                    current@,
                    dir@.skip(i as int),
                ),
            decreases dir@.len() - i,
        {
            let ghost rest = dir@.skip(i as int);
            proof {
                assert(rest.len() > 0 ==> rest[0] == dir@[i as int]);
                assert(rest.len() > 0 ==> rest.skip(1) =~= dir@.skip(i + 1));
            }
            if i == comps.len() {
                return Some(current);
            }
            proof {
                lemma_valid_tree_sorted(store@, current@);
            }
            let ghost prev = current@;
            let next = current.sub_tree(store, &comps[i]);
            match next {
                Some(tree) => {
                    proof {
                        assert(lookup(prev.data, rest[0]) is Some);
                        lemma_lookup_value_ok(store@, prev, rest[0]);
                        let id = lookup(prev.data, rest[0])->Some_0->Tree_0;
                        let stepped = TreeView {
                            dir: prev.dir.push(rest[0]),
                            id,
                            data: store@.trees[index_of_id(id) as int],
                        };
                        assert(subtree_model(store@, prev, rest) == subtree_model(
                            store@,
                            stepped,
                            rest.skip(1),
                        ));
                        assert(stepped == tree@);
                    }
                    current = tree;
                },
                None => {
                    return None;
                },
            }
            i = i + 1;
        }
    }
}

/// The view of an owned optional tree value.
pub open spec fn opt_owned_view(v: Option<TreeValue>) -> Option<TreeValueView> {
    match v {
        None => None,
        Some(value) => Some(value@),
    }
}

/// The snapshot reached by descending from `t` along `comps`, if every
/// step lands on a subtree entry.
pub open spec fn subtree_model(sv: StoreView, t: TreeView, comps: Seq<Seq<u8>>) -> Option<TreeView>
    decreases comps.len(),
{
    if comps.len() == 0 {
        Some(t)
    } else {
        match lookup(t.data, comps[0]) {
            Some(TreeValueView::Tree(id)) => {
                if id.len() == 8 && index_of_id(id) < sv.trees.len() {
                    subtree_model(
                        sv,
                        TreeView {
                            dir: t.dir.push(comps[0]),
                            id,
                            data: sv.trees[index_of_id(id) as int],
                        },
                        comps.skip(1),
                    )
                } else {
                    None
                }
            },
            _ => None,
        }
    }
}

/// The value that `path_value` reports for `path` under the root `t`.
pub open spec fn path_value_model(sv: StoreView, t: TreeView, path: Seq<Seq<u8>>) -> Option<
    TreeValueView,
> {
    if path.len() == 0 {
        Some(TreeValueView::Tree(t.id))
    } else {
        match subtree_model(sv, t, path.subrange(0, path.len() - 1)) {
            Some(sub) => lookup(sub.data, path[path.len() - 1]),
            None => None,
        }
    }
}

/// A valid snapshot's entries are sorted: stored trees are, and the
/// null tree has none.
pub proof fn lemma_valid_tree_sorted(sv: StoreView, t: TreeView)
    requires
        store_wf(sv),
        valid_tree(sv, t),
    ensures
        entries_sorted(t.data),
{
    if t.id.len() == 8 {
        assert(tree_ok(sv.trees[index_of_id(t.id) as int], sv, index_of_id(t.id) as int));
    }
}

/// A subtree entry of a valid snapshot references a stored tree below
/// the snapshot's own position.
pub proof fn lemma_lookup_value_ok(sv: StoreView, t: TreeView, name: Seq<u8>)
    requires
        store_wf(sv),
        valid_tree(sv, t),
        lookup(t.data, name) is Some,
    ensures
        value_ok(lookup(t.data, name)->Some_0, sv, tree_bound(t)),
        tree_bound(t) <= sv.trees.len(),
    decreases t.data.len(),
{
    crate::backend::lemma_lookup_index(t.data, name);
    let i = choose|i: int| 0 <= i < t.data.len() && (#[trigger] t.data[i]).name == name;
    lemma_valid_tree_sorted(sv, t);
    crate::backend::lemma_lookup_present(t.data, i);
    if t.id.len() == 8 {
        assert(tree_ok(sv.trees[index_of_id(t.id) as int], sv, index_of_id(t.id) as int));
        assert(value_ok(t.data[i].value, sv, tree_bound(t)));
    }
}

} // verus!

verus! {

// ---------------------------------------------------------------------
// Pairwise entry diff
// ---------------------------------------------------------------------

/// The diff of two basename-sorted entry lists: entries only on the
/// left, only on the right, or changed; equal values are skipped.
pub open spec fn entry_diff_model(s1: Seq<TreeEntryView>, s2: Seq<TreeEntryView>) -> Seq<
    (Seq<u8>, Option<TreeValueView>, Option<TreeValueView>),
>
    decreases s1.len() + s2.len(),
{
    if s1.len() == 0 && s2.len() == 0 {
        Seq::empty()
    } else if s2.len() == 0 || (s1.len() > 0 && lex_lt(s1[0].name, s2[0].name)) {
        seq![(s1[0].name, Some(s1[0].value), None)] + entry_diff_model(s1.skip(1), s2)
    } else if s1.len() == 0 || (s2.len() > 0 && lex_lt(s2[0].name, s1[0].name)) {
        seq![(s2[0].name, None, Some(s2[0].value))] + entry_diff_model(s1, s2.skip(1))
    } else if s1[0].value != s2[0].value {
        seq![(s1[0].name, Some(s1[0].value), Some(s2[0].value))] + entry_diff_model(
            s1.skip(1),
            s2.skip(1),
        )
    } else {
        entry_diff_model(s1.skip(1), s2.skip(1))
    }
}

/// Equal tables diff to nothing.
pub proof fn lemma_entry_diff_reflexive(s: Seq<TreeEntryView>)
    ensures
        entry_diff_model(s, s).len() == 0,
    decreases s.len(),
{
    if s.len() > 0 {
        crate::hex::lemma_lex_trichotomy(s[0].name, s[0].name);
        lemma_entry_diff_reflexive(s.skip(1));
    }
}

/// Every diff entry names a side that is present.
pub proof fn lemma_entry_diff_present(s1: Seq<TreeEntryView>, s2: Seq<TreeEntryView>, i: int)
    requires
        0 <= i < entry_diff_model(s1, s2).len(),
    ensures
        entry_diff_model(s1, s2)[i].1 is Some || entry_diff_model(s1, s2)[i].2 is Some,
    decreases s1.len() + s2.len(),
{
    if s1.len() == 0 && s2.len() == 0 {
    } else if s2.len() == 0 || (s1.len() > 0 && lex_lt(s1[0].name, s2[0].name)) {
        if i > 0 {
            lemma_entry_diff_present(s1.skip(1), s2, i - 1);
        }
    } else if s1.len() == 0 || (s2.len() > 0 && lex_lt(s2[0].name, s1[0].name)) {
        if i > 0 {
            lemma_entry_diff_present(s1, s2.skip(1), i - 1);
        }
    } else if s1[0].value != s2[0].value {
        if i > 0 {
            lemma_entry_diff_present(s1.skip(1), s2.skip(1), i - 1);
        }
    } else {
        lemma_entry_diff_present(s1.skip(1), s2.skip(1), i);
    }
}

/// A pairwise diff of two entry tables, consumed through `next`.
pub struct TreeEntryDiffIterator {
    items: Vec<(RepoPathComponent, Option<TreeValue>, Option<TreeValue>)>,
    pos: usize,
}

/// The views of computed diff items.
pub open spec fn diff_item_views(s: Seq<(RepoPathComponent, Option<TreeValue>, Option<TreeValue>)>)
    -> Seq<(Seq<u8>, Option<TreeValueView>, Option<TreeValueView>)> {
    Seq::new(s.len(), |i: int| (s[i].0@, opt_owned_view(s[i].1), opt_owned_view(s[i].2)))
}

impl TreeEntryDiffIterator {
    /// The cursor never passes the end.
    #[verifier::type_invariant]
    closed spec fn inv(&self) -> bool {
        self.pos <= self.items@.len()
    }

    /// The items not yet handed out.
    pub closed spec fn remaining(&self) -> Seq<
        (Seq<u8>, Option<TreeValueView>, Option<TreeValueView>),
    > {
        diff_item_views(self.items@).skip(self.pos as int)
    }

    pub fn next(&mut self) -> (r: Option<(RepoPathComponent, Option<TreeValue>, Option<TreeValue>)>)
        ensures
            match r {
                Some(item) => old(self).remaining().len() > 0 && (
                item.0@,
                opt_owned_view(item.1),
                opt_owned_view(item.2),
                ) == old(self).remaining()[0] && final(self).remaining() == old(
                    self,
                ).remaining().skip(1),
                None => old(self).remaining().len() == 0 && final(self).remaining() == old(
                    self,
                ).remaining(),
            },
    {
        proof {
            use_type_invariant(&*self);
        }
        if self.pos < self.items.len() {
            let (name, before, after) = item_clone(&self.items[self.pos]);
            let ghost oldrem = self.remaining();
            self.pos = self.pos + 1;
            proof {
                assert(oldrem.len() > 0);
                assert(oldrem[0] == diff_item_views(self.items@)[old(self).pos as int]);
                assert(name@ == self.items@[old(self).pos as int].0@);
                assert(opt_owned_view(before) == opt_owned_view(self.items@[old(self).pos as int].1));
                assert(opt_owned_view(after) == opt_owned_view(self.items@[old(self).pos as int].2));
                assert((name@, opt_owned_view(before), opt_owned_view(after)) == oldrem[0]);
                assert(self.remaining() =~= oldrem.skip(1));
            }
            Some((name, before, after))
        } else {
            None
        }
    }
}

fn item_clone(item: &(RepoPathComponent, Option<TreeValue>, Option<TreeValue>)) -> (r: (
    RepoPathComponent,
    Option<TreeValue>,
    Option<TreeValue>,
))
    ensures
        r.0@ == item.0@,
        opt_owned_view(r.1) == opt_owned_view(item.1),
        opt_owned_view(r.2) == opt_owned_view(item.2),
{
    let name = item.0.clone();
    let before = match &item.1 {
        Some(v) => Some(v.clone()),
        None => None,
    };
    let after = match &item.2 {
        Some(v) => Some(v.clone()),
        None => None,
    };
    (name, before, after)
}

/// Merges the two tables' basename-sorted entry streams.
pub fn diff_entries(tree1: &Tree, tree2: &Tree) -> (r: TreeEntryDiffIterator)
    requires
        tree1.wf(),
        tree2.wf(),
    ensures
        r.remaining() == entry_diff_model(tree1@.data, tree2@.data),
{
    let e1 = tree1.entries_non_recursive();
    let e2 = tree2.entries_non_recursive();
    let ghost s1 = tree1@.data;
    let ghost s2 = tree2@.data;
    let mut items: Vec<(RepoPathComponent, Option<TreeValue>, Option<TreeValue>)> = Vec::new();
    let mut i: usize = 0;
    let mut j: usize = 0;
    proof {
        assert(s1.skip(0) =~= s1);
        assert(s2.skip(0) =~= s2);
    }
    while i < e1.len() || j < e2.len()
        invariant
            e1@.len() == s1.len(),
            e2@.len() == s2.len(),
            forall|k: int| 0 <= k < e1@.len() ==> (#[trigger] e1@[k])@ == s1[k],
            forall|k: int| 0 <= k < e2@.len() ==> (#[trigger] e2@[k])@ == s2[k],
            i <= s1.len(),
            j <= s2.len(),
            entry_diff_model(s1, s2) =~= diff_item_views(items@) + entry_diff_model(
                s1.skip(i as int),
                s2.skip(j as int),
            ),
        decreases s1.len() - i + s2.len() - j,
    {
        let ghost r1 = s1.skip(i as int);
        let ghost r2 = s2.skip(j as int);
        let ghost before_items = items@;
        proof {
            assert(r1.len() > 0 ==> r1[0] == s1[i as int]);
            assert(r2.len() > 0 ==> r2[0] == s2[j as int]);
            assert(r1.len() > 0 ==> r1.skip(1) =~= s1.skip(i + 1));
            assert(r2.len() > 0 ==> r2.skip(1) =~= s2.skip(j + 1));
        }
        if j == e2.len() || (i < e1.len() && bytes_lt(e1[i].name.as_bytes(), e2[j].name.as_bytes()))
         {
            items.push((e1[i].name.clone(), Some(e1[i].value.clone()), None));
            i = i + 1;
        } else if i == e1.len() || bytes_lt(e2[j].name.as_bytes(), e1[i].name.as_bytes()) {
            items.push((e2[j].name.clone(), None, Some(e2[j].value.clone())));
            j = j + 1;
        } else {
            proof {
                crate::hex::lemma_lex_trichotomy(s1[i as int].name, s2[j as int].name);
            }
            if !tree_value_eq(&e1[i].value, &e2[j].value) {
                items.push(
                    (e1[i].name.clone(), Some(e1[i].value.clone()), Some(e2[j].value.clone())),
                );
            }
            i = i + 1;
            j = j + 1;
        }
        proof {
            assert(diff_item_views(items@) =~= diff_item_views(before_items) + diff_item_views(
                items@,
            ).skip(before_items.len() as int));
        }
    }
    let r = TreeEntryDiffIterator { items, pos: 0 };
    proof {
        assert(r.remaining() =~= diff_item_views(r.items@));
        assert(entry_diff_model(s1.skip(s1.len() as int), s2.skip(s2.len() as int)).len() == 0);
        assert(r.remaining() =~= entry_diff_model(s1, s2));
    }
    r
}

} // verus!

verus! {

// ---------------------------------------------------------------------
// Conflict simplification
// ---------------------------------------------------------------------

/// The conflict stored under `id`, if the id is stored.
pub open spec fn stored_conflict(sv: StoreView, id: Seq<u8>) -> ConflictView {
    sv.conflicts[index_of_id(id) as int]
}

/// Flattening of the positive terms: a term that is itself a conflict
/// contributes its removes and adds; any other term stays positive.
pub open spec fn flatten_adds(sv: StoreView, adds: Seq<TreeValueView>) -> (
    Seq<TreeValueView>,
    Seq<TreeValueView>,
)
    decreases adds.len(),
{
    if adds.len() == 0 {
        (Seq::empty(), Seq::empty())
    } else {
        let prev = flatten_adds(sv, adds.drop_last());
        match adds.last() {
            TreeValueView::Conflict(id) => (
                prev.0 + stored_conflict(sv, id).removes,
                prev.1 + stored_conflict(sv, id).adds,
            ),
            _ => (prev.0, prev.1.push(adds.last())),
        }
    }
}

/// Flattening of the negative terms: a nested conflict contributes with
/// its sign inverted.
pub open spec fn flatten_removes(sv: StoreView, removes: Seq<TreeValueView>) -> (
    Seq<TreeValueView>,
    Seq<TreeValueView>,
)
    decreases removes.len(),
{
    if removes.len() == 0 {
        (Seq::empty(), Seq::empty())
    } else {
        let prev = flatten_removes(sv, removes.drop_last());
        match removes.last() {
            TreeValueView::Conflict(id) => (
                prev.0 + stored_conflict(sv, id).adds,
                prev.1 + stored_conflict(sv, id).removes,
            ),
            _ => (prev.0.push(removes.last()), prev.1),
        }
    }
}

/// The first index carrying `v`, or the length when absent.
pub open spec fn first_equal(s: Seq<TreeValueView>, v: TreeValueView) -> int
    decreases s.len(),
{
    if s.len() == 0 {
        0
    } else if s[0] == v {
        0
    } else {
        1 + first_equal(s.skip(1), v)
    }
}

pub proof fn lemma_first_equal(s: Seq<TreeValueView>, v: TreeValueView)
    ensures
        0 <= first_equal(s, v) <= s.len(),
        first_equal(s, v) < s.len() ==> s[first_equal(s, v)] == v,
        forall|j: int| 0 <= j < first_equal(s, v) ==> s[j] != v,
    decreases s.len(),
{
    if s.len() > 0 && s[0] != v {
        lemma_first_equal(s.skip(1), v);
        assert forall|j: int| 0 <= j < first_equal(s, v) implies s[j] != v by {
            if j > 0 {
                assert(s.skip(1)[j - 1] == s[j]);
                assert(s.skip(1)[j - 1] != v);
            }
        }
    }
}

/// Pair cancellation: each positive term in order cancels the first
/// equal negative term, if any.
pub open spec fn cancel_terms(removes: Seq<TreeValueView>, adds: Seq<TreeValueView>) -> (
    Seq<TreeValueView>,
    Seq<TreeValueView>,
)
    decreases adds.len(),
{
    if adds.len() == 0 {
        (removes, Seq::empty())
    } else {
        let j = first_equal(removes, adds[0]);
        if j < removes.len() {
            cancel_terms(removes.remove(j), adds.skip(1))
        } else {
            let rest = cancel_terms(removes, adds.skip(1));
            (rest.0, seq![adds[0]] + rest.1)
        }
    }
}

/// What simplification makes of a conflict: flatten nested conflicts,
/// then cancel matching pairs.
pub open spec fn simplify_model(sv: StoreView, c: ConflictView) -> ConflictView {
    let a = flatten_adds(sv, c.adds);
    let r = flatten_removes(sv, c.removes);
    let cancelled = cancel_terms(a.0 + r.0, a.1 + r.1);
    ConflictView { removes: cancelled.0, adds: cancelled.1 }
}

/// Every value a conflict's terms may hold, nested conflicts allowed.
pub open spec fn conflict_terms_valid(sv: StoreView, c: ConflictView) -> bool {
    &&& forall|i: int|
        0 <= i < c.removes.len() ==> value_ok(#[trigger] c.removes[i], sv, sv.trees.len() as int)
    &&& forall|i: int|
        0 <= i < c.adds.len() ==> value_ok(#[trigger] c.adds[i], sv, sv.trees.len() as int)
}

/// Cancellation only keeps terms of its inputs.
pub proof fn lemma_cancel_members(removes: Seq<TreeValueView>, adds: Seq<TreeValueView>)
    ensures
        forall|i: int|
            0 <= i < cancel_terms(removes, adds).0.len() ==> removes.contains(
                #[trigger] cancel_terms(removes, adds).0[i],
            ),
        forall|i: int|
            0 <= i < cancel_terms(removes, adds).1.len() ==> adds.contains(
                #[trigger] cancel_terms(removes, adds).1[i],
            ),
    decreases adds.len(),
{
    if adds.len() > 0 {
        let j = first_equal(removes, adds[0]);
        lemma_first_equal(removes, adds[0]);
        if j < removes.len() {
            lemma_cancel_members(removes.remove(j), adds.skip(1));
            assert(cancel_terms(removes, adds) == cancel_terms(removes.remove(j), adds.skip(1)));
            assert forall|i: int|
                0 <= i < cancel_terms(removes, adds).0.len() implies removes.contains(
                #[trigger] cancel_terms(removes, adds).0[i],
            ) by {
                let v = cancel_terms(removes, adds).0[i];
                assert(removes.remove(j).contains(v));
                let k = choose|k: int| 0 <= k < removes.remove(j).len() && removes.remove(j)[k] == v;
                if k < j {
                    assert(removes[k] == v);
                } else {
                    assert(removes[k + 1] == v);
                }
            }
            assert forall|i: int|
                0 <= i < cancel_terms(removes, adds).1.len() implies adds.contains(
                #[trigger] cancel_terms(removes, adds).1[i],
            ) by {
                let v = cancel_terms(removes, adds).1[i];
                assert(adds.skip(1).contains(v));
                let k = choose|k: int| 0 <= k < adds.skip(1).len() && adds.skip(1)[k] == v;
                assert(adds[k + 1] == v);
            }
        } else {
            lemma_cancel_members(removes, adds.skip(1));
            let rest = cancel_terms(removes, adds.skip(1));
            assert(cancel_terms(removes, adds) == (rest.0, seq![adds[0]] + rest.1));
            assert forall|i: int|
                0 <= i < cancel_terms(removes, adds).1.len() implies adds.contains(
                #[trigger] cancel_terms(removes, adds).1[i],
            ) by {
                let v = cancel_terms(removes, adds).1[i];
                if i == 0 {
                    assert(v == (seq![adds[0]] + rest.1)[0]);
                    assert(v == adds[0]);
                } else {
                    assert(v == (seq![adds[0]] + rest.1)[i]);
                    assert(rest.1[i - 1] == v);
                    assert(adds.skip(1).contains(v));
                    let k = choose|k: int|
                        0 <= k < adds.skip(1).len() && adds.skip(1)[k] == v;
                    assert(adds[k + 1] == v);
                }
            }
        }
    }
}

/// After cancellation no negative term equals a positive one.
pub proof fn lemma_cancel_no_pairs(removes: Seq<TreeValueView>, adds: Seq<TreeValueView>)
    ensures
        forall|i: int, j: int|
            0 <= i < cancel_terms(removes, adds).0.len() && 0 <= j < cancel_terms(
                removes,
                adds,
            ).1.len() ==> (#[trigger] cancel_terms(removes, adds).0[i]) != (#[trigger] cancel_terms(
                removes,
                adds,
            ).1[j]),
    decreases adds.len(),
{
    if adds.len() > 0 {
        let j0 = first_equal(removes, adds[0]);
        lemma_first_equal(removes, adds[0]);
        if j0 < removes.len() {
            lemma_cancel_no_pairs(removes.remove(j0), adds.skip(1));
            assert(cancel_terms(removes, adds) == cancel_terms(removes.remove(j0), adds.skip(1)));
        } else {
            lemma_cancel_no_pairs(removes, adds.skip(1));
            lemma_cancel_members(removes, adds.skip(1));
            let rest = cancel_terms(removes, adds.skip(1));
            assert(cancel_terms(removes, adds) == (rest.0, seq![adds[0]] + rest.1));
            let res = cancel_terms(removes, adds);
            assert forall|i: int, j: int|
                0 <= i < res.0.len() && 0 <= j < res.1.len() implies (#[trigger] res.0[i]) != (
            #[trigger] res.1[j]) by {
                assert(res.0 == rest.0);
                if j == 0 {
                    // adds[0] equals no remove at all, and res.0 keeps
                    // only removes
                    assert(res.1[0] == (seq![adds[0]] + rest.1)[0]);
                    assert(res.1[0] == adds[0]);
                    assert(removes.contains(res.0[i]));
                    let k = choose|k: int| 0 <= k < removes.len() && removes[k] == res.0[i];
                    assert(removes[k] != adds[0]);
                } else {
                    assert(res.0[i] == rest.0[i]);
                    assert(res.1[j] == (seq![adds[0]] + rest.1)[j]);
                    assert(res.1[j] == rest.1[j - 1]);
                }
            }
        }
    }
}

/// Cancellation leaves a conflict without equal pairs unchanged.
pub proof fn lemma_cancel_fixed(removes: Seq<TreeValueView>, adds: Seq<TreeValueView>)
    requires
        forall|i: int, j: int|
            0 <= i < removes.len() && 0 <= j < adds.len() ==> (#[trigger] removes[i]) != (
            #[trigger] adds[j]),
    ensures
        cancel_terms(removes, adds) == (removes, adds),
    decreases adds.len(),
{
    if adds.len() == 0 {
        assert(cancel_terms(removes, adds).1 =~= adds);
    } else {
        let j0 = first_equal(removes, adds[0]);
        lemma_first_equal(removes, adds[0]);
        if j0 < removes.len() {
            assert(removes[j0] == adds[0]);
            assert(false);
        }
        assert(forall|i: int, j: int|
            0 <= i < removes.len() && 0 <= j < adds.skip(1).len() ==> (#[trigger] removes[i]) != (
            #[trigger] adds.skip(1)[j]));
        lemma_cancel_fixed(removes, adds.skip(1));
        assert(cancel_terms(removes, adds).1 =~= adds);
    }
}

} // verus!

verus! {

/// Flattening produces terms that are not conflicts and reference
/// stored objects, provided the nested conflict ids are stored.
pub proof fn lemma_flatten_adds_ok(sv: StoreView, adds: Seq<TreeValueView>)
    requires
        store_wf(sv),
        forall|i: int| 0 <= i < adds.len() ==> value_ok(#[trigger] adds[i], sv, sv.trees.len() as int),
    ensures
        forall|i: int|
            0 <= i < flatten_adds(sv, adds).0.len() ==> !((#[trigger] flatten_adds(
                sv,
                adds,
            ).0[i]) is Conflict) && value_ok(flatten_adds(sv, adds).0[i], sv, sv.trees.len() as int),
        forall|i: int|
            0 <= i < flatten_adds(sv, adds).1.len() ==> !((#[trigger] flatten_adds(
                sv,
                adds,
            ).1[i]) is Conflict) && value_ok(flatten_adds(sv, adds).1[i], sv, sv.trees.len() as int),
    decreases adds.len(),
{
    if adds.len() > 0 {
        assert(forall|i: int|
            0 <= i < adds.drop_last().len() ==> (#[trigger] adds.drop_last()[i]) == adds[i]);
        lemma_flatten_adds_ok(sv, adds.drop_last());
        match adds.last() {
            TreeValueView::Conflict(id) => {
                assert(value_ok(adds.last(), sv, sv.trees.len() as int));
                assert(conflict_ok(stored_conflict(sv, id), sv));
            },
            _ => {},
        }
    }
}

/// The negative-terms counterpart of `lemma_flatten_adds_ok`.
pub proof fn lemma_flatten_removes_ok(sv: StoreView, removes: Seq<TreeValueView>)
    requires
        store_wf(sv),
        forall|i: int|
            0 <= i < removes.len() ==> value_ok(#[trigger] removes[i], sv, sv.trees.len() as int),
    ensures
        forall|i: int|
            0 <= i < flatten_removes(sv, removes).0.len() ==> !((#[trigger] flatten_removes(
                sv,
                removes,
            ).0[i]) is Conflict) && value_ok(
                flatten_removes(sv, removes).0[i],
                sv,
                sv.trees.len() as int,
            ),
        forall|i: int|
            0 <= i < flatten_removes(sv, removes).1.len() ==> !((#[trigger] flatten_removes(
                sv,
                removes,
            ).1[i]) is Conflict) && value_ok(
                flatten_removes(sv, removes).1[i],
                sv,
                sv.trees.len() as int,
            ),
    decreases removes.len(),
{
    if removes.len() > 0 {
        assert(forall|i: int|
            0 <= i < removes.drop_last().len() ==> (#[trigger] removes.drop_last()[i])
                == removes[i]);
        lemma_flatten_removes_ok(sv, removes.drop_last());
        match removes.last() {
            TreeValueView::Conflict(id) => {
                assert(value_ok(removes.last(), sv, sv.trees.len() as int));
                assert(conflict_ok(stored_conflict(sv, id), sv));
            },
            _ => {},
        }
    }
}

/// Flattening a conflict without nested conflict terms changes nothing.
pub proof fn lemma_flatten_flat(sv: StoreView, c: ConflictView)
    requires
        forall|i: int| 0 <= i < c.removes.len() ==> !((#[trigger] c.removes[i]) is Conflict),
        forall|i: int| 0 <= i < c.adds.len() ==> !((#[trigger] c.adds[i]) is Conflict),
    ensures
        flatten_adds(sv, c.adds).0 + flatten_removes(sv, c.removes).0 == c.removes,
        flatten_adds(sv, c.adds).1 + flatten_removes(sv, c.removes).1 == c.adds,
{
    lemma_flatten_conflict_free(sv, c.adds, true);
    lemma_flatten_conflict_free(sv, c.removes, false);
    assert(flatten_adds(sv, c.adds).0 + flatten_removes(sv, c.removes).0 =~= c.removes);
    assert(flatten_adds(sv, c.adds).1 + flatten_removes(sv, c.removes).1 =~= c.adds);
}

proof fn lemma_flatten_conflict_free(sv: StoreView, s: Seq<TreeValueView>, positive: bool)
    requires
        forall|i: int| 0 <= i < s.len() ==> !((#[trigger] s[i]) is Conflict),
    ensures
        positive ==> flatten_adds(sv, s).0 =~= Seq::<TreeValueView>::empty() && flatten_adds(
            sv,
            s,
        ).1 =~= s,
        !positive ==> flatten_removes(sv, s).0 =~= s && flatten_removes(sv, s).1 =~= Seq::<
            TreeValueView,
        >::empty(),
    decreases s.len(),
{
    if s.len() > 0 {
        assert(forall|i: int|
            0 <= i < s.drop_last().len() ==> (#[trigger] s.drop_last()[i]) == s[i]);
        lemma_flatten_conflict_free(sv, s.drop_last(), positive);
        assert(!(s.last() is Conflict));
    }
}

/// Simplification is a fixed point: applying it twice yields the same
/// conflict as applying it once.
pub proof fn lemma_simplify_idempotent(sv: StoreView, c: ConflictView)
    requires
        store_wf(sv),
        conflict_terms_valid(sv, c),
    ensures
        simplify_model(sv, simplify_model(sv, c)) == simplify_model(sv, c),
{
    let a = flatten_adds(sv, c.adds);
    let r = flatten_removes(sv, c.removes);
    lemma_flatten_adds_ok(sv, c.adds);
    lemma_flatten_removes_ok(sv, c.removes);
    let s1 = simplify_model(sv, c);
    lemma_cancel_members(a.0 + r.0, a.1 + r.1);
    assert forall|i: int| 0 <= i < s1.removes.len() implies !((#[trigger] s1.removes[i]) is Conflict)
    by {
        assert((a.0 + r.0).contains(s1.removes[i]));
        let k = choose|k: int| 0 <= k < (a.0 + r.0).len() && (a.0 + r.0)[k] == s1.removes[i];
        if k < a.0.len() {
            assert((a.0 + r.0)[k] == a.0[k]);
        } else {
            assert((a.0 + r.0)[k] == r.0[k - a.0.len()]);
        }
    }
    assert forall|i: int| 0 <= i < s1.adds.len() implies !((#[trigger] s1.adds[i]) is Conflict) by {
        assert((a.1 + r.1).contains(s1.adds[i]));
        let k = choose|k: int| 0 <= k < (a.1 + r.1).len() && (a.1 + r.1)[k] == s1.adds[i];
        if k < a.1.len() {
            assert((a.1 + r.1)[k] == a.1[k]);
        } else {
            assert((a.1 + r.1)[k] == r.1[k - a.1.len()]);
        }
    }
    lemma_flatten_flat(sv, s1);
    lemma_cancel_no_pairs(a.0 + r.0, a.1 + r.1);
    lemma_cancel_fixed(s1.removes, s1.adds);
    assert(simplify_model(sv, s1).removes =~= s1.removes);
    assert(simplify_model(sv, s1).adds =~= s1.adds);
}

/// Reads a value as a conflict: a persisted conflict is loaded, any
/// other value is a single positive term.
fn tree_value_to_conflict(store: &Store, path: &RepoPath, value: &TreeValue) -> (r: Result<
    Conflict,
    BackendError,
>)
    requires
        store_wf(store@),
        value_ok(value@, store@, store@.trees.len() as int),
    ensures
        match r {
            Ok(c) => match value@ {
                TreeValueView::Conflict(id) => c@ == stored_conflict(store@, id),
                _ => c@.removes.len() == 0 && c@.adds.len() == 1 && c@.adds[0] == value@,
            },
            Err(e) => false,
        },
{
    match value {
        TreeValue::Conflict(id) => {
            match store.read_conflict(path, id) {
                Ok(conflict) => Ok(conflict),
                Err(e) => Err(e),
            }
        },
        other => {
            let mut adds: Vec<ConflictTerm> = Vec::new();
            adds.push(ConflictTerm { value: other.clone() });
            let c = Conflict { removes: Vec::new(), adds };
            proof {
                assert(c@.adds =~= seq![value@]);
                assert(c@.removes =~= Seq::<TreeValueView>::empty());
            }
            Ok(c)
        },
    }
}

} // verus!

verus! {

/// A simplified conflict is fit for storage: terms are not conflicts
/// and reference stored objects.
pub proof fn lemma_simplify_ok(sv: StoreView, c: ConflictView)
    requires
        store_wf(sv),
        conflict_terms_valid(sv, c),
    ensures
        conflict_ok(simplify_model(sv, c), sv),
{
    let a = flatten_adds(sv, c.adds);
    let r = flatten_removes(sv, c.removes);
    lemma_flatten_adds_ok(sv, c.adds);
    lemma_flatten_removes_ok(sv, c.removes);
    let s1 = simplify_model(sv, c);
    lemma_cancel_members(a.0 + r.0, a.1 + r.1);
    assert forall|i: int| 0 <= i < s1.removes.len() implies !((#[trigger] s1.removes[i]) is Conflict)
        && value_ok(s1.removes[i], sv, sv.trees.len() as int) by {
        assert((a.0 + r.0).contains(s1.removes[i]));
        let k = choose|k: int| 0 <= k < (a.0 + r.0).len() && (a.0 + r.0)[k] == s1.removes[i];
        if k < a.0.len() {
            assert((a.0 + r.0)[k] == a.0[k]);
        } else {
            assert((a.0 + r.0)[k] == r.0[k - a.0.len()]);
        }
    }
    assert forall|i: int| 0 <= i < s1.adds.len() implies !((#[trigger] s1.adds[i]) is Conflict)
        && value_ok(s1.adds[i], sv, sv.trees.len() as int) by {
        assert((a.1 + r.1).contains(s1.adds[i]));
        let k = choose|k: int| 0 <= k < (a.1 + r.1).len() && (a.1 + r.1)[k] == s1.adds[i];
        if k < a.1.len() {
            assert((a.1 + r.1)[k] == a.1[k]);
        } else {
            assert((a.1 + r.1)[k] == r.1[k - a.1.len()]);
        }
    }
}

/// The views of a term vector.
pub open spec fn term_seq_views(s: Seq<ConflictTerm>) -> Seq<TreeValueView> {
    Seq::new(s.len(), |i: int| s[i]@)
}

/// Appends clones of every term of `src`.
fn extend_terms(dst: &mut Vec<ConflictTerm>, src: &Vec<ConflictTerm>)
    ensures
        term_seq_views(final(dst)@) == term_seq_views(old(dst)@) + term_seq_views(src@),
{
    let mut i: usize = 0;
    while i < src.len()
        invariant
            i <= src@.len(),
            term_seq_views(dst@) =~= term_seq_views(old(dst)@) + term_seq_views(
                src@.subrange(0, i as int),
            ),
        decreases src@.len() - i,
    {
        let ghost before = dst@;
        dst.push(src[i].clone());
        i = i + 1;
        proof {
            assert(term_seq_views(dst@) =~= term_seq_views(before).push(src@[i - 1]@));
            assert(term_seq_views(dst@) =~= term_seq_views(old(dst)@) + term_seq_views(
                src@.subrange(0, i as int),
            ));
        }
    }
    proof {
        assert(src@.subrange(0, src@.len() as int) =~= src@);
        assert(term_seq_views(final(dst)@) =~= term_seq_views(old(dst)@) + term_seq_views(src@));
    }
}

/// The first negative term equal to `a`, if any.
fn find_first_equal(removes: &Vec<ConflictTerm>, a: &TreeValue) -> (r: Option<usize>)
    ensures
        match r {
            Some(m) => m < removes@.len() && first_equal(term_seq_views(removes@), a@) == m,
            None => first_equal(term_seq_views(removes@), a@) == term_seq_views(removes@).len(),
        },
{
    let ghost cur = term_seq_views(removes@);
    proof {
        lemma_first_equal(cur, a@);
    }
    let n = removes.len();
    let mut m: usize = 0;
    loop
        invariant
            m <= n,
            n == cur.len(),
            cur == term_seq_views(removes@),
            forall|q: int| 0 <= q < m ==> (#[trigger] cur[q]) != a@,
            first_equal(cur, a@) >= m,
        decreases n - m,
    {
        proof {
            lemma_first_equal(cur, a@);
        }
        if m == n {
            return None;
        }
        if tree_value_eq(&removes[m].value, a) {
            proof {
                assert(cur[m as int] == a@);
                assert(first_equal(cur, a@) == m) by {
                    lemma_first_equal(cur, a@);
                    if first_equal(cur, a@) > m {
                        assert(cur[m as int] != a@);
                    }
                }
            }
            return Some(m);
        }
        proof {
            assert(first_equal(cur, a@) >= m + 1) by {
                lemma_first_equal(cur, a@);
                if first_equal(cur, a@) == m {
                    assert(cur[m as int] == a@);
                }
            }
        }
        m = m + 1;
    }
}

/// Simplifies a conflict: nested conflict terms are inlined (negated
/// on the negative side), then matching pairs of negative and positive
/// terms cancel.
pub fn simplify_conflict(store: &Store, path: &RepoPath, conflict: Conflict) -> (r: Result<
    Conflict,
    BackendError,
>)
    requires
        store_wf(store@),
        conflict_terms_valid(store@, conflict@),
    ensures
        match r {
            Ok(c) => c@ == simplify_model(store@, conflict@) && conflict_ok(c@, store@),
            Err(e) => false,
        },
{
    let ghost sv = store@;
    let ghost cv = conflict@;
    let mut new_removes: Vec<ConflictTerm> = Vec::new();
    let mut new_adds: Vec<ConflictTerm> = Vec::new();
    let mut i: usize = 0;
    proof {
        assert(cv.adds.subrange(0, 0) =~= Seq::<TreeValueView>::empty());
        assert(term_seq_views(new_removes@) =~= Seq::<TreeValueView>::empty());
        assert(term_seq_views(new_adds@) =~= Seq::<TreeValueView>::empty());
        assert(flatten_adds(sv, cv.adds.subrange(0, 0)).0 =~= Seq::<TreeValueView>::empty());
        assert(flatten_adds(sv, cv.adds.subrange(0, 0)).1 =~= Seq::<TreeValueView>::empty());
    }
    while i < conflict.adds.len()
        invariant
            store_wf(sv),
            sv == store@,
            cv == conflict@,
            conflict_terms_valid(sv, cv),
            i <= cv.adds.len(),
            conflict.adds@.len() == cv.adds.len(),
            term_seq_views(new_removes@) == flatten_adds(sv, cv.adds.subrange(0, i as int)).0,
            term_seq_views(new_adds@) == flatten_adds(sv, cv.adds.subrange(0, i as int)).1,
        decreases cv.adds.len() - i,
    {
        let ghost prefix = cv.adds.subrange(0, i as int);
        let ghost prefix2 = cv.adds.subrange(0, i + 1);
        proof {
            assert(prefix2.drop_last() =~= prefix);
            assert(prefix2.last() == cv.adds[i as int]);
            assert(conflict.adds@[i as int]@ == cv.adds[i as int]);
            assert(value_ok(cv.adds[i as int], sv, sv.trees.len() as int));
        }
        let term_value = &conflict.adds[i].value;
        match term_value {
            TreeValue::Conflict(id) => {
                match store.read_conflict(path, id) {
                    Ok(inner) => {
                        proof {
                            assert(inner@ == stored_conflict(sv, id@));
                        }
                        let ghost rb = term_seq_views(new_removes@);
                        let ghost ab = term_seq_views(new_adds@);
                        extend_terms(&mut new_removes, &inner.removes);
                        extend_terms(&mut new_adds, &inner.adds);
                        proof {
                            assert(term_seq_views(inner.removes@) =~= inner@.removes);
                            assert(term_seq_views(inner.adds@) =~= inner@.adds);
                            assert(term_seq_views(new_removes@) == rb + stored_conflict(
                                sv,
                                id@,
                            ).removes);
                            assert(term_seq_views(new_adds@) == ab + stored_conflict(sv, id@).adds);
                        }
                    },
                    Err(e) => {
                        proof {
                            assert(false);
                        }
                        return Err(e);
                    },
                }
            },
            other => {
                let ghost ab = term_seq_views(new_adds@);
                new_adds.push(ConflictTerm { value: other.clone() });
                proof {
                    assert(term_seq_views(new_adds@) =~= ab.push(cv.adds[i as int]));
                }
            },
        }
        i = i + 1;
    }
    proof {
        assert(cv.adds.subrange(0, cv.adds.len() as int) =~= cv.adds);
    }
    let ghost fa = flatten_adds(sv, cv.adds);
    let mut j: usize = 0;
    proof {
        assert(cv.removes.subrange(0, 0) =~= Seq::<TreeValueView>::empty());
        assert(flatten_removes(sv, cv.removes.subrange(0, 0)).0 =~= Seq::<TreeValueView>::empty());
        assert(flatten_removes(sv, cv.removes.subrange(0, 0)).1 =~= Seq::<TreeValueView>::empty());
        assert(term_seq_views(new_removes@) =~= fa.0 + flatten_removes(
            sv,
            cv.removes.subrange(0, 0),
        ).0);
        assert(term_seq_views(new_adds@) =~= fa.1 + flatten_removes(
            sv,
            cv.removes.subrange(0, 0),
        ).1);
    }
    while j < conflict.removes.len()
        invariant
            store_wf(sv),
            sv == store@,
            cv == conflict@,
            conflict_terms_valid(sv, cv),
            j <= cv.removes.len(),
            conflict.removes@.len() == cv.removes.len(),
            fa == flatten_adds(sv, cv.adds),
            term_seq_views(new_removes@) == fa.0 + flatten_removes(
                sv,
                cv.removes.subrange(0, j as int),
            ).0,
            term_seq_views(new_adds@) == fa.1 + flatten_removes(
                sv,
                cv.removes.subrange(0, j as int),
            ).1,
        decreases cv.removes.len() - j,
    {
        let ghost prefix = cv.removes.subrange(0, j as int);
        let ghost prefix2 = cv.removes.subrange(0, j + 1);
        proof {
            assert(prefix2.drop_last() =~= prefix);
            assert(prefix2.last() == cv.removes[j as int]);
            assert(conflict.removes@[j as int]@ == cv.removes[j as int]);
            assert(value_ok(cv.removes[j as int], sv, sv.trees.len() as int));
        }
        let term_value = &conflict.removes[j].value;
        match term_value {
            TreeValue::Conflict(id) => {
                match store.read_conflict(path, id) {
                    Ok(inner) => {
                        let ghost rb = term_seq_views(new_removes@);
                        let ghost ab = term_seq_views(new_adds@);
                        extend_terms(&mut new_removes, &inner.adds);
                        extend_terms(&mut new_adds, &inner.removes);
                        proof {
                            assert(term_seq_views(inner.removes@) =~= inner@.removes);
                            assert(term_seq_views(inner.adds@) =~= inner@.adds);
                            assert(term_seq_views(new_removes@) == rb + stored_conflict(
                                sv,
                                id@,
                            ).adds);
                            assert(term_seq_views(new_adds@) == ab + stored_conflict(
                                sv,
                                id@,
                            ).removes);
                            assert(term_seq_views(new_removes@) =~= fa.0 + flatten_removes(
                                sv,
                                prefix2,
                            ).0);
                            assert(term_seq_views(new_adds@) =~= fa.1 + flatten_removes(
                                sv,
                                prefix2,
                            ).1);
                        }
                    },
                    Err(e) => {
                        proof {
                            assert(false);
                        }
                        return Err(e);
                    },
                }
            },
            other => {
                let ghost rb = term_seq_views(new_removes@);
                new_removes.push(ConflictTerm { value: other.clone() });
                proof {
                    assert(term_seq_views(new_removes@) =~= rb.push(cv.removes[j as int]));
                    assert(term_seq_views(new_removes@) =~= fa.0 + flatten_removes(sv, prefix2).0);
                    assert(term_seq_views(new_adds@) =~= fa.1 + flatten_removes(sv, prefix2).1);
                }
            },
        }
        j = j + 1;
    }
    proof {
        assert(cv.removes.subrange(0, cv.removes.len() as int) =~= cv.removes);
    }
    let ghost nr0 = term_seq_views(new_removes@);
    let ghost na0 = term_seq_views(new_adds@);
    // cancel matching pairs: each positive term in order removes the
    // first equal negative term
    let mut kept: Vec<ConflictTerm> = Vec::new();
    let mut k: usize = 0;
    let total = new_adds.len();
    proof {
        assert(na0.skip(0) =~= na0);
        assert(term_seq_views(kept@) =~= Seq::<TreeValueView>::empty());
        assert(Seq::<TreeValueView>::empty() + cancel_terms(nr0, na0).1 =~= cancel_terms(
            nr0,
            na0,
        ).1);
    }
    while k < total
        invariant
            k <= total,
            total == na0.len(),
            new_adds@.len() == na0.len(),
            term_seq_views(new_adds@) == na0,
            cancel_terms(nr0, na0).0 == cancel_terms(
                term_seq_views(new_removes@),
                na0.skip(k as int),
            ).0,
            cancel_terms(nr0, na0).1 == term_seq_views(kept@) + cancel_terms(
                term_seq_views(new_removes@),
                na0.skip(k as int),
            ).1,
        decreases total - k,
    {
        let ghost cur = term_seq_views(new_removes@);
        let ghost rest = na0.skip(k as int);
        proof {
            assert(rest[0] == na0[k as int]);
            assert(rest.skip(1) =~= na0.skip(k + 1));
            lemma_first_equal(cur, rest[0]);
        }
        let a = &new_adds[k].value;
        let hit = find_first_equal(&new_removes, a);
        match hit {
            Some(m) => {
                proof {
                    assert(first_equal(cur, rest[0]) == m);
                }
                new_removes.remove(m);
                proof {
                    assert(term_seq_views(new_removes@) =~= cur.remove(m as int));
                }
            },
            None => {
                proof {
                    assert(first_equal(cur, rest[0]) == cur.len());
                }
                let ghost kb = term_seq_views(kept@);
                kept.push(ConflictTerm { value: a.clone() });
                proof {
                    assert(term_seq_views(kept@) =~= kb.push(rest[0]));
                    let inner = cancel_terms(cur, rest.skip(1));
                    assert(cancel_terms(cur, rest) == (inner.0, seq![rest[0]] + inner.1));
                    assert(kb + cancel_terms(cur, rest).1 =~= term_seq_views(kept@) + inner.1);
                }
            },
        }
        k = k + 1;
    }
    proof {
        assert(na0.skip(na0.len() as int).len() == 0);
        assert(cancel_terms(term_seq_views(new_removes@), na0.skip(na0.len() as int))
            == (term_seq_views(new_removes@), Seq::<TreeValueView>::empty()));
        assert(cancel_terms(nr0, na0).0 == term_seq_views(new_removes@));
        assert(cancel_terms(nr0, na0).1 =~= term_seq_views(kept@));
    }
    let result = Conflict { removes: new_removes, adds: kept };
    proof {
        assert(result@.removes =~= cancel_terms(nr0, na0).0);
        assert(result@.adds =~= cancel_terms(nr0, na0).1);
        assert(result@ == simplify_model(sv, cv));
        lemma_simplify_ok(sv, cv);
    }
    Ok(result)
}

} // verus!

verus! {

// ---------------------------------------------------------------------
// Three-way merge
// ---------------------------------------------------------------------

/// Whether every term is a regular file.
pub open spec fn all_files(terms: Seq<TreeValueView>) -> bool {
    forall|i: int| 0 <= i < terms.len() ==> (#[trigger] terms[i]) is File
}

/// How many terms are executable files.
pub open spec fn count_executable(terms: Seq<TreeValueView>) -> int
    decreases terms.len(),
{
    if terms.len() == 0 {
        0
    } else {
        (match terms.last() {
            TreeValueView::File { id, executable } => if executable {
                1int
            } else {
                0int
            },
            _ => 0int,
        }) + count_executable(terms.drop_last())
    }
}

/// The stored content of each file term.
pub open spec fn term_contents(sv: StoreView, terms: Seq<TreeValueView>) -> Seq<Seq<u8>> {
    Seq::new(terms.len(), |i: int| sv.files[index_of_id(terms[i]->File_id) as int])
}

/// What resolving a file conflict yields: the executable bit by net
/// majority, the content by the whole-file merge; `None` when the
/// terms are not all files, the counts do not allow a merge, the bit is
/// undecided, or the contents conflict.
pub open spec fn try_resolve_model(sv: StoreView, c: ConflictView) -> Option<(Seq<u8>, bool)> {
    if c.adds.len() != c.removes.len() + 1 {
        None
    } else if !all_files(c.removes) || !all_files(c.adds) {
        None
    } else {
        let exec_delta = count_executable(c.adds) - count_executable(c.removes);
        let regular_delta = (c.adds.len() - count_executable(c.adds)) - (c.removes.len()
            - count_executable(c.removes));
        if exec_delta > 0 && regular_delta <= 0 {
            match fold_merge(
                term_contents(sv, c.adds)[0],
                term_contents(sv, c.removes),
                term_contents(sv, c.adds).skip(1),
            ) {
                Some(content) => Some((content, true)),
                None => None,
            }
        } else if regular_delta > 0 && exec_delta <= 0 {
            match fold_merge(
                term_contents(sv, c.adds)[0],
                term_contents(sv, c.removes),
                term_contents(sv, c.adds).skip(1),
            ) {
                Some(content) => Some((content, false)),
                None => None,
            }
        } else {
            None
        }
    }
}

/// Attempts to resolve a conflict whose terms are all regular files by
/// merging the contents.
pub fn try_resolve_file_conflict(store: &Store, filename: &RepoPath, conflict: &Conflict) -> (r:
    Result<Option<(Vec<u8>, bool)>, TreeMergeError>)
    requires
        store_wf(store@),
        conflict_ok(conflict@, store@),
    ensures
        match r {
            Ok(res) => match (res, try_resolve_model(store@, conflict@)) {
                (Some((content, executable)), Some(m)) => content@ == m.0 && executable == m.1,
                (None, None) => true,
                _ => false,
            },
            Err(e) => false,
        },
{
    let ghost sv = store@;
    let ghost cv = conflict@;
    if conflict.adds.len() == 0 || conflict.adds.len() - 1 != conflict.removes.len() {
        return Ok(None);
    }
    // check the terms and classify the executable bits
    let mut exec_removes: usize = 0;
    let mut removed_ids: Vec<FileId> = Vec::new();
    let mut i: usize = 0;
    while i < conflict.removes.len()
        invariant
            cv == conflict@,
            i <= cv.removes.len(),
            conflict.removes@.len() == cv.removes.len(),
            forall|j: int| 0 <= j < i ==> (#[trigger] cv.removes[j]) is File,
            exec_removes == count_executable(cv.removes.subrange(0, i as int)),
            exec_removes <= i,
            removed_ids@.len() == i,
            forall|j: int|
                0 <= j < i ==> (#[trigger] removed_ids@[j])@ == cv.removes[j]->File_id,
        decreases cv.removes.len() - i,
    {
        let ghost prefix2 = cv.removes.subrange(0, i + 1);
        proof {
            assert(prefix2.drop_last() =~= cv.removes.subrange(0, i as int));
            assert(prefix2.last() == cv.removes[i as int]);
        }
        match &conflict.removes[i].value {
            TreeValue::File { id, executable } => {
                if *executable {
                    exec_removes = exec_removes + 1;
                }
                removed_ids.push(id.clone());
            },
            _ => {
                return Ok(None);
            },
        }
        i = i + 1;
    }
    let mut exec_adds: usize = 0;
    let mut added_ids: Vec<FileId> = Vec::new();
    let mut k: usize = 0;
    while k < conflict.adds.len()
        invariant
            cv == conflict@,
            k <= cv.adds.len(),
            conflict.adds@.len() == cv.adds.len(),
            forall|j: int| 0 <= j < k ==> (#[trigger] cv.adds[j]) is File,
            exec_adds == count_executable(cv.adds.subrange(0, k as int)),
            exec_adds <= k,
            added_ids@.len() == k,
            forall|j: int| 0 <= j < k ==> (#[trigger] added_ids@[j])@ == cv.adds[j]->File_id,
        decreases cv.adds.len() - k,
    {
        let ghost prefix2 = cv.adds.subrange(0, k + 1);
        proof {
            assert(prefix2.drop_last() =~= cv.adds.subrange(0, k as int));
            assert(prefix2.last() == cv.adds[k as int]);
        }
        match &conflict.adds[k].value {
            TreeValue::File { id, executable } => {
                if *executable {
                    exec_adds = exec_adds + 1;
                }
                added_ids.push(id.clone());
            },
            _ => {
                return Ok(None);
            },
        }
        k = k + 1;
    }
    proof {
        assert(cv.removes.subrange(0, cv.removes.len() as int) =~= cv.removes);
        assert(cv.adds.subrange(0, cv.adds.len() as int) =~= cv.adds);
        lemma_count_executable_bounds(cv.removes);
        lemma_count_executable_bounds(cv.adds);
    }
    // the executable bit resolves only by a clear net majority
    let regular_removes = conflict.removes.len() - exec_removes;
    let regular_adds = conflict.adds.len() - exec_adds;
    let executable = if exec_adds > exec_removes && regular_adds <= regular_removes {
        true
    } else if regular_adds > regular_removes && exec_adds <= exec_removes {
        false
    } else {
        return Ok(None);
    };
    // read all contents and hand them to the content merger
    let mut removed_contents: Vec<Vec<u8>> = Vec::new();
    let mut m: usize = 0;
    while m < removed_ids.len()
        invariant
            store_wf(sv),
            sv == store@,
            cv == conflict@,
            conflict_ok(cv, sv),
            removed_ids@.len() == cv.removes.len(),
            forall|j: int|
                0 <= j < cv.removes.len() ==> (#[trigger] removed_ids@[j])@ == cv.removes[j]->File_id,
            forall|j: int| 0 <= j < cv.removes.len() ==> (#[trigger] cv.removes[j]) is File,
            m <= cv.removes.len(),
            removed_contents@.len() == m,
            forall|j: int|
                0 <= j < m ==> (#[trigger] removed_contents@[j])@ == term_contents(sv, cv.removes)[j],
        decreases removed_ids@.len() - m,
    {
        proof {
            assert(value_ok(cv.removes[m as int], sv, sv.trees.len() as int));
        }
        match store.read_file(filename, &removed_ids[m]) {
            Ok(content) => {
                removed_contents.push(content);
            },
            Err(_) => {
                proof {
                    assert(false);
                }
                return Err(TreeMergeError::ReadError { file_id: removed_ids.remove(m) });
            },
        }
        m = m + 1;
    }
    let mut added_contents: Vec<Vec<u8>> = Vec::new();
    let mut q: usize = 0;
    while q < added_ids.len()
        invariant
            store_wf(sv),
            sv == store@,
            cv == conflict@,
            conflict_ok(cv, sv),
            added_ids@.len() == cv.adds.len(),
            forall|j: int|
                0 <= j < cv.adds.len() ==> (#[trigger] added_ids@[j])@ == cv.adds[j]->File_id,
            forall|j: int| 0 <= j < cv.adds.len() ==> (#[trigger] cv.adds[j]) is File,
            q <= cv.adds.len(),
            added_contents@.len() == q,
            forall|j: int|
                0 <= j < q ==> (#[trigger] added_contents@[j])@ == term_contents(sv, cv.adds)[j],
        decreases added_ids@.len() - q,
    {
        proof {
            assert(value_ok(cv.adds[q as int], sv, sv.trees.len() as int));
        }
        match store.read_file(filename, &added_ids[q]) {
            Ok(content) => {
                added_contents.push(content);
            },
            Err(_) => {
                proof {
                    assert(false);
                }
                return Err(TreeMergeError::ReadError { file_id: added_ids.remove(q) });
            },
        }
        q = q + 1;
    }
    proof {
        assert(crate::files::views_of(removed_contents@) =~= term_contents(sv, cv.removes));
        assert(crate::files::views_of(added_contents@) =~= term_contents(sv, cv.adds));
        assert(crate::files::views_of(added_contents@).skip(1) =~= term_contents(
            sv,
            cv.adds,
        ).skip(1));
        assert(added_contents@[0]@ == term_contents(sv, cv.adds)[0]);
    }
    match crate::files::merge(&removed_contents, &added_contents) {
        MergeResult::Resolved(content) => Ok(Some((content, executable))),
        MergeResult::Conflict => Ok(None),
    }
}

/// Executable terms never outnumber the terms.
proof fn lemma_count_executable_bounds(terms: Seq<TreeValueView>)
    ensures
        0 <= count_executable(terms) <= terms.len(),
    decreases terms.len(),
{
    if terms.len() > 0 {
        lemma_count_executable_bounds(terms.drop_last());
    }
}

} // verus!

verus! {

/// The value is a subtree or absent; absence stands for the empty tree.
pub open spec fn tree_or_empty(v: Option<TreeValueView>) -> bool {
    match v {
        None => true,
        Some(TreeValueView::Tree(id)) => true,
        _ => false,
    }
}

/// The table position a value's subtree occupies; absent or non-tree
/// values weigh nothing.
pub open spec fn opt_tree_measure(v: Option<TreeValueView>) -> int {
    match v {
        Some(TreeValueView::Tree(id)) => index_of_id(id) as int,
        _ => 0,
    }
}

/// The value references stored objects, if present.
pub open spec fn opt_value_ok(v: Option<TreeValueView>, sv: StoreView) -> bool {
    match v {
        Some(x) => value_ok(x, sv, sv.trees.len() as int),
        None => true,
    }
}

/// The entry table a subtree-or-absent value denotes: the stored table
/// of a `Tree` value, the empty table otherwise.
pub open spec fn subtree_table_of(sv: StoreView, v: Option<TreeValueView>) -> Seq<TreeEntryView> {
    match v {
        Some(TreeValueView::Tree(id)) => sv.trees[index_of_id(id) as int],
        _ => Seq::empty(),
    }
}

/// The conflict seeded from the three sides: the base negative, each
/// present side positive.
pub open spec fn conflict_of_options(
    b: Option<TreeValueView>,
    s1: Option<TreeValueView>,
    s2: Option<TreeValueView>,
) -> ConflictView {
    let removes = match b {
        Some(v) => seq![v],
        None => Seq::empty(),
    };
    let from1 = match s1 {
        Some(v) => seq![v],
        None => Seq::empty(),
    };
    let from2 = match s2 {
        Some(v) => seq![v],
        None => Seq::empty(),
    };
    ConflictView { removes, adds: from1 + from2 }
}

/// A present side of a diff entry is an entry value of that table.
pub proof fn lemma_entry_diff_member(s1: Seq<TreeEntryView>, s2: Seq<TreeEntryView>, i: int)
    requires
        0 <= i < entry_diff_model(s1, s2).len(),
    ensures
        entry_diff_model(s1, s2)[i].1 matches Some(v) ==> exists|e: int|
            0 <= e < s1.len() && (#[trigger] s1[e]).name == entry_diff_model(s1, s2)[i].0
                && s1[e].value == entry_diff_model(s1, s2)[i].1->Some_0,
        entry_diff_model(s1, s2)[i].2 matches Some(v) ==> exists|e: int|
            0 <= e < s2.len() && (#[trigger] s2[e]).name == entry_diff_model(s1, s2)[i].0
                && s2[e].value == entry_diff_model(s1, s2)[i].2->Some_0,
    decreases s1.len() + s2.len(),
{
    let m = entry_diff_model(s1, s2);
    if s1.len() == 0 && s2.len() == 0 {
    } else if s2.len() == 0 || (s1.len() > 0 && lex_lt(s1[0].name, s2[0].name)) {
        if i == 0 {
            assert(s1[0].name == m[0].0 && s1[0].value == m[0].1->Some_0);
        } else {
            lemma_entry_diff_member(s1.skip(1), s2, i - 1);
            assert(s2.skip(0) =~= s2);
            lemma_diff_member_step(s1.skip(1), s2, s1, s2, m, i, 1, 0);
        }
    } else if s1.len() == 0 || (s2.len() > 0 && lex_lt(s2[0].name, s1[0].name)) {
        if i == 0 {
            assert(s2[0].name == m[0].0 && s2[0].value == m[0].2->Some_0);
        } else {
            lemma_entry_diff_member(s1, s2.skip(1), i - 1);
            assert(s1.skip(0) =~= s1);
            lemma_diff_member_step(s1, s2.skip(1), s1, s2, m, i, 0, 1);
        }
    } else if s1[0].value != s2[0].value {
        if i == 0 {
            crate::hex::lemma_lex_trichotomy(s1[0].name, s2[0].name);
            assert(s1[0].name == m[0].0 && s1[0].value == m[0].1->Some_0);
            assert(s2[0].name == m[0].0 && s2[0].value == m[0].2->Some_0);
        } else {
            lemma_entry_diff_member(s1.skip(1), s2.skip(1), i - 1);
            lemma_diff_member_step(s1.skip(1), s2.skip(1), s1, s2, m, i, 1, 1);
        }
    } else {
        lemma_entry_diff_member(s1.skip(1), s2.skip(1), i);
        let mt = entry_diff_model(s1.skip(1), s2.skip(1));
        assert(m == mt);
        if m[i].1 is Some {
            let e = choose|e: int|
                0 <= e < s1.skip(1).len() && (#[trigger] s1.skip(1)[e]).name == mt[i].0 && s1.skip(
                    1,
                )[e].value == mt[i].1->Some_0;
            assert(s1[e + 1] == s1.skip(1)[e]);
        }
        if m[i].2 is Some {
            let e = choose|e: int|
                0 <= e < s2.skip(1).len() && (#[trigger] s2.skip(1)[e]).name == mt[i].0 && s2.skip(
                    1,
                )[e].value == mt[i].2->Some_0;
            assert(s2[e + 1] == s2.skip(1)[e]);
        }
    }
}

/// Lifts membership witnesses from a tail diff back to the full tables.
proof fn lemma_diff_member_step(
    t1: Seq<TreeEntryView>,
    t2: Seq<TreeEntryView>,
    s1: Seq<TreeEntryView>,
    s2: Seq<TreeEntryView>,
    m: Seq<(Seq<u8>, Option<TreeValueView>, Option<TreeValueView>)>,
    i: int,
    d1: int,
    d2: int,
)
    requires
        0 <= d1 <= 1 && 0 <= d2 <= 1,
        d1 <= s1.len() && d2 <= s2.len(),
        t1 == s1.skip(d1),
        t2 == s2.skip(d2),
        1 <= i < m.len(),
        m == seq![m[0]] + entry_diff_model(t1, t2),
        entry_diff_model(t1, t2)[i - 1].1 matches Some(v) ==> exists|e: int|
            0 <= e < t1.len() && (#[trigger] t1[e]).name == entry_diff_model(t1, t2)[i - 1].0 && t1[e].value
                == entry_diff_model(t1, t2)[i - 1].1->Some_0,
        entry_diff_model(t1, t2)[i - 1].2 matches Some(v) ==> exists|e: int|
            0 <= e < t2.len() && (#[trigger] t2[e]).name == entry_diff_model(t1, t2)[i - 1].0 && t2[e].value
                == entry_diff_model(t1, t2)[i - 1].2->Some_0,
    ensures
        m[i].1 matches Some(v) ==> exists|e: int|
            0 <= e < s1.len() && (#[trigger] s1[e]).name == m[i].0 && s1[e].value == m[i].1->Some_0,
        m[i].2 matches Some(v) ==> exists|e: int|
            0 <= e < s2.len() && (#[trigger] s2[e]).name == m[i].0 && s2[e].value == m[i].2->Some_0,
{
    let mt = entry_diff_model(t1, t2);
    assert(m[i] == mt[i - 1]);
    if m[i].1 is Some {
        let e = choose|e: int|
            0 <= e < t1.len() && (#[trigger] t1[e]).name == mt[i - 1].0 && t1[e].value == mt[i
                - 1].1->Some_0;
        assert(s1[e + d1] == t1[e]);
    }
    if m[i].2 is Some {
        let e = choose|e: int|
            0 <= e < t2.len() && (#[trigger] t2[e]).name == mt[i - 1].0 && t2[e].value == mt[i
                - 1].2->Some_0;
        assert(s2[e + d2] == t2[e]);
    }
}

/// A non-empty valid table is stored above the empty tree.
pub proof fn lemma_nonempty_tree_bound(sv: StoreView, t: TreeView)
    requires
        store_wf(sv),
        valid_tree(sv, t),
        t.data.len() > 0,
    ensures
        tree_bound(t) >= 1,
        t.id.len() == 8,
{
    if index_of_id(t.id) == 0 {
        assert(t.data == sv.trees[0]);
    }
}

/// `Some(id)` when the value is a subtree or missing; a missing value
/// counts as the empty tree.
fn maybe_tree_id<'a>(value: Option<&'a TreeValue>, empty_tree_id: &'a TreeId) -> (r: Option<
    &'a TreeId,
>)
    ensures
        match opt_value_view(value) {
            Some(TreeValueView::Tree(id)) => r is Some && r->Some_0@ == id,
            None => r is Some && r->Some_0@ == empty_tree_id@,
            _ => r is None,
        },
{
    match value {
        Some(TreeValue::Tree(id)) => Some(id),
        None => Some(empty_tree_id),
        _ => None,
    }
}

/// Snapshots sharing an id share an entry table.
proof fn lemma_same_id_same_table(sv: StoreView, a: TreeView, b: TreeView)
    requires
        valid_tree(sv, a),
        valid_tree(sv, b),
        a.id == b.id,
    ensures
        a.data == b.data,
{
    if a.id.len() == 0 {
        assert(a.data =~= b.data);
    }
}

/// A valid snapshot's table is the stored table of its id, or empty
/// when the id is empty.
proof fn lemma_shortcut_table(sv: StoreView, t: TreeView)
    requires
        valid_tree(sv, t),
    ensures
        t.id.len() == 8 ==> sv.trees[index_of_id(t.id) as int] == t.data,
        t.id.len() == 0 ==> t.data =~= Seq::<TreeEntryView>::empty(),
{
}

/// Merges `side1` and `side2` relative to `base`, three snapshots of
/// one directory, and returns the merged tree's id.  If a side equals
/// the base the other side wins; otherwise the merge walks the entries
/// that base and `side2` disagree on and combines them value by value.
pub fn merge_trees(store: &mut Store, side1_tree: &Tree, base_tree: &Tree, side2_tree: &Tree) -> (r:
    Result<TreeId, TreeMergeError>)
    requires
        store_wf(old(store)@),
        valid_tree(old(store)@, side1_tree@),
        valid_tree(old(store)@, base_tree@),
        valid_tree(old(store)@, side2_tree@),
        side1_tree@.dir == base_tree@.dir,
        side2_tree@.dir == base_tree@.dir,
    ensures
        store_wf(final(store)@),
        store_extends(final(store)@, old(store)@),
        r is Ok,
        base_tree@.id == side1_tree@.id ==> r->Ok_0@ == side2_tree@.id,
        base_tree@.id != side1_tree@.id && (base_tree@.id == side2_tree@.id || side1_tree@.id
            == side2_tree@.id) ==> r->Ok_0@ == side1_tree@.id,
        r->Ok_0@.len() == 0 || (r->Ok_0@.len() == 8 && index_of_id(r->Ok_0@) < final(store)@.trees.len()),
        side1_tree@.id.len() == 8 && base_tree@.id.len() == 8 && side2_tree@.id.len() == 8
            ==> r->Ok_0@.len() == 8,
        // where base and side 2 agree, the merge keeps side 1's entry;
        // where base and side 1 agree, it adopts side 2's; an empty
        // result id denotes the empty table
        r->Ok_0@.len() == 8 ==> {
            &&& (forall|n: Seq<u8>|
                lookup(base_tree@.data, n) == lookup(side2_tree@.data, n) ==> #[trigger] lookup(
                    final(store)@.trees[index_of_id(r->Ok_0@) as int],
                    n,
                ) == lookup(side1_tree@.data, n))
            &&& (forall|n: Seq<u8>|
                lookup(side1_tree@.data, n) == lookup(base_tree@.data, n) ==> #[trigger] lookup(
                    final(store)@.trees[index_of_id(r->Ok_0@) as int],
                    n,
                ) == lookup(side2_tree@.data, n))
        },
        r->Ok_0@.len() == 0 ==> {
            &&& (forall|n: Seq<u8>|
                lookup(base_tree@.data, n) == lookup(side2_tree@.data, n) ==> #[trigger] lookup(
                    side1_tree@.data,
                    n,
                ) is None)
            &&& (forall|n: Seq<u8>|
                lookup(side1_tree@.data, n) == lookup(base_tree@.data, n) ==> #[trigger] lookup(
                    side2_tree@.data,
                    n,
                ) is None)
        },
        // where the three sides pairwise differ, the stored entry is the
        // per-value merge outcome
        !(base_tree@.id == side1_tree@.id || base_tree@.id == side2_tree@.id || side1_tree@.id
            == side2_tree@.id) ==> (forall|n: Seq<u8>|
            lookup(side1_tree@.data, n) != lookup(base_tree@.data, n) && lookup(
                side1_tree@.data,
                n,
            ) != lookup(side2_tree@.data, n) && lookup(base_tree@.data, n) != lookup(
                side2_tree@.data,
                n,
            ) ==> #[trigger] merged_entry_ok(
                old(store)@,
                final(store)@,
                lookup(base_tree@.data, n),
                lookup(side1_tree@.data, n),
                lookup(side2_tree@.data, n),
                lookup(final(store)@.trees[index_of_id(r->Ok_0@) as int], n),
            )),
    decreases
            tree_bound(base_tree@) + tree_bound(side1_tree@) + tree_bound(side2_tree@),
            0int,
{
    let dir = base_tree.dir();
    if bytes_eq(base_tree.id().as_bytes(), side1_tree.id().as_bytes()) {
        proof {
            lemma_same_id_same_table(old(store)@, base_tree@, side1_tree@);
            lemma_shortcut_table(old(store)@, side2_tree@);
        }
        return Ok(side2_tree.id().clone());
    }
    if bytes_eq(base_tree.id().as_bytes(), side2_tree.id().as_bytes()) || bytes_eq(
        side1_tree.id().as_bytes(),
        side2_tree.id().as_bytes(),
    ) {
        proof {
            if base_tree@.id == side2_tree@.id {
                lemma_same_id_same_table(old(store)@, base_tree@, side2_tree@);
            } else {
                lemma_same_id_same_table(old(store)@, side1_tree@, side2_tree@);
            }
            lemma_shortcut_table(old(store)@, side1_tree@);
        }
        return Ok(side1_tree.id().clone());
    }
    proof {
        lemma_valid_tree_sorted(old(store)@, side1_tree@);
        lemma_valid_tree_sorted(old(store)@, base_tree@);
        lemma_valid_tree_sorted(old(store)@, side2_tree@);
    }
    // start from side 1 and fold in the changes from base to side 2
    let mut new_tree = side1_tree.data().clone();
    let mut it = diff_entries(base_tree, side2_tree);
    let ghost model = entry_diff_model(base_tree@.data, side2_tree@.data);
    let ghost sv0 = old(store)@;
    let ghost mut gk: int = 0;
    proof {
        assert(model.skip(0) =~= model);
        assert(it.remaining() == model.skip(0));
        lemma_entry_diff_names_ascending(base_tree@.data, side2_tree@.data);
        assert forall|name: Seq<u8>| (#[trigger] lookup(new_tree@, name)) is Some implies
            value_ok(lookup(new_tree@, name)->Some_0, store@, store@.trees.len() as int) by {
            crate::backend::lemma_lookup_index(new_tree@, name);
            let e = choose|e: int|
                0 <= e < new_tree@.len() && (#[trigger] new_tree@[e]).name == name;
            crate::backend::lemma_lookup_present(new_tree@, e);
            if side1_tree@.id.len() == 8 {
                assert(tree_ok(
                    sv0.trees[index_of_id(side1_tree@.id) as int],
                    sv0,
                    index_of_id(side1_tree@.id) as int,
                ));
                lemma_value_ok_monotonic(new_tree@[e].value, sv0, tree_bound(side1_tree@));
            }
        }
    }
    loop
        invariant
            store_wf(store@),
            store_wf(sv0),
            store_extends(store@, sv0),
            sv0 == old(store)@,
            valid_tree(sv0, side1_tree@),
            valid_tree(sv0, base_tree@),
            valid_tree(sv0, side2_tree@),
            side1_tree@.dir == base_tree@.dir,
            side2_tree@.dir == base_tree@.dir,
            side1_tree.wf(),
            model == entry_diff_model(base_tree@.data, side2_tree@.data),
            entries_sorted(base_tree@.data),
            entries_sorted(side2_tree@.data),
            0 <= gk <= model.len(),
            it.remaining() == model.skip(gk),
            forall|a: int, b: int|
                0 <= a < b < model.len() ==> lex_lt((#[trigger] model[a]).0, (#[trigger] model[b]).0),
            forall|k2: int|
                0 <= k2 < gk ==> (lookup(side1_tree@.data, (#[trigger] model[k2]).0) == lookup(
                    base_tree@.data,
                    model[k2].0,
                ) ==> lookup(new_tree@, model[k2].0) == lookup(side2_tree@.data, model[k2].0)),
            forall|k2: int|
                0 <= k2 < gk && lookup(side1_tree@.data, (#[trigger] model[k2]).0) != lookup(
                    base_tree@.data,
                    model[k2].0,
                ) && lookup(side1_tree@.data, model[k2].0) != lookup(
                    side2_tree@.data,
                    model[k2].0,
                ) ==> merged_entry_ok(
                    sv0,
                    store@,
                    lookup(base_tree@.data, model[k2].0),
                    lookup(side1_tree@.data, model[k2].0),
                    lookup(side2_tree@.data, model[k2].0),
                    lookup(new_tree@, model[k2].0),
                ),
            entries_sorted(new_tree@),
            forall|name: Seq<u8>|
                (#[trigger] lookup(new_tree@, name)) matches Some(v) ==> value_ok(
                    v,
                    store@,
                    store@.trees.len() as int,
                ),
            forall|n: Seq<u8>|
                !diff_has_name(model, n) ==> #[trigger] lookup(new_tree@, n) == lookup(
                    side1_tree@.data,
                    n,
                ),
            dir@ == base_tree@.dir,
        ensures
            it.remaining().len() == 0,
        decreases it.remaining().len(),
    {
        let ghost rem_before = it.remaining();
        let item = it.next();
        match item {
            None => {
                break;
            },
            Some((basename, maybe_base, maybe_side2)) => {
                let ghost k = gk;
                proof {
                    assert(model.skip(k).len() > 0);
                    assert(model.skip(k)[0] == model[k]);
                    assert(model.skip(k).skip(1) =~= model.skip(k + 1));
                    lemma_entry_diff_present(base_tree@.data, side2_tree@.data, k);
                    lemma_entry_diff_member(base_tree@.data, side2_tree@.data, k);
                    lemma_entry_diff_is_lookup_diff(base_tree@.data, side2_tree@.data, k);
                }
                proof {
                    assert(valid_tree(store@, base_tree@));
                    assert(valid_tree(store@, side2_tree@));
                    assert(it.remaining() == model.skip(k + 1)) by {
                        assert(model.skip(k).skip(1) =~= model.skip(k + 1));
                    }
                }
                proof {
                    assert(diff_has_name(model, basename@)) by {
                        assert(model[k].0 == basename@);
                    }
                }
                let maybe_side1 = side1_tree.value(&basename);
                let mb = option_as_ref(&maybe_base);
                let ms2 = option_as_ref(&maybe_side2);
                let ghost iter_sv = store@;
                let same_as_base = opt_tree_value_eq(maybe_side1, mb);
                let same_as_side2 = opt_tree_value_eq(maybe_side1, ms2);
                if same_as_base {
                    // side 1 is unchanged: adopt side 2
                    match maybe_side2 {
                        None => {
                            new_tree.remove(&basename);
                        },
                        Some(side2_value) => {
                            proof {
                                lemma_member_value_ok(store@, side2_tree@, base_tree@, model, k);
                            }
                            new_tree.set(basename, side2_value);
                        },
                    }
                } else if same_as_side2 {
                    // both sides changed the same way: keep side 1
                } else {
                    // the sides changed differently: merge the values
                    let ghost prev_sv = store@;
                    proof {
                        lemma_member_value_ok(store@, side2_tree@, base_tree@, model, k);
                        if maybe_side1 is Some {
                            lemma_valid_tree_sorted(store@, side1_tree@);
                            lemma_lookup_value_ok(store@, side1_tree@, basename@);
                            lemma_value_ok_monotonic(
                                opt_value_view(maybe_side1)->Some_0,
                                store@,
                                tree_bound(side1_tree@),
                            );
                        }
                        lemma_merge_value_measures(
                            store@,
                            side1_tree@,
                            base_tree@,
                            side2_tree@,
                            model,
                            k,
                            opt_value_view(maybe_side1),
                        );
                    }
                    let new_value = merge_tree_value(store, dir, &basename, mb, maybe_side1, ms2);
                    proof {
                        lemma_extends_preserves_ok(store@, prev_sv);
                        assert(store_extends(store@, sv0));
                        assert forall|name: Seq<u8>|
                            (#[trigger] lookup(new_tree@, name)) is Some implies value_ok(
                            lookup(new_tree@, name)->Some_0,
                            store@,
                            store@.trees.len() as int,
                        ) by {
                            assert(value_ok(lookup(new_tree@, name)->Some_0, prev_sv, prev_sv.trees.len() as int));
                            lemma_value_ok_monotonic(lookup(new_tree@, name)->Some_0, store@, prev_sv.trees.len() as int);
                        }
                    }
                    match new_value {
                        Ok(None) => {
                            new_tree.remove(&basename);
                        },
                        Ok(Some(value)) => {
                            new_tree.set(basename, value);
                        },
                        Err(e) => {
                            proof {
                                assert(false);
                            }
                            return Err(e);
                        },
                    }
                }
                proof {
                    assert forall|k2: int|
                        0 <= k2 < k + 1 && lookup(side1_tree@.data, (#[trigger] model[k2]).0)
                            == lookup(base_tree@.data, model[k2].0) implies lookup(
                        new_tree@,
                        model[k2].0,
                    ) == lookup(side2_tree@.data, model[k2].0) by {
                        if k2 < k {
                            crate::hex::lemma_lex_trichotomy(model[k2].0, model[k].0);
                            assert(model[k2].0 != model[k].0);
                        }
                    }
                    assert(store_extends(store@, iter_sv));
                    assert forall|k2: int|
                        0 <= k2 < k + 1 && lookup(side1_tree@.data, (#[trigger] model[k2]).0)
                            != lookup(base_tree@.data, model[k2].0) && lookup(
                        side1_tree@.data,
                        model[k2].0,
                    ) != lookup(side2_tree@.data, model[k2].0) implies merged_entry_ok(
                        sv0,
                        store@,
                        lookup(base_tree@.data, model[k2].0),
                        lookup(side1_tree@.data, model[k2].0),
                        lookup(side2_tree@.data, model[k2].0),
                        lookup(new_tree@, model[k2].0),
                    ) by {
                        lemma_entry_diff_is_lookup_diff(base_tree@.data, side2_tree@.data, k2);
                        lemma_member_value_ok(sv0, side2_tree@, base_tree@, model, k2);
                        lemma_valid_tree_sorted(sv0, side1_tree@);
                        if lookup(side1_tree@.data, model[k2].0) is Some {
                            lemma_lookup_value_ok(sv0, side1_tree@, model[k2].0);
                            lemma_value_ok_monotonic(
                                lookup(side1_tree@.data, model[k2].0)->Some_0,
                                sv0,
                                tree_bound(side1_tree@),
                            );
                        }
                        if k2 < k {
                            crate::hex::lemma_lex_trichotomy(model[k2].0, model[k].0);
                            assert(model[k2].0 != model[k].0);
                            lemma_merged_entry_ok_stable(
                                sv0,
                                sv0,
                                iter_sv,
                                store@,
                                lookup(base_tree@.data, model[k2].0),
                                lookup(side1_tree@.data, model[k2].0),
                                lookup(side2_tree@.data, model[k2].0),
                                lookup(new_tree@, model[k2].0),
                            );
                        } else {
                            // this entry was just merged: the two sides
                            // differ from each other and from the base
                            assert(!same_as_base && !same_as_side2);
                            lemma_merged_entry_ok_stable(
                                sv0,
                                iter_sv,
                                store@,
                                store@,
                                lookup(base_tree@.data, model[k2].0),
                                lookup(side1_tree@.data, model[k2].0),
                                lookup(side2_tree@.data, model[k2].0),
                                lookup(new_tree@, model[k2].0),
                            );
                        }
                    }
                    gk = gk + 1;
                }
            },
        }
    }
    proof {
        assert forall|e: int| 0 <= e < new_tree@.len() implies value_ok(
            (#[trigger] new_tree@[e]).value,
            store@,
            store@.trees.len() as int,
        ) by {
            crate::backend::lemma_lookup_present(new_tree@, e);
        }
    }
    proof {
        assert forall|n: Seq<u8>|
            lookup(base_tree@.data, n) == lookup(side2_tree@.data, n) implies #[trigger] lookup(
            new_tree@,
            n,
        ) == lookup(side1_tree@.data, n) by {
            lemma_valid_tree_sorted(sv0, base_tree@);
            lemma_valid_tree_sorted(sv0, side2_tree@);
            if diff_has_name(model, n) {
                let k = choose|k: int| 0 <= k < model.len() && (#[trigger] model[k]).0 == n;
                lemma_entry_diff_is_lookup_diff(base_tree@.data, side2_tree@.data, k);
            }
        }
        assert(gk == model.len()) by {
            assert(model.skip(gk).len() == 0);
        }
        assert forall|n: Seq<u8>|
            lookup(side1_tree@.data, n) == lookup(base_tree@.data, n) implies #[trigger] lookup(
            new_tree@,
            n,
        ) == lookup(side2_tree@.data, n) by {
            lemma_valid_tree_sorted(sv0, base_tree@);
            lemma_valid_tree_sorted(sv0, side2_tree@);
            if diff_has_name(model, n) {
                let k = choose|k: int| 0 <= k < model.len() && (#[trigger] model[k]).0 == n;
                assert(lookup(side1_tree@.data, model[k].0) == lookup(base_tree@.data, model[k].0));
                assert(lookup(new_tree@, model[k].0) == lookup(side2_tree@.data, model[k].0));
            } else {
                lemma_entry_diff_complete(base_tree@.data, side2_tree@.data, n);
            }
        }
    }
    let ghost pre_write_sv = store@;
    match store.write_tree(dir, &new_tree) {
        Ok(id) => {
            proof {
                assert forall|n: Seq<u8>|
                    lookup(side1_tree@.data, n) != lookup(base_tree@.data, n) && lookup(
                    side1_tree@.data,
                    n,
                ) != lookup(side2_tree@.data, n) && lookup(base_tree@.data, n) != lookup(
                    side2_tree@.data,
                    n,
                ) implies #[trigger] merged_entry_ok(
                    sv0,
                    store@,
                    lookup(base_tree@.data, n),
                    lookup(side1_tree@.data, n),
                    lookup(side2_tree@.data, n),
                    lookup(store@.trees[index_of_id(id@) as int], n),
                ) by {
                    lemma_valid_tree_sorted(sv0, base_tree@);
                    lemma_valid_tree_sorted(sv0, side2_tree@);
                    if !diff_has_name(model, n) {
                        lemma_entry_diff_complete(base_tree@.data, side2_tree@.data, n);
                    }
                    let kd = choose|kd: int|
                        0 <= kd < model.len() && (#[trigger] model[kd]).0 == n;
                    lemma_entry_diff_is_lookup_diff(base_tree@.data, side2_tree@.data, kd);
                    lemma_member_value_ok(sv0, side2_tree@, base_tree@, model, kd);
                    lemma_valid_tree_sorted(sv0, side1_tree@);
                    if lookup(side1_tree@.data, n) is Some {
                        lemma_lookup_value_ok(sv0, side1_tree@, n);
                        lemma_value_ok_monotonic(
                            lookup(side1_tree@.data, n)->Some_0,
                            sv0,
                            tree_bound(side1_tree@),
                        );
                    }
                    lemma_merged_entry_ok_stable(
                        sv0,
                        sv0,
                        pre_write_sv,
                        store@,
                        lookup(base_tree@.data, n),
                        lookup(side1_tree@.data, n),
                        lookup(side2_tree@.data, n),
                        lookup(new_tree@, n),
                    );
                    assert(store@.trees[index_of_id(id@) as int] == new_tree@);
                }
            }
            Ok(id)
        },
        Err(e) => {
            proof {
                assert(false);
            }
            Err(TreeMergeError::BackendError(e))
        },
    }
}

/// Turns a borrowed option into an option of borrows.
fn option_as_ref(v: &Option<TreeValue>) -> (r: Option<&TreeValue>)
    ensures
        opt_value_view(r) == opt_owned_view(*v),
{
    match v {
        Some(value) => Some(value),
        None => None,
    }
}

/// The diff sides of entry `k` reference stored objects.
proof fn lemma_member_value_ok(
    sv: StoreView,
    side2: TreeView,
    base: TreeView,
    model: Seq<(Seq<u8>, Option<TreeValueView>, Option<TreeValueView>)>,
    k: int,
)
    requires
        store_wf(sv),
        valid_tree(sv, base),
        valid_tree(sv, side2),
        model == entry_diff_model(base.data, side2.data),
        0 <= k < model.len(),
    ensures
        opt_value_ok(model[k].1, sv),
        opt_value_ok(model[k].2, sv),
{
    lemma_entry_diff_member(base.data, side2.data, k);
    if model[k].1 is Some {
        let e = choose|e: int|
            0 <= e < base.data.len() && (#[trigger] base.data[e]).name == model[k].0
                && base.data[e].value == model[k].1->Some_0;
        assert(tree_ok(sv.trees[index_of_id(base.id) as int], sv, index_of_id(base.id) as int));
        assert(value_ok(base.data[e].value, sv, tree_bound(base)));
        lemma_value_ok_monotonic(model[k].1->Some_0, sv, tree_bound(base));
    }
    if model[k].2 is Some {
        let e = choose|e: int|
            0 <= e < side2.data.len() && (#[trigger] side2.data[e]).name == model[k].0
                && side2.data[e].value == model[k].2->Some_0;
        assert(tree_ok(sv.trees[index_of_id(side2.id) as int], sv, index_of_id(side2.id) as int));
        assert(value_ok(side2.data[e].value, sv, tree_bound(side2)));
        lemma_value_ok_monotonic(model[k].2->Some_0, sv, tree_bound(side2));
    }
}

/// Value fitness only loosens as the bound grows.
proof fn lemma_value_ok_monotonic(v: TreeValueView, sv: StoreView, t: int)
    requires
        value_ok(v, sv, t),
        t <= sv.trees.len(),
    ensures
        value_ok(v, sv, sv.trees.len() as int),
{
}

/// The three values of a merge step weigh strictly less than the three
/// snapshots they come from.
proof fn lemma_merge_value_measures(
    sv: StoreView,
    side1: TreeView,
    base: TreeView,
    side2: TreeView,
    model: Seq<(Seq<u8>, Option<TreeValueView>, Option<TreeValueView>)>,
    k: int,
    s1v: Option<TreeValueView>,
)
    requires
        store_wf(sv),
        valid_tree(sv, side1),
        valid_tree(sv, base),
        valid_tree(sv, side2),
        model == entry_diff_model(base.data, side2.data),
        0 <= k < model.len(),
        s1v == lookup(side1.data, model[k].0),
    ensures
        opt_tree_measure(model[k].1) + opt_tree_measure(s1v) + opt_tree_measure(model[k].2)
            < tree_bound(base) + tree_bound(side1) + tree_bound(side2),
{
    lemma_entry_diff_present(base.data, side2.data, k);
    lemma_entry_diff_member(base.data, side2.data, k);
    // each side's measure is bounded by its snapshot
    assert(opt_tree_measure(model[k].1) <= tree_bound(base) && (model[k].1 is Some
        ==> opt_tree_measure(model[k].1) < tree_bound(base))) by {
        if model[k].1 is Some {
            let e = choose|e: int|
                0 <= e < base.data.len() && (#[trigger] base.data[e]).name == model[k].0
                    && base.data[e].value == model[k].1->Some_0;
            lemma_nonempty_tree_bound(sv, base);
            assert(tree_ok(sv.trees[index_of_id(base.id) as int], sv, index_of_id(base.id) as int));
            assert(value_ok(base.data[e].value, sv, tree_bound(base)));
        }
    }
    assert(opt_tree_measure(model[k].2) <= tree_bound(side2) && (model[k].2 is Some
        ==> opt_tree_measure(model[k].2) < tree_bound(side2))) by {
        if model[k].2 is Some {
            let e = choose|e: int|
                0 <= e < side2.data.len() && (#[trigger] side2.data[e]).name == model[k].0
                    && side2.data[e].value == model[k].2->Some_0;
            lemma_nonempty_tree_bound(sv, side2);
            assert(tree_ok(
                sv.trees[index_of_id(side2.id) as int],
                sv,
                index_of_id(side2.id) as int,
            ));
            assert(value_ok(side2.data[e].value, sv, tree_bound(side2)));
        }
    }
    assert(opt_tree_measure(s1v) <= tree_bound(side1)) by {
        if s1v is Some {
            lemma_valid_tree_sorted(sv, side1);
            lemma_lookup_value_ok(sv, side1, model[k].0);
        }
    }
}

} // verus!

verus! {

/// Merges one entry's three versions.  Three subtrees (or absences)
/// merge recursively; anything else is built into a conflict,
/// simplified, and either resolved into a plain value, resolved by
/// file-content merge, or persisted as a conflict object.
#[verifier::rlimit(50)]
fn merge_tree_value(
    store: &mut Store,
    dir: &RepoPath,
    basename: &RepoPathComponent,
    maybe_base: Option<&TreeValue>,
    maybe_side1: Option<&TreeValue>,
    maybe_side2: Option<&TreeValue>,
) -> (r: Result<Option<TreeValue>, TreeMergeError>)
    requires
        store_wf(old(store)@),
        opt_value_ok(opt_value_view(maybe_base), old(store)@),
        opt_value_ok(opt_value_view(maybe_side1), old(store)@),
        opt_value_ok(opt_value_view(maybe_side2), old(store)@),
    ensures
        store_wf(final(store)@),
        store_extends(final(store)@, old(store)@),
        r is Ok,
        (match r->Ok_0 {
            Some(v) => value_ok(v@, final(store)@, final(store)@.trees.len() as int),
            None => true,
        }),
        // what the merge of the three versions yields: subtrees merge
        // recursively, anything else resolves through the simplified
        // conflict
        merged_entry_ok(
            old(store)@,
            final(store)@,
            opt_value_view(maybe_base),
            opt_value_view(maybe_side1),
            opt_value_view(maybe_side2),
            opt_owned_view(r->Ok_0),
        ),
    decreases
            opt_tree_measure(opt_value_view(maybe_base)) + opt_tree_measure(
                opt_value_view(maybe_side1),
            ) + opt_tree_measure(opt_value_view(maybe_side2)),
            1int,
{
    let ghost sv0 = old(store)@;
    let empty_tree_id = store.empty_tree_id();
    proof {
        crate::store::lemma_id_roundtrip(0);
    }
    let base_id = maybe_tree_id(maybe_base, &empty_tree_id);
    let side1_id = maybe_tree_id(maybe_side1, &empty_tree_id);
    let side2_id = maybe_tree_id(maybe_side2, &empty_tree_id);
    match (base_id, side1_id, side2_id) {
        (Some(bid), Some(s1id), Some(s2id)) => {
            // all three are subtrees or absent: recurse
            let subdir = dir.join(basename);
            let base_data = match store.get_tree_data(bid) {
                Ok(d) => d,
                Err(e) => {
                    proof {
                        assert(false);
                    }
                    return Err(TreeMergeError::BackendError(e));
                },
            };
            let side1_data = match store.get_tree_data(s1id) {
                Ok(d) => d,
                Err(e) => {
                    proof {
                        assert(false);
                    }
                    return Err(TreeMergeError::BackendError(e));
                },
            };
            let side2_data = match store.get_tree_data(s2id) {
                Ok(d) => d,
                Err(e) => {
                    proof {
                        assert(false);
                    }
                    return Err(TreeMergeError::BackendError(e));
                },
            };
            let base_sub = Tree::new(subdir.clone(), bid.clone(), base_data);
            let side1_sub = Tree::new(subdir.clone(), s1id.clone(), side1_data);
            let side2_sub = Tree::new(subdir, s2id.clone(), side2_data);
            let ghost mid_sv = store@;
            let merged = match merge_trees(store, &side1_sub, &base_sub, &side2_sub) {
                Ok(id) => id,
                Err(e) => {
                    proof {
                        assert(false);
                    }
                    return Err(e);
                },
            };
            let ghost bd = subtree_table_of(sv0, opt_value_view(maybe_base));
            let ghost s1d = subtree_table_of(sv0, opt_value_view(maybe_side1));
            let ghost s2d = subtree_table_of(sv0, opt_value_view(maybe_side2));
            proof {
                assert(base_sub@.data =~= bd);
                assert(side1_sub@.data =~= s1d);
                assert(side2_sub@.data =~= s2d);
                assert(merged@.len() == 8);
            }
            let ghost mt = store@.trees[index_of_id(merged@) as int];
            proof {
                assert(forall|n: Seq<u8>|
                    lookup(s1d, n) == lookup(bd, n) ==> #[trigger] lookup(mt, n) == lookup(
                        s2d,
                        n,
                    ));
                assert(forall|n: Seq<u8>|
                    lookup(bd, n) == lookup(s2d, n) ==> #[trigger] lookup(mt, n) == lookup(
                        s1d,
                        n,
                    ));
            }
            if bytes_eq(merged.as_bytes(), empty_tree_id.as_bytes()) {
                proof {
                    // the empty tree id denotes the empty table
                    assert(index_of_id(merged@) == 0);
                    assert(mt =~= Seq::<TreeEntryView>::empty());
                    assert forall|n: Seq<u8>|
                        lookup(s1d, n) == lookup(bd, n) implies #[trigger] lookup(s2d, n) is None
                    by {
                        assert(lookup(mt, n) == lookup(s2d, n));
                        assert(lookup(mt, n) is None);
                    }
                    assert forall|n: Seq<u8>|
                        lookup(bd, n) == lookup(s2d, n) implies #[trigger] lookup(s1d, n) is None
                    by {
                        assert(lookup(mt, n) == lookup(s1d, n));
                        assert(lookup(mt, n) is None);
                    }
                }
                Ok(None)
            } else {
                proof {
                    assert(mt == store@.trees[index_of_id(merged@) as int]);
                }
                Ok(Some(TreeValue::Tree(merged)))
            }
        },
        _ => {
            proof {
                // at least one side failed the subtree-or-absent test
                assert(!(tree_or_empty(opt_value_view(maybe_base)) && tree_or_empty(
                    opt_value_view(maybe_side1),
                ) && tree_or_empty(opt_value_view(maybe_side2)))) by {
                    if tree_or_empty(opt_value_view(maybe_base)) && tree_or_empty(
                        opt_value_view(maybe_side1),
                    ) && tree_or_empty(opt_value_view(maybe_side2)) {
                        assert(base_id is Some && side1_id is Some && side2_id is Some);
                    }
                }
            }
            // build a conflict, simplify it, and resolve what remains
            let mut conflict = Conflict::default();
            match maybe_base {
                Some(base) => {
                    conflict.removes.push(ConflictTerm { value: base.clone() });
                },
                None => {},
            }
            match maybe_side1 {
                Some(side1) => {
                    conflict.adds.push(ConflictTerm { value: side1.clone() });
                },
                None => {},
            }
            match maybe_side2 {
                Some(side2) => {
                    conflict.adds.push(ConflictTerm { value: side2.clone() });
                },
                None => {},
            }
            let ghost c0 = conflict_of_options(
                opt_value_view(maybe_base),
                opt_value_view(maybe_side1),
                opt_value_view(maybe_side2),
            );
            proof {
                assert(conflict@.removes =~= c0.removes);
                assert(conflict@.adds =~= c0.adds);
                assert(conflict@ == c0);
            }
            let filename = dir.join(basename);
            let conflict = match simplify_conflict(store, &filename, conflict) {
                Ok(c) => c,
                Err(e) => {
                    proof {
                        assert(false);
                    }
                    return Err(TreeMergeError::BackendError(e));
                },
            };
            let ghost c = simplify_model(sv0, c0);
            if conflict.adds.len() == 0 {
                // nothing to add: the path does not exist
                return Ok(None);
            }
            if conflict.removes.len() == 0 && conflict.adds.len() == 1 {
                // a single add is that state, no conflict
                let value = conflict.adds[0].value.clone();
                proof {
                    assert(value@ == c.adds[0]);
                    lemma_simplify_ok(sv0, c0);
                    assert(value_ok(value@, sv0, sv0.trees.len() as int));
                    lemma_value_ok_monotonic(value@, store@, sv0.trees.len() as int);
                }
                return Ok(Some(value));
            }
            match try_resolve_file_conflict(store, &filename, &conflict) {
                Ok(Some((merged_content, executable))) => {
                    let id = match store.write_file(&filename, &merged_content) {
                        Ok(id) => id,
                        Err(e) => {
                            proof {
                                assert(false);
                            }
                            return Err(TreeMergeError::BackendError(e));
                        },
                    };
                    proof {
                        assert(index_of_id(id@) < store@.files.len());
                    }
                    Ok(Some(TreeValue::File { id, executable }))
                },
                Ok(None) => {
                    let conflict_id = match store.write_conflict(&filename, &conflict) {
                        Ok(id) => id,
                        Err(e) => {
                            proof {
                                assert(false);
                            }
                            return Err(TreeMergeError::BackendError(e));
                        },
                    };
                    proof {
                        assert(index_of_id(conflict_id@) < store@.conflicts.len());
                    }
                    Ok(Some(TreeValue::Conflict(conflict_id)))
                },
                Err(e) => {
                    proof {
                        assert(false);
                    }
                    Err(e)
                },
            }
        },
    }
}

} // verus!

verus! {

// ---------------------------------------------------------------------
// Recursive diff
// ---------------------------------------------------------------------

/// One difference between two snapshots at a path.
#[derive(Debug, PartialEq, Eq)]
pub enum Diff<T> {
    Modified(T, T),
    Added(T),
    Removed(T),
}

impl<T> Diff<T> {
    /// The before and after sides, borrowed.
    pub fn as_options(&self) -> (r: (Option<&T>, Option<&T>))
        ensures
            match self {
                Diff::Modified(left, right) => r.0 is Some && r.1 is Some && *r.0->Some_0 == *left
                    && *r.1->Some_0 == *right,
                Diff::Added(right) => r.0 is None && r.1 is Some && *r.1->Some_0 == *right,
                Diff::Removed(left) => r.0 is Some && r.1 is None && *r.0->Some_0 == *left,
            },
    {
        match self {
            Diff::Modified(left, right) => (Some(left), Some(right)),
            Diff::Added(right) => (None, Some(right)),
            Diff::Removed(left) => (Some(left), None),
        }
    }

    /// The before and after sides, owned.
    pub fn into_options(self) -> (r: (Option<T>, Option<T>))
        ensures
            match self {
                Diff::Modified(left, right) => r.0 == Some(left) && r.1 == Some(right),
                Diff::Added(right) => r.0 is None && r.1 == Some(right),
                Diff::Removed(left) => r.0 == Some(left) && r.1 is None,
            },
    {
        match self {
            Diff::Modified(left, right) => (Some(left), Some(right)),
            Diff::Added(right) => (None, Some(right)),
            Diff::Removed(left) => (Some(left), None),
        }
    }
}

/// The mathematical value of a difference.
pub open spec fn diff_view(d: Diff<TreeValue>) -> Diff<TreeValueView> {
    match d {
        Diff::Modified(a, b) => Diff::Modified(a@, b@),
        Diff::Added(b) => Diff::Added(b@),
        Diff::Removed(a) => Diff::Removed(a@),
    }
}

/// The leaf events of one entry diff, not counting any subtree walk.
pub open spec fn leaf_events(
    path: Seq<Seq<u8>>,
    before: Option<TreeValueView>,
    after: Option<TreeValueView>,
) -> Seq<(Seq<Seq<u8>>, Diff<TreeValueView>)> {
    match (before, after) {
        (Some(b), Some(a)) => seq![(path, Diff::Modified(b, a))],
        (None, Some(a)) => seq![(path, Diff::Added(a))],
        (Some(b), None) => seq![(path, Diff::Removed(b))],
        (None, None) => Seq::empty(),
    }
}

/// The recursive diff stream over a list of entry diffs: subtrees are
/// walked depth-first when the matcher visits them, and when a
/// directory is replaced by a file the removals inside the directory
/// precede the addition of the file.
pub open spec fn tree_diff_model<M: Matcher>(
    sv: StoreView,
    dir: Seq<Seq<u8>>,
    diffs: Seq<(Seq<u8>, Option<TreeValueView>, Option<TreeValueView>)>,
    b1: int,
    b2: int,
    m: M,
) -> Seq<(Seq<Seq<u8>>, Diff<TreeValueView>)>
    decreases b1 + b2, diffs.len(),
{
    if diffs.len() == 0 || b1 < 0 || b2 < 0 {
        Seq::empty()
    } else {
        let name = diffs[0].0;
        let before = diffs[0].1;
        let after = diffs[0].2;
        let path = dir.push(name);
        let tb = before matches Some(TreeValueView::Tree(id));
        let ta = after matches Some(TreeValueView::Tree(id));
        let cb = if tb {
            index_of_id(before->Some_0->Tree_0) as int
        } else {
            0
        };
        let ca = if ta {
            index_of_id(after->Some_0->Tree_0) as int
        } else {
            0
        };
        let visit = (tb || ta) && !(m.visit_spec(path) is Nothing);
        let sub = if visit && cb + ca < b1 + b2 {
            tree_diff_model(
                sv,
                path,
                entry_diff_model(
                    if tb {
                        sv.trees[cb]
                    } else {
                        Seq::empty()
                    },
                    if ta {
                        sv.trees[ca]
                    } else {
                        Seq::empty()
                    },
                ),
                cb,
                ca,
                m,
            )
        } else {
            Seq::empty()
        };
        let events = if m.matches_spec(path) {
            if tb && !ta {
                sub + (match after {
                    Some(a) => seq![(path, Diff::<TreeValueView>::Added(a))],
                    None => Seq::empty(),
                })
            } else if !tb && ta {
                (match before {
                    Some(b) => seq![(path, Diff::<TreeValueView>::Removed(b))],
                    None => Seq::empty(),
                }) + sub
            } else if !tb && !ta {
                leaf_events(path, before, after)
            } else {
                sub
            }
        } else {
            sub
        };
        events + tree_diff_model(sv, dir, diffs.skip(1), b1, b2, m)
    }
}

/// What diffing two snapshots yields, honoring the matcher's visit
/// hint at the root.
pub open spec fn snapshot_diff_model<M: Matcher>(sv: StoreView, t1: TreeView, t2: TreeView, m: M)
    -> Seq<(Seq<Seq<u8>>, Diff<TreeValueView>)> {
    if m.visit_spec(t1.dir) is Nothing {
        Seq::empty()
    } else {
        tree_diff_model(
            sv,
            t1.dir,
            entry_diff_model(t1.data, t2.data),
            tree_bound(t1),
            tree_bound(t2),
            m,
        )
    }
}

/// Equal snapshots diff to the empty stream.
pub proof fn lemma_diff_equal_trees<M: Matcher>(sv: StoreView, t1: TreeView, t2: TreeView, m: M)
    requires
        t1.data == t2.data,
    ensures
        snapshot_diff_model(sv, t1, t2, m).len() == 0,
{
    lemma_entry_diff_reflexive(t1.data);
}

} // verus!

verus! {

/// The views of collected diff items.
pub open spec fn diff_pair_views(s: Seq<(RepoPath, Diff<TreeValue>)>) -> Seq<
    (Seq<Seq<u8>>, Diff<TreeValueView>),
> {
    Seq::new(s.len(), |i: int| (s[i].0@, diff_view(s[i].1)))
}

/// The subtree references of diff entry `k` stay below their
/// snapshots' positions.
proof fn lemma_diff_child_bounds(
    sv: StoreView,
    t1: TreeView,
    t2: TreeView,
    model: Seq<(Seq<u8>, Option<TreeValueView>, Option<TreeValueView>)>,
    k: int,
)
    requires
        store_wf(sv),
        valid_tree(sv, t1),
        valid_tree(sv, t2),
        model == entry_diff_model(t1.data, t2.data),
        0 <= k < model.len(),
    ensures
        model[k].1 matches Some(TreeValueView::Tree(id)) ==> id.len() == 8 && index_of_id(id)
            < tree_bound(t1) && index_of_id(id) < sv.trees.len(),
        model[k].2 matches Some(TreeValueView::Tree(id)) ==> id.len() == 8 && index_of_id(id)
            < tree_bound(t2) && index_of_id(id) < sv.trees.len(),
        opt_value_ok(model[k].1, sv),
        opt_value_ok(model[k].2, sv),
{
    lemma_entry_diff_member(t1.data, t2.data, k);
    if model[k].1 is Some {
        let e = choose|e: int|
            0 <= e < t1.data.len() && (#[trigger] t1.data[e]).name == model[k].0 && t1.data[e].value
                == model[k].1->Some_0;
        lemma_nonempty_tree_bound(sv, t1);
        assert(tree_ok(sv.trees[index_of_id(t1.id) as int], sv, index_of_id(t1.id) as int));
        assert(value_ok(t1.data[e].value, sv, tree_bound(t1)));
        lemma_value_ok_monotonic(model[k].1->Some_0, sv, tree_bound(t1));
    }
    if model[k].2 is Some {
        let e = choose|e: int|
            0 <= e < t2.data.len() && (#[trigger] t2.data[e]).name == model[k].0 && t2.data[e].value
                == model[k].2->Some_0;
        lemma_nonempty_tree_bound(sv, t2);
        assert(tree_ok(sv.trees[index_of_id(t2.id) as int], sv, index_of_id(t2.id) as int));
        assert(value_ok(t2.data[e].value, sv, tree_bound(t2)));
        lemma_value_ok_monotonic(model[k].2->Some_0, sv, tree_bound(t2));
    }
}

/// Walks the diff of two snapshots depth-first, appending every event
/// to `out` in the documented order.
fn collect_diff<M: Matcher>(
    store: &Store,
    tree1: &Tree,
    tree2: &Tree,
    matcher: &M,
    out: &mut Vec<(RepoPath, Diff<TreeValue>)>,
)
    requires
        store_wf(store@),
        valid_tree(store@, tree1@),
        valid_tree(store@, tree2@),
        tree1@.dir == tree2@.dir,
    ensures
        diff_pair_views(final(out)@) == diff_pair_views(old(out)@) + tree_diff_model(
            store@,
            tree1@.dir,
            entry_diff_model(tree1@.data, tree2@.data),
            tree_bound(tree1@),
            tree_bound(tree2@),
            *matcher,
        ),
    decreases tree_bound(tree1@) + tree_bound(tree2@),
{
    let ghost sv = store@;
    let ghost b1 = tree_bound(tree1@);
    let ghost b2 = tree_bound(tree2@);
    let ghost model = entry_diff_model(tree1@.data, tree2@.data);
    let ghost dirv = tree1@.dir;
    let dir = tree1.dir();
    proof {
        lemma_valid_tree_sorted(sv, tree1@);
        lemma_valid_tree_sorted(sv, tree2@);
    }
    let mut it = diff_entries(tree1, tree2);
    proof {
        assert(model.skip(0) =~= model);
        assert(it.remaining() == model.skip(0));
    }
    loop
        invariant
            store_wf(sv),
            sv == store@,
            valid_tree(sv, tree1@),
            valid_tree(sv, tree2@),
            b1 == tree_bound(tree1@),
            b2 == tree_bound(tree2@),
            b1 >= 0 && b2 >= 0,
            model == entry_diff_model(tree1@.data, tree2@.data),
            dirv == tree1@.dir,
            dir@ == dirv,
            exists|k: int| 0 <= k <= model.len() && it.remaining() == model.skip(k),
            diff_pair_views(out@) + tree_diff_model(sv, dirv, it.remaining(), b1, b2, *matcher)
                == diff_pair_views(old(out)@) + tree_diff_model(sv, dirv, model, b1, b2, *matcher),
        ensures
            it.remaining().len() == 0,
            diff_pair_views(out@) + tree_diff_model(sv, dirv, it.remaining(), b1, b2, *matcher)
                == diff_pair_views(old(out)@) + tree_diff_model(sv, dirv, model, b1, b2, *matcher),
        decreases it.remaining().len(),
    {
        let ghost rem_before = it.remaining();
        let item = it.next();
        match item {
            None => {
                break;
            },
            Some((basename, before, after)) => {
                let ghost k = choose|k: int| 0 <= k <= model.len() && rem_before == model.skip(k);
                proof {
                    assert(rem_before.len() > 0);
                    assert(rem_before[0] == model[k]);
                    assert(rem_before.skip(1) =~= model.skip(k + 1));
                    assert(it.remaining() == model.skip(k + 1));
                    lemma_entry_diff_present(tree1@.data, tree2@.data, k);
                    lemma_diff_child_bounds(sv, tree1@, tree2@, model, k);
                }
                let path = dir.join(&basename);
                let tb = match &before {
                    Some(TreeValue::Tree(_)) => true,
                    _ => false,
                };
                let ta = match &after {
                    Some(TreeValue::Tree(_)) => true,
                    _ => false,
                };
                let ghost path_v = path@;
                let ghost head = rem_before[0];
                let ghost sub_model = sub_model_of(sv, path_v, head, b1, b2, *matcher);
                let ghost cb: int = if head.1 matches Some(TreeValueView::Tree(id)) {
                    index_of_id(head.1->Some_0->Tree_0) as int
                } else {
                    0
                };
                let ghost ca: int = if head.2 matches Some(TreeValueView::Tree(id)) {
                    index_of_id(head.2->Some_0->Tree_0) as int
                } else {
                    0
                };
                proof {
                    assert(path@ == path_v);
                    assert(opt_owned_view(before) == head.1);
                    assert(opt_owned_view(after) == head.2);
                    assert(tb == (head.1 matches Some(TreeValueView::Tree(id))));
                    assert(ta == (head.2 matches Some(TreeValueView::Tree(id))));
                }
                let is_match = matcher.matches(&path);
                let visit = (tb || ta) && matcher.visit(&path).is_nonempty();
                let ghost out_start = out@;
                // a file removed where a tree now stands surfaces first
                if is_match && !tb && ta {
                    match &before {
                        Some(file_before) => {
                            let ghost prev = out@;
                            out.push((path.clone(), Diff::Removed(file_before.clone())));
                            proof {
                                assert(diff_pair_views(out@) =~= diff_pair_views(prev) + seq![
                                    (path_v, Diff::<TreeValueView>::Removed(head.1->Some_0)),
                                ]);
                            }
                        },
                        None => {},
                    }
                }
                let ghost out_after_removed = out@;
                if visit {
                    let before_tree = match &before {
                        Some(TreeValue::Tree(id)) => {
                            let data = match store.get_tree_data(id) {
                                Ok(d) => d,
                                Err(_) => TreeData::new(),
                            };
                            Tree::new(path.clone(), id.clone(), data)
                        },
                        _ => Tree::null(path.clone()),
                    };
                    let after_tree = match &after {
                        Some(TreeValue::Tree(id)) => {
                            let data = match store.get_tree_data(id) {
                                Ok(d) => d,
                                Err(_) => TreeData::new(),
                            };
                            Tree::new(path.clone(), id.clone(), data)
                        },
                        _ => Tree::null(path.clone()),
                    };
                    proof {
                        assert(valid_tree(sv, before_tree@));
                        assert(valid_tree(sv, after_tree@));
                        assert(tree_bound(before_tree@) == cb);
                        assert(tree_bound(after_tree@) == ca);
                        assert(cb + ca < b1 + b2);
                        assert(before_tree@.dir == path_v);
                        assert(after_tree@.dir == path_v);
                        assert(before_tree@.data =~= (if tb {
                            sv.trees[cb]
                        } else {
                            Seq::<TreeEntryView>::empty()
                        }));
                        assert(after_tree@.data =~= (if ta {
                            sv.trees[ca]
                        } else {
                            Seq::<TreeEntryView>::empty()
                        }));
                        assert(sub_model == tree_diff_model(
                            sv,
                            path_v,
                            entry_diff_model(before_tree@.data, after_tree@.data),
                            cb,
                            ca,
                            *matcher,
                        ));
                    }
                    collect_diff(store, &before_tree, &after_tree, matcher, out);
                    proof {
                        assert(diff_pair_views(out@) =~= diff_pair_views(out_after_removed)
                            + sub_model);
                    }
                } else {
                    proof {
                        assert(sub_model =~= Seq::<(Seq<Seq<u8>>, Diff<TreeValueView>)>::empty());
                    }
                }
                let ghost out_after_sub = out@;
                if is_match {
                    if tb && !ta {
                        match after {
                            Some(file_after) => {
                                let ghost prev = out@;
                                out.push((path, Diff::Added(file_after)));
                                proof {
                                    assert(diff_pair_views(out@) =~= diff_pair_views(prev) + seq![
                                        (path_v, Diff::<TreeValueView>::Added(head.2->Some_0)),
                                    ]);
                                }
                            },
                            None => {},
                        }
                    } else if !tb && !ta {
                        match (before, after) {
                            (Some(file_before), Some(file_after)) => {
                                let ghost prev = out@;
                                out.push((path, Diff::Modified(file_before, file_after)));
                                proof {
                                    assert(diff_pair_views(out@) =~= diff_pair_views(prev) + seq![
                                        (
                                            path_v,
                                            Diff::<TreeValueView>::Modified(
                                                head.1->Some_0,
                                                head.2->Some_0,
                                            ),
                                        ),
                                    ]);
                                }
                            },
                            (None, Some(file_after)) => {
                                let ghost prev = out@;
                                out.push((path, Diff::Added(file_after)));
                                proof {
                                    assert(diff_pair_views(out@) =~= diff_pair_views(prev) + seq![
                                        (path_v, Diff::<TreeValueView>::Added(head.2->Some_0)),
                                    ]);
                                }
                            },
                            (Some(file_before), None) => {
                                let ghost prev = out@;
                                out.push((path, Diff::Removed(file_before)));
                                proof {
                                    assert(diff_pair_views(out@) =~= diff_pair_views(prev) + seq![
                                        (path_v, Diff::<TreeValueView>::Removed(head.1->Some_0)),
                                    ]);
                                }
                            },
                            (None, None) => {
                                proof {
                                    assert(false);
                                }
                            },
                        }
                    }
                }
                proof {
                    assert(diff_pair_views(out@) =~= diff_pair_views(out_start) + head_events_of(
                        sv,
                        dirv,
                        head,
                        b1,
                        b2,
                        *matcher,
                    ));
                    lemma_head_step(
                        sv,
                        dirv,
                        model,
                        k,
                        b1,
                        b2,
                        *matcher,
                        diff_pair_views(out_start),
                        diff_pair_views(out@),
                    );
                    assert(diff_pair_views(out@) + tree_diff_model(
                        sv,
                        dirv,
                        model.skip(k + 1),
                        b1,
                        b2,
                        *matcher,
                    ) =~= diff_pair_views(old(out)@) + tree_diff_model(
                        sv,
                        dirv,
                        model,
                        b1,
                        b2,
                        *matcher,
                    ));
                }
            },
        }
    }
    proof {
        let ghost kf = choose|k: int| 0 <= k <= model.len() && it.remaining() == model.skip(k);
        assert(it.remaining().len() == 0);
        assert(tree_diff_model(sv, dirv, it.remaining(), b1, b2, *matcher).len() == 0);
        assert(diff_pair_views(final(out)@) =~= diff_pair_views(old(out)@) + tree_diff_model(
            sv,
            dirv,
            model,
            b1,
            b2,
            *matcher,
        ));
    }
}

/// The subtree part of the model's head step.
pub open spec fn sub_model_of<M: Matcher>(
    sv: StoreView,
    path: Seq<Seq<u8>>,
    head: (Seq<u8>, Option<TreeValueView>, Option<TreeValueView>),
    b1: int,
    b2: int,
    m: M,
) -> Seq<(Seq<Seq<u8>>, Diff<TreeValueView>)> {
    let tb = head.1 matches Some(TreeValueView::Tree(id));
    let ta = head.2 matches Some(TreeValueView::Tree(id));
    let cb = if tb {
        index_of_id(head.1->Some_0->Tree_0) as int
    } else {
        0
    };
    let ca = if ta {
        index_of_id(head.2->Some_0->Tree_0) as int
    } else {
        0
    };
    let visit = (tb || ta) && !(m.visit_spec(path) is Nothing);
    if visit && cb + ca < b1 + b2 {
        tree_diff_model(
            sv,
            path,
            entry_diff_model(
                if tb {
                    sv.trees[cb]
                } else {
                    Seq::empty()
                },
                if ta {
                    sv.trees[ca]
                } else {
                    Seq::empty()
                },
            ),
            cb,
            ca,
            m,
        )
    } else {
        Seq::empty()
    }
}

/// Unfolds one head step of the diff model against the emitted events.
proof fn lemma_head_step<M: Matcher>(
    sv: StoreView,
    dir: Seq<Seq<u8>>,
    model: Seq<(Seq<u8>, Option<TreeValueView>, Option<TreeValueView>)>,
    k: int,
    b1: int,
    b2: int,
    m: M,
    emitted_before: Seq<(Seq<Seq<u8>>, Diff<TreeValueView>)>,
    emitted_after: Seq<(Seq<Seq<u8>>, Diff<TreeValueView>)>,
)
    requires
        0 <= k < model.len(),
        b1 >= 0 && b2 >= 0,
        emitted_after == emitted_before + head_events_of(sv, dir, model[k], b1, b2, m),
    ensures
        emitted_after + tree_diff_model(sv, dir, model.skip(k + 1), b1, b2, m) == emitted_before
            + tree_diff_model(sv, dir, model.skip(k), b1, b2, m),
{
    let rest = model.skip(k);
    assert(rest[0] == model[k]);
    assert(rest.skip(1) =~= model.skip(k + 1));
    assert(rest.len() > 0);
    let head = model[k];
    let path = dir.push(head.0);
    assert(tree_diff_model(sv, dir, rest, b1, b2, m) == head_events_of(sv, dir, head, b1, b2, m)
        + tree_diff_model(sv, dir, rest.skip(1), b1, b2, m));
    assert(emitted_after + tree_diff_model(sv, dir, model.skip(k + 1), b1, b2, m)
        =~= emitted_before + tree_diff_model(sv, dir, model.skip(k), b1, b2, m));
}

/// The full event list of one model head.
pub open spec fn head_events_of<M: Matcher>(
    sv: StoreView,
    dir: Seq<Seq<u8>>,
    head: (Seq<u8>, Option<TreeValueView>, Option<TreeValueView>),
    b1: int,
    b2: int,
    m: M,
) -> Seq<(Seq<Seq<u8>>, Diff<TreeValueView>)> {
    let path = dir.push(head.0);
    let tb = head.1 matches Some(TreeValueView::Tree(id));
    let ta = head.2 matches Some(TreeValueView::Tree(id));
    let sub = sub_model_of(sv, path, head, b1, b2, m);
    if m.matches_spec(path) {
        if tb && !ta {
            sub + (match head.2 {
                Some(a) => seq![(path, Diff::<TreeValueView>::Added(a))],
                None => Seq::empty(),
            })
        } else if !tb && ta {
            (match head.1 {
                Some(b) => seq![(path, Diff::<TreeValueView>::Removed(b))],
                None => Seq::empty(),
            }) + sub
        } else if !tb && !ta {
            leaf_events(path, head.1, head.2)
        } else {
            sub
        }
    } else {
        sub
    }
}

} // verus!

verus! {

/// A recursive diff of two snapshots, consumed through `next`.
pub struct TreeDiffIterator {
    items: Vec<(RepoPath, Diff<TreeValue>)>,
    pos: usize,
}

impl TreeDiffIterator {
    #[verifier::type_invariant]
    closed spec fn inv(&self) -> bool {
        self.pos <= self.items@.len()
    }

    /// The events not yet handed out.
    pub closed spec fn remaining(&self) -> Seq<(Seq<Seq<u8>>, Diff<TreeValueView>)> {
        diff_pair_views(self.items@).skip(self.pos as int)
    }

    pub fn next(&mut self) -> (r: Option<(RepoPath, Diff<TreeValue>)>)
        ensures
            match r {
                Some(item) => old(self).remaining().len() > 0 && (item.0@, diff_view(item.1))
                    == old(self).remaining()[0] && final(self).remaining() == old(
                    self,
                ).remaining().skip(1),
                None => old(self).remaining().len() == 0 && final(self).remaining() == old(
                    self,
                ).remaining(),
            },
    {
        proof {
            use_type_invariant(&*self);
        }
        if self.pos < self.items.len() {
            let path = self.items[self.pos].0.clone();
            let d = diff_clone(&self.items[self.pos].1);
            let ghost oldrem = self.remaining();
            self.pos = self.pos + 1;
            proof {
                assert(oldrem[0] == diff_pair_views(self.items@)[old(self).pos as int]);
                assert(self.remaining() =~= oldrem.skip(1));
            }
            Some((path, d))
        } else {
            None
        }
    }

    /// The number of events not yet handed out.
    pub fn len(&self) -> (r: usize)
        ensures
            r == self.remaining().len(),
    {
        proof {
            use_type_invariant(self);
        }
        self.items.len() - self.pos
    }
}

fn diff_clone(d: &Diff<TreeValue>) -> (r: Diff<TreeValue>)
    ensures
        diff_view(r) == diff_view(*d),
{
    match d {
        Diff::Modified(a, b) => Diff::Modified(a.clone(), b.clone()),
        Diff::Added(b) => Diff::Added(b.clone()),
        Diff::Removed(a) => Diff::Removed(a.clone()),
    }
}

/// The recursive, matcher-pruned diff of two root snapshots.
pub fn recursive_tree_diff<M: Matcher>(
    store: &Store,
    root1: Tree,
    root2: Tree,
    matcher: &M,
) -> (r: TreeDiffIterator)
    requires
        store_wf(store@),
        valid_tree(store@, root1@),
        valid_tree(store@, root2@),
        root1@.dir == root2@.dir,
    ensures
        r.remaining() == snapshot_diff_model(store@, root1@, root2@, *matcher),
{
    let mut items: Vec<(RepoPath, Diff<TreeValue>)> = Vec::new();
    if matcher.visit(root1.dir()).is_nonempty() {
        collect_diff(store, &root1, &root2, matcher, &mut items);
    }
    let r = TreeDiffIterator { items, pos: 0 };
    proof {
        assert(r.remaining() =~= diff_pair_views(r.items@));
        if !(matcher.visit_spec(root1@.dir) is Nothing) {
            assert(diff_pair_views(r.items@) =~= snapshot_diff_model(
                store@,
                root1@,
                root2@,
                *matcher,
            ));
        } else {
            assert(diff_pair_views(r.items@) =~= Seq::<
                (Seq<Seq<u8>>, Diff<TreeValueView>),
            >::empty());
        }
    }
    r
}

impl Tree {
    /// The diff between this snapshot and `other`.
    pub fn diff<M: Matcher>(&self, store: &Store, other: &Tree, matcher: &M) -> (r:
        TreeDiffIterator)
        requires
            store_wf(store@),
            valid_tree(store@, self@),
            valid_tree(store@, other@),
            self@.dir == other@.dir,
        ensures
            r.remaining() == snapshot_diff_model(store@, self@, other@, *matcher),
    {
        recursive_tree_diff(store, self.clone(), other.clone(), matcher)
    }
}

} // verus!

verus! {

// ---------------------------------------------------------------------
// Recursive entries
// ---------------------------------------------------------------------

/// The leaf entries below a table, depth-first in basename order, each
/// leaf kept iff the matcher accepts its path.  Subtrees are entered
/// unconditionally so no accepted leaf is dropped.
pub open spec fn entries_list_model<M: Matcher>(
    sv: StoreView,
    entries: Seq<TreeEntryView>,
    bound: int,
    dir: Seq<Seq<u8>>,
    m: M,
) -> Seq<(Seq<Seq<u8>>, TreeValueView)>
    decreases bound, entries.len(),
{
    if entries.len() == 0 || bound < 0 {
        Seq::empty()
    } else {
        let e = entries[0];
        let path = dir.push(e.name);
        let part = match e.value {
            TreeValueView::Tree(id) => {
                if 0 <= index_of_id(id) < bound {
                    entries_list_model(sv, sv.trees[index_of_id(id) as int], index_of_id(id) as int, path, m)
                } else {
                    Seq::empty()
                }
            },
            _ => {
                if m.matches_spec(path) {
                    seq![(path, e.value)]
                } else {
                    Seq::empty()
                }
            },
        };
        part + entries_list_model(sv, entries.skip(1), bound, dir, m)
    }
}

/// The matcher-accepted leaves of a snapshot.
pub open spec fn tree_entries_model<M: Matcher>(sv: StoreView, t: TreeView, m: M) -> Seq<
    (Seq<Seq<u8>>, TreeValueView),
> {
    entries_list_model(sv, t.data, tree_bound(t), t.dir, m)
}

/// The views of collected entry items.
pub open spec fn entry_pair_views(s: Seq<(RepoPath, TreeValue)>) -> Seq<
    (Seq<Seq<u8>>, TreeValueView),
> {
    Seq::new(s.len(), |i: int| (s[i].0@, s[i].1@))
}

/// Walks the accepted leaves below a snapshot, appending them to `out`.
fn collect_entries<M: Matcher>(
    store: &Store,
    tree: &Tree,
    matcher: &M,
    out: &mut Vec<(RepoPath, TreeValue)>,
)
    requires
        store_wf(store@),
        valid_tree(store@, tree@),
    ensures
        entry_pair_views(final(out)@) == entry_pair_views(old(out)@) + tree_entries_model(
            store@,
            tree@,
            *matcher,
        ),
    decreases tree_bound(tree@),
{
    let ghost sv = store@;
    let ghost bound = tree_bound(tree@);
    let ghost dirv = tree@.dir;
    let ghost model = tree@.data;
    proof {
        lemma_valid_tree_sorted(sv, tree@);
    }
    let entries = tree.entries_non_recursive();
    let n = entries.len();
    let mut i: usize = 0;
    proof {
        assert(model.skip(0) =~= model);
    }
    while i < n
        invariant
            store_wf(sv),
            sv == store@,
            valid_tree(sv, tree@),
            bound == tree_bound(tree@),
            bound >= 0,
            dirv == tree@.dir,
            model == tree@.data,
            n == model.len(),
            entries@.len() == n,
            forall|j: int| 0 <= j < n ==> (#[trigger] entries@[j])@ == model[j],
            i <= n,
            entry_pair_views(out@) + entries_list_model(sv, model.skip(i as int), bound, dirv, *matcher)
                == entry_pair_views(old(out)@) + entries_list_model(sv, model, bound, dirv, *matcher),
        decreases n - i,
    {
        let ghost rest = model.skip(i as int);
        proof {
            assert(rest[0] == model[i as int]);
            assert(rest.skip(1) =~= model.skip(i + 1));
            if tree@.id.len() == 8 {
                assert(tree_ok(sv.trees[index_of_id(tree@.id) as int], sv, index_of_id(tree@.id) as int));
            }
            assert(value_ok(model[i as int].value, sv, bound));
        }
        let entry = &entries[i];
        let path = tree.dir().join(&entry.name);
        let ghost path_v = path@;
        let ghost out_start = out@;
        match &entry.value {
            TreeValue::Tree(id) => {
                let data = match store.get_tree_data(id) {
                    Ok(d) => d,
                    Err(_) => TreeData::new(),
                };
                let subtree = Tree::new(path, id.clone(), data);
                proof {
                    assert(valid_tree(sv, subtree@));
                    assert(tree_bound(subtree@) == index_of_id(id@) as int);
                    assert(tree_bound(subtree@) < bound);
                }
                collect_entries(store, &subtree, matcher, out);
                proof {
                    assert(entry_pair_views(out@) =~= entry_pair_views(out_start)
                        + entries_list_model(
                        sv,
                        sv.trees[index_of_id(id@) as int],
                        index_of_id(id@) as int,
                        path_v,
                        *matcher,
                    ));
                }
            },
            other => {
                if matcher.matches(&path) {
                    let ghost prev = out@;
                    out.push((path, other.clone()));
                    proof {
                        assert(entry_pair_views(out@) =~= entry_pair_views(prev) + seq![
                            (path_v, rest[0].value),
                        ]);
                    }
                }
            },
        }
        proof {
            assert(entry_pair_views(out@) + entries_list_model(sv, model.skip(i + 1), bound, dirv, *matcher)
                =~= entry_pair_views(old(out)@) + entries_list_model(sv, model, bound, dirv, *matcher));
        }
        i = i + 1;
    }
    proof {
        assert(model.skip(model.len() as int).len() == 0);
        assert(entry_pair_views(final(out)@) =~= entry_pair_views(old(out)@) + entries_list_model(
            sv,
            model,
            bound,
            dirv,
            *matcher,
        ));
    }
}

/// The matcher-accepted leaves of a snapshot, consumed through `next`.
pub struct TreeEntriesIterator {
    items: Vec<(RepoPath, TreeValue)>,
    pos: usize,
}

impl TreeEntriesIterator {
    #[verifier::type_invariant]
    closed spec fn inv(&self) -> bool {
        self.pos <= self.items@.len()
    }

    /// The leaves not yet handed out.
    pub closed spec fn remaining(&self) -> Seq<(Seq<Seq<u8>>, TreeValueView)> {
        entry_pair_views(self.items@).skip(self.pos as int)
    }

    pub fn next(&mut self) -> (r: Option<(RepoPath, TreeValue)>)
        ensures
            match r {
                Some(item) => old(self).remaining().len() > 0 && (item.0@, item.1@) == old(
                    self,
                ).remaining()[0] && final(self).remaining() == old(self).remaining().skip(1),
                None => old(self).remaining().len() == 0 && final(self).remaining() == old(
                    self,
                ).remaining(),
            },
    {
        proof {
            use_type_invariant(&*self);
        }
        if self.pos < self.items.len() {
            let path = self.items[self.pos].0.clone();
            let value = self.items[self.pos].1.clone();
            let ghost oldrem = self.remaining();
            self.pos = self.pos + 1;
            proof {
                assert(oldrem[0] == entry_pair_views(self.items@)[old(self).pos as int]);
                assert(self.remaining() =~= oldrem.skip(1));
            }
            Some((path, value))
        } else {
            None
        }
    }
}

impl Tree {
    /// Every leaf below this snapshot, depth-first in basename order.
    pub fn entries(&self, store: &Store) -> (r: TreeEntriesIterator)
        requires
            store_wf(store@),
            valid_tree(store@, self@),
        ensures
            r.remaining() == tree_entries_model(store@, self@, EverythingMatcher),
    {
        self.entries_matching(store, &EverythingMatcher)
    }

    /// The leaves the matcher accepts, depth-first in basename order.
    pub fn entries_matching<M: Matcher>(&self, store: &Store, matcher: &M) -> (r:
        TreeEntriesIterator)
        requires
            store_wf(store@),
            valid_tree(store@, self@),
        ensures
            r.remaining() == tree_entries_model(store@, self@, *matcher),
    {
        let mut items: Vec<(RepoPath, TreeValue)> = Vec::new();
        collect_entries(store, self, matcher, &mut items);
        let r = TreeEntriesIterator { items, pos: 0 };
        proof {
            assert(r.remaining() =~= entry_pair_views(r.items@));
            assert(entry_pair_views(Seq::<(RepoPath, TreeValue)>::empty()) =~= Seq::<
                (Seq<Seq<u8>>, TreeValueView),
            >::empty());
        }
        r
    }

    /// The paths of all persisted conflicts the matcher accepts, with
    /// their conflict ids, in walk order.
    pub fn conflicts_matching<M: Matcher>(&self, store: &Store, matcher: &M) -> (r: Vec<
        (RepoPath, ConflictId),
    >)
        requires
            store_wf(store@),
            valid_tree(store@, self@),
        ensures
            conflict_pair_views(r@) == conflict_leaves(tree_entries_model(store@, self@, *matcher)),
    {
        let ghost leaves = tree_entries_model(store@, self@, *matcher);
        let mut it = self.entries_matching(store, matcher);
        let mut r: Vec<(RepoPath, ConflictId)> = Vec::new();
        proof {
            assert(leaves.skip(0) =~= leaves);
            assert(conflict_pair_views(r@) + conflict_leaves(leaves.skip(0)) =~= conflict_leaves(
                leaves,
            ));
        }
        loop
            invariant
                exists|k: int| 0 <= k <= leaves.len() && it.remaining() == leaves.skip(k),
                conflict_pair_views(r@) + conflict_leaves(it.remaining()) == conflict_leaves(
                    leaves,
                ),
            ensures
                it.remaining().len() == 0,
                conflict_pair_views(r@) + conflict_leaves(it.remaining()) == conflict_leaves(
                    leaves,
                ),
            decreases it.remaining().len(),
        {
            let ghost rem_before = it.remaining();
            let item = it.next();
            match item {
                None => {
                    break;
                },
                Some((path, value)) => {
                    let ghost k = choose|k: int|
                        0 <= k <= leaves.len() && rem_before == leaves.skip(k);
                    proof {
                        assert(rem_before[0] == leaves[k]);
                        assert(rem_before.skip(1) =~= leaves.skip(k + 1));
                        assert(it.remaining() == leaves.skip(k + 1));
                    }
                    let ghost prev = r@;
                    match value {
                        TreeValue::Conflict(id) => {
                            r.push((path, id));
                            proof {
                                assert(conflict_pair_views(r@) =~= conflict_pair_views(prev)
                                    + seq![(rem_before[0].0, rem_before[0].1->Conflict_0)]);
                                assert(conflict_leaves(rem_before) =~= seq![
                                    (rem_before[0].0, rem_before[0].1->Conflict_0),
                                ] + conflict_leaves(rem_before.skip(1)));
                            }
                        },
                        _ => {
                            proof {
                                assert(conflict_leaves(rem_before) =~= conflict_leaves(
                                    rem_before.skip(1),
                                ));
                            }
                        },
                    }
                },
            }
        }
        proof {
            assert(conflict_pair_views(r@) =~= conflict_leaves(leaves));
        }
        r
    }

    /// The paths of all persisted conflicts below this snapshot.
    pub fn conflicts(&self, store: &Store) -> (r: Vec<(RepoPath, ConflictId)>)
        requires
            store_wf(store@),
            valid_tree(store@, self@),
        ensures
            conflict_pair_views(r@) == conflict_leaves(
                tree_entries_model(store@, self@, EverythingMatcher),
            ),
    {
        self.conflicts_matching(store, &EverythingMatcher)
    }

    /// Whether any leaf below this snapshot is a persisted conflict.
    pub fn has_conflict(&self, store: &Store) -> (r: bool)
        requires
            store_wf(store@),
            valid_tree(store@, self@),
        ensures
            r == (conflict_leaves(tree_entries_model(store@, self@, EverythingMatcher)).len() > 0),
    {
        let conflicts = self.conflicts(store);
        conflicts.len() > 0
    }
}

/// The views of collected conflict items.
pub open spec fn conflict_pair_views(s: Seq<(RepoPath, ConflictId)>) -> Seq<(Seq<Seq<u8>>, Seq<u8>)> {
    Seq::new(s.len(), |i: int| (s[i].0@, s[i].1@))
}

/// The conflict-valued leaves among the walked entries, in order.
pub open spec fn conflict_leaves(leaves: Seq<(Seq<Seq<u8>>, TreeValueView)>) -> Seq<
    (Seq<Seq<u8>>, Seq<u8>),
>
    decreases leaves.len(),
{
    if leaves.len() == 0 {
        Seq::empty()
    } else {
        (match leaves[0].1 {
            TreeValueView::Conflict(id) => seq![(leaves[0].0, id)],
            _ => Seq::empty(),
        }) + conflict_leaves(leaves.skip(1))
    }
}

} // verus!

verus! {

// ---------------------------------------------------------------------
// Diff summary
// ---------------------------------------------------------------------

/// The modified, added, and removed paths of a diff, each sorted.
#[derive(Debug)]
pub struct DiffSummary {
    pub modified: Vec<RepoPath>,
    pub added: Vec<RepoPath>,
    pub removed: Vec<RepoPath>,
}

/// The views of a path vector.
pub open spec fn path_views(s: Seq<RepoPath>) -> Seq<Seq<Seq<u8>>> {
    Seq::new(s.len(), |i: int| s[i]@)
}

/// Paths in non-decreasing order.
pub open spec fn paths_sorted(s: Seq<Seq<Seq<u8>>>) -> bool {
    forall|i: int, j: int| 0 <= i < j < s.len() ==> path_leq(#[trigger] s[i], #[trigger] s[j])
}

/// The paths of a diff stream carrying one kind of event: 0 modified,
/// 1 added, 2 removed.
pub open spec fn diff_paths_of_kind(d: Seq<(Seq<Seq<u8>>, Diff<TreeValueView>)>, kind: int) -> Seq<
    Seq<Seq<u8>>,
>
    decreases d.len(),
{
    if d.len() == 0 {
        Seq::empty()
    } else {
        (match d[0].1 {
            Diff::Modified(a, b) => if kind == 0 {
                seq![d[0].0]
            } else {
                Seq::empty()
            },
            Diff::Added(b) => if kind == 1 {
                seq![d[0].0]
            } else {
                Seq::empty()
            },
            Diff::Removed(a) => if kind == 2 {
                seq![d[0].0]
            } else {
                Seq::empty()
            },
        }) + diff_paths_of_kind(d.skip(1), kind)
    }
}

impl DiffSummary {
    pub fn is_empty(&self) -> (r: bool)
        ensures
            r == (self.modified@.len() == 0 && self.added@.len() == 0 && self.removed@.len() == 0),
    {
        self.modified.is_empty() && self.added.is_empty() && self.removed.is_empty()
    }
}

impl Tree {
    /// Summarizes the diff against `other`: the changed paths, grouped
    /// by kind and sorted.
    pub fn diff_summary<M: Matcher>(&self, store: &Store, other: &Tree, matcher: &M) -> (r:
        DiffSummary)
        requires
            store_wf(store@),
            valid_tree(store@, self@),
            valid_tree(store@, other@),
            self@.dir == other@.dir,
        ensures
            ({
                let d = snapshot_diff_model(store@, self@, other@, *matcher);
                &&& paths_sorted(path_views(r.modified@))
                &&& paths_sorted(path_views(r.added@))
                &&& paths_sorted(path_views(r.removed@))
                &&& path_views(r.modified@).to_multiset() == diff_paths_of_kind(d, 0).to_multiset()
                &&& path_views(r.added@).to_multiset() == diff_paths_of_kind(d, 1).to_multiset()
                &&& path_views(r.removed@).to_multiset() == diff_paths_of_kind(d, 2).to_multiset()
            }),
    {
        let ghost d = snapshot_diff_model(store@, self@, other@, *matcher);
        let mut it = self.diff(store, other, matcher);
        let mut modified: Vec<RepoPath> = Vec::new();
        let mut added: Vec<RepoPath> = Vec::new();
        let mut removed: Vec<RepoPath> = Vec::new();
        proof {
            assert(d.skip(0) =~= d);
            assert(path_views(modified@) + diff_paths_of_kind(d.skip(0), 0) =~= diff_paths_of_kind(
                d,
                0,
            ));
            assert(path_views(added@) + diff_paths_of_kind(d.skip(0), 1) =~= diff_paths_of_kind(
                d,
                1,
            ));
            assert(path_views(removed@) + diff_paths_of_kind(d.skip(0), 2) =~= diff_paths_of_kind(
                d,
                2,
            ));
        }
        loop
            invariant
                exists|k: int| 0 <= k <= d.len() && it.remaining() == d.skip(k),
                path_views(modified@) + diff_paths_of_kind(it.remaining(), 0)
                    == diff_paths_of_kind(d, 0),
                path_views(added@) + diff_paths_of_kind(it.remaining(), 1) == diff_paths_of_kind(
                    d,
                    1,
                ),
                path_views(removed@) + diff_paths_of_kind(it.remaining(), 2) == diff_paths_of_kind(
                    d,
                    2,
                ),
            ensures
                it.remaining().len() == 0,
                path_views(modified@) + diff_paths_of_kind(it.remaining(), 0)
                    == diff_paths_of_kind(d, 0),
                path_views(added@) + diff_paths_of_kind(it.remaining(), 1) == diff_paths_of_kind(
                    d,
                    1,
                ),
                path_views(removed@) + diff_paths_of_kind(it.remaining(), 2) == diff_paths_of_kind(
                    d,
                    2,
                ),
            decreases it.remaining().len(),
        {
            let ghost rem_before = it.remaining();
            let item = it.next();
            match item {
                None => {
                    break;
                },
                Some((file, diff)) => {
                    let ghost k = choose|k: int| 0 <= k <= d.len() && rem_before == d.skip(k);
                    proof {
                        assert(rem_before[0] == d[k]);
                        assert(rem_before.skip(1) =~= d.skip(k + 1));
                        assert(it.remaining() == d.skip(k + 1));
                    }
                    let ghost pm = modified@;
                    let ghost pa = added@;
                    let ghost pr = removed@;
                    match diff {
                        Diff::Modified(_, _) => {
                            modified.push(file);
                            proof {
                                assert(path_views(modified@) =~= path_views(pm).push(
                                    rem_before[0].0,
                                ));
                            }
                        },
                        Diff::Added(_) => {
                            added.push(file);
                            proof {
                                assert(path_views(added@) =~= path_views(pa).push(
                                    rem_before[0].0,
                                ));
                            }
                        },
                        Diff::Removed(_) => {
                            removed.push(file);
                            proof {
                                assert(path_views(removed@) =~= path_views(pr).push(
                                    rem_before[0].0,
                                ));
                            }
                        },
                    }
                    proof {
                        assert(path_views(modified@) + diff_paths_of_kind(it.remaining(), 0)
                            =~= diff_paths_of_kind(d, 0));
                        assert(path_views(added@) + diff_paths_of_kind(it.remaining(), 1)
                            =~= diff_paths_of_kind(d, 1));
                        assert(path_views(removed@) + diff_paths_of_kind(it.remaining(), 2)
                            =~= diff_paths_of_kind(d, 2));
                    }
                },
            }
        }
        proof {
            assert(path_views(modified@) =~= diff_paths_of_kind(d, 0));
            assert(path_views(added@) =~= diff_paths_of_kind(d, 1));
            assert(path_views(removed@) =~= diff_paths_of_kind(d, 2));
        }
        sort_paths(&mut modified);
        sort_paths(&mut added);
        sort_paths(&mut removed);
        DiffSummary { modified, added, removed }
    }
}

/// Sorts paths in place, non-decreasing.
fn sort_paths(v: &mut Vec<RepoPath>)
    ensures
        paths_sorted(path_views(final(v)@)),
        path_views(final(v)@).to_multiset() == path_views(old(v)@).to_multiset(),
{
    let ghost orig = path_views(v@);
    if v.len() > 1 {
        let mut idx: usize = 1;
        while idx < v.len()
            invariant
                1 <= idx <= v@.len(),
                paths_sorted(path_views(v@).subrange(0, idx as int)),
                path_views(v@).to_multiset() == orig.to_multiset(),
            decreases v@.len() - idx,
        {
            let ghost s = path_views(v@);
            let pos = path_insertion_pos(v, idx);
            let e = v.remove(idx);
            v.insert(pos, e);
            proof {
                let r = path_views(v@);
                assert(r =~= s.subrange(0, pos as int) + seq![s[idx as int]] + s.subrange(
                    pos as int,
                    idx as int,
                ) + s.skip(idx + 1));
                lemma_sorted_path_insert(s, r, pos as int, idx as int);
            }
            idx = idx + 1;
        }
        proof {
            assert(path_views(v@).subrange(0, path_views(v@).len() as int) =~= path_views(v@));
        }
    } else {
        proof {
            assert(paths_sorted(path_views(v@)));
        }
    }
}

/// The position, within the sorted prefix, where element `idx` belongs.
fn path_insertion_pos(v: &Vec<RepoPath>, idx: usize) -> (pos: usize)
    requires
        idx < v@.len(),
    ensures
        pos <= idx,
        forall|j: int| 0 <= j < pos ==> !path_lt(v@[idx as int]@, (#[trigger] v@[j])@),
        pos < idx ==> path_lt(v@[idx as int]@, v@[pos as int]@),
{
    let mut pos: usize = 0;
    loop
        invariant
            pos <= idx < v@.len(),
            forall|j: int| 0 <= j < pos ==> !path_lt(v@[idx as int]@, (#[trigger] v@[j])@),
        decreases idx - pos,
    {
        if pos == idx {
            return pos;
        }
        if repo_path_lt(&v[idx], &v[pos]) {
            return pos;
        }
        pos = pos + 1;
    }
}

/// One insertion step keeps the prefix sorted and the contents a
/// permutation.
proof fn lemma_sorted_path_insert(s: Seq<Seq<Seq<u8>>>, r: Seq<Seq<Seq<u8>>>, pos: int, idx: int)
    requires
        paths_sorted(s.subrange(0, idx)),
        0 <= pos <= idx < s.len(),
        forall|j: int| 0 <= j < pos ==> !path_lt(s[idx], #[trigger] s[j]),
        pos < idx ==> path_lt(s[idx], s[pos]),
        r =~= s.subrange(0, pos) + seq![s[idx]] + s.subrange(pos, idx) + s.skip(idx + 1),
    ensures
        paths_sorted(r.subrange(0, idx + 1)),
        r.to_multiset() == s.to_multiset(),
        r.len() == s.len(),
{
    let sp = s.subrange(0, idx);
    assert(forall|j: int| 0 <= j < pos ==> r[j] == s[j]);
    assert(r[pos] == s[idx]);
    assert(forall|j: int| pos < j <= idx ==> #[trigger] r[j] == s[j - 1]);
    assert forall|a: int, b: int| 0 <= a < b < idx + 1 implies path_leq(
        #[trigger] r.subrange(0, idx + 1)[a],
        #[trigger] r.subrange(0, idx + 1)[b],
    ) by {
        assert(r.subrange(0, idx + 1)[a] == r[a]);
        assert(r.subrange(0, idx + 1)[b] == r[b]);
        if a < pos && b < pos {
            assert(sp[a] == s[a] && sp[b] == s[b]);
        } else if a < pos && b == pos {
            lemma_path_trichotomy(s[idx], s[a]);
        } else if a < pos && b > pos {
            assert(sp[a] == s[a] && sp[b - 1] == s[b - 1]);
        } else if a == pos && b > pos {
            if pos < idx {
                assert(sp[pos] == s[pos] && sp[b - 1] == s[b - 1]);
                if pos < b - 1 {
                    assert(path_leq(s[pos], s[b - 1]));
                }
                lemma_path_trichotomy(s[idx], s[pos]);
                lemma_path_transitive(s[idx], s[pos], s[b - 1]);
            }
        } else {
            assert(sp[a - 1] == s[a - 1] && sp[b - 1] == s[b - 1]);
        }
    }
    let b1 = s.subrange(0, pos);
    let b2 = s.subrange(pos, idx);
    let b3 = seq![s[idx]];
    let b4 = s.skip(idx + 1);
    assert(s =~= b1 + b2 + b3 + b4);
    assert(r =~= b1 + b3 + b2 + b4);
    vstd::seq_lib::lemma_multiset_commutative(b1 + b2 + b3, b4);
    vstd::seq_lib::lemma_multiset_commutative(b1 + b2, b3);
    vstd::seq_lib::lemma_multiset_commutative(b1, b2);
    vstd::seq_lib::lemma_multiset_commutative(b1 + b3 + b2, b4);
    vstd::seq_lib::lemma_multiset_commutative(b1 + b3, b2);
    vstd::seq_lib::lemma_multiset_commutative(b1, b3);
    assert((b1 + b2 + b3 + b4).to_multiset() =~= (b1 + b3 + b2 + b4).to_multiset());
}

/// When two of the three snapshots agree, the merge is symmetric in
/// the sides: swapping the sides yields the same result id.
pub proof fn lemma_merge_shortcut_symmetry(
    sv: StoreView,
    side1: TreeView,
    base: TreeView,
    side2: TreeView,
    r12: Seq<u8>,
    r21: Seq<u8>,
)
    requires
        base.id == side1.id || base.id == side2.id || side1.id == side2.id,
        // what `merge_trees` promises for each argument order
        base.id == side1.id ==> r12 == side2.id,
        base.id != side1.id && (base.id == side2.id || side1.id == side2.id) ==> r12 == side1.id,
        base.id == side2.id ==> r21 == side1.id,
        base.id != side2.id && (base.id == side1.id || side2.id == side1.id) ==> r21 == side2.id,
    ensures
        r12 == r21,
{
}

} // verus!

verus! {

/// The pairwise entry diff emits strictly ascending basenames.
pub proof fn lemma_entry_diff_names_ascending(s1: Seq<TreeEntryView>, s2: Seq<TreeEntryView>)
    requires
        entries_sorted(s1),
        entries_sorted(s2),
    ensures
        forall|i: int, j: int|
            0 <= i < j < entry_diff_model(s1, s2).len() ==> lex_lt(
                (#[trigger] entry_diff_model(s1, s2)[i]).0,
                (#[trigger] entry_diff_model(s1, s2)[j]).0,
            ),
    decreases s1.len() + s2.len(),
{
    let m = entry_diff_model(s1, s2);
    if m.len() == 0 {
    } else {
        // the head's name is strictly below every remaining name
        lemma_entry_diff_tail(s1, s2);
        let t1 = if s2.len() == 0 || (s1.len() > 0 && lex_lt(s1[0].name, s2[0].name)) {
            s1.skip(1)
        } else if s1.len() == 0 || (s2.len() > 0 && lex_lt(s2[0].name, s1[0].name)) {
            s1
        } else {
            s1.skip(1)
        };
        let t2 = if s2.len() == 0 || (s1.len() > 0 && lex_lt(s1[0].name, s2[0].name)) {
            s2
        } else if s1.len() == 0 || (s2.len() > 0 && lex_lt(s2[0].name, s1[0].name)) {
            s2.skip(1)
        } else {
            s2.skip(1)
        };
        lemma_sorted_skip(s1);
        lemma_sorted_skip(s2);
        lemma_entry_diff_names_ascending(t1, t2);
        let mt = entry_diff_model(t1, t2);
        if m == mt {
            // equal head entries were skipped; the recursion covers it
        } else {
            assert(m == seq![m[0]] + mt);
            assert forall|i: int, j: int| 0 <= i < j < m.len() implies lex_lt(
                (#[trigger] m[i]).0,
                (#[trigger] m[j]).0,
            ) by {
                if i == 0 {
                    assert(m[j] == mt[j - 1]);
                    lemma_entry_diff_lower_bound(t1, t2, m[0].0, j - 1);
                } else {
                    assert(m[i] == mt[i - 1]);
                    assert(m[j] == mt[j - 1]);
                }
            }
        }
    }
}

/// Tails of sorted tables stay sorted.
proof fn lemma_sorted_skip(s: Seq<TreeEntryView>)
    requires
        entries_sorted(s),
    ensures
        s.len() > 0 ==> entries_sorted(s.skip(1)),
{
    if s.len() > 0 {
        assert forall|a: int, b: int| 0 <= a < b < s.skip(1).len() implies lex_lt(
            (#[trigger] s.skip(1)[a]).name,
            (#[trigger] s.skip(1)[b]).name,
        ) by {
            assert(s.skip(1)[a] == s[a + 1]);
            assert(s.skip(1)[b] == s[b + 1]);
        }
    }
}

/// A name strictly below both tables' entries is strictly below every
/// diff entry.
proof fn lemma_entry_diff_lower_bound(
    s1: Seq<TreeEntryView>,
    s2: Seq<TreeEntryView>,
    low: Seq<u8>,
    i: int,
)
    requires
        forall|e: int| 0 <= e < s1.len() ==> lex_lt(low, (#[trigger] s1[e]).name),
        forall|e: int| 0 <= e < s2.len() ==> lex_lt(low, (#[trigger] s2[e]).name),
        0 <= i < entry_diff_model(s1, s2).len(),
    ensures
        lex_lt(low, entry_diff_model(s1, s2)[i].0),
{
    lemma_entry_diff_member(s1, s2, i);
    lemma_entry_diff_present(s1, s2, i);
    let m = entry_diff_model(s1, s2);
    if m[i].1 is Some {
        let e = choose|e: int|
            0 <= e < s1.len() && (#[trigger] s1[e]).name == m[i].0 && s1[e].value
                == m[i].1->Some_0;
        assert(lex_lt(low, s1[e].name));
    } else {
        let e = choose|e: int|
            0 <= e < s2.len() && (#[trigger] s2[e]).name == m[i].0 && s2[e].value
                == m[i].2->Some_0;
        assert(lex_lt(low, s2[e].name));
    }
}

/// The decomposition used above: after its head, the diff continues on
/// the advanced tables, and the head's name lies strictly below both.
proof fn lemma_entry_diff_tail(s1: Seq<TreeEntryView>, s2: Seq<TreeEntryView>)
    requires
        entries_sorted(s1),
        entries_sorted(s2),
        entry_diff_model(s1, s2).len() > 0,
    ensures
        ({
            let m = entry_diff_model(s1, s2);
            if s2.len() == 0 || (s1.len() > 0 && lex_lt(s1[0].name, s2[0].name)) {
                m == seq![m[0]] + entry_diff_model(s1.skip(1), s2) && (forall|e: int|
                    0 <= e < s1.skip(1).len() ==> lex_lt(m[0].0, (#[trigger] s1.skip(1)[e]).name))
                    && (forall|e: int| 0 <= e < s2.len() ==> lex_lt(m[0].0, (#[trigger] s2[e]).name))
            } else if s1.len() == 0 || (s2.len() > 0 && lex_lt(s2[0].name, s1[0].name)) {
                m == seq![m[0]] + entry_diff_model(s1, s2.skip(1)) && (forall|e: int|
                    0 <= e < s1.len() ==> lex_lt(m[0].0, (#[trigger] s1[e]).name)) && (forall|e: int|
                    0 <= e < s2.skip(1).len() ==> lex_lt(m[0].0, (#[trigger] s2.skip(1)[e]).name))
            } else {
                m == entry_diff_model(s1.skip(1), s2.skip(1)) || (m == seq![m[0]]
                    + entry_diff_model(s1.skip(1), s2.skip(1)) && (forall|e: int|
                    0 <= e < s1.skip(1).len() ==> lex_lt(m[0].0, (#[trigger] s1.skip(1)[e]).name))
                    && (forall|e: int|
                    0 <= e < s2.skip(1).len() ==> lex_lt(m[0].0, (#[trigger] s2.skip(1)[e]).name)))
            }
        }),
    decreases s1.len() + s2.len(),
{
    let m = entry_diff_model(s1, s2);
    if s2.len() == 0 || (s1.len() > 0 && lex_lt(s1[0].name, s2[0].name)) {
        assert forall|e: int| 0 <= e < s1.skip(1).len() implies lex_lt(
            m[0].0,
            (#[trigger] s1.skip(1)[e]).name,
        ) by {
            assert(s1.skip(1)[e] == s1[e + 1]);
        }
        assert forall|e: int| 0 <= e < s2.len() implies lex_lt(m[0].0, (#[trigger] s2[e]).name) by {
            if e > 0 {
                crate::hex::lemma_lex_transitive(s1[0].name, s2[0].name, s2[e].name);
            }
        }
    } else if s1.len() == 0 || (s2.len() > 0 && lex_lt(s2[0].name, s1[0].name)) {
        assert forall|e: int| 0 <= e < s2.skip(1).len() implies lex_lt(
            m[0].0,
            (#[trigger] s2.skip(1)[e]).name,
        ) by {
            assert(s2.skip(1)[e] == s2[e + 1]);
        }
        assert forall|e: int| 0 <= e < s1.len() implies lex_lt(m[0].0, (#[trigger] s1[e]).name) by {
            if e > 0 {
                crate::hex::lemma_lex_transitive(s2[0].name, s1[0].name, s1[e].name);
            }
        }
    } else {
        crate::hex::lemma_lex_trichotomy(s1[0].name, s2[0].name);
        if s1[0].value != s2[0].value {
            assert forall|e: int| 0 <= e < s1.skip(1).len() implies lex_lt(
                m[0].0,
                (#[trigger] s1.skip(1)[e]).name,
            ) by {
                assert(s1.skip(1)[e] == s1[e + 1]);
            }
            assert forall|e: int| 0 <= e < s2.skip(1).len() implies lex_lt(
                m[0].0,
                (#[trigger] s2.skip(1)[e]).name,
            ) by {
                assert(s2.skip(1)[e] == s2[e + 1]);
                crate::hex::lemma_lex_transitive(s1[0].name, s2[0].name, s2[e + 1].name);
            }
        }
    }
}

} // verus!

verus! {

/// Some diff entry carries the basename `n`.
pub open spec fn diff_has_name(
    model: Seq<(Seq<u8>, Option<TreeValueView>, Option<TreeValueView>)>,
    n: Seq<u8>,
) -> bool {
    exists|k: int| 0 <= k < model.len() && (#[trigger] model[k]).0 == n
}

/// Each diff entry carries exactly the two tables' values at its name,
/// and they differ.
pub proof fn lemma_entry_diff_is_lookup_diff(s1: Seq<TreeEntryView>, s2: Seq<TreeEntryView>, k: int)
    requires
        entries_sorted(s1),
        entries_sorted(s2),
        0 <= k < entry_diff_model(s1, s2).len(),
    ensures
        entry_diff_model(s1, s2)[k].1 == lookup(s1, entry_diff_model(s1, s2)[k].0),
        entry_diff_model(s1, s2)[k].2 == lookup(s2, entry_diff_model(s1, s2)[k].0),
        entry_diff_model(s1, s2)[k].1 != entry_diff_model(s1, s2)[k].2,
    decreases s1.len() + s2.len(),
{
    let m = entry_diff_model(s1, s2);
    lemma_sorted_skip(s1);
    lemma_sorted_skip(s2);
    if s2.len() == 0 || (s1.len() > 0 && lex_lt(s1[0].name, s2[0].name)) {
        let t1 = s1.skip(1);
        let mt = entry_diff_model(t1, s2);
        assert(forall|e: int| 0 <= e < t1.len() ==> (#[trigger] t1[e]) == s1[e + 1]);
        if k == 0 {
            crate::backend::lemma_lookup_present(s1, 0);
            assert forall|e: int| 0 <= e < s2.len() implies (#[trigger] s2[e]).name != m[0].0 by {
                if e > 0 {
                    crate::hex::lemma_lex_transitive(s1[0].name, s2[0].name, s2[e].name);
                }
                crate::hex::lemma_lex_trichotomy(s1[0].name, s2[e].name);
            }
            crate::backend::lemma_lookup_absent(s2, m[0].0);
        } else {
            lemma_entry_diff_is_lookup_diff(t1, s2, k - 1);
            assert(m[k] == mt[k - 1]);
            assert forall|e: int| 0 <= e < t1.len() implies lex_lt(
                s1[0].name,
                (#[trigger] t1[e]).name,
            ) by {}
            assert forall|e: int| 0 <= e < s2.len() implies lex_lt(
                s1[0].name,
                (#[trigger] s2[e]).name,
            ) by {
                if e > 0 {
                    crate::hex::lemma_lex_transitive(s1[0].name, s2[0].name, s2[e].name);
                }
            }
            lemma_entry_diff_lower_bound(t1, s2, s1[0].name, k - 1);
            crate::hex::lemma_lex_trichotomy(s1[0].name, m[k].0);
            assert(lookup(s1, m[k].0) == lookup(t1, m[k].0));
        }
    } else if s1.len() == 0 || (s2.len() > 0 && lex_lt(s2[0].name, s1[0].name)) {
        let t2 = s2.skip(1);
        let mt = entry_diff_model(s1, t2);
        assert(forall|e: int| 0 <= e < t2.len() ==> (#[trigger] t2[e]) == s2[e + 1]);
        if k == 0 {
            crate::backend::lemma_lookup_present(s2, 0);
            assert forall|e: int| 0 <= e < s1.len() implies (#[trigger] s1[e]).name != m[0].0 by {
                if e > 0 {
                    crate::hex::lemma_lex_transitive(s2[0].name, s1[0].name, s1[e].name);
                }
                crate::hex::lemma_lex_trichotomy(s2[0].name, s1[e].name);
            }
            crate::backend::lemma_lookup_absent(s1, m[0].0);
        } else {
            lemma_entry_diff_is_lookup_diff(s1, t2, k - 1);
            assert(m[k] == mt[k - 1]);
            assert forall|e: int| 0 <= e < t2.len() implies lex_lt(
                s2[0].name,
                (#[trigger] t2[e]).name,
            ) by {}
            assert forall|e: int| 0 <= e < s1.len() implies lex_lt(
                s2[0].name,
                (#[trigger] s1[e]).name,
            ) by {
                if e > 0 {
                    crate::hex::lemma_lex_transitive(s2[0].name, s1[0].name, s1[e].name);
                }
            }
            lemma_entry_diff_lower_bound(s1, t2, s2[0].name, k - 1);
            crate::hex::lemma_lex_trichotomy(s2[0].name, m[k].0);
            assert(lookup(s2, m[k].0) == lookup(t2, m[k].0));
        }
    } else {
        crate::hex::lemma_lex_trichotomy(s1[0].name, s2[0].name);
        let t1 = s1.skip(1);
        let t2 = s2.skip(1);
        let mt = entry_diff_model(t1, t2);
        assert(forall|e: int| 0 <= e < t1.len() ==> (#[trigger] t1[e]) == s1[e + 1]);
        assert(forall|e: int| 0 <= e < t2.len() ==> (#[trigger] t2[e]) == s2[e + 1]);
        assert(forall|e: int| 0 <= e < t1.len() ==> lex_lt(s1[0].name, (#[trigger] t1[e]).name));
        assert(forall|e: int| 0 <= e < t2.len() ==> lex_lt(s2[0].name, (#[trigger] t2[e]).name));
        if s1[0].value != s2[0].value {
            if k == 0 {
                crate::backend::lemma_lookup_present(s1, 0);
                crate::backend::lemma_lookup_present(s2, 0);
            } else {
                lemma_entry_diff_is_lookup_diff(t1, t2, k - 1);
                assert(m[k] == mt[k - 1]);
                lemma_entry_diff_lower_bound(t1, t2, s1[0].name, k - 1);
                crate::hex::lemma_lex_trichotomy(s1[0].name, m[k].0);
                assert(lookup(s1, m[k].0) == lookup(t1, m[k].0));
                assert(lookup(s2, m[k].0) == lookup(t2, m[k].0));
            }
        } else {
            lemma_entry_diff_is_lookup_diff(t1, t2, k);
            assert(m == mt);
            lemma_entry_diff_lower_bound(t1, t2, s1[0].name, k);
            crate::hex::lemma_lex_trichotomy(s1[0].name, m[k].0);
            assert(lookup(s1, m[k].0) == lookup(t1, m[k].0));
            assert(lookup(s2, m[k].0) == lookup(t2, m[k].0));
        }
    }
}

} // verus!

verus! {

/// Names outside the diff carry equal values in both tables.
pub proof fn lemma_entry_diff_complete(s1: Seq<TreeEntryView>, s2: Seq<TreeEntryView>, n: Seq<u8>)
    requires
        entries_sorted(s1),
        entries_sorted(s2),
        !diff_has_name(entry_diff_model(s1, s2), n),
    ensures
        lookup(s1, n) == lookup(s2, n),
    decreases s1.len() + s2.len(),
{
    let m = entry_diff_model(s1, s2);
    lemma_sorted_skip(s1);
    lemma_sorted_skip(s2);
    if s1.len() == 0 && s2.len() == 0 {
    } else if s2.len() == 0 || (s1.len() > 0 && lex_lt(s1[0].name, s2[0].name)) {
        let mt = entry_diff_model(s1.skip(1), s2);
        assert(m[0].0 == s1[0].name);
        assert(n != s1[0].name);
        assert(!diff_has_name(mt, n)) by {
            if diff_has_name(mt, n) {
                let k = choose|k: int| 0 <= k < mt.len() && (#[trigger] mt[k]).0 == n;
                assert(m[k + 1] == mt[k]);
            }
        }
        lemma_entry_diff_complete(s1.skip(1), s2, n);
        assert(lookup(s1, n) == lookup(s1.skip(1), n));
    } else if s1.len() == 0 || (s2.len() > 0 && lex_lt(s2[0].name, s1[0].name)) {
        let mt = entry_diff_model(s1, s2.skip(1));
        assert(m[0].0 == s2[0].name);
        assert(n != s2[0].name);
        assert(!diff_has_name(mt, n)) by {
            if diff_has_name(mt, n) {
                let k = choose|k: int| 0 <= k < mt.len() && (#[trigger] mt[k]).0 == n;
                assert(m[k + 1] == mt[k]);
            }
        }
        lemma_entry_diff_complete(s1, s2.skip(1), n);
        assert(lookup(s2, n) == lookup(s2.skip(1), n));
    } else {
        crate::hex::lemma_lex_trichotomy(s1[0].name, s2[0].name);
        let mt = entry_diff_model(s1.skip(1), s2.skip(1));
        if s1[0].value != s2[0].value {
            assert(m[0].0 == s1[0].name);
            assert(n != s1[0].name);
            assert(!diff_has_name(mt, n)) by {
                if diff_has_name(mt, n) {
                    let k = choose|k: int| 0 <= k < mt.len() && (#[trigger] mt[k]).0 == n;
                    assert(m[k + 1] == mt[k]);
                }
            }
            lemma_entry_diff_complete(s1.skip(1), s2.skip(1), n);
            assert(lookup(s1, n) == lookup(s1.skip(1), n));
            assert(lookup(s2, n) == lookup(s2.skip(1), n));
        } else {
            if n == s1[0].name {
                // equal heads carry the value on both sides
            } else {
                assert(!diff_has_name(mt, n));
                lemma_entry_diff_complete(s1.skip(1), s2.skip(1), n);
                assert(lookup(s1, n) == lookup(s1.skip(1), n));
                assert(lookup(s2, n) == lookup(s2.skip(1), n));
            }
        }
    }
}

} // verus!

verus! {

/// Merge symmetry on one-sided changes: wherever the base agrees with
/// one side, merging in either argument order leaves the same value,
/// namely the other side's.
pub proof fn lemma_merge_symmetric_on_one_sided_entries(
    base: Seq<TreeEntryView>,
    s1: Seq<TreeEntryView>,
    s2: Seq<TreeEntryView>,
    r12: Seq<TreeEntryView>,
    r21: Seq<TreeEntryView>,
    n: Seq<u8>,
)
    requires
        // what `merge_trees(side1, base, side2)` promises of its result
        lookup(base, n) == lookup(s2, n) ==> lookup(r12, n) == lookup(s1, n),
        lookup(s1, n) == lookup(base, n) ==> lookup(r12, n) == lookup(s2, n),
        // and the same for the swapped order `merge_trees(side2, base, side1)`
        lookup(base, n) == lookup(s1, n) ==> lookup(r21, n) == lookup(s2, n),
        lookup(s2, n) == lookup(base, n) ==> lookup(r21, n) == lookup(s1, n),
        lookup(base, n) == lookup(s1, n) || lookup(base, n) == lookup(s2, n),
    ensures
        lookup(r12, n) == lookup(r21, n),
{
}

} // verus!

verus! {

/// What merging one entry's three versions yields, stated against the
/// store before the merge (`sv0`) and after it (`svf`): three subtrees
/// or absences merge recursively, anything else resolves through the
/// simplified conflict.
pub open spec fn merged_entry_ok(
    sv0: StoreView,
    svf: StoreView,
    b: Option<TreeValueView>,
    s1: Option<TreeValueView>,
    s2: Option<TreeValueView>,
    rv: Option<TreeValueView>,
) -> bool {
    if tree_or_empty(b) && tree_or_empty(s1) && tree_or_empty(s2) {
        let bd = subtree_table_of(sv0, b);
        let s1d = subtree_table_of(sv0, s1);
        let s2d = subtree_table_of(sv0, s2);
        &&& (rv matches Some(v) ==> v is Tree && v->Tree_0.len() == 8 && index_of_id(v->Tree_0)
            < svf.trees.len())
        &&& (rv matches Some(v) ==> (forall|n: Seq<u8>|
            lookup(s1d, n) == lookup(bd, n) ==> #[trigger] lookup(
                svf.trees[index_of_id(v->Tree_0) as int],
                n,
            ) == lookup(s2d, n)) && (forall|n: Seq<u8>|
            lookup(bd, n) == lookup(s2d, n) ==> #[trigger] lookup(
                svf.trees[index_of_id(v->Tree_0) as int],
                n,
            ) == lookup(s1d, n)))
        &&& (rv is None ==> (forall|n: Seq<u8>|
            lookup(s1d, n) == lookup(bd, n) ==> #[trigger] lookup(s2d, n) is None) && (forall|
            n: Seq<u8>,
        |
            lookup(bd, n) == lookup(s2d, n) ==> #[trigger] lookup(s1d, n) is None))
    } else {
        let c = simplify_model(sv0, conflict_of_options(b, s1, s2));
        &&& (c.adds.len() == 0 ==> rv is None)
        &&& (c.adds.len() == 1 && c.removes.len() == 0 ==> rv == Some(c.adds[0]))
        &&& (c.adds.len() > 0 && !(c.adds.len() == 1 && c.removes.len() == 0)
            ==> match try_resolve_model(sv0, c) {
            Some(m) => rv matches Some(v) && (v matches TreeValueView::File { id, executable }
                && executable == m.1 && index_of_id(id) < svf.files.len() && svf.files[index_of_id(
                id,
            ) as int] == m.0),
            None => rv matches Some(v) && (v matches TreeValueView::Conflict(id) && index_of_id(id)
                < svf.conflicts.len() && svf.conflicts[index_of_id(id) as int] == c),
        })
    }
}

/// Simplification only reads the stored conflicts its terms name, so it
/// is stable under store extension.
proof fn lemma_flatten_stable(sv0: StoreView, svk: StoreView, terms: Seq<TreeValueView>, positive: bool)
    requires
        store_extends(svk, sv0),
        forall|i: int| 0 <= i < terms.len() ==> value_ok(#[trigger] terms[i], sv0, sv0.trees.len() as int),
    ensures
        positive ==> flatten_adds(svk, terms) == flatten_adds(sv0, terms),
        !positive ==> flatten_removes(svk, terms) == flatten_removes(sv0, terms),
    decreases terms.len(),
{
    if terms.len() > 0 {
        assert(forall|i: int|
            0 <= i < terms.drop_last().len() ==> (#[trigger] terms.drop_last()[i]) == terms[i]);
        lemma_flatten_stable(sv0, svk, terms.drop_last(), positive);
        match terms.last() {
            TreeValueView::Conflict(id) => {
                assert(value_ok(terms.last(), sv0, sv0.trees.len() as int));
                assert(stored_conflict(svk, id) == stored_conflict(sv0, id));
            },
            _ => {},
        }
    }
}

/// The simplified conflict is the same against any extension of the
/// store its terms live in.
pub proof fn lemma_simplify_model_stable(sv0: StoreView, svk: StoreView, c: ConflictView)
    requires
        store_extends(svk, sv0),
        conflict_terms_valid(sv0, c),
    ensures
        simplify_model(svk, c) == simplify_model(sv0, c),
{
    lemma_flatten_stable(sv0, svk, c.adds, true);
    lemma_flatten_stable(sv0, svk, c.removes, false);
}

/// File-content resolution only reads the stored contents its terms
/// name, so it is stable under store extension.
pub proof fn lemma_try_resolve_model_stable(sv0: StoreView, svk: StoreView, c: ConflictView)
    requires
        store_extends(svk, sv0),
        conflict_ok(c, sv0),
    ensures
        try_resolve_model(svk, c) == try_resolve_model(sv0, c),
{
    if c.adds.len() == c.removes.len() + 1 && all_files(c.removes) && all_files(c.adds) {
        assert(term_contents(svk, c.removes) =~= term_contents(sv0, c.removes)) by {
            assert forall|i: int|
                0 <= i < c.removes.len() implies svk.files[index_of_id(
                (#[trigger] c.removes[i])->File_id,
            ) as int] == sv0.files[index_of_id(c.removes[i]->File_id) as int] by {
                assert(value_ok(c.removes[i], sv0, sv0.trees.len() as int));
            }
        }
        assert(term_contents(svk, c.adds) =~= term_contents(sv0, c.adds)) by {
            assert forall|i: int|
                0 <= i < c.adds.len() implies svk.files[index_of_id(
                (#[trigger] c.adds[i])->File_id,
            ) as int] == sv0.files[index_of_id(c.adds[i]->File_id) as int] by {
                assert(value_ok(c.adds[i], sv0, sv0.trees.len() as int));
            }
        }
    }
}

/// The outcome statement survives widening the store window: an earlier
/// store for the inputs, a later store for the result.
pub proof fn lemma_merged_entry_ok_stable(
    sv0: StoreView,
    svk: StoreView,
    svk2: StoreView,
    svf: StoreView,
    b: Option<TreeValueView>,
    s1: Option<TreeValueView>,
    s2: Option<TreeValueView>,
    rv: Option<TreeValueView>,
)
    requires
        store_wf(sv0),
        store_extends(svk, sv0),
        store_extends(svk2, svk),
        store_extends(svf, svk2),
        opt_value_ok(b, sv0),
        opt_value_ok(s1, sv0),
        opt_value_ok(s2, sv0),
        merged_entry_ok(svk, svk2, b, s1, s2, rv),
    ensures
        merged_entry_ok(sv0, svf, b, s1, s2, rv),
{
    if tree_or_empty(b) && tree_or_empty(s1) && tree_or_empty(s2) {
        assert(subtree_table_of(svk, b) == subtree_table_of(sv0, b));
        assert(subtree_table_of(svk, s1) == subtree_table_of(sv0, s1));
        assert(subtree_table_of(svk, s2) == subtree_table_of(sv0, s2));
        match rv {
            Some(v) => {
                assert(svf.trees[index_of_id(v->Tree_0) as int] == svk2.trees[index_of_id(
                    v->Tree_0,
                ) as int]);
            },
            None => {},
        }
    } else {
        let c0 = conflict_of_options(b, s1, s2);
        assert(conflict_terms_valid(sv0, c0)) by {
            lemma_conflict_of_options_valid(sv0, b, s1, s2);
        }
        lemma_simplify_model_stable(sv0, svk, c0);
        let c = simplify_model(sv0, c0);
        lemma_simplify_ok(sv0, c0);
        lemma_try_resolve_model_stable(sv0, svk, c);
        if c.adds.len() > 0 && !(c.adds.len() == 1 && c.removes.len() == 0) {
            match try_resolve_model(sv0, c) {
                Some(m) => {
                    match rv {
                        Some(TreeValueView::File { id, executable }) => {
                            assert(svf.files[index_of_id(id) as int] == svk2.files[index_of_id(
                                id,
                            ) as int]);
                        },
                        _ => {},
                    }
                },
                None => {
                    match rv {
                        Some(TreeValueView::Conflict(id)) => {
                            assert(svf.conflicts[index_of_id(id) as int] == svk2.conflicts[
                                index_of_id(id) as int]);
                        },
                        _ => {},
                    }
                },
            }
        }
    }
}

/// The seeded conflict's terms are the given values.
proof fn lemma_conflict_of_options_valid(
    sv: StoreView,
    b: Option<TreeValueView>,
    s1: Option<TreeValueView>,
    s2: Option<TreeValueView>,
)
    requires
        opt_value_ok(b, sv),
        opt_value_ok(s1, sv),
        opt_value_ok(s2, sv),
    ensures
        conflict_terms_valid(sv, conflict_of_options(b, s1, s2)),
{
    let c = conflict_of_options(b, s1, s2);
    assert forall|i: int| 0 <= i < c.removes.len() implies value_ok(
        #[trigger] c.removes[i],
        sv,
        sv.trees.len() as int,
    ) by {
        assert(c.removes[i] == b->Some_0);
    }
    assert forall|i: int| 0 <= i < c.adds.len() implies value_ok(
        #[trigger] c.adds[i],
        sv,
        sv.trees.len() as int,
    ) by {
        if s1 is Some && i == 0 {
            assert(c.adds[i] == s1->Some_0);
        } else {
            assert(c.adds[i] == s2->Some_0);
        }
    }
}

} // verus!
