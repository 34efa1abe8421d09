//! An in-memory content-addressed object store for trees, file
//! contents, and conflict objects.
//!
//! Identifiers encode the position of the object in its table, and a
//! write of content already present returns the existing identifier, so
//! equal content always carries equal ids within one store.  The empty
//! tree is seeded at position zero.

use vstd::prelude::*;
use crate::hex::bytes_eq;
use crate::repo_path::{RepoPath, RepoPathComponent};
use crate::backend::{
    BackendError, ObjectId, TreeId, FileId, ConflictId, TreeValue, TreeValueView, TreeEntryView,
    TreeData, Conflict, ConflictView, entries_sorted,
};

verus! {

/// The mathematical value of a store: three object tables.
pub struct StoreView {
    pub trees: Seq<Seq<TreeEntryView>>,
    pub files: Seq<Seq<u8>>,
    pub conflicts: Seq<ConflictView>,
}

/// The identifier bytes of table position `n`: eight bytes,
/// least-significant first.
pub open spec fn index_id_bytes(n: u64) -> Seq<u8> {
    seq![
        n as u8,
        (n >> 8) as u8,
        (n >> 16) as u8,
        (n >> 24) as u8,
        (n >> 32) as u8,
        (n >> 40) as u8,
        (n >> 48) as u8,
        (n >> 56) as u8,
    ]
}

/// The table position encoded by eight identifier bytes.
pub open spec fn index_of_id(b: Seq<u8>) -> u64 {
    ((b[0] as u64) | ((b[1] as u64) << 8) | ((b[2] as u64) << 16) | ((b[3] as u64) << 24) | ((
    b[4] as u64) << 32) | ((b[5] as u64) << 40) | ((b[6] as u64) << 48) | ((b[7] as u64) << 56))
}

/// Encoding and decoding of identifier bytes invert each other.
pub proof fn lemma_id_roundtrip(n: u64)
    ensures
        index_of_id(index_id_bytes(n)) == n,
{
    let b = index_id_bytes(n);
    assert(((n as u8) as u64) | (((n >> 8) as u8) as u64) << 8 | (((n >> 16) as u8) as u64) << 16
        | (((n >> 24) as u8) as u64) << 24 | (((n >> 32) as u8) as u64) << 32 | (((n
        >> 40) as u8) as u64) << 40 | (((n >> 48) as u8) as u64) << 48 | (((n
        >> 56) as u8) as u64) << 56 == n) by (bit_vector);
}

/// A value's references point into the store; a `Tree` reference points
/// strictly below the table position `t` that carries it, which makes
/// stored trees acyclic.
pub open spec fn value_ok(v: TreeValueView, sv: StoreView, t: int) -> bool {
    match v {
        TreeValueView::Tree(id) => id.len() == 8 && index_of_id(id) < t,
        TreeValueView::File { id, executable } => id.len() == 8 && index_of_id(id)
            < sv.files.len(),
        TreeValueView::Symlink(id) => id.len() == 8 && index_of_id(id) < sv.files.len(),
        TreeValueView::Conflict(id) => id.len() == 8 && index_of_id(id) < sv.conflicts.len(),
        TreeValueView::GitSubmodule(id) => true,
    }
}

/// A tree table entry list fit to be stored at position `t`.
pub open spec fn tree_ok(entries: Seq<TreeEntryView>, sv: StoreView, t: int) -> bool {
    entries_sorted(entries) && forall|e: int|
        0 <= e < entries.len() ==> value_ok((#[trigger] entries[e]).value, sv, t)
}

/// A conflict fit to be stored: its terms are not conflicts themselves
/// and reference stored objects.
pub open spec fn conflict_ok(c: ConflictView, sv: StoreView) -> bool {
    &&& forall|i: int|
        0 <= i < c.removes.len() ==> !((#[trigger] c.removes[i]) is Conflict) && value_ok(
            c.removes[i],
            sv,
            sv.trees.len() as int,
        )
    &&& forall|i: int|
        0 <= i < c.adds.len() ==> !((#[trigger] c.adds[i]) is Conflict) && value_ok(
            c.adds[i],
            sv,
            sv.trees.len() as int,
        )
}

/// Store well-formedness: the empty tree sits at position zero and
/// every stored object references only stored objects.
pub open spec fn store_wf(sv: StoreView) -> bool {
    &&& 1 <= sv.trees.len()
    &&& sv.trees[0].len() == 0
    &&& forall|t: int| 0 <= t < sv.trees.len() ==> tree_ok(#[trigger] sv.trees[t], sv, t)
    &&& forall|c: int| 0 <= c < sv.conflicts.len() ==> conflict_ok(#[trigger] sv.conflicts[c], sv)
}

/// The new store keeps everything the old one held, in place.
pub open spec fn store_extends(new: StoreView, old: StoreView) -> bool {
    &&& old.trees.len() <= new.trees.len()
    &&& old.files.len() <= new.files.len()
    &&& old.conflicts.len() <= new.conflicts.len()
    &&& forall|t: int| 0 <= t < old.trees.len() ==> (#[trigger] new.trees[t]) == old.trees[t]
    &&& forall|f: int| 0 <= f < old.files.len() ==> (#[trigger] new.files[f]) == old.files[f]
    &&& forall|c: int|
        0 <= c < old.conflicts.len() ==> (#[trigger] new.conflicts[c]) == old.conflicts[c]
}

/// Extension preserves the fitness of values, trees, and conflicts.
pub proof fn lemma_extends_preserves_ok(new: StoreView, old: StoreView)
    requires
        store_extends(new, old),
    ensures
        forall|v: TreeValueView, t: int| value_ok(v, old, t) ==> #[trigger] value_ok(v, new, t),
        forall|e: Seq<TreeEntryView>, t: int| tree_ok(e, old, t) ==> #[trigger] tree_ok(e, new, t),
        forall|c: ConflictView| conflict_ok(c, old) ==> #[trigger] conflict_ok(c, new),
{
    assert forall|c: ConflictView| conflict_ok(c, old) implies #[trigger] conflict_ok(c, new) by {
        assert(forall|i: int|
            0 <= i < c.removes.len() ==> value_ok(#[trigger] c.removes[i], new, new.trees.len() as int));
        assert(forall|i: int|
            0 <= i < c.adds.len() ==> value_ok(#[trigger] c.adds[i], new, new.trees.len() as int));
    }
}

/// The first table position holding `x`, or the table length when
/// absent: the position a content-addressed write returns.
pub open spec fn first_index_of<T>(s: Seq<T>, x: T) -> int
    decreases s.len(),
{
    if s.len() == 0 {
        0
    } else if s[0] == x {
        0
    } else {
        1 + first_index_of(s.skip(1), x)
    }
}

pub proof fn lemma_first_index_of<T>(s: Seq<T>, x: T)
    ensures
        0 <= first_index_of(s, x) <= s.len(),
        first_index_of(s, x) < s.len() ==> s[first_index_of(s, x)] == x,
        forall|j: int| 0 <= j < first_index_of(s, x) ==> s[j] != x,
    decreases s.len(),
{
    if s.len() > 0 && s[0] != x {
        lemma_first_index_of(s.skip(1), x);
        assert forall|j: int| 0 <= j < first_index_of(s, x) implies s[j] != x by {
            if j > 0 {
                assert(s.skip(1)[j - 1] == s[j]);
                assert(s.skip(1)[j - 1] != x);
            }
        }
    }
}

/// The store itself.
#[derive(Debug)]
pub struct Store {
    trees: Vec<TreeData>,
    files: Vec<Vec<u8>>,
    conflicts: Vec<Conflict>,
}

impl View for Store {
    type V = StoreView;

    closed spec fn view(&self) -> StoreView {
        StoreView {
            trees: Seq::new(self.trees@.len(), |i: int| self.trees@[i]@),
            files: Seq::new(self.files@.len(), |i: int| self.files@[i]@),
            conflicts: Seq::new(self.conflicts@.len(), |i: int| self.conflicts@[i]@),
        }
    }
}

/// The identifier bytes of position `n`, as a vector.
fn index_to_bytes(n: u64) -> (r: Vec<u8>)
    ensures
        r@ == index_id_bytes(n),
{
    let mut r: Vec<u8> = Vec::new();
    r.push(n as u8);
    r.push((n >> 8) as u8);
    r.push((n >> 16) as u8);
    r.push((n >> 24) as u8);
    r.push((n >> 32) as u8);
    r.push((n >> 40) as u8);
    r.push((n >> 48) as u8);
    r.push((n >> 56) as u8);
    proof {
        assert(r@ =~= index_id_bytes(n));
    }
    r
}

/// The position encoded by identifier bytes, when they are eight.
fn bytes_to_index(b: &Vec<u8>) -> (r: Option<u64>)
    ensures
        match r {
            Some(n) => b@.len() == 8 && n == index_of_id(b@),
            None => b@.len() != 8,
        },
{
    if b.len() != 8 {
        return None;
    }
    let n = (b[0] as u64) | ((b[1] as u64) << 8) | ((b[2] as u64) << 16) | ((b[3] as u64) << 24)
        | ((b[4] as u64) << 32) | ((b[5] as u64) << 40) | ((b[6] as u64) << 48) | ((b[7] as u64)
        << 56);
    Some(n)
}

impl Store {
    /// A store holding only the empty tree.
    pub fn new() -> (r: Self)
        ensures
            store_wf(r@),
            r@.trees.len() == 1,
            r@.files.len() == 0,
            r@.conflicts.len() == 0,
    {
        let mut trees: Vec<TreeData> = Vec::new();
        trees.push(TreeData::new());
        let r = Store { trees, files: Vec::new(), conflicts: Vec::new() };
        proof {
            assert(r@.trees[0] =~= Seq::<TreeEntryView>::empty());
        }
        r
    }

    /// The identifier of the stored empty tree.
    pub fn empty_tree_id(&self) -> (r: TreeId)
        ensures
            r@ == index_id_bytes(0),
    {
        TreeId::from_bytes(index_to_bytes(0))
    }

    /// Reads the entry table stored under a tree id.
    pub fn get_tree_data(&self, id: &TreeId) -> (r: Result<TreeData, BackendError>)
        requires
            store_wf(self@),
        ensures
            match r {
                Ok(data) => id@.len() == 8 && index_of_id(id@) < self@.trees.len() && data@
                    == self@.trees[index_of_id(id@) as int] && data.wf(),
                Err(e) => e == BackendError::ObjectNotFound && !(id@.len() == 8 && index_of_id(id@)
                    < self@.trees.len()),
            },
    {
        let len = self.trees.len();
        match bytes_to_index(id.as_bytes()) {
            Some(n) => {
                if n < len as u64 {
                    let data = self.trees[n as usize].clone();
                    proof {
                        assert(tree_ok(self@.trees[n as int], self@, n as int));
                    }
                    Ok(data)
                } else {
                    Err(BackendError::ObjectNotFound)
                }
            },
            None => Err(BackendError::ObjectNotFound),
        }
    }

    /// Reads stored file content.
    pub fn read_file(&self, path: &RepoPath, id: &FileId) -> (r: Result<Vec<u8>, BackendError>)
        requires
            store_wf(self@),
        ensures
            match r {
                Ok(content) => id@.len() == 8 && index_of_id(id@) < self@.files.len() && content@
                    == self@.files[index_of_id(id@) as int],
                Err(e) => e == BackendError::ObjectNotFound && !(id@.len() == 8 && index_of_id(id@)
                    < self@.files.len()),
            },
    {
        let len = self.files.len();
        match bytes_to_index(id.as_bytes()) {
            Some(n) => {
                if n < len as u64 {
                    let content = self.files[n as usize].clone();
                    proof {
                        assert(content@ =~= self@.files[n as int]);
                    }
                    Ok(content)
                } else {
                    Err(BackendError::ObjectNotFound)
                }
            },
            None => Err(BackendError::ObjectNotFound),
        }
    }

    /// Reads a stored conflict object.
    pub fn read_conflict(&self, path: &RepoPath, id: &ConflictId) -> (r: Result<
        Conflict,
        BackendError,
    >)
        requires
            store_wf(self@),
        ensures
            match r {
                Ok(c) => id@.len() == 8 && index_of_id(id@) < self@.conflicts.len() && c@
                    == self@.conflicts[index_of_id(id@) as int] && conflict_ok(c@, self@),
                Err(e) => e == BackendError::ObjectNotFound && !(id@.len() == 8 && index_of_id(id@)
                    < self@.conflicts.len()),
            },
    {
        let len = self.conflicts.len();
        match bytes_to_index(id.as_bytes()) {
            Some(n) => {
                if n < len as u64 {
                    let c = self.conflicts[n as usize].clone();
                    proof {
                        assert(c@.removes =~= self@.conflicts[n as int].removes);
                        assert(c@.adds =~= self@.conflicts[n as int].adds);
                        assert(c@ == self@.conflicts[n as int]);
                    }
                    Ok(c)
                } else {
                    Err(BackendError::ObjectNotFound)
                }
            },
            None => Err(BackendError::ObjectNotFound),
        }
    }

    /// Writes file content, returning the id of an equal stored file if
    /// one exists.
    pub fn write_file(&mut self, path: &RepoPath, content: &Vec<u8>) -> (r: Result<
        FileId,
        BackendError,
    >)
        requires
            store_wf(old(self)@),
        ensures
            store_wf(final(self)@),
            store_extends(final(self)@, old(self)@),
            final(self)@.trees == old(self)@.trees,
            final(self)@.conflicts == old(self)@.conflicts,
            match r {
                Ok(id) => {
                    &&& id@.len() == 8
                    &&& index_of_id(id@) < final(self)@.files.len()
                    &&& final(self)@.files[index_of_id(id@) as int] == content@
                    &&& index_of_id(id@) == first_index_of(old(self)@.files, content@)
                    &&& (first_index_of(old(self)@.files, content@) < old(self)@.files.len()
                        ==> final(self)@ == old(self)@)
                    &&& (first_index_of(old(self)@.files, content@) == old(self)@.files.len()
                        ==> final(self)@.files == old(self)@.files.push(content@))
                },
                Err(e) => false,
            },
    {
        let ghost oldv = self@;
        let n = self.files.len();
        let mut i: usize = 0;
        while i < n
            invariant
                n == self.files@.len(),
                i <= n,
                self@ == oldv,
                oldv == old(self)@,
                store_wf(oldv),
                forall|j: int| 0 <= j < i ==> (#[trigger] self@.files[j]) != content@,
            decreases n - i,
        {
            if bytes_eq(&self.files[i], content) {
                proof {
                    lemma_id_roundtrip(i as u64);
                    lemma_first_index_of(oldv.files, content@);
                    let fi = first_index_of(oldv.files, content@);
                    assert(fi == i) by {
                        if fi < i {
                            assert(oldv.files[fi] == content@);
                        }
                        if fi > i {
                            assert(oldv.files[i as int] != content@);
                        }
                    }
                }
                return Ok(FileId::from_bytes(index_to_bytes(i as u64)));
            }
            i = i + 1;
        }
        proof {
            lemma_first_index_of(oldv.files, content@);
            assert(first_index_of(oldv.files, content@) == oldv.files.len()) by {
                if first_index_of(oldv.files, content@) < oldv.files.len() {
                    assert(oldv.files[first_index_of(oldv.files, content@)] == content@);
                }
            }
        }
        let pos = self.files.len() as u64;
        let copy = content.clone();
        proof {
            assert(copy@ =~= content@);
        }
        self.files.push(copy);
        proof {
            lemma_id_roundtrip(pos);
            let newv = self@;
            assert(newv.files =~= oldv.files.push(content@));
            assert(newv.trees =~= oldv.trees);
            assert(newv.conflicts =~= oldv.conflicts);
            assert(store_extends(newv, oldv));
            lemma_extends_preserves_ok(newv, oldv);
            assert(store_wf(newv));
        }
        Ok(FileId::from_bytes(index_to_bytes(pos)))
    }

    /// Writes a conflict object, returning the id of an equal stored
    /// conflict if one exists.  The terms must reference stored objects
    /// and may not themselves be conflicts.
    pub fn write_conflict(&mut self, path: &RepoPath, conflict: &Conflict) -> (r: Result<
        ConflictId,
        BackendError,
    >)
        requires
            store_wf(old(self)@),
            conflict_ok(conflict@, old(self)@),
        ensures
            store_wf(final(self)@),
            store_extends(final(self)@, old(self)@),
            final(self)@.trees == old(self)@.trees,
            final(self)@.files == old(self)@.files,
            match r {
                Ok(id) => {
                    &&& id@.len() == 8
                    &&& index_of_id(id@) < final(self)@.conflicts.len()
                    &&& final(self)@.conflicts[index_of_id(id@) as int] == conflict@
                    &&& index_of_id(id@) == first_index_of(old(self)@.conflicts, conflict@)
                    &&& (first_index_of(old(self)@.conflicts, conflict@) < old(
                        self,
                    )@.conflicts.len() ==> final(self)@ == old(self)@)
                    &&& (first_index_of(old(self)@.conflicts, conflict@) == old(
                        self,
                    )@.conflicts.len() ==> final(self)@.conflicts == old(self)@.conflicts.push(
                        conflict@,
                    ))
                },
                Err(e) => false,
            },
    {
        let ghost oldv = self@;
        let n = self.conflicts.len();
        let mut i: usize = 0;
        while i < n
            invariant
                n == self.conflicts@.len(),
                i <= n,
                self@ == oldv,
                oldv == old(self)@,
                store_wf(oldv),
                conflict_ok(conflict@, oldv),
                forall|j: int| 0 <= j < i ==> (#[trigger] self@.conflicts[j]) != conflict@,
            decreases n - i,
        {
            if conflict_eq(&self.conflicts[i], conflict) {
                proof {
                    lemma_id_roundtrip(i as u64);
                    lemma_first_index_of(oldv.conflicts, conflict@);
                    let fi = first_index_of(oldv.conflicts, conflict@);
                    assert(fi == i) by {
                        if fi < i {
                            assert(oldv.conflicts[fi] == conflict@);
                        }
                        if fi > i {
                            assert(oldv.conflicts[i as int] != conflict@);
                        }
                    }
                }
                return Ok(ConflictId::from_bytes(index_to_bytes(i as u64)));
            }
            i = i + 1;
        }
        proof {
            lemma_first_index_of(oldv.conflicts, conflict@);
            assert(first_index_of(oldv.conflicts, conflict@) == oldv.conflicts.len()) by {
                if first_index_of(oldv.conflicts, conflict@) < oldv.conflicts.len() {
                    assert(oldv.conflicts[first_index_of(oldv.conflicts, conflict@)] == conflict@);
                }
            }
        }
        let pos = self.conflicts.len() as u64;
        let copy = conflict.clone();
        self.conflicts.push(copy);
        proof {
            lemma_id_roundtrip(pos);
            let newv = self@;
            assert(newv.conflicts =~= oldv.conflicts.push(conflict@));
            assert(newv.trees =~= oldv.trees);
            assert(newv.files =~= oldv.files);
            assert(store_extends(newv, oldv));
            lemma_extends_preserves_ok(newv, oldv);
            assert(store_wf(newv));
        }
        Ok(ConflictId::from_bytes(index_to_bytes(pos)))
    }

    /// Writes an entry table, returning the id of an equal stored tree
    /// if one exists.  The entries must be sorted and reference stored
    /// objects.
    pub fn write_tree(&mut self, dir: &RepoPath, data: &TreeData) -> (r: Result<
        TreeId,
        BackendError,
    >)
        requires
            store_wf(old(self)@),
            tree_ok(data@, old(self)@, old(self)@.trees.len() as int),
        ensures
            store_wf(final(self)@),
            store_extends(final(self)@, old(self)@),
            final(self)@.files == old(self)@.files,
            final(self)@.conflicts == old(self)@.conflicts,
            match r {
                Ok(id) => {
                    &&& id@.len() == 8
                    &&& index_of_id(id@) < final(self)@.trees.len()
                    &&& final(self)@.trees[index_of_id(id@) as int] == data@
                    &&& (data@.len() == 0 ==> index_of_id(id@) == 0)
                    &&& index_of_id(id@) == first_index_of(old(self)@.trees, data@)
                    &&& (first_index_of(old(self)@.trees, data@) < old(self)@.trees.len()
                        ==> final(self)@ == old(self)@)
                    &&& (first_index_of(old(self)@.trees, data@) == old(self)@.trees.len()
                        ==> final(self)@.trees == old(self)@.trees.push(data@))
                },
                Err(e) => false,
            },
    {
        let ghost oldv = self@;
        let n = self.trees.len();
        let mut i: usize = 0;
        while i < n
            invariant
                n == self.trees@.len(),
                i <= n,
                self@ == oldv,
                oldv == old(self)@,
                store_wf(oldv),
                tree_ok(data@, oldv, oldv.trees.len() as int),
                forall|j: int| 0 <= j < i ==> (#[trigger] self@.trees[j]) != data@,
            decreases n - i,
        {
            if tree_data_eq(&self.trees[i], data) {
                proof {
                    lemma_id_roundtrip(i as u64);
                    lemma_first_index_of(oldv.trees, data@);
                    let fi = first_index_of(oldv.trees, data@);
                    assert(fi == i) by {
                        if fi < i {
                            assert(oldv.trees[fi] == data@);
                        }
                        if fi > i {
                            assert(oldv.trees[i as int] != data@);
                        }
                    }
                    if data@.len() == 0 && i > 0 {
                        assert(oldv.trees[0] =~= data@);
                    }
                }
                return Ok(TreeId::from_bytes(index_to_bytes(i as u64)));
            }
            i = i + 1;
        }
        proof {
            lemma_first_index_of(oldv.trees, data@);
            assert(first_index_of(oldv.trees, data@) == oldv.trees.len()) by {
                if first_index_of(oldv.trees, data@) < oldv.trees.len() {
                    assert(oldv.trees[first_index_of(oldv.trees, data@)] == data@);
                }
            }
        }
        proof {
            // the empty tree is stored at position zero, so an unmatched
            // table is non-empty
            assert(self@.trees[0] != data@);
            if data@.len() == 0 {
                assert(self@.trees[0] =~= data@);
            }
        }
        let pos = self.trees.len() as u64;
        let copy = data.clone();
        self.trees.push(copy);
        proof {
            lemma_id_roundtrip(pos);
            let newv = self@;
            assert(newv.trees =~= oldv.trees.push(data@));
            assert(newv.files =~= oldv.files);
            assert(newv.conflicts =~= oldv.conflicts);
            assert(store_extends(newv, oldv));
            lemma_extends_preserves_ok(newv, oldv);
            assert(tree_ok(newv.trees[pos as int], newv, pos as int));
            assert(store_wf(newv));
        }
        Ok(TreeId::from_bytes(index_to_bytes(pos)))
    }
}

/// Exec equality of entry tables, by view.
pub fn tree_data_eq(a: &TreeData, b: &TreeData) -> (r: bool)
    ensures
        r == (a@ == b@),
{
    let ae = a.entries();
    let be = b.entries();
    if ae.len() != be.len() {
        proof {
            assert(a@.len() != b@.len());
        }
        return false;
    }
    let mut i: usize = 0;
    while i < ae.len()
        invariant
            ae@.len() == be@.len(),
            ae@.len() == a@.len(),
            be@.len() == b@.len(),
            forall|j: int| 0 <= j < ae@.len() ==> (#[trigger] ae@[j])@ == a@[j],
            forall|j: int| 0 <= j < be@.len() ==> (#[trigger] be@[j])@ == b@[j],
            i <= ae@.len(),
            forall|j: int| 0 <= j < i ==> (#[trigger] a@[j]) == b@[j],
        decreases ae@.len() - i,
    {
        if !bytes_eq(ae[i].name.as_bytes(), be[i].name.as_bytes()) {
            proof {
                assert(a@[i as int].name != b@[i as int].name);
            }
            return false;
        }
        if !crate::backend::tree_value_eq(&ae[i].value, &be[i].value) {
            proof {
                assert(a@[i as int].value != b@[i as int].value);
            }
            return false;
        }
        proof {
            assert(a@[i as int] == b@[i as int]);
        }
        i = i + 1;
    }
    proof {
        assert(a@ =~= b@);
    }
    true
}

/// Exec equality of conflicts, by view.
pub fn conflict_eq(a: &Conflict, b: &Conflict) -> (r: bool)
    ensures
        r == (a@ == b@),
{
    proof {
        assert(a@.removes =~= term_views(a.removes@));
        assert(a@.adds =~= term_views(a.adds@));
        assert(b@.removes =~= term_views(b.removes@));
        assert(b@.adds =~= term_views(b.adds@));
    }
    if terms_eq(&a.removes, &b.removes) && terms_eq(&a.adds, &b.adds) {
        true
    } else {
        proof {
            if a@ == b@ {
                assert(term_views(a.removes@) == term_views(b.removes@));
                assert(term_views(a.adds@) == term_views(b.adds@));
            }
        }
        false
    }
}

fn terms_eq(a: &Vec<crate::backend::ConflictTerm>, b: &Vec<crate::backend::ConflictTerm>) -> (r:
    bool)
    ensures
        r == (term_views(a@) == term_views(b@)),
{
    let ghost av = term_views(a@);
    let ghost bv = term_views(b@);
    if a.len() != b.len() {
        proof {
            assert(av.len() != bv.len());
        }
        return false;
    }
    let mut i: usize = 0;
    while i < a.len()
        invariant
            av == term_views(a@),
            bv == term_views(b@),
            a@.len() == b@.len(),
            i <= a@.len(),
            forall|j: int| 0 <= j < i ==> (#[trigger] a@[j])@ == b@[j]@,
        decreases a@.len() - i,
    {
        if !crate::backend::tree_value_eq(&a[i].value, &b[i].value) {
            proof {
                assert(av[i as int] != bv[i as int]);
            }
            return false;
        }
        i = i + 1;
    }
    proof {
        assert(av =~= bv);
    }
    true
}

/// The views of a vector of conflict terms.
pub open spec fn term_views(s: Seq<crate::backend::ConflictTerm>) -> Seq<TreeValueView> {
    Seq::new(s.len(), |i: int| s[i]@)
}

} // verus!
