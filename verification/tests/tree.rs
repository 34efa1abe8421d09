//! Tests of snapshots, the recursive diff, the three-way merge, and
//! conflict simplification.

use tree_engine::backend::{BackendError, Conflict, ConflictTerm, ObjectId, TreeData, TreeId, TreeValue};
use tree_engine::matchers::EverythingMatcher;
use tree_engine::repo_path::{RepoPath, RepoPathComponent};
use tree_engine::store::Store;
use tree_engine::tree::{merge_trees, recursive_tree_diff, simplify_conflict, Diff, Tree};

fn comp(name: &[u8]) -> RepoPathComponent {
    RepoPathComponent::new(name.to_vec())
}

fn path_names(path: &RepoPath) -> Vec<Vec<u8>> {
    path.components()
        .iter()
        .map(|c| c.as_bytes().clone())
        .collect()
}

fn file(store: &mut Store, content: &[u8], executable: bool) -> TreeValue {
    let id = store
        .write_file(&RepoPath::root(), &content.to_vec())
        .unwrap();
    TreeValue::File { id, executable }
}

fn write_root(store: &mut Store, entries: Vec<(&[u8], TreeValue)>) -> Tree {
    let mut data = TreeData::new();
    for (name, value) in entries {
        data.set(comp(name), value);
    }
    let id = store.write_tree(&RepoPath::root(), &data).unwrap();
    Tree::new(RepoPath::root(), id, data)
}

fn subtree_value(store: &mut Store, dir: &RepoPath, entries: Vec<(&[u8], TreeValue)>) -> TreeValue {
    let mut data = TreeData::new();
    for (name, value) in entries {
        data.set(comp(name), value);
    }
    let id = store.write_tree(dir, &data).unwrap();
    TreeValue::Tree(id)
}

fn load_root(store: &Store, id: &TreeId) -> Tree {
    let data = store.get_tree_data(id).unwrap();
    Tree::new(RepoPath::root(), id.clone(), data)
}

#[test]
fn test_simple_three_way_file_merge() {
    // base foo = A, side1 foo = B, side2 foo = A: the merge takes B
    let mut store = Store::new();
    let a = file(&mut store, b"A", false);
    let b = file(&mut store, b"B", false);
    let base = write_root(&mut store, vec![(b"foo", a.clone())]);
    let side1 = write_root(&mut store, vec![(b"foo", b.clone())]);
    let side2 = write_root(&mut store, vec![(b"foo", a.clone())]);
    let merged = merge_trees(&mut store, &side1, &base, &side2).unwrap();
    assert_eq!(&merged, side1.id());
    // swapping the sides yields the same id
    let swapped = merge_trees(&mut store, &side2, &base, &side1).unwrap();
    assert_eq!(swapped, merged);
    let merged_tree = load_root(&store, &merged);
    assert_eq!(merged_tree.value(&comp(b"foo")), Some(&b));
}

#[test]
fn test_merge_equal_sides_shortcuts() {
    let mut store = Store::new();
    let a = file(&mut store, b"A", false);
    let b = file(&mut store, b"B", false);
    let ta = write_root(&mut store, vec![(b"foo", a)]);
    let tb = write_root(&mut store, vec![(b"foo", b)]);
    // merge(base, base, other) == other, merge(base, other, other) keeps other
    assert_eq!(&merge_trees(&mut store, &ta, &ta, &tb).unwrap(), tb.id());
    assert_eq!(&merge_trees(&mut store, &tb, &ta, &tb).unwrap(), tb.id());
    assert_eq!(&merge_trees(&mut store, &tb, &tb, &ta).unwrap(), ta.id());
}

#[test]
fn test_merge_combines_disjoint_changes() {
    // base(foo=A, bar=X); side1 changes foo; side2 changes bar
    let mut store = Store::new();
    let a = file(&mut store, b"A", false);
    let b = file(&mut store, b"B", false);
    let x = file(&mut store, b"X", false);
    let y = file(&mut store, b"Y", false);
    let base = write_root(&mut store, vec![(b"foo", a.clone()), (b"bar", x.clone())]);
    let side1 = write_root(&mut store, vec![(b"foo", b.clone()), (b"bar", x.clone())]);
    let side2 = write_root(&mut store, vec![(b"foo", a.clone()), (b"bar", y.clone())]);
    let merged = merge_trees(&mut store, &side1, &base, &side2).unwrap();
    let merged_tree = load_root(&store, &merged);
    assert_eq!(merged_tree.value(&comp(b"foo")), Some(&b));
    assert_eq!(merged_tree.value(&comp(b"bar")), Some(&y));
}

#[test]
fn test_merge_resolves_executable_bit() {
    // side1 turns foo executable, side2 rewrites the content: both win
    let mut store = Store::new();
    let a_plain = file(&mut store, b"A", false);
    let a_exec = file(&mut store, b"A", true);
    let b_plain = file(&mut store, b"B", false);
    // the trees need an unrelated extra difference so no shortcut fires
    let base = write_root(&mut store, vec![(b"foo", a_plain.clone())]);
    let side1 = write_root(&mut store, vec![(b"foo", a_exec.clone())]);
    let side2 = write_root(&mut store, vec![(b"foo", b_plain.clone())]);
    let merged = merge_trees(&mut store, &side1, &base, &side2).unwrap();
    let merged_tree = load_root(&store, &merged);
    match merged_tree.value(&comp(b"foo")) {
        Some(TreeValue::File { id, executable }) => {
            assert!(*executable);
            let content = store.read_file(&RepoPath::root(), id).unwrap();
            assert_eq!(content, b"B".to_vec());
        }
        other => panic!("expected a file, got {:?}", other),
    }
}

#[test]
fn test_merge_unresolvable_conflict_is_persisted() {
    // all three contents differ: the conflict is persisted
    let mut store = Store::new();
    let a = file(&mut store, b"A", false);
    let b = file(&mut store, b"B", false);
    let c = file(&mut store, b"C", false);
    let base = write_root(&mut store, vec![(b"foo", a.clone())]);
    let side1 = write_root(&mut store, vec![(b"foo", b.clone())]);
    let side2 = write_root(&mut store, vec![(b"foo", c.clone())]);
    let merged = merge_trees(&mut store, &side1, &base, &side2).unwrap();
    let merged_tree = load_root(&store, &merged);
    match merged_tree.value(&comp(b"foo")) {
        Some(TreeValue::Conflict(id)) => {
            let conflict = store.read_conflict(&RepoPath::root(), id).unwrap();
            assert_eq!(conflict.removes, vec![ConflictTerm { value: a }]);
            assert_eq!(
                conflict.adds,
                vec![ConflictTerm { value: b }, ConflictTerm { value: c }]
            );
        }
        other => panic!("expected a conflict, got {:?}", other),
    }
    assert!(merged_tree.has_conflict(&store));
}

#[test]
fn test_directory_replaced_by_file_diff_order() {
    // base has d/ with d/x and d/y; side1 replaces d with a file.
    // The removals inside d come before the addition of d.
    let mut store = Store::new();
    let fx = file(&mut store, b"x", false);
    let fy = file(&mut store, b"y", false);
    let d_dir = RepoPath::root().join(&comp(b"d"));
    let d_tree = subtree_value(&mut store, &d_dir, vec![(b"x", fx.clone()), (b"y", fy.clone())]);
    let base = write_root(&mut store, vec![(b"d", d_tree)]);
    let f_d = file(&mut store, b"now a file", false);
    let side1 = write_root(&mut store, vec![(b"d", f_d.clone())]);
    let mut it = recursive_tree_diff(&store, base, side1, &EverythingMatcher);
    let (p1, d1) = it.next().unwrap();
    assert_eq!(path_names(&p1), vec![b"d".to_vec(), b"x".to_vec()]);
    assert_eq!(d1, Diff::Removed(fx));
    let (p2, d2) = it.next().unwrap();
    assert_eq!(path_names(&p2), vec![b"d".to_vec(), b"y".to_vec()]);
    assert_eq!(d2, Diff::Removed(fy));
    let (p3, d3) = it.next().unwrap();
    assert_eq!(path_names(&p3), vec![b"d".to_vec()]);
    assert_eq!(d3, Diff::Added(f_d));
    assert!(it.next().is_none());
}

#[test]
fn test_equal_trees_diff_to_nothing() {
    let mut store = Store::new();
    let a = file(&mut store, b"A", false);
    let t1 = write_root(&mut store, vec![(b"foo", a.clone())]);
    let t2 = write_root(&mut store, vec![(b"foo", a)]);
    assert_eq!(t1.id(), t2.id());
    let mut it = recursive_tree_diff(&store, t1, t2, &EverythingMatcher);
    assert!(it.next().is_none());
}

#[test]
fn test_conflict_cancellation_via_rebase() {
    // {+A, -B, +{+B, -A, +C}} simplifies to {+C}
    let mut store = Store::new();
    let a = file(&mut store, b"A", false);
    let b = file(&mut store, b"B", false);
    let c = file(&mut store, b"C", false);
    let inner = Conflict {
        removes: vec![ConflictTerm { value: a.clone() }],
        adds: vec![ConflictTerm { value: b.clone() }, ConflictTerm { value: c.clone() }],
    };
    let inner_id = store.write_conflict(&RepoPath::root(), &inner).unwrap();
    let outer = Conflict {
        removes: vec![ConflictTerm { value: b.clone() }],
        adds: vec![
            ConflictTerm { value: a.clone() },
            ConflictTerm { value: TreeValue::Conflict(inner_id) },
        ],
    };
    let simplified = simplify_conflict(&store, &RepoPath::root(), outer).unwrap();
    assert_eq!(simplified.removes, vec![]);
    assert_eq!(simplified.adds, vec![ConflictTerm { value: c }]);
}

#[test]
fn test_simplify_twice_is_simplify_once() {
    let mut store = Store::new();
    let a = file(&mut store, b"A", false);
    let b = file(&mut store, b"B", false);
    let c = file(&mut store, b"C", false);
    let inner = Conflict {
        removes: vec![ConflictTerm { value: a.clone() }],
        adds: vec![ConflictTerm { value: b.clone() }],
    };
    let inner_id = store.write_conflict(&RepoPath::root(), &inner).unwrap();
    let outer = Conflict {
        removes: vec![ConflictTerm { value: c.clone() }],
        adds: vec![
            ConflictTerm { value: TreeValue::Conflict(inner_id) },
            ConflictTerm { value: c.clone() },
        ],
    };
    let once = simplify_conflict(&store, &RepoPath::root(), outer).unwrap();
    let twice = simplify_conflict(&store, &RepoPath::root(), once.clone()).unwrap();
    assert_eq!(once, twice);
}

#[test]
fn test_path_value_descends() {
    let mut store = Store::new();
    let fx = file(&mut store, b"x", false);
    let d_dir = RepoPath::root().join(&comp(b"d"));
    let d_tree = subtree_value(&mut store, &d_dir, vec![(b"x", fx.clone())]);
    let root = write_root(&mut store, vec![(b"d", d_tree.clone())]);
    let p = RepoPath::root().join(&comp(b"d")).join(&comp(b"x"));
    assert_eq!(root.path_value(&store, &p), Some(fx));
    assert_eq!(
        root.path_value(&store, &RepoPath::root()),
        Some(TreeValue::Tree(root.id().clone()))
    );
    let missing = RepoPath::root().join(&comp(b"nope"));
    assert_eq!(root.path_value(&store, &missing), None);
    // the null tree denotes absence
    let null = Tree::null(RepoPath::root());
    assert!(null.id().as_bytes().is_empty());
}

#[test]
fn test_entries_walk_depth_first() {
    let mut store = Store::new();
    let fx = file(&mut store, b"x", false);
    let fz = file(&mut store, b"z", false);
    let d_dir = RepoPath::root().join(&comp(b"d"));
    let d_tree = subtree_value(&mut store, &d_dir, vec![(b"x", fx.clone())]);
    let root = write_root(&mut store, vec![(b"d", d_tree), (b"z", fz.clone())]);
    let mut it = root.entries(&store);
    let (p1, v1) = it.next().unwrap();
    assert_eq!(path_names(&p1), vec![b"d".to_vec(), b"x".to_vec()]);
    assert_eq!(v1, fx);
    let (p2, v2) = it.next().unwrap();
    assert_eq!(path_names(&p2), vec![b"z".to_vec()]);
    assert_eq!(v2, fz);
    assert!(it.next().is_none());
}

#[test]
fn test_diff_summary_groups_and_sorts() {
    let mut store = Store::new();
    let a = file(&mut store, b"A", false);
    let b = file(&mut store, b"B", false);
    let n = file(&mut store, b"new", false);
    let before = write_root(&mut store, vec![(b"keep", a.clone()), (b"gone", b.clone())]);
    let after = write_root(&mut store, vec![(b"keep", b.clone()), (b"made", n.clone())]);
    let summary = before.diff_summary(&store, &after, &EverythingMatcher);
    assert!(!summary.is_empty());
    assert_eq!(summary.modified.len(), 1);
    assert_eq!(path_names(&summary.modified[0]), vec![b"keep".to_vec()]);
    assert_eq!(summary.added.len(), 1);
    assert_eq!(path_names(&summary.added[0]), vec![b"made".to_vec()]);
    assert_eq!(summary.removed.len(), 1);
    assert_eq!(path_names(&summary.removed[0]), vec![b"gone".to_vec()]);
}

#[test]
fn test_store_rejects_unknown_ids() {
    let store = Store::new();
    let bogus = TreeId::from_bytes(vec![9, 9, 9]);
    assert!(matches!(
        store.get_tree_data(&bogus),
        Err(BackendError::ObjectNotFound)
    ));
}

#[test]
fn test_equal_content_gets_equal_ids() {
    // the store is content-addressed: rewriting equal content returns
    // the id already assigned, and tree ids are pure functions of the
    // entries
    let mut store = Store::new();
    let a1 = store.write_file(&RepoPath::root(), &b"A".to_vec()).unwrap();
    let a2 = store.write_file(&RepoPath::root(), &b"A".to_vec()).unwrap();
    assert_eq!(a1, a2);
    let mut data1 = TreeData::new();
    data1.set(comp(b"foo"), TreeValue::File { id: a1.clone(), executable: false });
    let mut data2 = TreeData::new();
    data2.set(comp(b"foo"), TreeValue::File { id: a2, executable: false });
    let t1 = store.write_tree(&RepoPath::root(), &data1).unwrap();
    let t2 = store.write_tree(&RepoPath::root(), &data2).unwrap();
    assert_eq!(t1, t2);
}
