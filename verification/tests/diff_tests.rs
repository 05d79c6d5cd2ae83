use openbrs::diff::{current_level_diff, compare_trees, Change, ChangeType, Store};
use openbrs::objects::Tree;
use openbrs::snapshot::FsNode;
use openbrs::BackupError;

fn file(name: &str, content: &str) -> FsNode {
    FsNode::File { name: name.as_bytes().to_vec(), content: content.as_bytes().to_vec() }
}

fn dir(name: &str, children: Vec<FsNode>) -> FsNode {
    FsNode::Dir { name: name.as_bytes().to_vec(), children }
}

fn snapshot(node: &FsNode) -> (Tree, Store) {
    let mut trees = Vec::new();
    let root = Tree::build(node, &mut trees);
    let mut store = Store::new();
    for t in trees {
        store.add(t);
    }
    (root, store)
}

fn merged(a: &Store, b: &Store) -> Store {
    let mut s = Store::new();
    for t in a.trees.iter() {
        s.add(openbrs::snapshot::clone_tree(t));
    }
    for t in b.trees.iter() {
        s.add(openbrs::snapshot::clone_tree(t));
    }
    s
}

#[test]
fn unchanged_tree_diffs_to_nothing() {
    // locality: equal ids, no change records at all
    let (r1, _) = snapshot(&dir("work", vec![file("a.txt", "A"), file("b.txt", "B")]));
    let (r2, s2) = snapshot(&dir("work", vec![file("a.txt", "A"), file("b.txt", "B")]));
    assert!(current_level_diff(&r1, &r2, &b"work".to_vec()).is_none());
    let all = compare_trees(&r1, &r2, &s2, &b"work".to_vec()).unwrap();
    assert_eq!(all.len(), 0);
}

#[test]
fn modified_file_yields_one_change() {
    let (old_root, old_store) = snapshot(&dir("work", vec![file("a.txt", "A"), file("b.txt", "B")]));
    let (new_root, new_store) = snapshot(&dir("work", vec![file("a.txt", "A2"), file("b.txt", "B")]));
    let store = merged(&old_store, &new_store);
    let all = compare_trees(&old_root, &new_root, &store, &b"work".to_vec()).unwrap();
    assert_eq!(all.len(), 1);
    assert!(matches!(all[0].change_type, ChangeType::Modified));
    assert_eq!(all[0].name, b"a.txt".to_vec());
    assert_eq!(all[0].path, b"work/a.txt".to_vec());
    assert!(all[0].old_id.is_some());
    assert!(all[0].new_id.is_some());
    assert_ne!(all[0].old_id, all[0].new_id);
}

#[test]
fn added_nested_dir_yields_added_change() {
    let (old_root, old_store) = snapshot(&dir("work", vec![file("a.txt", "A"), file("b.txt", "B")]));
    let (new_root, new_store) = snapshot(&dir(
        "work",
        vec![file("a.txt", "A"), file("b.txt", "B"), dir("sub", vec![file("c.txt", "C")])],
    ));
    let store = merged(&old_store, &new_store);
    let all = compare_trees(&old_root, &new_root, &store, &b"work".to_vec()).unwrap();
    assert_eq!(all.len(), 1);
    assert!(matches!(all[0].change_type, ChangeType::Added));
    assert_eq!(all[0].name, b"sub".to_vec());
    assert_eq!(all[0].path, b"work/sub".to_vec());
    assert!(all[0].old_id.is_none());
}

#[test]
fn removed_file_yields_removed_change() {
    let (old_root, old_store) = snapshot(&dir("work", vec![file("a.txt", "A"), file("b.txt", "B")]));
    let (new_root, new_store) = snapshot(&dir("work", vec![file("a.txt", "A")]));
    let store = merged(&old_store, &new_store);
    let all = compare_trees(&old_root, &new_root, &store, &b"work".to_vec()).unwrap();
    assert_eq!(all.len(), 1);
    assert!(matches!(all[0].change_type, ChangeType::Removed));
    assert_eq!(all[0].name, b"b.txt".to_vec());
    assert!(all[0].new_id.is_none());
    assert_ne!(old_root.id, new_root.id);
}

#[test]
fn deep_change_recurses_leaves_first() {
    let (old_root, old_store) = snapshot(&dir(
        "work",
        vec![file("a.txt", "A"), dir("sub", vec![file("c.txt", "C")])],
    ));
    let (new_root, new_store) = snapshot(&dir(
        "work",
        vec![file("a.txt", "A"), dir("sub", vec![file("c.txt", "C2")])],
    ));
    let store = merged(&old_store, &new_store);
    let all = compare_trees(&old_root, &new_root, &store, &b"work".to_vec()).unwrap();
    // the leaf change stands before the enclosing directory record
    assert_eq!(all.len(), 2);
    assert!(matches!(all[0].change_type, ChangeType::Modified));
    assert_eq!(all[0].name, b"c.txt".to_vec());
    assert_eq!(all[0].path, b"work/sub/c.txt".to_vec());
    assert!(matches!(all[1].change_type, ChangeType::Modified));
    assert_eq!(all[1].name, b"sub".to_vec());
}

#[test]
fn level_diff_partitions_the_symmetric_difference() {
    // one name added, one removed, one modified, one kept: each in
    // exactly one category, the kept one in none
    let (old_root, _) = snapshot(&dir(
        "work",
        vec![file("gone.txt", "G"), file("kept.txt", "K"), file("mod.txt", "M")],
    ));
    let (new_root, _) = snapshot(&dir(
        "work",
        vec![file("kept.txt", "K"), file("mod.txt", "M2"), file("new.txt", "N")],
    ));
    let changes = current_level_diff(&old_root, &new_root, &b"work".to_vec()).unwrap();
    assert_eq!(changes.len(), 3);
    let of = |name: &[u8]| -> Vec<&Change> {
        changes.iter().filter(|c| c.name == name.to_vec()).collect()
    };
    assert_eq!(of(b"kept.txt").len(), 0);
    let added = of(b"new.txt");
    assert_eq!(added.len(), 1);
    assert!(matches!(added[0].change_type, ChangeType::Added));
    let removed = of(b"gone.txt");
    assert_eq!(removed.len(), 1);
    assert!(matches!(removed[0].change_type, ChangeType::Removed));
    let modified = of(b"mod.txt");
    assert_eq!(modified.len(), 1);
    assert!(matches!(modified[0].change_type, ChangeType::Modified));
    // additions and modifications come before removals
    assert!(matches!(changes[2].change_type, ChangeType::Removed));
}

#[test]
fn store_lookup_finds_stored_trees() {
    let (root, store) = snapshot(&dir("work", vec![dir("sub", vec![file("c.txt", "C")])]));
    assert!(store.get(&root.id).is_some());
    assert!(store.get(&b"0000000000000000000000000000000000000000000000000000000000000000".to_vec()).is_none());
}

#[test]
fn cyclic_store_is_reported_as_corruption() {
    // two hand-made trees that reference each other can exhaust the
    // differ's recursion budget only by cycling, which an intact
    // content-addressed store cannot do
    let id_a = b"aaaaaaaaaaaaaaaaaaaaaaaaaaaaaaaaaaaaaaaaaaaaaaaaaaaaaaaaaaaaaaaa".to_vec();
    let id_b = b"bbbbbbbbbbbbbbbbbbbbbbbbbbbbbbbbbbbbbbbbbbbbbbbbbbbbbbbbbbbbbbbb".to_vec();
    let make = |own: &Vec<u8>, other: &Vec<u8>| Tree {
        id: own.clone(),
        name: b"x".to_vec(),
        entries: vec![openbrs::objects::EntryRef { name: b"loop".to_vec(), id: other.clone() }],
    };
    let ta = make(&id_a, &id_b);
    let tb = make(&id_b, &id_a);
    let mut store = Store::new();
    store.add(make(&id_a, &id_b));
    store.add(make(&id_b, &id_a));
    // make the two roots reference each other's stored trees
    let r = compare_trees(&ta, &tb, &store, &b"x".to_vec());
    assert!(matches!(r, Err(BackupError::Corruption)));
}

#[test]
fn missing_old_directory_tree_is_not_found() {
    // the old subtree's stored tree is absent: only the new
    // snapshot's trees stand in the store
    let (old_root, _) = snapshot(&dir(
        "work",
        vec![file("a.txt", "A"), dir("sub", vec![file("c.txt", "C")])],
    ));
    let (new_root, new_store) = snapshot(&dir(
        "work",
        vec![file("a.txt", "A"), dir("sub", vec![file("c.txt", "C2")])],
    ));
    let r = compare_trees(&old_root, &new_root, &new_store, &b"work".to_vec());
    assert!(matches!(r, Err(BackupError::NotFound)));
}

#[test]
fn dir_to_file_change_is_a_leaf_modification() {
    // the path is no directory any more, so nothing is fetched and
    // the change stands as a leaf
    let (old_root, old_store) = snapshot(&dir("work", vec![dir("sub", vec![file("c.txt", "C")])]));
    let (new_root, new_store) = snapshot(&dir("work", vec![file("sub", "now a file")]));
    let store = merged(&old_store, &new_store);
    let all = compare_trees(&old_root, &new_root, &store, &b"work".to_vec()).unwrap();
    assert_eq!(all.len(), 1);
    assert!(matches!(all[0].change_type, ChangeType::Modified));
    assert_eq!(all[0].name, b"sub".to_vec());
}
