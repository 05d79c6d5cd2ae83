use openbrs::diff::{ChangeType, Store};
use openbrs::driver::{backup_diff, backup_full};
use openbrs::json::commit_json_bytes;
use openbrs::snapshot::FsNode;
use openbrs::BackupError;

fn file(name: &str, content: &str) -> FsNode {
    FsNode::File { name: name.as_bytes().to_vec(), content: content.as_bytes().to_vec() }
}

fn dir(name: &str, children: Vec<FsNode>) -> FsNode {
    FsNode::Dir { name: name.as_bytes().to_vec(), children }
}

#[test]
fn full_backup_of_single_file() {
    let fs = file("TOAD.png", "hello");
    let full = backup_full(&fs);
    // HEAD names the commit, the commit names the root tree
    assert_eq!(full.head, full.commit.id);
    assert_eq!(full.commit.tree_id, full.root.id);
    assert!(full.commit.parent.is_none());
    assert_eq!(full.commit.message, b"First commit".to_vec());
    assert_eq!(full.head.len(), 64);
    assert_eq!(
        full.root.id,
        b"3338be694f50c5f338814986cdf0686453a888b84f424d792af4b9202398f392".to_vec()
    );
    assert_eq!(
        full.commit.id,
        b"3af96cf2fe4e7bb37f5494bb10450a19d60165479484c5e2355e5e3742e0bc65".to_vec()
    );
}

#[test]
fn full_backup_head_names_root_tree() {
    let fs = dir("work", vec![file("a.txt", "A"), file("b.txt", "B")]);
    let full = backup_full(&fs);
    assert_eq!(full.head, full.commit.id);
    assert_eq!(full.commit.tree_id, full.root.id);
    assert_eq!(full.trees.len(), 1);
    assert_eq!(full.trees[0].id, full.root.id);
}

fn store_of(trees: Vec<openbrs::objects::Tree>) -> Store {
    let mut s = Store::new();
    for t in trees {
        s.add(t);
    }
    s
}

#[test]
fn differential_backup_with_no_change_is_empty() {
    let fs = dir("work", vec![file("a.txt", "A"), file("b.txt", "B")]);
    let full = backup_full(&fs);
    let commit_bytes = commit_json_bytes(&full.commit).unwrap();
    let store = store_of(full.trees);
    let d = backup_diff(
        &fs,
        &full.head,
        &commit_bytes,
        &store,
        &b"work".to_vec(),
        &b"/home/user".to_vec(),
    )
    .unwrap();
    assert_eq!(d.changes.len(), 0);
    assert_eq!(d.to_archive.len(), 0);
    // HEAD still advances to a commit over the same root
    assert_eq!(d.head, d.commit.id);
    assert_eq!(d.commit.tree_id, full.root.id);
    assert_eq!(d.commit.parent, Some(full.head.clone()));
}

#[test]
fn differential_backup_stages_one_modified_file() {
    let before = dir("work", vec![file("a.txt", "A"), file("b.txt", "B")]);
    let after = dir("work", vec![file("a.txt", "A2"), file("b.txt", "B")]);
    let full = backup_full(&before);
    let commit_bytes = commit_json_bytes(&full.commit).unwrap();
    let store = store_of(full.trees);
    let d = backup_diff(
        &after,
        &full.head,
        &commit_bytes,
        &store,
        &b"work".to_vec(),
        &b"/home/user".to_vec(),
    )
    .unwrap();
    assert_eq!(d.changes.len(), 1);
    assert!(matches!(d.changes[0].change_type, ChangeType::Modified));
    assert_eq!(d.changes[0].name, b"a.txt".to_vec());
    assert_eq!(d.to_archive, vec![b"work/a.txt".to_vec()]);
    assert_ne!(d.root.id, full.root.id);
    assert_eq!(d.commit.tree_id, d.root.id);
}

#[test]
fn differential_backup_removal_stages_nothing() {
    let before = dir("work", vec![file("a.txt", "A"), file("b.txt", "B")]);
    let after = dir("work", vec![file("a.txt", "A")]);
    let full = backup_full(&before);
    let commit_bytes = commit_json_bytes(&full.commit).unwrap();
    let store = store_of(full.trees);
    let d = backup_diff(
        &after,
        &full.head,
        &commit_bytes,
        &store,
        &b"work".to_vec(),
        &b"/home/user".to_vec(),
    )
    .unwrap();
    assert_eq!(d.changes.len(), 1);
    assert!(matches!(d.changes[0].change_type, ChangeType::Removed));
    assert_eq!(d.to_archive.len(), 0);
}

#[test]
fn differential_backup_nested_addition() {
    let before = dir("work", vec![file("a.txt", "A"), file("b.txt", "B")]);
    let after = dir(
        "work",
        vec![file("a.txt", "A"), file("b.txt", "B"), dir("sub", vec![file("c.txt", "C")])],
    );
    let full = backup_full(&before);
    let commit_bytes = commit_json_bytes(&full.commit).unwrap();
    let store = store_of(full.trees);
    let d = backup_diff(
        &after,
        &full.head,
        &commit_bytes,
        &store,
        &b"work".to_vec(),
        &b"/home/user".to_vec(),
    )
    .unwrap();
    assert_eq!(d.changes.len(), 1);
    assert!(matches!(d.changes[0].change_type, ChangeType::Added));
    assert_eq!(d.changes[0].name, b"sub".to_vec());
    assert_eq!(d.to_archive, vec![b"work/sub".to_vec()]);
}

#[test]
fn bad_head_is_an_encoding_error() {
    let fs = dir("work", vec![file("a.txt", "A")]);
    let full = backup_full(&fs);
    let commit_bytes = commit_json_bytes(&full.commit).unwrap();
    let store = store_of(full.trees);
    let r = backup_diff(
        &fs,
        &b"not a hex id".to_vec(),
        &commit_bytes,
        &store,
        &b"work".to_vec(),
        &b"/home".to_vec(),
    );
    assert!(matches!(r, Err(BackupError::EncodingError)));
}

#[test]
fn mismatched_commit_id_is_corruption() {
    let fs = dir("work", vec![file("a.txt", "A")]);
    let full = backup_full(&fs);
    let commit_bytes = commit_json_bytes(&full.commit).unwrap();
    let store = store_of(full.trees);
    // HEAD names a different (well-formed) id than the stored commit
    let other = b"0000000000000000000000000000000000000000000000000000000000000000".to_vec();
    let r = backup_diff(&fs, &other, &commit_bytes, &store, &b"work".to_vec(), &b"/h".to_vec());
    assert!(matches!(r, Err(BackupError::Corruption)));
}

#[test]
fn missing_latest_tree_is_not_found() {
    let fs = dir("work", vec![file("a.txt", "A")]);
    let full = backup_full(&fs);
    let commit_bytes = commit_json_bytes(&full.commit).unwrap();
    // an empty store: the tree the commit names is missing
    let store = Store::new();
    let r = backup_diff(&fs, &full.head, &commit_bytes, &store, &b"work".to_vec(), &b"/h".to_vec());
    assert!(matches!(r, Err(BackupError::NotFound)));
}

#[test]
fn tampered_stored_tree_is_corruption() {
    let fs = dir("work", vec![file("a.txt", "A"), file("b.txt", "B")]);
    let full = backup_full(&fs);
    let commit_bytes = commit_json_bytes(&full.commit).unwrap();
    let mut trees = full.trees;
    // rewrite one stored entry: the tree's id no longer matches its
    // own content
    trees[0].entries[0].id =
        b"0000000000000000000000000000000000000000000000000000000000000000".to_vec();
    let store = store_of(trees);
    let r = backup_diff(&fs, &full.head, &commit_bytes, &store, &b"work".to_vec(), &b"/h".to_vec());
    assert!(matches!(r, Err(BackupError::Corruption)));
}
