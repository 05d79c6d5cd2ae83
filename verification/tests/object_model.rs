use openbrs::digest::{hash_id, hex_encode};
use openbrs::objects::{Blob, Commit, EntryRef, Tree};
use openbrs::snapshot::FsNode;

fn hex(expected: &str, got: &Vec<u8>) {
    assert_eq!(expected.as_bytes().to_vec(), *got);
}

#[test]
fn hex_encoding_exact() {
    let bytes = vec![0x00u8, 0x7f, 0xff];
    hex("007fff", &hex_encode(&bytes));
}

#[test]
fn blob_id_of_hello() {
    let blob = Blob::new(&b"hello".to_vec());
    hex(
        "3338be694f50c5f338814986cdf0686453a888b84f424d792af4b9202398f392",
        &blob.id.unwrap(),
    );
}

#[test]
fn blob_ids_equal_for_equal_content() {
    let a = Blob::new(&b"same bytes".to_vec());
    let b = Blob::new(&b"same bytes".to_vec());
    assert_eq!(a.id.unwrap(), b.id.unwrap());
}

#[test]
fn dir_id_sorts_entries() {
    // the listing hashes the same whichever order the entries came in
    let e = |name: &str, id: &str| EntryRef {
        name: name.as_bytes().to_vec(),
        id: id.as_bytes().to_vec(),
    };
    let a = "1c9ebd6caf02840a5b2b7f0fc870ec1db154886ae9fe621b822b14fd0bf513d6";
    let b = "521ec18851e17bbba961bc46c70baf03ee67ebdea11a8306de39c15a90e9d2e5";
    let id1 = Tree::calc_dir_id(vec![e("a.txt", a), e("b.txt", b)]);
    let id2 = Tree::calc_dir_id(vec![e("b.txt", b), e("a.txt", a)]);
    assert_eq!(id1, id2);
    hex("5513b9aa54793bc2b550cec269b4942a1abfaad4286f374ee7a4c0daae36c76a", &id1);
}

#[test]
fn empty_dir_id_is_well_defined() {
    let id = Tree::calc_dir_id(Vec::new());
    hex("a7ffc6f8bf1ed76651c14756a061d662f580ff4de43b49fa82d80a4b80f8434a", &id);
}

#[test]
fn commit_id_without_parent() {
    let c = Commit::new(
        b"3338be694f50c5f338814986cdf0686453a888b84f424d792af4b9202398f392".to_vec(),
        None,
        b"First commit".to_vec(),
    );
    hex("3af96cf2fe4e7bb37f5494bb10450a19d60165479484c5e2355e5e3742e0bc65", &c.id);
}

#[test]
fn commit_id_depends_on_parent() {
    let tree_id = b"3338be694f50c5f338814986cdf0686453a888b84f424d792af4b9202398f392".to_vec();
    let without = Commit::new(tree_id.clone(), None, b"m".to_vec());
    let with = Commit::new(
        tree_id,
        Some(b"3af96cf2fe4e7bb37f5494bb10450a19d60165479484c5e2355e5e3742e0bc65".to_vec()),
        b"m".to_vec(),
    );
    assert_ne!(without.id, with.id);
}

fn file(name: &str, content: &str) -> FsNode {
    FsNode::File { name: name.as_bytes().to_vec(), content: content.as_bytes().to_vec() }
}

fn dir(name: &str, children: Vec<FsNode>) -> FsNode {
    FsNode::Dir { name: name.as_bytes().to_vec(), children }
}

#[test]
fn snapshot_is_deterministic() {
    // the same picture snapshots to the same root id, twice over
    let make = || dir("work", vec![file("a.txt", "A"), file("b.txt", "B")]);
    let mut t1 = Vec::new();
    let mut t2 = Vec::new();
    let r1 = Tree::build(&make(), &mut t1);
    let r2 = Tree::build(&make(), &mut t2);
    assert_eq!(r1.id, r2.id);
    assert_eq!(
        r1.id,
        b"5513b9aa54793bc2b550cec269b4942a1abfaad4286f374ee7a4c0daae36c76a".to_vec()
    );
}

#[test]
fn content_addressing_ignores_read_order() {
    // equal contents under equal names give one id, whatever order
    // the directory was read in
    let d1 = dir("work", vec![file("a.txt", "A"), file("b.txt", "B")]);
    let d2 = dir("work", vec![file("b.txt", "B"), file("a.txt", "A")]);
    let mut t1 = Vec::new();
    let mut t2 = Vec::new();
    assert_eq!(Tree::build(&d1, &mut t1).id, Tree::build(&d2, &mut t2).id);
}

#[test]
fn rename_keeps_blob_id_changes_listing() {
    let d1 = dir("work", vec![file("a.txt", "A"), file("b.txt", "B")]);
    let d2 = dir("work", vec![file("a2.txt", "A"), file("b.txt", "B")]);
    let mut t1 = Vec::new();
    let mut t2 = Vec::new();
    let r1 = Tree::build(&d1, &mut t1);
    let r2 = Tree::build(&d2, &mut t2);
    // the renamed file's blob id is unchanged
    let id_of = |t: &openbrs::objects::Tree, name: &[u8]| {
        t.entries
            .iter()
            .find(|e| e.name == name.to_vec())
            .map(|e| e.id.clone())
            .unwrap()
    };
    assert_eq!(id_of(&r1, b"a.txt"), id_of(&r2, b"a2.txt"));
    // but the enclosing listing, and here the tree id too, changed
    assert_ne!(r1.id, r2.id);
}

#[test]
fn file_target_tree_id_equals_blob_id() {
    let f = file("TOAD.png", "hello");
    let mut trees = Vec::new();
    let root = Tree::build(&f, &mut trees);
    assert_eq!(
        root.id,
        b"3338be694f50c5f338814986cdf0686453a888b84f424d792af4b9202398f392".to_vec()
    );
    assert_eq!(root.entries.len(), 1);
    assert_eq!(root.entries[0].name, b"TOAD.png".to_vec());
    assert_eq!(root.entries[0].id, root.id);
    // the degenerate root tree is persisted too
    assert_eq!(trees.len(), 1);
}

#[test]
fn workspace_is_excluded_from_snapshots() {
    let plain = dir("work", vec![file("a.txt", "A")]);
    let with_ws = dir(
        "work",
        vec![file("a.txt", "A"), dir(".openbrs", vec![file("HEAD", "junk")])],
    );
    let mut t1 = Vec::new();
    let mut t2 = Vec::new();
    assert_eq!(Tree::build(&plain, &mut t1).id, Tree::build(&with_ws, &mut t2).id);
}

#[test]
fn inner_trees_are_persisted_post_order() {
    let d = dir("work", vec![dir("sub", vec![file("c.txt", "C")]), file("a.txt", "A")]);
    let mut trees = Vec::new();
    let root = Tree::build(&d, &mut trees);
    assert_eq!(trees.len(), 2);
    assert_eq!(trees[0].name, b"sub".to_vec());
    assert_eq!(trees[1].name, b"work".to_vec());
    assert_eq!(trees[1].id, root.id);
}
