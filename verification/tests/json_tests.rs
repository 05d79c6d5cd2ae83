use openbrs::json::{tree_json_bytes, parse_tree, commit_json_bytes, parse_commit};
use openbrs::objects::{Commit, EntryRef, Tree};
use openbrs::BackupError;

fn sample_tree() -> Tree {
    Tree {
        id: b"5513b9aa54793bc2b550cec269b4942a1abfaad4286f374ee7a4c0daae36c76a".to_vec(),
        name: b"work".to_vec(),
        entries: vec![
            EntryRef {
                name: b"a.txt".to_vec(),
                id: b"1c9ebd6caf02840a5b2b7f0fc870ec1db154886ae9fe621b822b14fd0bf513d6".to_vec(),
            },
            EntryRef {
                name: b"b.txt".to_vec(),
                id: b"521ec18851e17bbba961bc46c70baf03ee67ebdea11a8306de39c15a90e9d2e5".to_vec(),
            },
        ],
    }
}

#[test]
fn tree_json_exact_text() {
    let s = tree_json_bytes(&sample_tree()).unwrap();
    let mut expected = String::new();
    expected.push_str("{\"id\":\"5513b9aa54793bc2b550cec269b4942a1abfaad4286f374ee7a4c0daae36c76a\",");
    expected.push_str("\"name\":\"work\",\"entries\":[");
    expected.push_str("{\"name\":\"a.txt\",\"id\":\"1c9ebd6caf02840a5b2b7f0fc870ec1db154886ae9fe621b822b14fd0bf513d6\"},");
    expected.push_str("{\"name\":\"b.txt\",\"id\":\"521ec18851e17bbba961bc46c70baf03ee67ebdea11a8306de39c15a90e9d2e5\"}");
    expected.push_str("]}");
    assert_eq!(s, expected.as_bytes().to_vec());
}

#[test]
fn tree_serialize_parse_serialize_is_fixed_point() {
    let s1 = tree_json_bytes(&sample_tree()).unwrap();
    let parsed = parse_tree(&s1).unwrap();
    let s2 = tree_json_bytes(&parsed).unwrap();
    assert_eq!(s1, s2);
}

#[test]
fn empty_tree_round_trips() {
    let t = Tree {
        id: b"a7ffc6f8bf1ed76651c14756a061d662f580ff4de43b49fa82d80a4b80f8434a".to_vec(),
        name: b"empty".to_vec(),
        entries: Vec::new(),
    };
    let s1 = tree_json_bytes(&t).unwrap();
    let parsed = parse_tree(&s1).unwrap();
    assert_eq!(parsed.entries.len(), 0);
    let s2 = tree_json_bytes(&parsed).unwrap();
    assert_eq!(s1, s2);
}

#[test]
fn tree_with_unsorted_entries_is_refused() {
    let mut t = sample_tree();
    t.entries.reverse();
    assert!(matches!(tree_json_bytes(&t), Err(BackupError::EncodingError)));
}

#[test]
fn tree_with_bad_id_is_refused() {
    let mut t = sample_tree();
    t.id = b"not-a-hex-id".to_vec();
    assert!(matches!(tree_json_bytes(&t), Err(BackupError::EncodingError)));
}

#[test]
fn garbage_does_not_parse_as_tree() {
    assert!(matches!(parse_tree(&b"hello".to_vec()), Err(BackupError::EncodingError)));
    assert!(matches!(parse_tree(&b"".to_vec()), Err(BackupError::EncodingError)));
    // a truncated but well-started object is refused too
    let s = tree_json_bytes(&sample_tree()).unwrap();
    let cut = s[..s.len() - 1].to_vec();
    assert!(matches!(parse_tree(&cut), Err(BackupError::EncodingError)));
}

fn sample_commit(parent: Option<Vec<u8>>) -> Commit {
    Commit::new(
        b"5513b9aa54793bc2b550cec269b4942a1abfaad4286f374ee7a4c0daae36c76a".to_vec(),
        parent,
        b"First commit".to_vec(),
    )
}

#[test]
fn commit_json_exact_text_without_parent() {
    let c = sample_commit(None);
    let s = commit_json_bytes(&c).unwrap();
    let mut expected = Vec::new();
    expected.extend_from_slice(b"{\"id\":\"");
    expected.extend_from_slice(&c.id);
    expected.extend_from_slice(
        b"\",\"tree_id\":\"5513b9aa54793bc2b550cec269b4942a1abfaad4286f374ee7a4c0daae36c76a\",\"parent\":null,\"message\":\"First commit\"}",
    );
    assert_eq!(s, expected);
}

#[test]
fn commit_serialize_parse_serialize_is_fixed_point() {
    for parent in [
        None,
        Some(b"3af96cf2fe4e7bb37f5494bb10450a19d60165479484c5e2355e5e3742e0bc65".to_vec()),
    ] {
        let c = sample_commit(parent);
        let s1 = commit_json_bytes(&c).unwrap();
        let parsed = parse_commit(&s1).unwrap();
        assert_eq!(parsed.id, c.id);
        assert_eq!(parsed.tree_id, c.tree_id);
        assert_eq!(parsed.parent, c.parent);
        assert_eq!(parsed.message, c.message);
        let s2 = commit_json_bytes(&parsed).unwrap();
        assert_eq!(s1, s2);
    }
}

#[test]
fn garbage_does_not_parse_as_commit() {
    assert!(matches!(parse_commit(&b"{}".to_vec()), Err(BackupError::EncodingError)));
}
