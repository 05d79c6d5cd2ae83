use openbrs::archive::archive_manifest;
use openbrs::diff::{Change, ChangeType};
use openbrs::layout::FilePath;
use openbrs::snapshot::FsNode;
use openbrs::stage::stage;
use openbrs::BackupError;

#[test]
fn layout_for_directory_target() {
    let fp = FilePath::new(b"work".to_vec(), true).unwrap();
    assert_eq!(fp.main, b"work/.openbrs".to_vec());
    assert_eq!(fp.objects, b"work/.openbrs/objects".to_vec());
    assert_eq!(fp.blobs, b"work/.openbrs/objects/blobs".to_vec());
    assert_eq!(fp.trees, b"work/.openbrs/objects/trees".to_vec());
    assert_eq!(fp.commits, b"work/.openbrs/objects/commits".to_vec());
    assert_eq!(fp.head, b"work/.openbrs/HEAD".to_vec());
    assert_eq!(fp.archive, b"work/.openbrs/objects/blobs/work.tar.xz".to_vec());
    assert_eq!(fp.encarch.unwrap(), b"work/.openbrs/objects/blobs/work.tar.xz.enc".to_vec());
}

#[test]
fn layout_for_file_target_anchors_at_parent() {
    let fp = FilePath::new(b"test/TOAD.png".to_vec(), false).unwrap();
    assert_eq!(fp.main, b"test/.openbrs".to_vec());
    assert_eq!(fp.archive, b"test/.openbrs/objects/blobs/TOAD.png.tar.xz".to_vec());
}

#[test]
fn layout_for_bare_file_target_anchors_at_dot() {
    let fp = FilePath::new(b"notes.txt".to_vec(), false).unwrap();
    assert_eq!(fp.main, b"./.openbrs".to_vec());
}

#[test]
fn absolute_target_is_rejected() {
    assert!(matches!(FilePath::new(b"/etc".to_vec(), true), Err(BackupError::PathRejected)));
    assert!(matches!(FilePath::new(b"".to_vec(), true), Err(BackupError::PathRejected)));
    assert!(matches!(FilePath::new(b"work/".to_vec(), true), Err(BackupError::PathRejected)));
}

#[test]
fn dir_paths_parents_first() {
    let fp = FilePath::new(b"work".to_vec(), true).unwrap();
    let dirs = fp.dir_paths();
    assert_eq!(dirs.len(), 5);
    assert_eq!(dirs[0], b"work/.openbrs".to_vec());
    assert_eq!(dirs[4], b"work/.openbrs/objects/commits".to_vec());
}

fn change(kind: ChangeType, name: &str, path: &str) -> Change {
    Change {
        change_type: kind,
        name: name.as_bytes().to_vec(),
        path: path.as_bytes().to_vec(),
        old_id: None,
        new_id: None,
    }
}

#[test]
fn stage_archives_added_and_modified_only() {
    let changes = vec![
        change(ChangeType::Added, "new.txt", "/home/user/work/new.txt"),
        change(ChangeType::Removed, "gone.txt", "/home/user/work/gone.txt"),
        change(ChangeType::Modified, "mod.txt", "/home/user/work/mod.txt"),
    ];
    let plan = stage(&changes, &b"/home/user".to_vec()).unwrap();
    assert_eq!(plan.len(), 2);
    assert_eq!(plan[0], b"work/new.txt".to_vec());
    assert_eq!(plan[1], b"work/mod.txt".to_vec());
}

#[test]
fn stage_skips_the_workspace() {
    let changes = vec![change(ChangeType::Added, ".openbrs", "work/.openbrs")];
    let plan = stage(&changes, &b"/home/user".to_vec()).unwrap();
    assert_eq!(plan.len(), 0);
}

#[test]
fn stage_keeps_relative_paths() {
    let changes = vec![change(ChangeType::Modified, "a.txt", "work/a.txt")];
    let plan = stage(&changes, &b"/home/user".to_vec()).unwrap();
    assert_eq!(plan, vec![b"work/a.txt".to_vec()]);
}

#[test]
fn stage_rejects_foreign_absolute_paths() {
    let changes = vec![change(ChangeType::Added, "x", "/elsewhere/x")];
    assert!(matches!(
        stage(&changes, &b"/home/user".to_vec()),
        Err(BackupError::PathRejected)
    ));
}

fn file(name: &str, content: &str) -> FsNode {
    FsNode::File { name: name.as_bytes().to_vec(), content: content.as_bytes().to_vec() }
}

fn dir(name: &str, children: Vec<FsNode>) -> FsNode {
    FsNode::Dir { name: name.as_bytes().to_vec(), children }
}

#[test]
fn archive_manifest_of_file_is_one_entry() {
    let items = archive_manifest(&file("TOAD.png", "hello"));
    assert_eq!(items.len(), 1);
    assert_eq!(items[0].path, b"TOAD.png".to_vec());
    assert!(!items[0].is_dir);
}

#[test]
fn archive_manifest_walks_and_excludes_workspace() {
    let target = dir(
        "work",
        vec![
            file("a.txt", "A"),
            dir(".openbrs", vec![file("HEAD", "x")]),
            dir("sub", vec![file("c.txt", "C")]),
        ],
    );
    let items = archive_manifest(&target);
    let paths: Vec<Vec<u8>> = items.iter().map(|i| i.path.clone()).collect();
    assert_eq!(
        paths,
        vec![
            b"work".to_vec(),
            b"work/a.txt".to_vec(),
            b"work/sub".to_vec(),
            b"work/sub/c.txt".to_vec(),
        ]
    );
    assert!(items[0].is_dir);
    assert!(!items[1].is_dir);
    assert!(items[2].is_dir);
}
