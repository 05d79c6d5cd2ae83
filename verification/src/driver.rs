//! The backup driver's decisions: what a full backup and a
//! differential backup compute, write and commit.
//!
//! A full backup snapshots the target, commits the root tree under
//! the message `First commit` with no parent, and points `HEAD` at
//! that commit.  A differential backup snapshots the target anew,
//! reads the latest commit through `HEAD`, diffs the two root trees,
//! stages the changes, and advances `HEAD` to a new commit over the
//! new root.  All reading and writing of files is the surrounding
//! program's; it hands bytes in and carries the returned trees,
//! commits, archives and `HEAD` content out.

use vstd::prelude::*;
use crate::BackupError;
use crate::bytesutil::{clone_bytes, bytes_eq};
use crate::digest::is_hex_id;
use crate::objects::{Tree, TreeV, Commit, wf_tree, wf_commit, commit_id_of, opt_bytes};
use crate::snapshot::{FsNode, tree_of, node_id, snapshot_trees_of, tree_views, wf_fs, clone_tree};
use crate::diff::{Change, Store, store_lookup, compare_spec, change_views, compare_trees};
use crate::json::{parse_commit, parse_commit_spec};
use crate::stage::{stage, stage_plan, bytes_views};

verus! {

/// `First commit`
pub open spec fn first_commit_message() -> Seq<u8> {
    seq![
        0x46u8, 0x69u8, 0x72u8, 0x73u8, 0x74u8, 0x20u8, 0x63u8, 0x6fu8, 0x6du8, 0x6du8, 0x69u8,
        0x74u8,
    ]
}

/// `Backup`
pub open spec fn backup_message() -> Seq<u8> {
    seq![0x42u8, 0x61u8, 0x63u8, 0x6bu8, 0x75u8, 0x70u8]
}

/// Everything a full backup writes: the root tree, every tree to
/// persist, the commit, and the new `HEAD` content.
#[derive(Debug)]
pub struct FullBackup {
    pub root: Tree,
    pub trees: Vec<Tree>,
    pub commit: Commit,
    pub head: Vec<u8>,
}

/// Everything a differential backup writes: the new root and trees,
/// the classified changes, the staging plan, the commit that
/// advances the chain, and the new `HEAD` content.
#[derive(Debug)]
pub struct DiffBackup {
    pub root: Tree,
    pub trees: Vec<Tree>,
    pub changes: Vec<Change>,
    pub to_archive: Vec<Vec<u8>>,
    pub commit: Commit,
    pub head: Vec<u8>,
}

/// Builds the first-commit message.
fn first_commit_text() -> (r: Vec<u8>)
    ensures
        r@ == first_commit_message(),
{
    let m: [u8; 12] = [0x46, 0x69, 0x72, 0x73, 0x74, 0x20, 0x63, 0x6f, 0x6d, 0x6d, 0x69, 0x74];
    let mut v: Vec<u8> = Vec::new();
    crate::json::push_slice(&mut v, m.as_slice());
    proof {
        assert(v@ =~= first_commit_message());
    }
    v
}

/// Builds the differential-commit message.
fn backup_text() -> (r: Vec<u8>)
    ensures
        r@ == backup_message(),
{
    let m: [u8; 6] = [0x42, 0x61, 0x63, 0x6b, 0x75, 0x70];
    let mut v: Vec<u8> = Vec::new();
    crate::json::push_slice(&mut v, m.as_slice());
    proof {
        assert(v@ =~= backup_message());
    }
    v
}

/// A full backup: snapshot, first commit, new `HEAD`.  The returned
/// `HEAD` content is the id of a commit whose tree id is exactly the
/// just-built root tree's id, with no parent and the message
/// `First commit`.
pub fn backup_full(fs: &FsNode) -> (r: FullBackup)
    requires
        wf_fs(*fs),
    ensures
        r.root@ == tree_of(*fs),
        r.root@.id == node_id(*fs),
        wf_tree(r.root@),
        tree_views(r.trees@) == snapshot_trees_of(*fs),
        r.commit@.tree_id == r.root@.id,
        (r.commit@.parent is None),
        r.commit@.message == first_commit_message(),
        r.commit@.id == commit_id_of(node_id(*fs), None, first_commit_message()),
        wf_commit(r.commit@),
        r.head@ == r.commit@.id,
{
    let mut trees: Vec<Tree> = Vec::new();
    let root = Tree::build(fs, &mut trees);
    let commit = Commit::new(clone_bytes(&root.id), None, first_commit_text());
    let head = clone_bytes(&commit.id);
    proof {
        assert(tree_views(trees@) =~= snapshot_trees_of(*fs));
        assert(wf_commit(commit@)) by {
            assert(forall|i: int| 0 <= i < first_commit_message().len() ==> crate::objects::wf_name_byte(
                #[trigger] first_commit_message()[i],
            ));
        }
    }
    FullBackup { root, trees, commit, head }
}

/// What the differential driver promises of a successful run, over
/// the inputs it was handed: the snapshot is the target's, the old
/// root came out of the store under the latest commit's tree id, the
/// changes are the full recursive diff, the staging plan follows
/// them, and the new commit advances `HEAD` over the old one.
pub open spec fn diff_backup_ok(
    fs: FsNode,
    head: Seq<u8>,
    commit_bytes: Seq<u8>,
    store: Seq<TreeV>,
    base: Seq<u8>,
    cwd: Seq<u8>,
    r: DiffBackup,
) -> bool {
    &&& r.root@ == tree_of(fs)
    &&& wf_tree(r.root@)
    &&& tree_views(r.trees@) == snapshot_trees_of(fs)
    &&& forall|k: int| 0 <= k < store.len() ==> crate::objects::tree_content_bound(#[trigger] store[k])
    &&& parse_commit_spec(commit_bytes) matches Some(latest) && {
        let full_store = store + tree_views(r.trees@);
        &&& latest.id == head
        &&& latest.id == commit_id_of(latest.tree_id, latest.parent, latest.message)
        &&& store_lookup(store, latest.tree_id) matches Some(old_root) && {
            &&& compare_spec(old_root, r.root@, full_store, base, (full_store.len() + 1) as nat)
                == Ok::<Seq<crate::diff::ChangeV>, BackupError>(change_views(r.changes@))
            &&& stage_plan(change_views(r.changes@), cwd) == Some(bytes_views(r.to_archive@))
        }
        &&& r.commit@.tree_id == r.root@.id
        &&& r.commit@.parent == Some(head)
        &&& r.commit@.message == backup_message()
        &&& r.commit@.id == commit_id_of(r.root@.id, Some(head), backup_message())
        &&& r.head@ == r.commit@.id
    }
}

/// A differential backup.  `head` is the stored `HEAD` content,
/// `commit_bytes` the stored JSON of the commit it names, `store`
/// the trees of the object store, `base` the target path the diff
/// reports change paths under, and `cwd` the working directory the
/// staging plan strips.
///
/// `HEAD` content that is not a 64-digit hex id, or commit bytes
/// that are not a canonical commit, are `EncodingError`; a commit or
/// stored tree whose id is not determined by its own content, or a
/// store whose references run in circles, is `Corruption`; a latest
/// tree missing from the store, or a modified directory whose old
/// tree is, is `NotFound`; a staged path that cannot be made
/// repository-relative is `PathRejected`.
pub fn backup_diff(
    fs: &FsNode,
    head: &Vec<u8>,
    commit_bytes: &Vec<u8>,
    store: &Store,
    base: &Vec<u8>,
    cwd: &Vec<u8>,
) -> (r: Result<DiffBackup, BackupError>)
    requires
        wf_fs(*fs),
        store@.len() < 0x1000000,
    ensures
        match r {
            Ok(d) => diff_backup_ok(*fs, head@, commit_bytes@, store@, base@, cwd@, d),
            Err(e) => {
                ||| (e == BackupError::EncodingError && (!is_hex_id(head@) || parse_commit_spec(
                    commit_bytes@,
                ) is None))
                ||| (e == BackupError::Corruption && (exists|k: int| 0 <= k < store@.len()
                    && !crate::objects::tree_content_bound(#[trigger] store@[k])))
                ||| (e == BackupError::Corruption && (parse_commit_spec(commit_bytes@) matches Some(c)
                    && {
                    ||| c.id != head@
                    ||| c.id != commit_id_of(c.tree_id, c.parent, c.message)
                    ||| (store_lookup(store@, c.tree_id) matches Some(old_root) && {
                        let full_store = store@ + snapshot_trees_of(*fs);
                        ||| full_store.len() >= usize::MAX
                        ||| compare_spec(
                            old_root,
                            tree_of(*fs),
                            full_store,
                            base@,
                            (full_store.len() + 1) as nat,
                        ) == Err::<Seq<crate::diff::ChangeV>, BackupError>(BackupError::Corruption)
                    })
                }))
                ||| (e == BackupError::NotFound && (parse_commit_spec(commit_bytes@) matches Some(c)
                    && (store_lookup(store@, c.tree_id) is None || (store_lookup(
                    store@,
                    c.tree_id,
                ) matches Some(old_root) && {
                    let full_store = store@ + snapshot_trees_of(*fs);
                    compare_spec(
                        old_root,
                        tree_of(*fs),
                        full_store,
                        base@,
                        (full_store.len() + 1) as nat,
                    ) == Err::<Seq<crate::diff::ChangeV>, BackupError>(BackupError::NotFound)
                }))))
                ||| (e == BackupError::PathRejected && (parse_commit_spec(commit_bytes@) matches Some(
                    c,
                ) && store_lookup(store@, c.tree_id) matches Some(old_root) && {
                    let full_store = store@ + snapshot_trees_of(*fs);
                    compare_spec(
                        old_root,
                        tree_of(*fs),
                        full_store,
                        base@,
                        (full_store.len() + 1) as nat,
                    ) matches Ok(cs) && stage_plan(cs, cwd@) is None
                }))
            },
        },
{
    if !crate::digest::check_hex_id(head) {
        return Err(BackupError::EncodingError);
    }
    let latest = match parse_commit(commit_bytes) {
        Ok(c) => c,
        Err(_) => {
            return Err(BackupError::EncodingError);
        },
    };
    if !bytes_eq(&latest.id, head) {
        // the stored commit does not carry the id HEAD names it by
        return Err(BackupError::Corruption);
    }
    let recomputed = Commit::new(
        clone_bytes(&latest.tree_id),
        match &latest.parent {
            Some(p) => Some(clone_bytes(p)),
            None => None,
        },
        clone_bytes(&latest.message),
    );
    if !bytes_eq(&recomputed.id, &latest.id) {
        // the stored commit contradicts its own content hash
        return Err(BackupError::Corruption);
    }
    let old_root = match store.get(&latest.tree_id) {
        Some(t) => t,
        None => {
            return Err(BackupError::NotFound);
        },
    };
    let mut trees: Vec<Tree> = Vec::new();
    let root = Tree::build(fs, &mut trees);
    // the differ must see the old trees and the new ones
    let mut full_store = Store { trees: Vec::new() };
    let mut i: usize = 0;
    proof {
        assert(full_store@ =~= store@.take(0));
    }
    while i < store.trees.len()
        invariant
            i <= store@.len(),
            store@ == crate::snapshot::tree_views(store.trees@),
            full_store@ == store@.take(i as int),
            forall|k: int| 0 <= k < i ==> crate::objects::tree_content_bound(#[trigger] store@[k]),
        decreases store@.len() - i,
    {
        proof {
            assert(store@[i as int] == store.trees@[i as int]@);
            assert(store@.take(i + 1) =~= store@.take(i as int).push(store@[i as int]));
        }
        if !crate::diff::check_tree_bound(&store.trees[i]) {
            // the stored tree contradicts its own content hash
            proof {
                assert(!crate::objects::tree_content_bound(store@[i as int]));
            }
            return Err(BackupError::Corruption);
        }
        full_store.add(clone_tree(&store.trees[i]));
        i += 1;
    }
    proof {
        assert(store@.take(store@.len() as int) =~= store@);
    }
    let mut j: usize = 0;
    proof {
        assert(tree_views(trees@).take(0) =~= Seq::<TreeV>::empty());
        assert(full_store@ =~= store@ + tree_views(trees@).take(0));
    }
    while j < trees.len()
        invariant
            j <= trees@.len(),
            tree_views(trees@) == snapshot_trees_of(*fs),
            full_store@ == store@ + tree_views(trees@).take(j as int),
        decreases trees@.len() - j,
    {
        proof {
            assert(tree_views(trees@)[j as int] == trees@[j as int]@);
            assert(tree_views(trees@).take(j + 1) =~= tree_views(trees@).take(j as int).push(
                tree_views(trees@)[j as int],
            ));
            assert(store@ + tree_views(trees@).take(j + 1) =~= (store@ + tree_views(trees@).take(
                j as int,
            )).push(tree_views(trees@)[j as int]));
        }
        full_store.add(clone_tree(&trees[j]));
        j += 1;
    }
    proof {
        assert(tree_views(trees@).take(trees@.len() as int) =~= tree_views(trees@));
    }
    if full_store.trees.len() == usize::MAX {
        // a store this size cannot be a faithful object store
        return Err(BackupError::Corruption);
    }
    let changes = match compare_trees(&old_root, &root, &full_store, base) {
        Ok(cs) => cs,
        Err(e) => {
            return Err(e);
        },
    };
    let to_archive = match stage(&changes, cwd) {
        Ok(p) => p,
        Err(e) => {
            return Err(e);
        },
    };
    let commit = Commit::new(clone_bytes(&root.id), Some(clone_bytes(head)), backup_text());
    let head_out = clone_bytes(&commit.id);
    let d = DiffBackup { root, trees, changes, to_archive, commit, head: head_out };
    proof {
        assert(diff_backup_ok(*fs, head@, commit_bytes@, store@, base@, cwd@, d));
    }
    Ok(d)
}

} // verus!
