//! The snapshot builder: turning an in-memory picture of the target
//! (a file, or a directory tree of names and file bytes) into
//! content-addressed `Tree` objects.
//!
//! The surrounding program walks the real filesystem and hands the
//! builder an [`FsNode`]; only regular-file bytes and directory
//! structure and names take part, which is exactly the content model.
//! Any entry named `.openbrs` — the engine's own workspace — is
//! excluded at every depth.

use vstd::prelude::*;
use crate::bytesutil::clone_bytes;
use crate::digest::{id_of, is_hex_id};
use crate::objects::{
    EntryRef, EntryV, Tree, TreeV, entry_views, sort_entries, sort_entries_vec, wf_name,
    dir_id_of, names_unique, entries_sorted, wf_entry, wf_tree,
    lemma_sort_entries_ensures, lemma_sort_entries_unique, lemma_sort_entries_contains,
};

verus! {

/// The in-memory picture of a backup target: a regular file with its
/// bytes, or a directory with its children.  Links, special files,
/// permissions and timestamps have no place here: they are not part
/// of the content model.
pub enum FsNode {
    File { name: Vec<u8>, content: Vec<u8> },
    Dir { name: Vec<u8>, children: Vec<FsNode> },
}

/// The basename of a node.
pub open spec fn node_name(n: FsNode) -> Seq<u8> {
    match n {
        FsNode::File { name, .. } => name@,
        FsNode::Dir { name, .. } => name@,
    }
}

/// The name of the engine's workspace directory, `.openbrs`.
pub open spec fn workspace_name() -> Seq<u8> {
    seq![0x2eu8, 0x6fu8, 0x70u8, 0x65u8, 0x6eu8, 0x62u8, 0x72u8, 0x73u8]
}

/// Whether an entry of this name is excluded from every walk.
pub open spec fn excluded(name: Seq<u8>) -> bool {
    name == workspace_name()
}

/// The content id of a node: for a file the hash of its bytes, for a
/// directory the hash of its canonical entry listing.
pub open spec fn node_id(n: FsNode) -> Seq<u8>
    decreases n,
{
    match n {
        FsNode::File { content, .. } => id_of(content@),
        FsNode::Dir { children, .. } => dir_id_of(child_entries(children@)),
    }
}

/// The entries contributed by a sequence of children, in order,
/// excluded names skipped.
pub open spec fn child_entries(cs: Seq<FsNode>) -> Seq<EntryV>
    decreases cs,
{
    if cs.len() == 0 {
        Seq::empty()
    } else {
        child_entries(cs.drop_last()) + (if excluded(node_name(cs.last())) {
            Seq::empty()
        } else {
            seq![EntryV { name: node_name(cs.last()), id: node_id(cs.last()) }]
        })
    }
}

/// The tree value a node snapshots to.  A directory lists its visible
/// children in canonical order; a file degenerates to a single entry
/// under its own name, and its tree id equals its blob id.
pub open spec fn tree_of(n: FsNode) -> TreeV {
    TreeV {
        id: node_id(n),
        name: node_name(n),
        entries: match n {
            FsNode::File { name, content } => seq![
                EntryV { name: name@, id: id_of(content@) },
            ],
            FsNode::Dir { children, .. } => sort_entries(child_entries(children@)),
        },
    }
}

/// The trees persisted for a directory node: those of its visible
/// directory descendants in post-order, itself last.
pub open spec fn subtree_trees(n: FsNode) -> Seq<TreeV>
    decreases n,
{
    match n {
        FsNode::File { .. } => Seq::empty(),
        FsNode::Dir { children, .. } => children_trees(children@).push(tree_of(n)),
    }
}

/// The trees persisted for a sequence of children, excluded names
/// skipped.
pub open spec fn children_trees(cs: Seq<FsNode>) -> Seq<TreeV>
    decreases cs,
{
    if cs.len() == 0 {
        Seq::empty()
    } else {
        children_trees(cs.drop_last()) + (if excluded(node_name(cs.last())) {
            Seq::empty()
        } else {
            subtree_trees(cs.last())
        })
    }
}

/// The trees a snapshot persists: every visible directory tree in
/// post-order; for a file target, its degenerate root tree.
pub open spec fn snapshot_trees_of(n: FsNode) -> Seq<TreeV> {
    match n {
        FsNode::File { .. } => seq![tree_of(n)],
        FsNode::Dir { .. } => subtree_trees(n),
    }
}

/// A well-formed target: every name is a valid basename and sibling
/// names are pairwise distinct, as a real filesystem guarantees.
pub open spec fn wf_fs(n: FsNode) -> bool
    decreases n,
{
    match n {
        FsNode::File { name, .. } => wf_name(name@),
        FsNode::Dir { name, children } => {
            &&& wf_name(name@)
            &&& forall|i: int, j: int| 0 <= i < j < children@.len()
                ==> node_name(#[trigger] children@[i]) != node_name(#[trigger] children@[j])
            &&& forall|i: int| 0 <= i < children@.len() ==> wf_fs(#[trigger] children@[i])
        },
    }
}

/// The views of a sequence of trees.
pub open spec fn tree_views(s: Seq<Tree>) -> Seq<TreeV> {
    s.map_values(|t: Tree| t@)
}

/// Appending a tree appends its view.
pub proof fn lemma_tree_views_push(s: Seq<Tree>, t: Tree)
    ensures
        tree_views(s.push(t)) == tree_views(s).push(t@),
{
    assert forall|j: int| 0 <= j < s.len() + 1 implies tree_views(s.push(t))[j] == tree_views(
        s,
    ).push(t@)[j] by {
        if j < s.len() {
            assert(s.push(t)[j] == s[j]);
        } else {
            assert(s.push(t)[j] == t);
        }
    }
    assert(tree_views(s.push(t)) =~= tree_views(s).push(t@));
}

/// Every entry a child sequence contributes carries the name of one
/// of those children.
proof fn lemma_child_entries_names(cs: Seq<FsNode>)
    ensures
        forall|k: int| 0 <= k < child_entries(cs).len()
            ==> exists|i: int| 0 <= i < cs.len()
                && node_name(cs[i]) == (#[trigger] child_entries(cs)[k]).name,
    decreases cs,
{
    if cs.len() != 0 {
        lemma_child_entries_names(cs.drop_last());
        let pre = child_entries(cs.drop_last());
        assert forall|k: int| 0 <= k < child_entries(cs).len() implies exists|i: int|
            0 <= i < cs.len() && node_name(cs[i]) == (#[trigger] child_entries(cs)[k]).name by {
            if k < pre.len() {
                let i = choose|i: int| 0 <= i < cs.drop_last().len()
                    && node_name(cs.drop_last()[i]) == pre[k].name;
                assert(cs[i] == cs.drop_last()[i]);
                assert(node_name(cs[i]) == child_entries(cs)[k].name);
            } else {
                assert(node_name(cs[cs.len() - 1]) == child_entries(cs)[k].name);
            }
        }
    }
}

/// Distinct sibling names give a listing with pairwise distinct
/// entry names.
proof fn lemma_child_entries_unique(cs: Seq<FsNode>)
    requires
        forall|i: int, j: int| 0 <= i < j < cs.len()
            ==> node_name(#[trigger] cs[i]) != node_name(#[trigger] cs[j]),
    ensures
        names_unique(child_entries(cs)),
        child_entries(cs).len() <= cs.len(),
    decreases cs,
{
    if cs.len() != 0 {
        let pre = child_entries(cs.drop_last());
        assert(forall|i: int, j: int| 0 <= i < j < cs.drop_last().len()
            ==> node_name(#[trigger] cs.drop_last()[i]) != node_name(#[trigger] cs.drop_last()[j]));
        lemma_child_entries_unique(cs.drop_last());
        lemma_child_entries_names(cs.drop_last());
        let r = child_entries(cs);
        assert forall|a: int, b: int| 0 <= a < b < r.len() implies (#[trigger] r[a].name) != (#[trigger] r[b].name) by {
            if b < pre.len() {
                assert(r[a] == pre[a] && r[b] == pre[b]);
            } else {
                // the last entry carries the last child's name, which
                // differs from every earlier sibling's name
                assert(r[b].name == node_name(cs.last()));
                assert(r[a] == pre[a]);
                let i = choose|i: int| 0 <= i < cs.drop_last().len()
                    && node_name(cs.drop_last()[i]) == pre[a].name;
                assert(cs.drop_last()[i] == cs[i]);
                assert(node_name(cs[i]) != node_name(cs[cs.len() - 1]));
            }
        }
    }
}

/// Two targets with the same shape and content: equal names, equal
/// file bytes, children aligned.
pub open spec fn fs_like(a: FsNode, b: FsNode) -> bool
    decreases a,
{
    match (a, b) {
        (FsNode::File { name: n1, content: c1 }, FsNode::File { name: n2, content: c2 }) => {
            n1@ == n2@ && c1@ == c2@
        },
        (FsNode::Dir { name: n1, children: cs1 }, FsNode::Dir { name: n2, children: cs2 }) => {
            &&& n1@ == n2@
            &&& cs1@.len() == cs2@.len()
            &&& forall|i: int| 0 <= i < cs1@.len() ==> fs_like(#[trigger] cs1@[i], cs2@[i])
        },
        _ => false,
    }
}

proof fn lemma_like_child_entries(cs1: Seq<FsNode>, cs2: Seq<FsNode>)
    requires
        cs1.len() == cs2.len(),
        forall|i: int| 0 <= i < cs1.len() ==> fs_like(#[trigger] cs1[i], cs2[i]),
    ensures
        child_entries(cs1) == child_entries(cs2),
    decreases cs1,
{
    if cs1.len() != 0 {
        assert(forall|i: int| 0 <= i < cs1.drop_last().len()
            ==> fs_like(#[trigger] cs1.drop_last()[i], cs2.drop_last()[i]));
        lemma_like_child_entries(cs1.drop_last(), cs2.drop_last());
        assert(fs_like(cs1[cs1.len() - 1], cs2[cs2.len() - 1]));
        lemma_content_addressing(cs1.last(), cs2.last());
    }
}

/// Content addressing: two targets of equal structure, names and
/// file bytes snapshot to the same tree value, and so to the same
/// root id — wherever the bytes came from.
pub proof fn lemma_content_addressing(a: FsNode, b: FsNode)
    requires
        fs_like(a, b),
    ensures
        node_id(a) == node_id(b),
        tree_of(a) == tree_of(b),
    decreases a,
{
    match (a, b) {
        (FsNode::File { .. }, FsNode::File { .. }) => {},
        (FsNode::Dir { children: cs1, .. }, FsNode::Dir { children: cs2, .. }) => {
            lemma_like_child_entries(cs1@, cs2@);
        },
        _ => {},
    }
}

/// Determinism: snapshotting the same picture twice gives the same
/// tree id, and the same commit id when parent and message are held
/// fixed.
pub proof fn lemma_snapshot_deterministic(
    a: FsNode,
    b: FsNode,
    parent: Option<Seq<u8>>,
    message: Seq<u8>,
)
    requires
        fs_like(a, b),
    ensures
        node_id(a) == node_id(b),
        crate::objects::commit_id_of(node_id(a), parent, message)
            == crate::objects::commit_id_of(node_id(b), parent, message),
{
    lemma_content_addressing(a, b);
}

/// A visible child contributes exactly its own entry to the listing.
proof fn lemma_child_entries_has(cs: Seq<FsNode>, i: int)
    requires
        0 <= i < cs.len(),
        !excluded(node_name(cs[i])),
    ensures
        child_entries(cs).contains(EntryV { name: node_name(cs[i]), id: node_id(cs[i]) }),
    decreases cs,
{
    let e = EntryV { name: node_name(cs[i]), id: node_id(cs[i]) };
    if i == cs.len() - 1 {
        assert(child_entries(cs)[child_entries(cs).len() - 1] == e);
    } else {
        lemma_child_entries_has(cs.drop_last(), i);
        let pre = child_entries(cs.drop_last());
        let k = choose|k: int| 0 <= k < pre.len() && pre[k] == e;
        assert(child_entries(cs)[k] == e);
    }
}

/// Renaming one file changes the enclosing listing but not the
/// file's own blob id.  (That the enclosing tree id itself changes
/// would additionally need the digest to be collision-free, which
/// nothing here assumes.)
pub proof fn lemma_rename_sensitivity(a: FsNode, b: FsNode, k: int)
    requires
        wf_fs(a),
        a matches FsNode::Dir { .. },
        b matches FsNode::Dir { .. },
        a->Dir_children@.len() == b->Dir_children@.len(),
        0 <= k < a->Dir_children@.len(),
        forall|i: int| 0 <= i < a->Dir_children@.len() && i != k
            ==> fs_like(#[trigger] a->Dir_children@[i], b->Dir_children@[i]),
        a->Dir_children@[k] matches FsNode::File { .. },
        b->Dir_children@[k] matches FsNode::File { .. },
        a->Dir_children@[k]->File_content@ == b->Dir_children@[k]->File_content@,
        node_name(a->Dir_children@[k]) != node_name(b->Dir_children@[k]),
        !excluded(node_name(a->Dir_children@[k])),
    ensures
        node_id(a->Dir_children@[k]) == node_id(b->Dir_children@[k]),
        tree_of(a).entries != tree_of(b).entries,
{
    broadcast use vstd::seq_lib::group_to_multiset_ensures;

    let cs1 = a->Dir_children@;
    let cs2 = b->Dir_children@;
    let nk = node_name(cs1[k]);
    let e = EntryV { name: nk, id: node_id(cs1[k]) };
    lemma_child_entries_has(cs1, k);
    lemma_sort_entries_contains(child_entries(cs1));
    assert(tree_of(a).entries.contains(e));
    if tree_of(a).entries == tree_of(b).entries {
        // the renamed entry's old name would still stand in the new
        // listing, so some sibling of the renamed file carries it —
        // yet sibling names were pairwise distinct
        assert(tree_of(b).entries.contains(e));
        lemma_sort_entries_contains(child_entries(cs2));
        assert(child_entries(cs2).contains(e));
        lemma_child_entries_names(cs2);
        let m = choose|m: int| 0 <= m < child_entries(cs2).len() && child_entries(cs2)[m] == e;
        let j = choose|j: int| 0 <= j < cs2.len() && node_name(cs2[j]) == child_entries(cs2)[m].name;
        assert(node_name(cs2[j]) == nk);
        assert(j != k);
        assert(fs_like(cs1[j], cs2[j]));
        assert(node_name(cs1[j]) == node_name(cs2[j])) by {
            match (cs1[j], cs2[j]) {
                (FsNode::File { .. }, FsNode::File { .. }) => {},
                (FsNode::Dir { .. }, FsNode::Dir { .. }) => {},
                _ => {},
            }
        }
        assert(node_name(cs1[j]) == nk);
        if j < k {
            assert(node_name(cs1[j]) != node_name(cs1[k]));
        } else {
            assert(node_name(cs1[k]) != node_name(cs1[j]));
        }
        assert(false);
    }
}

/// The basename of a node, by reference.
pub fn node_basename(n: &FsNode) -> (r: &Vec<u8>)
    ensures
        r@ == node_name(*n),
{
    match n {
        FsNode::File { name, .. } => name,
        FsNode::Dir { name, .. } => name,
    }
}

/// Whether a basename is the excluded workspace name `.openbrs`.
pub fn is_workspace(name: &Vec<u8>) -> (r: bool)
    ensures
        r == excluded(name@),
{
    let mut w: Vec<u8> = Vec::new();
    w.push(0x2e);
    w.push(0x6f);
    w.push(0x70);
    w.push(0x65);
    w.push(0x6e);
    w.push(0x62);
    w.push(0x72);
    w.push(0x73);
    proof {
        assert(w@ =~= workspace_name());
    }
    crate::bytesutil::bytes_eq(name, &w)
}

/// Copies an entry.
pub fn clone_entry(e: &EntryRef) -> (r: EntryRef)
    ensures
        r@ == e@,
{
    EntryRef { name: clone_bytes(&e.name), id: clone_bytes(&e.id) }
}

/// Copies an entry vector.
pub fn clone_entries(es: &Vec<EntryRef>) -> (r: Vec<EntryRef>)
    ensures
        entry_views(r@) == entry_views(es@),
{
    let mut out: Vec<EntryRef> = Vec::new();
    let mut i: usize = 0;
    while i < es.len()
        invariant
            i <= es@.len(),
            entry_views(out@) =~= entry_views(es@).take(i as int),
        decreases es@.len() - i,
    {
        let ghost prev = out@;
        let e = clone_entry(&es[i]);
        proof {
            assert(entry_views(es@)[i as int] == es@[i as int]@);
        }
        out.push(e);
        proof {
            crate::objects::lemma_entry_views_push(prev, e);
            assert(entry_views(out@) =~= entry_views(es@).take(i + 1));
        }
        i += 1;
    }
    proof {
        assert(entry_views(es@).take(es@.len() as int) =~= entry_views(es@));
    }
    out
}

/// Copies a tree.
pub fn clone_tree(t: &Tree) -> (r: Tree)
    ensures
        r@ == t@,
{
    let r = Tree {
        id: clone_bytes(&t.id),
        name: clone_bytes(&t.name),
        entries: clone_entries(&t.entries),
    };
    r
}

impl Tree {
    /// Snapshots a regular file: the degenerate root tree with one
    /// entry under the file's own name, tree id equal to the blob id.
    pub fn build_file(node: &FsNode) -> (r: Tree)
        requires
            node matches FsNode::File { .. },
            wf_fs(*node),
        ensures
            r@ == tree_of(*node),
            wf_tree(r@),
    {
        match node {
            FsNode::File { name, content } => {
                let blob_id = crate::digest::hash_id(content);
                let tree_id = clone_bytes(&blob_id);
                let mut entries: Vec<EntryRef> = Vec::new();
                entries.push(EntryRef { name: clone_bytes(name), id: blob_id });
                let t = Tree { id: tree_id, name: clone_bytes(name), entries };
                proof {
                    assert(t@.entries =~= tree_of(*node).entries);
                    assert(t@ == tree_of(*node));
                }
                t
            },
            FsNode::Dir { .. } => {
                proof {
                    assert(false);
                }
                Tree { id: Vec::new(), name: Vec::new(), entries: Vec::new() }
            },
        }
    }

    /// Snapshots a directory: hashes visible files, recurses into
    /// visible subdirectories, sorts the entries canonically, and
    /// appends every directory tree to `trees` in post-order, its own
    /// tree last.
    pub fn build_dir(node: &FsNode, trees: &mut Vec<Tree>) -> (r: Tree)
        requires
            node matches FsNode::Dir { .. },
            wf_fs(*node),
        ensures
            r@ == tree_of(*node),
            wf_tree(r@),
            tree_views(final(trees)@) == tree_views(old(trees)@) + subtree_trees(*node),
        decreases *node,
    {
        match node {
            FsNode::Dir { name, children } => {
                let ghost csq = children@;
                let mut entries: Vec<EntryRef> = Vec::new();
                let mut i: usize = 0;
                while i < children.len()
                    invariant
                        i <= csq.len(),
                        csq == children@,
                        node matches FsNode::Dir { children: c2, .. } && c2@ == csq,
                        wf_fs(*node),
                        entry_views(entries@) == child_entries(csq.take(i as int)),
                        forall|k: int| 0 <= k < entries@.len()
                            ==> wf_entry(#[trigger] entry_views(entries@)[k]),
                        tree_views(trees@) == tree_views(old(trees)@) + children_trees(csq.take(i as int)),
                    decreases csq.len() - i,
                {
                    let child = &children[i];
                    proof {
                        assert(*child == csq[i as int]);
                        assert(csq.take(i + 1).drop_last() =~= csq.take(i as int));
                        assert(csq.take(i + 1).last() == csq[i as int]);
                    }
                    let cname = node_basename(child);
                    if is_workspace(cname) {
                        proof {
                            assert(child_entries(csq.take(i + 1)) =~= child_entries(csq.take(i as int)));
                            assert(children_trees(csq.take(i + 1)) =~= children_trees(csq.take(i as int)));
                        }
                        i += 1;
                        continue;
                    }
                    match child {
                        FsNode::File { name: fname, content } => {
                            let blob_id = crate::digest::hash_id(content);
                            let ghost prev = entries@;
                            let e = EntryRef { name: clone_bytes(fname), id: blob_id };
                            entries.push(e);
                            proof {
                                crate::objects::lemma_entry_views_push(prev, e);
                                assert(wf_fs(csq[i as int]));
                                assert(node_id(csq[i as int]) == id_of(content@));
                                assert(node_name(csq[i as int]) == fname@);
                                assert(e@ == EntryV { name: node_name(csq[i as int]), id: node_id(csq[i as int]) });
                                assert(child_entries(csq.take(i + 1)) == child_entries(csq.take(i as int))
                                    + seq![EntryV { name: node_name(csq[i as int]), id: node_id(csq[i as int]) }]);
                                assert(entry_views(entries@) =~= child_entries(csq.take(i + 1)));
                                assert(subtree_trees(csq[i as int]) == Seq::<TreeV>::empty());
                                assert(children_trees(csq.take(i + 1)) =~= children_trees(csq.take(i as int)));
                            }
                        },
                        FsNode::Dir { .. } => {
                            proof {
                                assert(wf_fs(csq[i as int]));
                            }
                            let subtree = Tree::build_dir(child, trees);
                            let sub_name = clone_bytes(node_basename(child));
                            let ghost prev = entries@;
                            let e = EntryRef { name: sub_name, id: subtree.id };
                            entries.push(e);
                            proof {
                                crate::objects::lemma_entry_views_push(prev, e);
                                assert(e@ == EntryV { name: node_name(csq[i as int]), id: node_id(csq[i as int]) });
                                assert(entry_views(entries@) =~= child_entries(csq.take(i + 1)));
                                assert(tree_views(trees@) =~= tree_views(old(trees)@) + children_trees(csq.take(i + 1)));
                            }
                        },
                    }
                    i += 1;
                }
                proof {
                    assert(csq.take(csq.len() as int) =~= csq);
                }
                let ghost ce = child_entries(csq);
                proof {
                    lemma_child_entries_unique(csq);
                    lemma_sort_entries_ensures(ce);
                    lemma_sort_entries_unique(ce);
                    lemma_sort_entries_contains(ce);
                }
                let id = Tree::calc_dir_id(clone_entries(&entries));
                let sorted = sort_entries_vec(entries);
                let t = Tree { id, name: clone_bytes(name), entries: sorted };
                proof {
                    assert(t@ == tree_of(*node));
                    assert forall|k: int| 0 <= k < t@.entries.len() implies wf_entry(#[trigger] t@.entries[k]) by {
                        assert(sort_entries(ce).contains(sort_entries(ce)[k]));
                        assert(ce.contains(sort_entries(ce)[k]));
                        let m = choose|m: int| 0 <= m < ce.len() && ce[m] == sort_entries(ce)[k];
                        assert(wf_entry(ce[m]));
                    }
                    assert(wf_tree(t@));
                }
                let ghost tprev = trees@;
                let tcopy = clone_tree(&t);
                trees.push(tcopy);
                proof {
                    lemma_tree_views_push(tprev, tcopy);
                    assert(tree_views(trees@) =~= tree_views(old(trees)@) + subtree_trees(*node));
                }
                t
            },
            FsNode::File { .. } => {
                proof {
                    assert(false);
                }
                Tree { id: Vec::new(), name: Vec::new(), entries: Vec::new() }
            },
        }
    }

    /// Snapshots a target, file or directory, appending every
    /// persisted tree to `trees`; the returned root tree's id
    /// summarises the target's content.
    pub fn build(node: &FsNode, trees: &mut Vec<Tree>) -> (r: Tree)
        requires
            wf_fs(*node),
        ensures
            r@ == tree_of(*node),
            r@.id == node_id(*node),
            wf_tree(r@),
            tree_views(final(trees)@) == tree_views(old(trees)@) + snapshot_trees_of(*node),
    {
        match node {
            FsNode::Dir { .. } => Tree::build_dir(node, trees),
            FsNode::File { .. } => {
                let t = Tree::build_file(node);
                let ghost tprev = trees@;
                let tcopy = clone_tree(&t);
                trees.push(tcopy);
                proof {
                    lemma_tree_views_push(tprev, tcopy);
                    assert(tree_views(trees@) =~= tree_views(old(trees)@) + snapshot_trees_of(*node));
                }
                t
            },
        }
    }
}

} // verus!
