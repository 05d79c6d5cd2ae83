//! The archive plan: which entries a target's tar stream holds, in
//! which order, and under which names.
//!
//! A file target archives as one entry under its basename.  A
//! directory target archives as an entry for the directory itself
//! followed by every descendant in walk order, entry names relative
//! to the target's basename; the engine's workspace `.openbrs` is
//! excluded at every depth.  The surrounding program feeds this plan
//! to its tar and compression streams.

use vstd::prelude::*;
use crate::bytesutil::{clone_bytes, push_bytes};
use crate::snapshot::{FsNode, node_name, excluded, is_workspace, node_basename, wf_fs};

verus! {

/// One planned archive entry: its name inside the archive, and
/// whether it is a directory.
#[derive(Debug)]
pub struct ArchiveItem {
    pub path: Vec<u8>,
    pub is_dir: bool,
}

/// The mathematical value of an archive entry.
pub ghost struct ArchiveItemV {
    pub path: Seq<u8>,
    pub is_dir: bool,
}

impl View for ArchiveItem {
    type V = ArchiveItemV;

    open spec fn view(&self) -> ArchiveItemV {
        ArchiveItemV { path: self.path@, is_dir: self.is_dir }
    }
}

/// The views of a sequence of archive entries.
pub open spec fn item_views(s: Seq<ArchiveItem>) -> Seq<ArchiveItemV> {
    s.map_values(|x: ArchiveItem| x@)
}

/// The entries a node contributes when it stands at `prefix` inside
/// the archive: itself, then (for a directory) every visible child
/// in order.
pub open spec fn items_for(prefix: Seq<u8>, n: FsNode) -> Seq<ArchiveItemV>
    decreases n,
{
    match n {
        FsNode::File { .. } => seq![ArchiveItemV { path: prefix, is_dir: false }],
        FsNode::Dir { children, .. } => seq![
            ArchiveItemV { path: prefix, is_dir: true },
        ] + items_under(prefix, children@),
    }
}

/// The entries of a sequence of children under a directory prefix,
/// excluded names skipped.
pub open spec fn items_under(prefix: Seq<u8>, cs: Seq<FsNode>) -> Seq<ArchiveItemV>
    decreases cs,
{
    if cs.len() == 0 {
        Seq::empty()
    } else {
        items_under(prefix, cs.drop_last()) + (if excluded(node_name(cs.last())) {
            Seq::empty()
        } else {
            items_for(prefix + seq![0x2fu8] + node_name(cs.last()), cs.last())
        })
    }
}

/// The whole archive plan of a target: entry names start at its
/// basename.
pub open spec fn archive_manifest_of(n: FsNode) -> Seq<ArchiveItemV> {
    items_for(node_name(n), n)
}

/// Appending an entry appends its view.
proof fn lemma_item_views_push(s: Seq<ArchiveItem>, x: ArchiveItem)
    ensures
        item_views(s.push(x)) == item_views(s).push(x@),
{
    assert forall|j: int| 0 <= j < s.len() + 1 implies item_views(s.push(x))[j] == item_views(
        s,
    ).push(x@)[j] by {
        if j < s.len() {
            assert(s.push(x)[j] == s[j]);
        } else {
            assert(s.push(x)[j] == x);
        }
    }
    assert(item_views(s.push(x)) =~= item_views(s).push(x@));
}

fn manifest_rec(node: &FsNode, prefix: &Vec<u8>, out: &mut Vec<ArchiveItem>)
    ensures
        item_views(final(out)@) == item_views(old(out)@) + items_for(prefix@, *node),
    decreases *node,
{
    match node {
        FsNode::File { .. } => {
            let ghost prev = out@;
            let x = ArchiveItem { path: clone_bytes(prefix), is_dir: false };
            out.push(x);
            proof {
                lemma_item_views_push(prev, x);
                assert(item_views(out@) =~= item_views(old(out)@) + items_for(prefix@, *node));
            }
        },
        FsNode::Dir { children, .. } => {
            let ghost prev = out@;
            let x = ArchiveItem { path: clone_bytes(prefix), is_dir: true };
            out.push(x);
            proof {
                lemma_item_views_push(prev, x);
            }
            let ghost csq = children@;
            let ghost head = item_views(out@);
            proof {
                assert(head =~= item_views(old(out)@) + seq![ArchiveItemV { path: prefix@, is_dir: true }]);
                assert(items_under(prefix@, csq.take(0)) =~= Seq::<ArchiveItemV>::empty());
                assert(head + items_under(prefix@, csq.take(0)) =~= head);
            }
            let mut i: usize = 0;
            while i < children.len()
                invariant
                    i <= csq.len(),
                    csq == children@,
                    node matches FsNode::Dir { children: c2, .. } && c2@ == csq,
                    item_views(out@) == head + items_under(prefix@, csq.take(i as int)),
                decreases csq.len() - i,
            {
                let child = &children[i];
                proof {
                    assert(*child == csq[i as int]);
                    assert(csq.take(i + 1).drop_last() =~= csq.take(i as int));
                    assert(csq.take(i + 1).last() == csq[i as int]);
                }
                let cname = node_basename(child);
                if !is_workspace(cname) {
                    let mut child_prefix = clone_bytes(prefix);
                    child_prefix.push(0x2f);
                    push_bytes(&mut child_prefix, cname);
                    proof {
                        assert(child_prefix@ =~= prefix@ + seq![0x2fu8] + node_name(csq[i as int]));
                    }
                    manifest_rec(child, &child_prefix, out);
                    proof {
                        assert(item_views(out@) =~= head + items_under(prefix@, csq.take(i + 1)));
                    }
                } else {
                    proof {
                        assert(items_under(prefix@, csq.take(i + 1)) =~= items_under(
                            prefix@,
                            csq.take(i as int),
                        ));
                    }
                }
                i += 1;
            }
            proof {
                assert(csq.take(csq.len() as int) =~= csq);
                assert(item_views(out@) =~= item_views(old(out)@) + items_for(prefix@, *node));
            }
        },
    }
}

/// The archive plan of a target: every entry of its tar stream, in
/// order, names relative to the target's basename, the workspace
/// excluded at every depth.
pub fn archive_manifest(node: &FsNode) -> (r: Vec<ArchiveItem>)
    ensures
        item_views(r@) == archive_manifest_of(*node),
{
    let prefix = clone_bytes(node_basename(node));
    let mut out: Vec<ArchiveItem> = Vec::new();
    proof {
        assert(item_views(out@) =~= Seq::<ArchiveItemV>::empty());
    }
    manifest_rec(node, &prefix, &mut out);
    proof {
        assert(item_views(out@) =~= archive_manifest_of(*node));
    }
    out
}

} // verus!
