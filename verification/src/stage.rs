//! The staging rules: which changes produce a new blob artifact, and
//! under which repository-relative source path it is archived.
//!
//! Additions and modifications are staged; removals write nothing
//! and live on only as the entry's absence from the new tree.  The
//! engine's own workspace is never staged.  A path handed in
//! absolute is made relative to the working directory first; an
//! absolute path outside it cannot be staged.

use vstd::prelude::*;
use crate::BackupError;
use crate::bytesutil::clone_bytes;
use crate::diff::{Change, ChangeType, ChangeV, change_views};
use crate::snapshot::{excluded, is_workspace};

verus! {

/// A path made relative to the working directory: stripped of the
/// `cwd` prefix when it stands under it, kept as it is when already
/// relative, refused when absolute elsewhere.
pub open spec fn relative_to(path: Seq<u8>, cwd: Seq<u8>) -> Option<Seq<u8>> {
    if cwd.len() > 0 && (cwd + seq![0x2fu8]).is_prefix_of(path) {
        Some(path.skip(cwd.len() as int + 1))
    } else if path.len() > 0 && path[0] == 0x2f {
        None
    } else {
        Some(path)
    }
}

/// Whether a change is staged: an addition or modification of
/// anything but the workspace.
pub open spec fn staged(c: ChangeV) -> bool {
    (c.change_type == ChangeType::Added || c.change_type == ChangeType::Modified) && !excluded(
        c.name,
    )
}

/// The sources to archive for a change list, in order: one
/// repository-relative path per staged change, or nothing for a
/// change whose path cannot be made relative.
pub open spec fn stage_plan(changes: Seq<ChangeV>, cwd: Seq<u8>) -> Option<Seq<Seq<u8>>>
    decreases changes.len(),
{
    if changes.len() == 0 {
        Some(Seq::empty())
    } else {
        match stage_plan(changes.drop_last(), cwd) {
            None => None,
            Some(acc) => {
                let c = changes.last();
                if staged(c) {
                    match relative_to(c.path, cwd) {
                        None => None,
                        Some(rp) => Some(acc.push(rp)),
                    }
                } else {
                    Some(acc)
                }
            },
        }
    }
}

/// The views of a sequence of byte vectors.
pub open spec fn bytes_views(s: Seq<Vec<u8>>) -> Seq<Seq<u8>> {
    s.map_values(|v: Vec<u8>| v@)
}

/// Makes one path relative to the working directory.
pub fn make_relative(path: &Vec<u8>, cwd: &Vec<u8>) -> (r: Option<Vec<u8>>)
    ensures
        match r {
            Some(p) => relative_to(path@, cwd@) == Some(p@),
            None => relative_to(path@, cwd@) is None,
        },
{
    let mut pref = clone_bytes(cwd);
    pref.push(0x2f);
    proof {
        assert(pref@ =~= cwd@ + seq![0x2fu8]);
        assert(path@.skip(0) =~= path@);
    }
    let pl = path.len();
    if cwd.len() > 0 && crate::bytesutil::bytes_is_prefix(&pref, path) {
        proof {
            assert(pref@.is_prefix_of(path@));
            assert(pref@.len() <= path@.len());
            assert(cwd@.len() + 1 <= pl);
        }
        let mut out: Vec<u8> = Vec::new();
        let mut i: usize = cwd.len() + 1;
        let ghost start = cwd@.len() as int + 1;
        while i < path.len()
            invariant
                start <= i <= path@.len(),
                start == cwd@.len() + 1,
                out@ == path@.subrange(start, i as int),
            decreases path@.len() - i,
        {
            out.push(path[i]);
            proof {
                assert(path@.subrange(start, i + 1) =~= path@.subrange(start, i as int).push(
                    path@[i as int],
                ));
            }
            i += 1;
        }
        proof {
            assert(out@ =~= path@.skip(start));
        }
        return Some(out);
    }
    if path.len() > 0 && path[0] == 0x2f {
        return None;
    }
    Some(clone_bytes(path))
}

/// Applies the staging rules to a change list: the sources to
/// archive, in change order, or `PathRejected` when a staged path is
/// absolute outside the working directory.
pub fn stage(changes: &Vec<Change>, cwd: &Vec<u8>) -> (r: Result<Vec<Vec<u8>>, BackupError>)
    ensures
        match r {
            Ok(plan) => stage_plan(change_views(changes@), cwd@) == Some(bytes_views(plan@)),
            Err(e) => e == BackupError::PathRejected && stage_plan(change_views(changes@), cwd@) is None,
        },
{
    let ghost cs = change_views(changes@);
    let mut plan: Vec<Vec<u8>> = Vec::new();
    let mut i: usize = 0;
    proof {
        assert(cs.take(0) =~= Seq::<ChangeV>::empty());
        assert(bytes_views(plan@) =~= Seq::<Seq<u8>>::empty());
    }
    while i < changes.len()
        invariant
            i <= cs.len(),
            cs == change_views(changes@),
            stage_plan(cs.take(i as int), cwd@) == Some(bytes_views(plan@)),
        decreases cs.len() - i,
    {
        let c = &changes[i];
        proof {
            assert(c@ == cs[i as int]);
            assert(cs.take(i + 1).drop_last() =~= cs.take(i as int));
            assert(cs.take(i + 1).last() == cs[i as int]);
        }
        let is_stageable = match c.change_type {
            ChangeType::Added | ChangeType::Modified => !is_workspace(&c.name),
            ChangeType::Removed => false,
        };
        if is_stageable {
            match make_relative(&c.path, cwd) {
                Some(rp) => {
                    let ghost prev = plan@;
                    plan.push(rp);
                    proof {
                        assert forall|j: int| 0 <= j < plan@.len() implies bytes_views(plan@)[j]
                            == bytes_views(prev).push(plan@[prev.len() as int]@)[j] by {
                            if j < prev.len() {
                                assert(plan@[j] == prev[j]);
                            }
                        }
                        assert(bytes_views(plan@) =~= bytes_views(prev).push(
                            plan@[prev.len() as int]@,
                        ));
                        assert(stage_plan(cs.take(i + 1), cwd@) == Some(bytes_views(plan@)));
                    }
                },
                None => {
                    proof {
                        assert(stage_plan(cs.take(i + 1), cwd@) is None);
                        lemma_stage_plan_none_prefix(cs, cwd@, i + 1);
                    }
                    return Err(BackupError::PathRejected);
                },
            }
        } else {
            proof {
                assert(stage_plan(cs.take(i + 1), cwd@) == Some(bytes_views(plan@)));
            }
        }
        i += 1;
    }
    proof {
        assert(cs.take(cs.len() as int) =~= cs);
    }
    Ok(plan)
}

proof fn lemma_stage_plan_none_prefix(changes: Seq<ChangeV>, cwd: Seq<u8>, m: int)
    requires
        0 <= m <= changes.len(),
        stage_plan(changes.take(m), cwd) is None,
    ensures
        stage_plan(changes, cwd) is None,
    decreases changes.len() - m,
{
    if m == changes.len() {
        assert(changes.take(m) =~= changes);
    } else {
        assert(changes.take(m + 1).drop_last() =~= changes.take(m));
        lemma_stage_plan_none_prefix(changes, cwd, m + 1);
    }
}

} // verus!
