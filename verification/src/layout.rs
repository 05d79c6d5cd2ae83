//! The repository layout: where the object store lives relative to
//! the target.  The anchor is the target itself for a directory, its
//! parent for a file; under it stand `.openbrs/`, the `objects/`
//! subtree with `blobs/`, `trees/` and `commits/`, the `HEAD` file,
//! and the archive blob named after the target's basename.

use vstd::prelude::*;
use crate::BackupError;
use crate::bytesutil::{clone_bytes, push_bytes};
use crate::snapshot::workspace_name;

verus! {

/// Every path the engine reads or writes, as byte strings.
#[derive(Debug)]
pub struct FilePath {
    pub target: Vec<u8>,
    pub main: Vec<u8>,
    pub objects: Vec<u8>,
    pub blobs: Vec<u8>,
    pub trees: Vec<u8>,
    pub commits: Vec<u8>,
    pub head: Vec<u8>,
    pub archive: Vec<u8>,
    pub encarch: Option<Vec<u8>>,
}

/// The position of the last slash of a path, if any.
pub open spec fn last_slash(p: Seq<u8>) -> Option<int>
    decreases p.len(),
{
    if p.len() == 0 {
        None
    } else if p.last() == 0x2f {
        Some(p.len() - 1)
    } else {
        last_slash(p.drop_last())
    }
}

/// The basename of a path: what follows its last slash.
pub open spec fn basename_of(p: Seq<u8>) -> Seq<u8> {
    match last_slash(p) {
        None => p,
        Some(i) => p.skip(i + 1),
    }
}

/// The parent of a path: what precedes its last slash, or `.`.
pub open spec fn parent_of(p: Seq<u8>) -> Seq<u8> {
    match last_slash(p) {
        None => seq![0x2eu8],
        Some(i) => p.take(i),
    }
}

/// A target the layout accepts: non-empty, relative, with a
/// non-empty basename.
pub open spec fn valid_target(p: Seq<u8>) -> bool {
    &&& p.len() > 0
    &&& p[0] != 0x2f
    &&& basename_of(p).len() > 0
}

/// The anchor: the directory that will contain `.openbrs`.
pub open spec fn anchor_of(target: Seq<u8>, is_dir: bool) -> Seq<u8> {
    if is_dir {
        target
    } else {
        parent_of(target)
    }
}

/// `a`, a slash, `b`.
pub open spec fn joined(a: Seq<u8>, b: Seq<u8>) -> Seq<u8> {
    a + seq![0x2fu8] + b
}

/// The archive blob's filename for a target basename.
pub open spec fn archive_name_of(base: Seq<u8>) -> Seq<u8> {
    base + seq![0x2eu8, 0x74u8, 0x61u8, 0x72u8, 0x2eu8, 0x78u8, 0x7au8]
}

/// The workspace directory under the anchor.
pub open spec fn main_of(target: Seq<u8>, is_dir: bool) -> Seq<u8> {
    joined(anchor_of(target, is_dir), workspace_name())
}

/// What the whole layout of a target must be.
pub open spec fn wf_layout(fp: FilePath, target: Seq<u8>, is_dir: bool) -> bool {
    let main = main_of(target, is_dir);
    &&& fp.target@ == target
    &&& fp.main@ == main
    &&& fp.objects@ == main + obj_tail()
    &&& fp.blobs@ == main + obj_tail() + blobs_tail()
    &&& fp.trees@ == main + obj_tail() + trees_tail()
    &&& fp.commits@ == main + obj_tail() + commits_tail()
    &&& fp.head@ == main + head_tail()
    &&& fp.archive@ == joined(main + obj_tail() + blobs_tail(), archive_name_of(basename_of(target)))
    &&& fp.encarch matches Some(e) && e@ == fp.archive@ + enc_tail()
}

/// `/objects`
pub open spec fn obj_tail() -> Seq<u8> {
    seq![0x2fu8, 0x6fu8, 0x62u8, 0x6au8, 0x65u8, 0x63u8, 0x74u8, 0x73u8]
}

/// `/blobs`
pub open spec fn blobs_tail() -> Seq<u8> {
    seq![0x2fu8, 0x62u8, 0x6cu8, 0x6fu8, 0x62u8, 0x73u8]
}

/// `/trees`
pub open spec fn trees_tail() -> Seq<u8> {
    seq![0x2fu8, 0x74u8, 0x72u8, 0x65u8, 0x65u8, 0x73u8]
}

/// `/commits`
pub open spec fn commits_tail() -> Seq<u8> {
    seq![0x2fu8, 0x63u8, 0x6fu8, 0x6du8, 0x6du8, 0x69u8, 0x74u8, 0x73u8]
}

/// `/HEAD`
pub open spec fn head_tail() -> Seq<u8> {
    seq![0x2fu8, 0x48u8, 0x45u8, 0x41u8, 0x44u8]
}

/// `.enc`
pub open spec fn enc_tail() -> Seq<u8> {
    seq![0x2eu8, 0x65u8, 0x6eu8, 0x63u8]
}

/// The last slash of a path, found by a backward scan.
fn find_last_slash(p: &Vec<u8>) -> (r: Option<usize>)
    ensures
        match r {
            Some(i) => i < p@.len() && last_slash(p@) == Some(i as int),
            None => last_slash(p@) is None,
        },
{
    let mut i: usize = p.len();
    proof {
        assert(p@.take(p@.len() as int) =~= p@);
    }
    while i > 0
        invariant
            i <= p@.len(),
            last_slash(p@) == last_slash(p@.take(i as int)),
        decreases i,
    {
        proof {
            assert(p@.take(i as int).last() == p@[i - 1]);
            assert(p@.take(i as int).drop_last() =~= p@.take(i - 1));
        }
        if p[i - 1] == 0x2f {
            return Some(i - 1);
        }
        i -= 1;
    }
    proof {
        assert(p@.take(0).len() == 0);
    }
    None
}

/// Appends a literal tail to a copy of a path.
fn extend_path(base: &Vec<u8>, tail: &[u8]) -> (r: Vec<u8>)
    ensures
        r@ == base@ + tail@,
{
    let mut r = clone_bytes(base);
    crate::json::push_slice(&mut r, tail);
    r
}

impl FilePath {
    /// Lays out the repository for a target path; `target_is_dir`
    /// says whether the target is a directory (the anchor) or a file
    /// (anchored at its parent).  An empty or absolute target, or
    /// one without a basename, is rejected.
    pub fn new(target_path: Vec<u8>, target_is_dir: bool) -> (r: Result<FilePath, BackupError>)
        ensures
            match r {
                Ok(fp) => valid_target(target_path@) && wf_layout(fp, target_path@, target_is_dir),
                Err(e) => e == BackupError::PathRejected && !valid_target(target_path@),
            },
    {
        if target_path.len() == 0 || target_path[0] == 0x2f {
            return Err(BackupError::PathRejected);
        }
        let base_start: usize = match find_last_slash(&target_path) {
            Some(i) => i + 1,
            None => 0,
        };
        proof {
            if base_start > 0 {
                assert(basename_of(target_path@) =~= target_path@.skip(base_start as int));
            } else {
                assert(basename_of(target_path@) =~= target_path@);
            }
        }
        if base_start >= target_path.len() {
            proof {
                assert(basename_of(target_path@).len() == 0);
            }
            return Err(BackupError::PathRejected);
        }
        let mut basename: Vec<u8> = Vec::new();
        let mut k: usize = base_start;
        while k < target_path.len()
            invariant
                base_start <= k <= target_path@.len(),
                basename@ == target_path@.subrange(base_start as int, k as int),
            decreases target_path@.len() - k,
        {
            basename.push(target_path[k]);
            proof {
                assert(target_path@.subrange(base_start as int, k + 1) =~= target_path@.subrange(
                    base_start as int,
                    k as int,
                ).push(target_path@[k as int]));
            }
            k += 1;
        }
        proof {
            assert(basename@ =~= basename_of(target_path@));
        }
        let anchor: Vec<u8> = if target_is_dir {
            clone_bytes(&target_path)
        } else {
            match find_last_slash(&target_path) {
                None => {
                    let mut dot: Vec<u8> = Vec::new();
                    dot.push(0x2e);
                    proof {
                        assert(dot@ =~= parent_of(target_path@));
                    }
                    dot
                },
                Some(i) => {
                    let p = copy_prefix(&target_path, i);
                    p
                },
            }
        };
        proof {
            assert(anchor@ == anchor_of(target_path@, target_is_dir));
        }
        let mut main = clone_bytes(&anchor);
        main.push(0x2f);
        let ws: [u8; 8] = [0x2e, 0x6f, 0x70, 0x65, 0x6e, 0x62, 0x72, 0x73];
        crate::json::push_slice(&mut main, ws.as_slice());
        proof {
            assert(ws@ =~= workspace_name());
            assert(main@ =~= main_of(target_path@, target_is_dir));
        }
        let ot: [u8; 8] = [0x2f, 0x6f, 0x62, 0x6a, 0x65, 0x63, 0x74, 0x73];
        let objects = extend_path(&main, ot.as_slice());
        let bt: [u8; 6] = [0x2f, 0x62, 0x6c, 0x6f, 0x62, 0x73];
        let blobs = extend_path(&objects, bt.as_slice());
        let tt: [u8; 6] = [0x2f, 0x74, 0x72, 0x65, 0x65, 0x73];
        let trees = extend_path(&objects, tt.as_slice());
        let ct: [u8; 8] = [0x2f, 0x63, 0x6f, 0x6d, 0x6d, 0x69, 0x74, 0x73];
        let commits = extend_path(&objects, ct.as_slice());
        let ht: [u8; 5] = [0x2f, 0x48, 0x45, 0x41, 0x44];
        let head = extend_path(&main, ht.as_slice());
        let mut archive = clone_bytes(&blobs);
        archive.push(0x2f);
        push_bytes(&mut archive, &basename);
        let at: [u8; 7] = [0x2e, 0x74, 0x61, 0x72, 0x2e, 0x78, 0x7a];
        crate::json::push_slice(&mut archive, at.as_slice());
        let et: [u8; 4] = [0x2e, 0x65, 0x6e, 0x63];
        let encarch = extend_path(&archive, et.as_slice());
        let fp = FilePath {
            target: target_path,
            main,
            objects,
            blobs,
            trees,
            commits,
            head,
            archive,
            encarch: Some(encarch),
        };
        proof {
            assert(ot@ =~= obj_tail());
            assert(bt@ =~= blobs_tail());
            assert(tt@ =~= trees_tail());
            assert(ct@ =~= commits_tail());
            assert(ht@ =~= head_tail());
            assert(et@ =~= enc_tail());
            assert(fp.archive@ =~= joined(
                main_of(fp.target@, target_is_dir) + obj_tail() + blobs_tail(),
                archive_name_of(basename_of(fp.target@)),
            ));
        }
        Ok(fp)
    }

    /// The directories a fresh repository needs, parents first.
    pub fn dir_paths(&self) -> (r: Vec<Vec<u8>>)
        ensures
            r@.len() == 5,
            r@[0]@ == self.main@,
            r@[1]@ == self.objects@,
            r@[2]@ == self.blobs@,
            r@[3]@ == self.trees@,
            r@[4]@ == self.commits@,
    {
        let mut v: Vec<Vec<u8>> = Vec::new();
        v.push(clone_bytes(&self.main));
        v.push(clone_bytes(&self.objects));
        v.push(clone_bytes(&self.blobs));
        v.push(clone_bytes(&self.trees));
        v.push(clone_bytes(&self.commits));
        v
    }
}

/// Copies the first `n` bytes of a path.
fn copy_prefix(p: &Vec<u8>, n: usize) -> (r: Vec<u8>)
    requires
        n <= p@.len(),
    ensures
        r@ == p@.take(n as int),
{
    let mut out: Vec<u8> = Vec::new();
    let mut i: usize = 0;
    while i < n
        invariant
            i <= n <= p@.len(),
            out@ == p@.take(i as int),
        decreases n - i,
    {
        out.push(p[i]);
        proof {
            assert(p@.take(i + 1) =~= p@.take(i as int).push(p@[i as int]));
        }
        i += 1;
    }
    out
}

} // verus!
