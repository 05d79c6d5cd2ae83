//! The tree differ: classifying what changed between two snapshots.
//!
//! Per level, every entry of the new tree is compared against the old
//! one by name — absent before means `Added`, present with another id
//! means `Modified` — and every old entry absent from the new tree
//! yields `Removed`.  Entries are processed in canonical (sorted)
//! order, additions and modifications first, removals after.  A
//! `Modified` entry whose old and new ids both resolve in the object
//! store is a directory change: the differ recurses, and the nested
//! changes stand before the enclosing record, leaves first.

use vstd::prelude::*;
use crate::BackupError;
use crate::bytesutil::{clone_bytes, bytes_eq, push_bytes};
use crate::objects::{EntryRef, EntryV, Tree, TreeV, entry_views};
use crate::snapshot::{clone_tree, tree_views};

verus! {

/// The three kinds of change.
#[derive(Clone, Copy, Debug, PartialEq, Eq, Structural)]
pub enum ChangeType {
    Added,
    Modified,
    Removed,
}

/// One classified change: the entry's name, its filesystem path
/// (for staging), and the ids on each side where present.
#[derive(Debug)]
pub struct Change {
    pub change_type: ChangeType,
    pub name: Vec<u8>,
    pub path: Vec<u8>,
    pub old_id: Option<Vec<u8>>,
    pub new_id: Option<Vec<u8>>,
}

/// The mathematical value of a change.
pub ghost struct ChangeV {
    pub change_type: ChangeType,
    pub name: Seq<u8>,
    pub path: Seq<u8>,
    pub old_id: Option<Seq<u8>>,
    pub new_id: Option<Seq<u8>>,
}

impl View for Change {
    type V = ChangeV;

    open spec fn view(&self) -> ChangeV {
        ChangeV {
            change_type: self.change_type,
            name: self.name@,
            path: self.path@,
            old_id: crate::objects::opt_bytes(self.old_id),
            new_id: crate::objects::opt_bytes(self.new_id),
        }
    }
}

/// The views of a sequence of changes.
pub open spec fn change_views(s: Seq<Change>) -> Seq<ChangeV> {
    s.map_values(|c: Change| c@)
}

/// Appending a change appends its view.
pub proof fn lemma_change_views_push(s: Seq<Change>, c: Change)
    ensures
        change_views(s.push(c)) == change_views(s).push(c@),
{
    assert forall|j: int| 0 <= j < s.len() + 1 implies change_views(s.push(c))[j] == change_views(
        s,
    ).push(c@)[j] by {
        if j < s.len() {
            assert(s.push(c)[j] == s[j]);
        } else {
            assert(s.push(c)[j] == c);
        }
    }
    assert(change_views(s.push(c)) =~= change_views(s).push(c@));
}

/// The id under which a name stands in a listing: the first entry of
/// that name, scanned front to back.
pub open spec fn find_id(entries: Seq<EntryV>, name: Seq<u8>) -> Option<Seq<u8>>
    decreases entries.len(),
{
    if entries.len() == 0 {
        None
    } else if entries[0].name == name {
        Some(entries[0].id)
    } else {
        find_id(entries.drop_first(), name)
    }
}

/// The filesystem path of a child: the base path, a slash, the name.
pub open spec fn child_path(base: Seq<u8>, name: Seq<u8>) -> Seq<u8> {
    base + seq![0x2fu8] + name
}

/// The additions and modifications of one level: every entry of the
/// new listing in order, classified against the old listing.
pub open spec fn add_mod_changes(old: Seq<EntryV>, new: Seq<EntryV>, base: Seq<u8>) -> Seq<ChangeV>
    decreases new.len(),
{
    if new.len() == 0 {
        Seq::empty()
    } else {
        let e = new.last();
        add_mod_changes(old, new.drop_last(), base) + (match find_id(old, e.name) {
            None => seq![
                ChangeV {
                    change_type: ChangeType::Added,
                    name: e.name,
                    path: child_path(base, e.name),
                    old_id: None,
                    new_id: Some(e.id),
                },
            ],
            Some(oid) => if oid != e.id {
                seq![
                    ChangeV {
                        change_type: ChangeType::Modified,
                        name: e.name,
                        path: child_path(base, e.name),
                        old_id: Some(oid),
                        new_id: Some(e.id),
                    },
                ]
            } else {
                Seq::empty()
            },
        })
    }
}

/// The removals of one level: every entry of the old listing in
/// order that no longer stands in the new one.
pub open spec fn removed_changes(old: Seq<EntryV>, new: Seq<EntryV>, base: Seq<u8>) -> Seq<ChangeV>
    decreases old.len(),
{
    if old.len() == 0 {
        Seq::empty()
    } else {
        let e = old.last();
        removed_changes(old.drop_last(), new, base) + (match find_id(new, e.name) {
            None => seq![
                ChangeV {
                    change_type: ChangeType::Removed,
                    name: e.name,
                    path: child_path(base, e.name),
                    old_id: Some(e.id),
                    new_id: None,
                },
            ],
            Some(_) => Seq::empty(),
        })
    }
}

/// All changes of one level: additions and modifications first, then
/// removals, each group in canonical entry order.
pub open spec fn level_changes(old: TreeV, new: TreeV, base: Seq<u8>) -> Seq<ChangeV> {
    add_mod_changes(old.entries, new.entries, base) + removed_changes(old.entries, new.entries, base)
}

/// Looks a name up in a listing.
pub fn find_entry_id(entries: &Vec<EntryRef>, name: &Vec<u8>) -> (r: Option<usize>)
    ensures
        match r {
            Some(k) => {
                &&& k < entries@.len()
                &&& entries@[k as int]@.name == name@
                &&& find_id(entry_views(entries@), name@) == Some(entries@[k as int]@.id)
            },
            None => find_id(entry_views(entries@), name@) is None,
        },
{
    let ghost vs = entry_views(entries@);
    proof {
        assert(vs.skip(0) =~= vs);
    }
    let mut i: usize = 0;
    while i < entries.len()
        invariant
            i <= vs.len(),
            vs == entry_views(entries@),
            find_id(vs, name@) == find_id(vs.skip(i as int), name@),
        decreases vs.len() - i,
    {
        proof {
            assert(vs.skip(i as int)[0] == vs[i as int]);
            assert(vs[i as int] == entries@[i as int]@);
            assert(vs.skip(i as int).drop_first() =~= vs.skip(i + 1));
        }
        if bytes_eq(&entries[i].name, name) {
            return Some(i);
        }
        i += 1;
    }
    proof {
        assert(vs.skip(vs.len() as int).len() == 0);
    }
    None
}

/// Copies an optional byte string.
pub fn clone_opt_bytes(o: &Option<Vec<u8>>) -> (r: Option<Vec<u8>>)
    ensures
        crate::objects::opt_bytes(r) == match o {
            Some(v) => Some(v@),
            None => None::<Seq<u8>>,
        },
{
    match o {
        Some(v) => Some(clone_bytes(v)),
        None => None,
    }
}

/// Copies a change record.
pub fn clone_change(c: &Change) -> (r: Change)
    ensures
        r@ == c@,
{
    Change {
        change_type: c.change_type,
        name: clone_bytes(&c.name),
        path: clone_bytes(&c.path),
        old_id: clone_opt_bytes(&c.old_id),
        new_id: clone_opt_bytes(&c.new_id),
    }
}

/// Builds the filesystem path of a child of `base`.
pub fn make_child_path(base: &Vec<u8>, name: &Vec<u8>) -> (r: Vec<u8>)
    ensures
        r@ == child_path(base@, name@),
{
    let mut p = clone_bytes(base);
    p.push(0x2f);
    push_bytes(&mut p, name);
    proof {
        assert(p@ =~= child_path(base@, name@));
    }
    p
}

/// Classifies one level: `None` when the two trees share their id
/// (the subtree is unchanged), otherwise every change of this level,
/// additions and modifications before removals.  `base` is the
/// filesystem path of the directory both trees picture.
pub fn current_level_diff(old_tree: &Tree, new_tree: &Tree, base: &Vec<u8>) -> (r: Option<
    Vec<Change>,
>)
    ensures
        old_tree@.id == new_tree@.id <==> r is None,
        match r {
            Some(cs) => change_views(cs@) == level_changes(old_tree@, new_tree@, base@),
            None => true,
        },
{
    if bytes_eq(&old_tree.id, &new_tree.id) {
        return None;
    }
    let ghost oldv = entry_views(old_tree.entries@);
    let ghost newv = entry_views(new_tree.entries@);
    let mut changes: Vec<Change> = Vec::new();
    let mut i: usize = 0;
    while i < new_tree.entries.len()
        invariant
            i <= newv.len(),
            oldv == entry_views(old_tree.entries@),
            newv == entry_views(new_tree.entries@),
            change_views(changes@) == add_mod_changes(oldv, newv.take(i as int), base@),
        decreases newv.len() - i,
    {
        let e = &new_tree.entries[i];
        proof {
            assert(e@ == newv[i as int]);
            assert(newv.take(i + 1).drop_last() =~= newv.take(i as int));
            assert(newv.take(i + 1).last() == newv[i as int]);
        }
        let ghost prev = changes@;
        match find_entry_id(&old_tree.entries, &e.name) {
            None => {
                let c = Change {
                    change_type: ChangeType::Added,
                    name: clone_bytes(&e.name),
                    path: make_child_path(base, &e.name),
                    old_id: None,
                    new_id: Some(clone_bytes(&e.id)),
                };
                changes.push(c);
                proof {
                    lemma_change_views_push(prev, c);
                    assert(change_views(changes@) =~= add_mod_changes(oldv, newv.take(i + 1), base@));
                }
            },
            Some(k) => {
                let oid = &old_tree.entries[k].id;
                if !bytes_eq(oid, &e.id) {
                    let c = Change {
                        change_type: ChangeType::Modified,
                        name: clone_bytes(&e.name),
                        path: make_child_path(base, &e.name),
                        old_id: Some(clone_bytes(oid)),
                        new_id: Some(clone_bytes(&e.id)),
                    };
                    changes.push(c);
                    proof {
                        lemma_change_views_push(prev, c);
                        assert(change_views(changes@) =~= add_mod_changes(oldv, newv.take(i + 1), base@));
                    }
                } else {
                    proof {
                        assert(change_views(changes@) =~= add_mod_changes(oldv, newv.take(i + 1), base@));
                    }
                }
            },
        }
        i += 1;
    }
    proof {
        assert(newv.take(newv.len() as int) =~= newv);
    }
    let mut j: usize = 0;
    while j < old_tree.entries.len()
        invariant
            j <= oldv.len(),
            oldv == entry_views(old_tree.entries@),
            newv == entry_views(new_tree.entries@),
            change_views(changes@) == add_mod_changes(oldv, newv, base@) + removed_changes(
                oldv.take(j as int),
                newv,
                base@,
            ),
        decreases oldv.len() - j,
    {
        let e = &old_tree.entries[j];
        proof {
            assert(e@ == oldv[j as int]);
            assert(oldv.take(j + 1).drop_last() =~= oldv.take(j as int));
            assert(oldv.take(j + 1).last() == oldv[j as int]);
        }
        let ghost prev = changes@;
        match find_entry_id(&new_tree.entries, &e.name) {
            None => {
                let c = Change {
                    change_type: ChangeType::Removed,
                    name: clone_bytes(&e.name),
                    path: make_child_path(base, &e.name),
                    old_id: Some(clone_bytes(&e.id)),
                    new_id: None,
                };
                changes.push(c);
                proof {
                    lemma_change_views_push(prev, c);
                    assert(change_views(changes@) =~= add_mod_changes(oldv, newv, base@)
                        + removed_changes(oldv.take(j + 1), newv, base@));
                }
            },
            Some(_) => {
                proof {
                    assert(change_views(changes@) =~= add_mod_changes(oldv, newv, base@)
                        + removed_changes(oldv.take(j + 1), newv, base@));
                }
            },
        }
        j += 1;
    }
    proof {
        assert(oldv.take(oldv.len() as int) =~= oldv);
    }
    Some(changes)
}

/// A name stands in a listing exactly when some entry carries it.
pub proof fn lemma_find_id_some(s: Seq<EntryV>, n: Seq<u8>)
    ensures
        (find_id(s, n) is Some) <==> exists|k: int| 0 <= k < s.len() && (#[trigger] s[k]).name == n,
    decreases s.len(),
{
    if s.len() != 0 {
        lemma_find_id_some(s.drop_first(), n);
        if s[0].name == n {
        } else {
            assert forall|k: int| 0 <= k < s.len() && (#[trigger] s[k]).name == n implies
                exists|m: int| 0 <= m < s.drop_first().len() && (#[trigger] s.drop_first()[m]).name == n by {
                assert(s.drop_first()[k - 1] == s[k]);
            }
            assert forall|m: int| 0 <= m < s.drop_first().len() && (#[trigger] s.drop_first()[m]).name == n implies
                exists|k: int| 0 <= k < s.len() && (#[trigger] s[k]).name == n by {
                assert(s[m + 1] == s.drop_first()[m]);
            }
        }
    }
}

/// In a listing with pairwise distinct names, looking an entry's own
/// name up yields that entry's id.
pub proof fn lemma_find_id_unique(s: Seq<EntryV>, k: int)
    requires
        crate::objects::names_unique(s),
        0 <= k < s.len(),
    ensures
        find_id(s, s[k].name) == Some(s[k].id),
    decreases s.len(),
{
    if k == 0 {
    } else {
        assert(s[0].name != s[k].name);
        assert(forall|i: int, j: int| 0 <= i < j < s.drop_first().len()
            ==> (#[trigger] s.drop_first()[i]).name != (#[trigger] s.drop_first()[j]).name) by {
            assert(forall|i: int| 0 <= i < s.drop_first().len() ==> #[trigger] s.drop_first()[i] == s[i + 1]);
        }
        lemma_find_id_unique(s.drop_first(), k - 1);
        assert(s.drop_first()[k - 1] == s[k]);
    }
}

/// What one addition-or-modification record of a level says, and that
/// it says it of a name of the new listing.
pub open spec fn sound_add_mod(c: ChangeV, old: Seq<EntryV>, new: Seq<EntryV>, base: Seq<u8>) -> bool {
    &&& (c.change_type == ChangeType::Added || c.change_type == ChangeType::Modified)
    &&& find_id(new, c.name) == c.new_id
    &&& c.new_id is Some
    &&& find_id(old, c.name) == c.old_id
    &&& (c.change_type == ChangeType::Added <==> c.old_id is None)
    &&& c.old_id != c.new_id
    &&& c.path == child_path(base, c.name)
}

proof fn lemma_add_mod_props(old: Seq<EntryV>, new: Seq<EntryV>, base: Seq<u8>)
    requires
        crate::objects::names_unique(new),
    ensures
        forall|i: int| 0 <= i < add_mod_changes(old, new, base).len()
            ==> sound_add_mod(#[trigger] add_mod_changes(old, new, base)[i], old, new, base),
        forall|i: int, j: int|
            0 <= i < j < add_mod_changes(old, new, base).len()
            ==> (#[trigger] add_mod_changes(old, new, base)[i]).name
                != (#[trigger] add_mod_changes(old, new, base)[j]).name,
        forall|k: int| 0 <= k < new.len() && find_id(old, (#[trigger] new[k]).name) != Some(new[k].id)
            ==> exists|i: int| 0 <= i < add_mod_changes(old, new, base).len()
                && (#[trigger] add_mod_changes(old, new, base)[i]).name == new[k].name,
    decreases new.len(),
{
    let a = add_mod_changes(old, new, base);
    if new.len() != 0 {
        let pre = new.drop_last();
        assert(forall|i: int, j: int| 0 <= i < j < pre.len()
            ==> (#[trigger] pre[i]).name != (#[trigger] pre[j]).name) by {
            assert(forall|i: int| 0 <= i < pre.len() ==> #[trigger] pre[i] == new[i]);
        }
        lemma_add_mod_props(old, pre, base);
        let ap = add_mod_changes(old, pre, base);
        let e = new.last();
        lemma_find_id_unique(new, new.len() - 1);
        // every earlier record's name belongs to an earlier entry of
        // the new listing, so the last entry's record is fresh
        assert forall|i: int| 0 <= i < ap.len() implies ap[i].name != e.name by {
            lemma_find_id_some(pre, ap[i].name);
            let k = choose|k: int| 0 <= k < pre.len() && (#[trigger] pre[k]).name == ap[i].name;
            assert(new[k].name == ap[i].name);
            assert(new[k].name != new[new.len() - 1].name);
        }
        assert forall|i: int| 0 <= i < a.len() implies sound_add_mod(#[trigger] a[i], old, new, base) by {
            if i < ap.len() {
                assert(a[i] == ap[i]);
                assert(find_id(pre, ap[i].name) == ap[i].new_id);
                // the lookup in the new listing is unchanged by the
                // appended last entry, whose name differs
                lemma_find_id_append(pre, e, ap[i].name);
                assert(new =~= pre.push(e));
            } else {
                assert(find_id(new, e.name) == Some(e.id));
            }
        }
        assert forall|k: int| 0 <= k < new.len() && find_id(old, (#[trigger] new[k]).name) != Some(new[k].id)
            implies exists|i: int| 0 <= i < a.len() && (#[trigger] a[i]).name == new[k].name by {
            if k < new.len() - 1 {
                assert(pre[k] == new[k]);
                let i = choose|i: int| 0 <= i < ap.len() && (#[trigger] ap[i]).name == pre[k].name;
                assert(a[i] == ap[i]);
            } else {
                if find_id(old, e.name) is None {
                    assert(a[a.len() - 1].name == e.name);
                } else {
                    assert(a[a.len() - 1].name == e.name);
                }
            }
        }
    }
}

/// Appending an entry of another name does not change a lookup.
proof fn lemma_find_id_append(s: Seq<EntryV>, e: EntryV, n: Seq<u8>)
    requires
        e.name != n,
    ensures
        find_id(s.push(e), n) == find_id(s, n),
    decreases s.len(),
{
    if s.len() == 0 {
        assert(s.push(e)[0] == e);
        assert(s.push(e).drop_first() =~= s);
        assert(find_id(s.push(e), n) == find_id(s, n));
    } else {
        assert(s.push(e)[0] == s[0]);
        if s[0].name == n {
        } else {
            assert(s.push(e).drop_first() =~= s.drop_first().push(e));
            lemma_find_id_append(s.drop_first(), e, n);
        }
    }
}

/// What one removal record of a level says.
pub open spec fn sound_removed(c: ChangeV, old: Seq<EntryV>, new: Seq<EntryV>, base: Seq<u8>) -> bool {
    &&& c.change_type == ChangeType::Removed
    &&& find_id(old, c.name) == c.old_id
    &&& c.old_id is Some
    &&& find_id(new, c.name) is None
    &&& c.new_id is None
    &&& c.path == child_path(base, c.name)
}

proof fn lemma_removed_props(old: Seq<EntryV>, new: Seq<EntryV>, base: Seq<u8>)
    requires
        crate::objects::names_unique(old),
    ensures
        forall|i: int| 0 <= i < removed_changes(old, new, base).len()
            ==> sound_removed(#[trigger] removed_changes(old, new, base)[i], old, new, base),
        forall|i: int, j: int|
            0 <= i < j < removed_changes(old, new, base).len()
            ==> (#[trigger] removed_changes(old, new, base)[i]).name
                != (#[trigger] removed_changes(old, new, base)[j]).name,
        forall|k: int| 0 <= k < old.len() && find_id(new, (#[trigger] old[k]).name) is None
            ==> exists|i: int| 0 <= i < removed_changes(old, new, base).len()
                && (#[trigger] removed_changes(old, new, base)[i]).name == old[k].name,
    decreases old.len(),
{
    let r = removed_changes(old, new, base);
    if old.len() != 0 {
        let pre = old.drop_last();
        assert(forall|i: int, j: int| 0 <= i < j < pre.len()
            ==> (#[trigger] pre[i]).name != (#[trigger] pre[j]).name) by {
            assert(forall|i: int| 0 <= i < pre.len() ==> #[trigger] pre[i] == old[i]);
        }
        lemma_removed_props(pre, new, base);
        let rp = removed_changes(pre, new, base);
        let e = old.last();
        lemma_find_id_unique(old, old.len() - 1);
        assert forall|i: int| 0 <= i < rp.len() implies rp[i].name != e.name by {
            lemma_find_id_some(pre, rp[i].name);
            let k = choose|k: int| 0 <= k < pre.len() && (#[trigger] pre[k]).name == rp[i].name;
            assert(old[k].name == rp[i].name);
            assert(old[k].name != old[old.len() - 1].name);
        }
        assert forall|i: int| 0 <= i < r.len() implies sound_removed(#[trigger] r[i], old, new, base) by {
            if i < rp.len() {
                assert(r[i] == rp[i]);
                assert(find_id(pre, rp[i].name) == rp[i].old_id);
                lemma_find_id_append(pre, e, rp[i].name);
                assert(old =~= pre.push(e));
            } else {
                assert(find_id(old, e.name) == Some(e.id));
            }
        }
        assert forall|k: int| 0 <= k < old.len() && find_id(new, (#[trigger] old[k]).name) is None
            implies exists|i: int| 0 <= i < r.len() && (#[trigger] r[i]).name == old[k].name by {
            if k < old.len() - 1 {
                assert(pre[k] == old[k]);
                let i = choose|i: int| 0 <= i < rp.len() && (#[trigger] rp[i]).name == pre[k].name;
                assert(r[i] == rp[i]);
            } else {
                assert(r[r.len() - 1].name == e.name);
            }
        }
    }
}

/// Locality of change: two trees that share an id diff to nothing,
/// whatever the store, the base path and the fuel.
pub proof fn lemma_diff_locality(old: TreeV, new: TreeV, store: Seq<TreeV>, base: Seq<u8>, fuel: nat)
    requires
        old.id == new.id,
    ensures
        compare_spec(old, new, store, base, fuel) == Ok::<Seq<ChangeV>, BackupError>(Seq::empty()),
{
}

/// Diff completeness: one level's change list exactly partitions the
/// symmetric difference of the two listings.  Every record is sound
/// for its kind; no name carries two records; a name absent before
/// and present now has an `Added` record, one present with another
/// id has a `Modified` record, one present before and absent now has
/// a `Removed` record; and a name with the same id on both sides, or
/// on neither side, has no record at all.
pub proof fn lemma_diff_partition(old: TreeV, new: TreeV, base: Seq<u8>)
    requires
        crate::objects::names_unique(old.entries),
        crate::objects::names_unique(new.entries),
    ensures
        forall|i: int| 0 <= i < level_changes(old, new, base).len()
            ==> sound_add_mod(#[trigger] level_changes(old, new, base)[i], old.entries, new.entries, base)
                || sound_removed(#[trigger] level_changes(old, new, base)[i], old.entries, new.entries, base),
        forall|i: int, j: int| 0 <= i < j < level_changes(old, new, base).len()
            ==> (#[trigger] level_changes(old, new, base)[i]).name
                != (#[trigger] level_changes(old, new, base)[j]).name,
        forall|k: int| 0 <= k < new.entries.len()
            && find_id(old.entries, (#[trigger] new.entries[k]).name) != Some(new.entries[k].id)
            ==> exists|i: int| 0 <= i < level_changes(old, new, base).len()
                && (#[trigger] level_changes(old, new, base)[i]).name == new.entries[k].name,
        forall|k: int| 0 <= k < old.entries.len()
            && find_id(new.entries, (#[trigger] old.entries[k]).name) is None
            ==> exists|i: int| 0 <= i < level_changes(old, new, base).len()
                && (#[trigger] level_changes(old, new, base)[i]).name == old.entries[k].name,
        forall|n: Seq<u8>| find_id(old.entries, n) == find_id(new.entries, n)
            ==> forall|i: int| 0 <= i < level_changes(old, new, base).len()
                ==> (#[trigger] level_changes(old, new, base)[i]).name != n,
{
    let oe = old.entries;
    let ne = new.entries;
    let a = add_mod_changes(oe, ne, base);
    let r = removed_changes(oe, ne, base);
    let l = level_changes(old, new, base);
    lemma_add_mod_props(oe, ne, base);
    lemma_removed_props(oe, ne, base);
    assert(l =~= a + r);
    assert forall|i: int, j: int| 0 <= i < j < l.len() implies (#[trigger] l[i]).name
        != (#[trigger] l[j]).name by {
        if i < a.len() && j >= a.len() {
            // an addition or modification stands in the new listing,
            // a removal does not
            assert(l[i] == a[i]);
            assert(l[j] == r[j - a.len()]);
            assert(find_id(ne, a[i].name) is Some);
            assert(find_id(ne, r[j - a.len()].name) is None);
        } else if i >= a.len() {
            assert(l[i] == r[i - a.len()]);
            assert(l[j] == r[j - a.len()]);
        } else {
            assert(l[i] == a[i]);
            assert(l[j] == a[j]);
        }
    }
    assert forall|k: int| 0 <= k < ne.len()
        && find_id(oe, (#[trigger] ne[k]).name) != Some(ne[k].id)
        implies exists|i: int| 0 <= i < l.len() && (#[trigger] l[i]).name == ne[k].name by {
        let i = choose|i: int| 0 <= i < a.len() && (#[trigger] a[i]).name == ne[k].name;
        assert(l[i] == a[i]);
    }
    assert forall|k: int| 0 <= k < oe.len()
        && find_id(ne, (#[trigger] oe[k]).name) is None
        implies exists|i: int| 0 <= i < l.len() && (#[trigger] l[i]).name == oe[k].name by {
        let i = choose|i: int| 0 <= i < r.len() && (#[trigger] r[i]).name == oe[k].name;
        assert(l[a.len() + i] == r[i]);
    }
    assert forall|n: Seq<u8>| find_id(oe, n) == find_id(ne, n)
        implies forall|i: int| 0 <= i < l.len() ==> (#[trigger] l[i]).name != n by {
        assert forall|i: int| 0 <= i < l.len() implies (#[trigger] l[i]).name != n by {
            if i < a.len() {
                assert(l[i] == a[i]);
                if a[i].name == n {
                    assert(a[i].old_id == a[i].new_id);
                    assert(false);
                }
            } else {
                assert(l[i] == r[i - a.len()]);
                if r[i - a.len()].name == n {
                    assert(r[i - a.len()].old_id is Some);
                    assert(find_id(oe, n) is Some);
                    assert(find_id(ne, n) is None);
                    assert(false);
                }
            }
        }
    }
}

/// The object store as the differ sees it: trees looked up by id,
/// first match winning.
pub struct Store {
    pub trees: Vec<Tree>,
}

/// The tree stored under an id, if any.
pub open spec fn store_lookup(ts: Seq<TreeV>, id: Seq<u8>) -> Option<TreeV>
    decreases ts.len(),
{
    if ts.len() == 0 {
        None
    } else if ts[0].id == id {
        Some(ts[0])
    } else {
        store_lookup(ts.drop_first(), id)
    }
}

impl View for Store {
    type V = Seq<TreeV>;

    open spec fn view(&self) -> Seq<TreeV> {
        tree_views(self.trees@)
    }
}

impl Store {
    /// An empty store.
    pub fn new() -> (r: Store)
        ensures
            r@ == Seq::<TreeV>::empty(),
    {
        let r = Store { trees: Vec::new() };
        proof {
            assert(r@ =~= Seq::<TreeV>::empty());
        }
        r
    }

    /// Adds a tree.
    pub fn add(&mut self, t: Tree)
        ensures
            final(self)@ == old(self)@.push(t@),
    {
        proof {
            crate::snapshot::lemma_tree_views_push(self.trees@, t);
        }
        self.trees.push(t);
    }

    /// Fetches a copy of the tree stored under an id.
    pub fn get(&self, id: &Vec<u8>) -> (r: Option<Tree>)
        ensures
            match r {
                Some(t) => store_lookup(self@, id@) == Some(t@),
                None => store_lookup(self@, id@) is None,
            },
    {
        let ghost ts = self@;
        proof {
            assert(ts.skip(0) =~= ts);
        }
        let mut i: usize = 0;
        while i < self.trees.len()
            invariant
                i <= ts.len(),
                ts == self@,
                store_lookup(ts, id@) == store_lookup(ts.skip(i as int), id@),
            decreases ts.len() - i,
        {
            proof {
                assert(ts.skip(i as int)[0] == ts[i as int]);
                assert(ts[i as int] == self.trees@[i as int]@);
                assert(ts.skip(i as int).drop_first() =~= ts.skip(i + 1));
            }
            if bytes_eq(&self.trees[i].id, id) {
                return Some(clone_tree(&self.trees[i]));
            }
            i += 1;
        }
        proof {
            assert(ts.skip(ts.len() as int).len() == 0);
        }
        None
    }
}

/// Checks a stored tree against its own content: its id must be the
/// hash of its canonical listing, or the single entry's id in the
/// degenerate single-entry form.
pub fn check_tree_bound(t: &Tree) -> (r: bool)
    ensures
        r == crate::objects::tree_content_bound(t@),
{
    let recomputed = Tree::calc_dir_id(crate::snapshot::clone_entries(&t.entries));
    if bytes_eq(&t.id, &recomputed) {
        return true;
    }
    if t.entries.len() == 1 && bytes_eq(&t.id, &t.entries[0].id) {
        proof {
            assert(t@.entries[0] == t.entries@[0]@);
        }
        return true;
    }
    proof {
        if t@.entries.len() == 1 {
            assert(t@.entries[0] == t.entries@[0]@);
        }
    }
    false
}

/// Whether a change is a directory modification the differ can
/// recurse into: `Modified`, with both referenced trees in the store.
/// (File blobs are never stored as trees, so a file change never
/// resolves.)
pub open spec fn dir_change(c: ChangeV, store: Seq<TreeV>) -> bool {
    c.change_type == ChangeType::Modified && match (c.old_id, c.new_id) {
        (Some(o), Some(n)) => store_lookup(store, o) is Some && store_lookup(store, n) is Some,
        _ => false,
    }
}

/// A modification whose path is a directory now (its new tree is in
/// the store — a snapshot always stores every directory tree it
/// builds) but whose old tree is missing: the referenced object
/// cannot be fetched.
pub open spec fn missing_old_tree(c: ChangeV, store: Seq<TreeV>) -> bool {
    c.change_type == ChangeType::Modified && match (c.old_id, c.new_id) {
        (Some(o), Some(n)) => store_lookup(store, n) is Some && store_lookup(store, o) is None,
        _ => false,
    }
}

/// The comparison of two trees, given fuel that bounds the recursion
/// depth: nothing when the ids agree, otherwise the level's changes
/// with every recursable modification expanded, nested changes
/// before their enclosing record.  `Err(NotFound)` reports a
/// modified directory whose old tree is missing from the store;
/// `Err(Corruption)` reports exhausted fuel, which a store of
/// acyclic references never causes.
pub open spec fn compare_spec(
    old: TreeV,
    new: TreeV,
    store: Seq<TreeV>,
    base: Seq<u8>,
    fuel: nat,
) -> Result<Seq<ChangeV>, BackupError>
    decreases fuel, 0int, 0int,
{
    if old.id == new.id {
        Ok(Seq::empty())
    } else if fuel == 0 {
        Err(BackupError::Corruption)
    } else {
        compare_list(level_changes(old, new, base), store, (fuel - 1) as nat)
    }
}

/// Expands a list of level changes against the store.
pub open spec fn compare_list(changes: Seq<ChangeV>, store: Seq<TreeV>, fuel: nat) -> Result<
    Seq<ChangeV>,
    BackupError,
>
    decreases fuel, 1int, changes.len(),
{
    if changes.len() == 0 {
        Ok(Seq::empty())
    } else {
        let c = changes.last();
        match compare_list(changes.drop_last(), store, fuel) {
            Err(e) => Err(e),
            Ok(acc) => {
                if dir_change(c, store) {
                    match (c.old_id, c.new_id) {
                        (Some(o), Some(n)) => {
                            match compare_spec(
                                store_lookup(store, o)->0,
                                store_lookup(store, n)->0,
                                store,
                                c.path,
                                fuel,
                            ) {
                                Err(e) => Err(e),
                                Ok(sub) => Ok(acc + sub + seq![c]),
                            }
                        },
                        _ => Ok(acc.push(c)),
                    }
                } else if missing_old_tree(c, store) {
                    Err(BackupError::NotFound)
                } else {
                    Ok(acc.push(c))
                }
            },
        }
    }
}

proof fn lemma_compare_list_err_prefix(changes: Seq<ChangeV>, store: Seq<TreeV>, fuel: nat, m: int)
    requires
        0 <= m <= changes.len(),
        compare_list(changes.take(m), store, fuel) is Err,
    ensures
        compare_list(changes, store, fuel) == compare_list(changes.take(m), store, fuel),
    decreases changes.len() - m,
{
    if m == changes.len() {
        assert(changes.take(m) =~= changes);
    } else {
        assert(changes.take(m + 1).drop_last() =~= changes.take(m));
        lemma_compare_list_err_prefix(changes, store, fuel, m + 1);
    }
}

#[verifier::rlimit(60)]
fn compare_rec(
    old_tree: &Tree,
    new_tree: &Tree,
    store: &Store,
    base: &Vec<u8>,
    fuel: usize,
) -> (r: Result<Vec<Change>, BackupError>)
    ensures
        match r {
            Ok(cs) => compare_spec(old_tree@, new_tree@, store@, base@, fuel as nat) == Ok::<
                Seq<ChangeV>,
                BackupError,
            >(change_views(cs@)),
            Err(e) => {
                &&& (e == BackupError::Corruption || e == BackupError::NotFound)
                &&& compare_spec(old_tree@, new_tree@, store@, base@, fuel as nat) == Err::<
                    Seq<ChangeV>,
                    BackupError,
                >(e)
            },
        },
    decreases fuel,
{
    let level = match current_level_diff(old_tree, new_tree, base) {
        None => {
            let r: Vec<Change> = Vec::new();
            proof {
                assert(change_views(r@) =~= Seq::<ChangeV>::empty());
            }
            return Ok(r);
        },
        Some(level) => level,
    };
    if fuel == 0 {
        return Err(BackupError::Corruption);
    }
    let ghost lv = change_views(level@);
    let ghost subfuel = (fuel - 1) as nat;
    let mut all: Vec<Change> = Vec::new();
    let mut i: usize = 0;
    proof {
        assert(lv.take(0) =~= Seq::<ChangeV>::empty());
        assert(change_views(all@) =~= Seq::<ChangeV>::empty());
    }
    while i < level.len()
        invariant
            i <= lv.len(),
            1 <= fuel,
            subfuel == (fuel - 1) as nat,
            lv == change_views(level@),
            lv == level_changes(old_tree@, new_tree@, base@),
            old_tree@.id != new_tree@.id,
            compare_list(lv.take(i as int), store@, subfuel) == Ok::<Seq<ChangeV>, BackupError>(
                change_views(all@),
            ),
        decreases lv.len() - i,
    {
        let c = &level[i];
        proof {
            assert(c@ == lv[i as int]);
            assert(lv.take(i + 1).drop_last() =~= lv.take(i as int));
            assert(lv.take(i + 1).last() == lv[i as int]);
        }
        let ghost prev = change_views(all@);
        let mut recursed = false;
        if matches!(c.change_type, ChangeType::Modified) {
            let ids = match (&c.old_id, &c.new_id) {
                (Some(o), Some(n)) => Some((o, n)),
                _ => None,
            };
            if let Some((o, n)) = ids {
                let ot = store.get(o);
                let nt = store.get(n);
                if nt.is_some() && ot.is_none() {
                    // the path is a directory now, yet its old tree
                    // is not in the store
                    proof {
                        assert(missing_old_tree(lv[i as int], store@));
                        assert(!dir_change(lv[i as int], store@));
                        assert(compare_list(lv.take(i + 1), store@, subfuel) == Err::<
                            Seq<ChangeV>,
                            BackupError,
                        >(BackupError::NotFound));
                        lemma_compare_list_err_prefix(lv, store@, subfuel, i + 1);
                        assert(compare_spec(old_tree@, new_tree@, store@, base@, fuel as nat)
                            == compare_list(lv, store@, subfuel));
                    }
                    return Err(BackupError::NotFound);
                }
                if let (Some(ot), Some(nt)) = (ot, nt) {
                    recursed = true;
                    let mut sub = match compare_rec(&ot, &nt, store, &c.path, fuel - 1) {
                        Ok(sub) => sub,
                        Err(e) => {
                            proof {
                                assert(dir_change(lv[i as int], store@));
                                assert(compare_list(lv.take(i + 1), store@, subfuel) == Err::<
                                    Seq<ChangeV>,
                                    BackupError,
                                >(e));
                                lemma_compare_list_err_prefix(lv, store@, subfuel, i + 1);
                                assert(compare_spec(old_tree@, new_tree@, store@, base@, fuel as nat)
                                    == compare_list(lv, store@, subfuel));
                            }
                            return Err(e);
                        },
                    };
                    let ghost subv = change_views(sub@);
                    let mut k: usize = 0;
                    while k < sub.len()
                        invariant
                            k <= subv.len(),
                            subv == change_views(sub@),
                            change_views(all@) == prev + subv.take(k as int),
                        decreases subv.len() - k,
                    {
                        let ghost before = all@;
                        let sc = clone_change(&sub[k]);
                        proof {
                            assert(sc@ == subv[k as int]);
                        }
                        all.push(sc);
                        proof {
                            lemma_change_views_push(before, sc);
                            assert(change_views(all@) =~= prev + subv.take(k + 1));
                        }
                        k += 1;
                    }
                    proof {
                        assert(subv.take(subv.len() as int) =~= subv);
                    }
                    let ghost before = all@;
                    let cc = clone_change(c);
                    all.push(cc);
                    proof {
                        lemma_change_views_push(before, cc);
                        assert(dir_change(lv[i as int], store@));
                        assert(change_views(all@) =~= prev + subv + seq![lv[i as int]]);
                        assert(compare_list(lv.take(i + 1), store@, subfuel) == Ok::<
                            Seq<ChangeV>,
                            BackupError,
                        >(change_views(all@)));
                    }
                }
            }
        }
        if !recursed {
            let ghost before = all@;
            let cc = clone_change(c);
            all.push(cc);
            proof {
                lemma_change_views_push(before, cc);
                assert(!dir_change(lv[i as int], store@));
                assert(!missing_old_tree(lv[i as int], store@));
                assert(change_views(all@) =~= prev.push(lv[i as int]));
                assert(compare_list(lv.take(i + 1), store@, subfuel) == Ok::<
                    Seq<ChangeV>,
                    BackupError,
                >(change_views(all@)));
            }
        }
        i += 1;
    }
    proof {
        assert(lv.take(lv.len() as int) =~= lv);
    }
    Ok(all)
}

/// Compares two snapshots against the object store.  The result
/// lists every change at every depth, leaves before their enclosing
/// directory record.  `NotFound` reports a modified directory whose
/// old tree is missing from the store; `Corruption` is only possible
/// on a store whose references form a cycle, which content
/// addressing never produces of an intact store.
pub fn compare_trees(old_tree: &Tree, new_tree: &Tree, store: &Store, base: &Vec<u8>) -> (r:
    Result<Vec<Change>, BackupError>)
    requires
        store@.len() < usize::MAX,
    ensures
        match r {
            Ok(cs) => compare_spec(
                old_tree@,
                new_tree@,
                store@,
                base@,
                (store@.len() + 1) as nat,
            ) == Ok::<Seq<ChangeV>, BackupError>(change_views(cs@)),
            Err(e) => {
                &&& (e == BackupError::Corruption || e == BackupError::NotFound)
                &&& compare_spec(
                    old_tree@,
                    new_tree@,
                    store@,
                    base@,
                    (store@.len() + 1) as nat,
                ) == Err::<Seq<ChangeV>, BackupError>(e)
            },
        },
{
    let fuel = store.trees.len() + 1;
    compare_rec(old_tree, new_tree, store, base, fuel)
}


/// A successful expansion never shrinks: every level change yields
/// at least one record.
proof fn lemma_compare_list_min_len(changes: Seq<ChangeV>, store: Seq<TreeV>, fuel: nat)
    ensures
        compare_list(changes, store, fuel) matches Ok(r) ==> r.len() >= changes.len(),
    decreases changes.len(),
{
    if changes.len() != 0 {
        lemma_compare_list_min_len(changes.drop_last(), store, fuel);
    }
}

/// The converse of locality, for trees bound to their content: when
/// the diff of two content-bound trees is empty, their ids already
/// agree — so a no-op re-backup yields an empty change list, and an
/// empty change list only ever comes from an unchanged snapshot.
/// Content-bound means the id is the hash of the canonical listing,
/// as it is for every directory tree the builder persists.  (The
/// degenerate single-entry root of a file target binds its id to the
/// entry instead; between two such roots the same conclusion is
/// immediate, since their single entries coincide.)
pub proof fn lemma_empty_diff_equal_ids(
    old: TreeV,
    new: TreeV,
    store: Seq<TreeV>,
    base: Seq<u8>,
    fuel: nat,
)
    requires
        crate::objects::entries_sorted(old.entries),
        crate::objects::names_unique(old.entries),
        crate::objects::entries_sorted(new.entries),
        crate::objects::names_unique(new.entries),
        old.id == crate::objects::dir_id_of(old.entries),
        new.id == crate::objects::dir_id_of(new.entries),
        compare_spec(old, new, store, base, fuel) == Ok::<Seq<ChangeV>, BackupError>(Seq::empty()),
    ensures
        old.id == new.id,
{
    broadcast use vstd::seq_lib::group_to_multiset_ensures;
    broadcast use vstd::multiset::group_multiset_axioms;

    if old.id != new.id {
        let oe = old.entries;
        let ne = new.entries;
        let lv = level_changes(old, new, base);
        assert(fuel > 0);
        lemma_compare_list_min_len(lv, store, (fuel - 1) as nat);
        assert(lv.len() == 0);
        assert(add_mod_changes(oe, ne, base).len() == 0 && removed_changes(oe, ne, base).len() == 0);
        lemma_add_mod_props(oe, ne, base);
        lemma_removed_props(oe, ne, base);
        // with no records, every new entry already stands in the old
        // listing under its own id, and every old name survives
        assert forall|k: int| 0 <= k < ne.len() implies find_id(oe, (#[trigger] ne[k]).name)
            == Some(ne[k].id) by {
            if find_id(oe, ne[k].name) != Some(ne[k].id) {
                let i = choose|i: int| 0 <= i < add_mod_changes(oe, ne, base).len()
                    && (#[trigger] add_mod_changes(oe, ne, base)[i]).name == ne[k].name;
                assert(false);
            }
        }
        assert forall|k: int| 0 <= k < oe.len() implies find_id(ne, (#[trigger] oe[k]).name) is Some by {
            if find_id(ne, oe[k].name) is None {
                let i = choose|i: int| 0 <= i < removed_changes(oe, ne, base).len()
                    && (#[trigger] removed_changes(oe, ne, base)[i]).name == oe[k].name;
                assert(false);
            }
        }
        // so the two listings hold the same entries
        assert forall|k: int| 0 <= k < ne.len() implies oe.contains(#[trigger] ne[k]) by {
            lemma_find_id_some(oe, ne[k].name);
            let j = choose|j: int| 0 <= j < oe.len() && (#[trigger] oe[j]).name == ne[k].name;
            lemma_find_id_unique(oe, j);
            assert(oe[j].id == ne[k].id);
            assert(oe[j] == ne[k]);
        }
        assert forall|k: int| 0 <= k < oe.len() implies ne.contains(#[trigger] oe[k]) by {
            lemma_find_id_some(ne, oe[k].name);
            let m = choose|m: int| 0 <= m < ne.len() && (#[trigger] ne[m]).name == oe[k].name;
            assert(find_id(oe, ne[m].name) == Some(ne[m].id));
            lemma_find_id_unique(oe, k);
            assert(find_id(oe, oe[k].name) == Some(oe[k].id));
            assert(ne[m].id == oe[k].id);
            assert(ne[m] == oe[k]);
        }
        // same membership and no duplicates on either side give the
        // same multiset, and the canonical id is order-blind
        assert forall|a: int, b: int| 0 <= a < oe.len() && 0 <= b < oe.len() && a != b implies
            oe[a] != oe[b] by {
            if a < b {
                assert(oe[a].name != oe[b].name);
            } else {
                assert(oe[b].name != oe[a].name);
            }
        }
        assert forall|a: int, b: int| 0 <= a < ne.len() && 0 <= b < ne.len() && a != b implies
            ne[a] != ne[b] by {
            if a < b {
                assert(ne[a].name != ne[b].name);
            } else {
                assert(ne[b].name != ne[a].name);
            }
        }
        assert(oe.no_duplicates());
        assert(ne.no_duplicates());
        oe.lemma_multiset_has_no_duplicates();
        ne.lemma_multiset_has_no_duplicates();
        assert forall|x: EntryV| true implies oe.to_multiset().count(x) == ne.to_multiset().count(
            x,
        ) by {
            if oe.contains(x) {
                assert(ne.contains(x)) by {
                    let k = choose|k: int| 0 <= k < oe.len() && oe[k] == x;
                    assert(ne.contains(oe[k]));
                }
            } else if ne.contains(x) {
                assert(oe.contains(x)) by {
                    let k = choose|k: int| 0 <= k < ne.len() && ne[k] == x;
                    assert(oe.contains(ne[k]));
                }
            } else {
                assert(oe.to_multiset().count(x) == 0);
                assert(ne.to_multiset().count(x) == 0);
            }
        }
        assert(oe.to_multiset() =~= ne.to_multiset());
        crate::objects::lemma_dir_id_order_blind(oe, ne);
        assert(false);
    }
}

} // verus!
