//! The content-addressed object model: blobs, trees and commits.
//!
//! A blob id is the hash of the file bytes.  A tree id is the hash of
//! the canonical line `name:id` for each entry, entries sorted by name
//! byte-wise ascending.  A commit id is the hash of the tree id, the
//! parent id (omitted entirely when absent) and the message.
//!
//! Each executable type has a ghost view (`EntryV`, `TreeV`,
//! `CommitV`) over which all contracts are stated.

use vstd::prelude::*;
use vstd::seq_lib::lemma_multiset_commutative;
use vstd::multiset::Multiset;
use crate::bytesutil::{lex_leq, lemma_lex_total, lemma_lex_trans, bytes_leq, push_bytes};
use crate::digest::{id_of, is_hex_id, hash_id};

verus! {

/// A directory entry: the basename of a child and the id of the blob
/// or subtree it refers to.
#[derive(Debug)]
pub struct EntryRef {
    pub name: Vec<u8>,
    pub id: Vec<u8>,
}

/// The mathematical value of an entry.
pub ghost struct EntryV {
    pub name: Seq<u8>,
    pub id: Seq<u8>,
}

impl View for EntryRef {
    type V = EntryV;

    open spec fn view(&self) -> EntryV {
        EntryV { name: self.name@, id: self.id@ }
    }
}

/// The views of a sequence of entries.
pub open spec fn entry_views(s: Seq<EntryRef>) -> Seq<EntryV> {
    s.map_values(|e: EntryRef| e@)
}

/// Appending an entry appends its view.
pub proof fn lemma_entry_views_push(s: Seq<EntryRef>, e: EntryRef)
    ensures
        entry_views(s.push(e)) == entry_views(s).push(e@),
{
    assert forall|j: int| 0 <= j < s.len() + 1 implies entry_views(s.push(e))[j] == entry_views(
        s,
    ).push(e@)[j] by {
        if j < s.len() {
            assert(s.push(e)[j] == s[j]);
        } else {
            assert(s.push(e)[j] == e);
        }
    }
    assert(entry_views(s.push(e)) =~= entry_views(s).push(e@));
}

/// A content-addressed directory listing.
#[derive(Debug)]
pub struct Tree {
    pub id: Vec<u8>,
    pub name: Vec<u8>,
    pub entries: Vec<EntryRef>,
}

/// The mathematical value of a tree.
pub ghost struct TreeV {
    pub id: Seq<u8>,
    pub name: Seq<u8>,
    pub entries: Seq<EntryV>,
}

impl View for Tree {
    type V = TreeV;

    open spec fn view(&self) -> TreeV {
        TreeV { id: self.id@, name: self.name@, entries: entry_views(self.entries@) }
    }
}

/// A content-addressed file payload.  Only the id is kept; the bytes
/// themselves are never held beyond hashing.
#[derive(Debug)]
pub struct Blob {
    pub id: Option<Vec<u8>>,
}

/// An immutable record of one snapshot: the root tree it names, an
/// optional parent commit, and a message.
#[derive(Debug)]
pub struct Commit {
    pub id: Vec<u8>,
    pub tree_id: Vec<u8>,
    pub parent: Option<Vec<u8>>,
    pub message: Vec<u8>,
}

/// The mathematical value of a commit.
pub ghost struct CommitV {
    pub id: Seq<u8>,
    pub tree_id: Seq<u8>,
    pub parent: Option<Seq<u8>>,
    pub message: Seq<u8>,
}

/// The view of an optional byte string.
pub open spec fn opt_bytes(o: Option<Vec<u8>>) -> Option<Seq<u8>> {
    match o {
        Some(v) => Some(v@),
        None => None,
    }
}

impl View for Commit {
    type V = CommitV;

    open spec fn view(&self) -> CommitV {
        CommitV {
            id: self.id@,
            tree_id: self.tree_id@,
            parent: opt_bytes(self.parent),
            message: self.message@,
        }
    }
}

/// Bytes allowed in entry names and commit messages: printable ASCII
/// without the quote, backslash and slash, so that names embed
/// verbatim in the canonical JSON and never hold a path separator.
pub open spec fn wf_name_byte(b: u8) -> bool {
    0x20 <= b && b < 0x7f && b != 0x22 && b != 0x2f && b != 0x5c
}

/// A well-formed basename: non-empty printable ASCII without
/// separators or JSON metacharacters.
pub open spec fn wf_name(s: Seq<u8>) -> bool {
    0 < s.len() && forall|i: int| 0 <= i < s.len() ==> wf_name_byte(#[trigger] s[i])
}

/// A well-formed free-text field (a commit message): may be empty.
pub open spec fn wf_text(s: Seq<u8>) -> bool {
    forall|i: int| 0 <= i < s.len() ==> wf_name_byte(#[trigger] s[i])
}

/// A well-formed entry: valid basename, valid 64-digit hex id.
pub open spec fn wf_entry(e: EntryV) -> bool {
    wf_name(e.name) && is_hex_id(e.id)
}

/// Entries in canonical order: byte-wise ascending by name.
pub open spec fn entries_sorted(s: Seq<EntryV>) -> bool {
    forall|i: int, j: int| 0 <= i < j < s.len() ==> lex_leq(#[trigger] s[i].name, #[trigger] s[j].name)
}

/// No two entries share a name.
pub open spec fn names_unique(s: Seq<EntryV>) -> bool {
    forall|i: int, j: int| 0 <= i < j < s.len() ==> (#[trigger] s[i].name) != (#[trigger] s[j].name)
}

/// A structurally well-formed tree: valid name and id, entries
/// canonically sorted with unique valid names and valid ids.
pub open spec fn wf_tree(t: TreeV) -> bool {
    &&& wf_name(t.name)
    &&& is_hex_id(t.id)
    &&& entries_sorted(t.entries)
    &&& names_unique(t.entries)
    &&& forall|i: int| 0 <= i < t.entries.len() ==> wf_entry(#[trigger] t.entries[i])
}

/// A structurally well-formed commit.
pub open spec fn wf_commit(c: CommitV) -> bool {
    &&& is_hex_id(c.id)
    &&& is_hex_id(c.tree_id)
    &&& (c.parent matches Some(p) ==> is_hex_id(p))
    &&& wf_text(c.message)
}

/// Inserts an entry into a name-sorted sequence, before the first
/// entry whose name is not below the new one.
pub open spec fn insert_sorted(e: EntryV, s: Seq<EntryV>) -> Seq<EntryV>
    decreases s.len(),
{
    if s.len() == 0 {
        seq![e]
    } else if lex_leq(e.name, s[0].name) {
        seq![e] + s
    } else {
        seq![s[0]] + insert_sorted(e, s.drop_first())
    }
}

/// Canonical sorting of entries by name: every entry of the input
/// inserted in turn.
pub open spec fn sort_entries(s: Seq<EntryV>) -> Seq<EntryV>
    decreases s.len(),
{
    if s.len() == 0 {
        Seq::empty()
    } else {
        insert_sorted(s.last(), sort_entries(s.drop_last()))
    }
}

/// The canonical hash line of one entry: `name`, a colon, `id`.
pub open spec fn entry_line(e: EntryV) -> Seq<u8> {
    e.name + seq![0x3au8] + e.id
}

/// The hash preimage of a listing: the concatenated entry lines, in
/// the order given.
pub open spec fn entries_preimage(s: Seq<EntryV>) -> Seq<u8>
    decreases s.len(),
{
    if s.len() == 0 {
        Seq::empty()
    } else {
        entries_preimage(s.drop_last()) + entry_line(s.last())
    }
}

/// The id of a directory listing: hash of the canonically sorted
/// entry lines.
pub open spec fn dir_id_of(entries: Seq<EntryV>) -> Seq<u8> {
    id_of(entries_preimage(sort_entries(entries)))
}

/// A tree whose stored id is determined by its own entries: the
/// hash of the canonical listing — or, for the degenerate
/// single-entry root a file target snapshots to, the single entry's
/// own id.  Every tree the snapshot builder persists is of one of
/// these two forms.
pub open spec fn tree_content_bound(t: TreeV) -> bool {
    t.id == dir_id_of(t.entries) || (t.entries.len() == 1 && t.id == t.entries[0].id)
}

/// The hash preimage of a commit: tree id, then the parent id or
/// nothing at all, then the message.
pub open spec fn commit_preimage(tree_id: Seq<u8>, parent: Option<Seq<u8>>, message: Seq<u8>) -> Seq<u8> {
    tree_id + (match parent {
        Some(p) => p,
        None => Seq::empty(),
    }) + message
}

/// The id of a commit.
pub open spec fn commit_id_of(tree_id: Seq<u8>, parent: Option<Seq<u8>>, message: Seq<u8>) -> Seq<u8> {
    id_of(commit_preimage(tree_id, parent, message))
}

proof fn lemma_insert_sorted_multiset(e: EntryV, s: Seq<EntryV>)
    ensures
        insert_sorted(e, s).to_multiset() == s.to_multiset().insert(e),
        insert_sorted(e, s).len() == s.len() + 1,
    decreases s.len(),
{
    broadcast use vstd::seq_lib::group_to_multiset_ensures;

    if s.len() == 0 {
        assert(insert_sorted(e, s) =~= seq![e]);
        assert(seq![e].to_multiset() =~= s.to_multiset().insert(e)) by {
            assert(seq![e] =~= Seq::empty().push(e));
            assert(s =~= Seq::<EntryV>::empty());
        }
    } else if lex_leq(e.name, s[0].name) {
        assert(insert_sorted(e, s) =~= seq![e] + s);
        lemma_multiset_commutative(seq![e], s);
        assert(seq![e].to_multiset() =~= Multiset::empty().insert(e)) by {
            assert(seq![e] =~= Seq::empty().push(e));
        }
        assert((seq![e] + s).to_multiset() =~= s.to_multiset().insert(e));
    } else {
        lemma_insert_sorted_multiset(e, s.drop_first());
        assert(insert_sorted(e, s) =~= seq![s[0]] + insert_sorted(e, s.drop_first()));
        lemma_multiset_commutative(seq![s[0]], insert_sorted(e, s.drop_first()));
        lemma_multiset_commutative(seq![s[0]], s.drop_first());
        assert(s =~= seq![s[0]] + s.drop_first());
        assert(seq![s[0]].to_multiset() =~= Multiset::empty().insert(s[0])) by {
            assert(seq![s[0]] =~= Seq::empty().push(s[0]));
        }
        assert(insert_sorted(e, s).to_multiset() =~= s.to_multiset().insert(e));
    }
}

proof fn lemma_insert_sorted_sorted(e: EntryV, s: Seq<EntryV>)
    requires
        entries_sorted(s),
    ensures
        entries_sorted(insert_sorted(e, s)),
    decreases s.len(),
{
    let r = insert_sorted(e, s);
    if s.len() == 0 {
    } else if lex_leq(e.name, s[0].name) {
        assert forall|i: int, j: int| 0 <= i < j < r.len() implies lex_leq(r[i].name, r[j].name) by {
            if i == 0 {
                if j == 1 {
                } else {
                    lemma_lex_trans(e.name, s[0].name, s[j - 1].name);
                }
            }
        }
    } else {
        lemma_insert_sorted_sorted(e, s.drop_first());
        let rr = insert_sorted(e, s.drop_first());
        lemma_lex_total(e.name, s[0].name);
        // every entry of rr is either e or an entry of s.drop_first();
        // either way s[0] is below it.
        lemma_insert_sorted_multiset(e, s.drop_first());
        broadcast use vstd::seq_lib::group_to_multiset_ensures;
        assert forall|i: int, j: int| 0 <= i < j < r.len() implies lex_leq(r[i].name, r[j].name) by {
            if i == 0 {
                let x = rr[j - 1];
                assert(rr.contains(x));
                assert(rr.to_multiset().count(x) > 0);
                if x == e {
                    assert(lex_leq(s[0].name, x.name));
                } else {
                    assert(s.drop_first().to_multiset().count(x) > 0);
                    assert(s.drop_first().contains(x));
                    let k = choose|k: int| 0 <= k < s.drop_first().len() && s.drop_first()[k] == x;
                    assert(s[k + 1] == x);
                    assert(lex_leq(s[0].name, x.name));
                }
            }
        }
    }
}

proof fn lemma_sort_entries_multiset(s: Seq<EntryV>)
    ensures
        sort_entries(s).to_multiset() == s.to_multiset(),
    decreases s.len(),
{
    broadcast use vstd::seq_lib::group_to_multiset_ensures;

    if s.len() == 0 {
        assert(sort_entries(s) =~= Seq::<EntryV>::empty());
        assert(s =~= Seq::<EntryV>::empty());
    } else {
        lemma_sort_entries_multiset(s.drop_last());
        lemma_insert_sorted_multiset(s.last(), sort_entries(s.drop_last()));
        assert(s =~= s.drop_last().push(s.last()));
        assert(s.drop_last().push(s.last()).to_multiset() =~= s.drop_last().to_multiset().insert(s.last()));
    }
}

/// Sorting produces a canonically ordered permutation of the input.
pub proof fn lemma_sort_entries_ensures(s: Seq<EntryV>)
    ensures
        entries_sorted(sort_entries(s)),
        sort_entries(s).to_multiset() == s.to_multiset(),
        sort_entries(s).len() == s.len(),
    decreases s.len(),
{
    broadcast use vstd::seq_lib::group_to_multiset_ensures;

    lemma_sort_entries_multiset(s);
    if s.len() == 0 {
    } else {
        lemma_sort_entries_ensures(s.drop_last());
        lemma_insert_sorted_sorted(s.last(), sort_entries(s.drop_last()));
        lemma_insert_sorted_multiset(s.last(), sort_entries(s.drop_last()));
    }
}

/// Sorting entries with pairwise distinct names keeps the names
/// pairwise distinct.
pub proof fn lemma_sort_entries_unique(s: Seq<EntryV>)
    requires
        names_unique(s),
    ensures
        names_unique(sort_entries(s)),
{
    broadcast use vstd::seq_lib::group_to_multiset_ensures;

    let r = sort_entries(s);
    lemma_sort_entries_ensures(s);
    assert forall|i: int, j: int| 0 <= i < s.len() && 0 <= j < s.len() && i != j implies s[i] != s[j] by {
        if i < j {
            assert(s[i].name != s[j].name);
        } else {
            assert(s[j].name != s[i].name);
        }
    }
    assert(s.no_duplicates());
    s.lemma_multiset_has_no_duplicates();
    r.lemma_multiset_has_no_duplicates_conv();
    assert forall|i: int, j: int| 0 <= i < j < r.len() implies (#[trigger] r[i].name) != (#[trigger] r[j].name) by {
        if r[i].name == r[j].name {
            if r[i] == r[j] {
                // r has no duplicate values, so the entries differ
                assert(false);
            } else {
                // two distinct entry values of r both occur in s
                assert(r.contains(r[i]));
                assert(r.contains(r[j]));
                assert(s.to_multiset().count(r[i]) > 0);
                assert(s.to_multiset().count(r[j]) > 0);
                assert(s.contains(r[i]));
                assert(s.contains(r[j]));
                let p = choose|p: int| 0 <= p < s.len() && s[p] == r[i];
                let q = choose|q: int| 0 <= q < s.len() && s[q] == r[j];
                assert(p != q);
                assert(s[p].name == s[q].name);
                assert(false);
            }
        }
    }
}

/// Every entry of the sorted listing is an entry of the input.
pub proof fn lemma_sort_entries_contains(s: Seq<EntryV>)
    ensures
        forall|x: EntryV| sort_entries(s).contains(x) <==> s.contains(x),
{
    broadcast use vstd::seq_lib::group_to_multiset_ensures;

    lemma_sort_entries_ensures(s);
    assert forall|x: EntryV| sort_entries(s).contains(x) <==> s.contains(x) by {
        assert(sort_entries(s).contains(x) <==> sort_entries(s).to_multiset().count(x) > 0);
        assert(s.contains(x) <==> s.to_multiset().count(x) > 0);
    }
}

/// Pairwise distinct names survive any reordering.
proof fn lemma_names_unique_multiset(e1: Seq<EntryV>, e2: Seq<EntryV>)
    requires
        names_unique(e1),
        e1.to_multiset() == e2.to_multiset(),
    ensures
        names_unique(e2),
{
    broadcast use vstd::seq_lib::group_to_multiset_ensures;

    assert forall|i: int, j: int| 0 <= i < e1.len() && 0 <= j < e1.len() && i != j implies e1[i] != e1[j] by {
        if i < j {
            assert(e1[i].name != e1[j].name);
        } else {
            assert(e1[j].name != e1[i].name);
        }
    }
    assert(e1.no_duplicates());
    e1.lemma_multiset_has_no_duplicates();
    e2.lemma_multiset_has_no_duplicates_conv();
    assert forall|i: int, j: int| 0 <= i < j < e2.len() implies (#[trigger] e2[i].name) != (#[trigger] e2[j].name) by {
        if e2[i].name == e2[j].name {
            if e2[i] == e2[j] {
                assert(false);
            } else {
                assert(e2.contains(e2[i]));
                assert(e2.contains(e2[j]));
                assert(e1.to_multiset().count(e2[i]) > 0);
                assert(e1.to_multiset().count(e2[j]) > 0);
                assert(e1.contains(e2[i]));
                assert(e1.contains(e2[j]));
                let p = choose|p: int| 0 <= p < e1.len() && e1[p] == e2[i];
                let q = choose|q: int| 0 <= q < e1.len() && e1[q] == e2[j];
                assert(p != q);
                assert(e1[p].name == e1[q].name);
                assert(false);
            }
        }
    }
}

/// Two canonically sorted listings with pairwise distinct names and
/// the same entries are one listing.
proof fn lemma_sorted_unique_names(x: Seq<EntryV>, y: Seq<EntryV>)
    requires
        entries_sorted(x),
        entries_sorted(y),
        names_unique(x),
        names_unique(y),
        x.to_multiset() == y.to_multiset(),
    ensures
        x == y,
    decreases x.len(),
{
    broadcast use vstd::seq_lib::group_to_multiset_ensures;
    broadcast use vstd::multiset::group_multiset_axioms;

    if x.len() == 0 {
        assert(y.to_multiset().len() == 0);
        assert(x =~= y);
    } else if y.len() == 0 {
        assert(x.to_multiset().len() == 0);
        assert(false);
    } else {
        // each head is below the other's, so the heads carry the
        // same name, and unique names make them the same entry
        assert(x.to_multiset().contains(x[0]));
        assert(y.to_multiset().contains(x[0]));
        assert(y.contains(x[0]));
        let j = choose|j: int| 0 <= j < y.len() && y[j] == x[0];
        assert(j == 0 || lex_leq(y[0].name, y[j].name));
        assert(x.to_multiset().contains(y[0]));
        assert(x.contains(y[0]));
        let i = choose|i: int| 0 <= i < x.len() && x[i] == y[0];
        assert(i == 0 || lex_leq(x[0].name, x[i].name));
        crate::bytesutil::lemma_lex_total(x[0].name, y[0].name);
        if x[0].name != y[0].name {
            if j == 0 {
                assert(false);
            } else if i == 0 {
                assert(false);
            } else {
                crate::bytesutil::lemma_lex_antisym(x[0].name, y[0].name);
                assert(false);
            }
        }
        if x[0] != y[0] {
            // y[0] stands in x at some position with x[0]'s name
            assert(x[i].name == x[0].name);
            assert(i != 0);
            assert(x[0].name != x[i].name);
            assert(false);
        }
        assert(x.drop_first() =~= x.remove(0));
        assert(x.remove(0).to_multiset() =~= x.to_multiset().remove(x[0]));
        assert(y.drop_first() =~= y.remove(0));
        assert(y.remove(0).to_multiset() =~= y.to_multiset().remove(y[0]));
        assert(x.drop_first().to_multiset() == y.drop_first().to_multiset());
        assert(forall|a: int, b: int| 0 <= a < b < x.drop_first().len() ==> lex_leq(
            (#[trigger] x.drop_first()[a]).name,
            (#[trigger] x.drop_first()[b]).name,
        )) by {
            assert(forall|a: int| 0 <= a < x.drop_first().len() ==> #[trigger] x.drop_first()[a] == x[a + 1]);
        }
        assert(forall|a: int, b: int| 0 <= a < b < y.drop_first().len() ==> lex_leq(
            (#[trigger] y.drop_first()[a]).name,
            (#[trigger] y.drop_first()[b]).name,
        )) by {
            assert(forall|a: int| 0 <= a < y.drop_first().len() ==> #[trigger] y.drop_first()[a] == y[a + 1]);
        }
        assert(forall|a: int, b: int| 0 <= a < b < x.drop_first().len() ==> (
            #[trigger] x.drop_first()[a]).name != (#[trigger] x.drop_first()[b]).name) by {
            assert(forall|a: int| 0 <= a < x.drop_first().len() ==> #[trigger] x.drop_first()[a] == x[a + 1]);
        }
        assert(forall|a: int, b: int| 0 <= a < b < y.drop_first().len() ==> (
            #[trigger] y.drop_first()[a]).name != (#[trigger] y.drop_first()[b]).name) by {
            assert(forall|a: int| 0 <= a < y.drop_first().len() ==> #[trigger] y.drop_first()[a] == y[a + 1]);
        }
        lemma_sorted_unique_names(x.drop_first(), y.drop_first());
        assert(x =~= seq![x[0]] + x.drop_first());
        assert(y =~= seq![y[0]] + y.drop_first());
        assert(x =~= y);
    }
}

/// Content addressing is blind to collection order: listings that
/// hold the same entries under pairwise distinct names — in whatever
/// order a directory walk delivered them — carry one canonical id.
pub proof fn lemma_dir_id_order_blind(e1: Seq<EntryV>, e2: Seq<EntryV>)
    requires
        names_unique(e1),
        e1.to_multiset() == e2.to_multiset(),
    ensures
        dir_id_of(e1) == dir_id_of(e2),
{
    lemma_names_unique_multiset(e1, e2);
    lemma_sort_entries_ensures(e1);
    lemma_sort_entries_ensures(e2);
    lemma_sort_entries_unique(e1);
    lemma_sort_entries_unique(e2);
    lemma_sorted_unique_names(sort_entries(e1), sort_entries(e2));
}

proof fn lemma_insert_sorted_at(e: EntryV, s: Seq<EntryV>, pos: int)
    requires
        0 <= pos <= s.len(),
        forall|j: int| 0 <= j < pos ==> !lex_leq(e.name, #[trigger] s[j].name),
        pos < s.len() ==> lex_leq(e.name, s[pos as int].name),
    ensures
        insert_sorted(e, s) == s.take(pos) + seq![e] + s.skip(pos),
    decreases pos,
{
    if pos == 0 {
        if s.len() == 0 {
            assert(insert_sorted(e, s) =~= s.take(0) + seq![e] + s.skip(0));
        } else {
            assert(insert_sorted(e, s) =~= s.take(0) + seq![e] + s.skip(0));
        }
    } else {
        lemma_insert_sorted_at(e, s.drop_first(), pos - 1);
        assert(insert_sorted(e, s) == seq![s[0]] + insert_sorted(e, s.drop_first()));
        assert(s.drop_first().take(pos - 1) =~= s.take(pos).drop_first());
        assert(s.drop_first().skip(pos - 1) =~= s.skip(pos));
        assert(seq![s[0]] + (s.drop_first().take(pos - 1) + seq![e] + s.drop_first().skip(pos - 1))
            =~= s.take(pos) + seq![e] + s.skip(pos));
    }
}

/// Inserts an entry into a vector at its canonical position.
fn insert_entry(out: &mut Vec<EntryRef>, e: EntryRef)
    ensures
        entry_views(final(out)@) == insert_sorted(e@, entry_views(old(out)@)),
{
    let ghost vs = entry_views(out@);
    let mut pos: usize = 0;
    loop
        invariant
            pos <= out@.len(),
            out@ == old(out)@,
            vs == entry_views(out@),
            forall|j: int| 0 <= j < pos ==> !lex_leq(e@.name, #[trigger] vs[j].name),
        ensures
            pos <= out@.len(),
            out@ == old(out)@,
            forall|j: int| 0 <= j < pos ==> !lex_leq(e@.name, #[trigger] vs[j].name),
            pos < out@.len() ==> lex_leq(e@.name, vs[pos as int].name),
        decreases out@.len() - pos,
    {
        if pos >= out.len() {
            break;
        }
        if bytes_leq(&e.name, &out[pos].name) {
            proof {
                assert(vs[pos as int] == out@[pos as int]@);
            }
            break;
        }
        proof {
            assert(vs[pos as int] == out@[pos as int]@);
        }
        pos += 1;
    }
    proof {
        lemma_insert_sorted_at(e@, vs, pos as int);
    }
    out.insert(pos, e);
    proof {
        assert(entry_views(old(out)@.insert(pos as int, e))
            =~= vs.take(pos as int) + seq![e@] + vs.skip(pos as int));
    }
}

/// Sorts entries into canonical order, name byte-wise ascending.
pub fn sort_entries_vec(entries: Vec<EntryRef>) -> (r: Vec<EntryRef>)
    ensures
        entry_views(r@) == sort_entries(entry_views(entries@)),
{
    let ghost s = entry_views(entries@);
    let mut rest = entries;
    let n: usize = rest.len();
    proof {
        assert(s.len() == n as int);
    }
    let mut out: Vec<EntryRef> = Vec::new();
    let mut i: usize = 0;
    while rest.len() > 0
        invariant
            i <= s.len(),
            s.len() <= usize::MAX,
            entry_views(rest@) =~= s.skip(i as int),
            entry_views(out@) == sort_entries(s.take(i as int)),
        decreases rest@.len(),
    {
        proof {
            assert(rest@.len() == entry_views(rest@).len());
        }
        let ghost prev = rest@;
        let e = rest.remove(0);
        proof {
            assert(e == prev[0]);
            assert(entry_views(prev)[0] == prev[0]@);
            assert(e@ == s.skip(i as int)[0]);
            assert(e@ == s[i as int]);
            assert forall|j: int| 0 <= j < rest@.len() implies entry_views(rest@)[j] == s.skip(
                i + 1,
            )[j] by {
                assert(rest@[j] == prev[j + 1]);
                assert(entry_views(prev)[j + 1] == prev[j + 1]@);
                assert(entry_views(prev)[j + 1] == s.skip(i as int)[j + 1]);
                assert(s.skip(i as int)[j + 1] == s[i + 1 + j]);
                assert(s.skip(i + 1)[j] == s[i + 1 + j]);
            }
            assert(entry_views(rest@) =~= s.skip(i + 1));
        }
        insert_entry(&mut out, e);
        proof {
            assert(s.take(i + 1 as int).drop_last() =~= s.take(i as int));
            assert(s.take(i + 1 as int).last() == s[i as int]);
        }
        i += 1;
    }
    proof {
        assert(entry_views(rest@).len() == 0);
        assert(i == s.len());
        assert(s.take(s.len() as int) =~= s);
    }
    out
}

impl Blob {
    /// Builds a blob from file bytes; its id is the hash of the bytes.
    pub fn new(file_content: &Vec<u8>) -> (r: Blob)
        ensures
            r.id matches Some(i) && i@ == id_of(file_content@) && is_hex_id(i@),
    {
        Blob { id: Blob::calc_id(file_content) }
    }

    /// The content hash of file bytes, as a hex id.
    pub fn calc_id(file_content: &Vec<u8>) -> (r: Option<Vec<u8>>)
        ensures
            r matches Some(i) && i@ == id_of(file_content@) && is_hex_id(i@),
    {
        Some(hash_id(file_content))
    }
}

impl Tree {
    /// The id of a directory listing: entries are sorted by name and
    /// the lines `name:id` are hashed in that order.
    pub fn calc_dir_id(entries: Vec<EntryRef>) -> (r: Vec<u8>)
        ensures
            r@ == dir_id_of(entry_views(entries@)),
            is_hex_id(r@),
    {
        let ghost orig = entry_views(entries@);
        let sorted = sort_entries_vec(entries);
        let mut buf: Vec<u8> = Vec::new();
        let ghost sv = entry_views(sorted@);
        let mut i: usize = 0;
        while i < sorted.len()
            invariant
                i <= sorted@.len(),
                sv == entry_views(sorted@),
                sv == sort_entries(orig),
                buf@ == entries_preimage(sv.take(i as int)),
            decreases sorted@.len() - i,
        {
            push_bytes(&mut buf, &sorted[i].name);
            buf.push(0x3a);
            push_bytes(&mut buf, &sorted[i].id);
            proof {
                assert(sv[i as int] == sorted@[i as int]@);
                assert(sv.take(i + 1 as int).drop_last() =~= sv.take(i as int));
                assert(sv.take(i + 1 as int).last() == sv[i as int]);
                assert(buf@ =~= entries_preimage(sv.take(i as int)) + entry_line(sv[i as int]));
            }
            i += 1;
        }
        proof {
            assert(sv.take(sv.len() as int) =~= sv);
        }
        hash_id(&buf)
    }
}

impl Commit {
    /// Builds a commit over a tree id, an optional parent id and a
    /// message; the commit id hashes the three fields with the parent
    /// bytes omitted entirely when absent.
    pub fn new(tree_id: Vec<u8>, parent: Option<Vec<u8>>, message: Vec<u8>) -> (r: Commit)
        ensures
            r@.tree_id == tree_id@,
            r@.message == message@,
            r@.parent == opt_bytes(parent),
            r@.id == commit_id_of(tree_id@, opt_bytes(parent), message@),
            is_hex_id(r@.id),
    {
        let mut buf: Vec<u8> = Vec::new();
        push_bytes(&mut buf, &tree_id);
        match &parent {
            Some(p) => {
                push_bytes(&mut buf, p);
            },
            None => {},
        }
        push_bytes(&mut buf, &message);
        proof {
            assert(buf@ =~= commit_preimage(tree_id@, opt_bytes(parent), message@));
        }
        let id = hash_id(&buf);
        Commit { id, tree_id, parent, message }
    }
}

} // verus!
