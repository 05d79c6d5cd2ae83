//! Canonical JSON serialization of trees and commits, and its strict
//! parser.
//!
//! One byte form per value: objects without whitespace, fields in a
//! fixed order, entries in canonical sort order, ids always 64 hex
//! digits, names and messages embedded verbatim (their bytes exclude
//! the quote and the backslash, so no escaping arises).  The parser
//! accepts exactly this form and hands back the encoded value, which
//! makes serialize–parse–serialize a fixed point.

use vstd::prelude::*;
use crate::BackupError;
use crate::bytesutil::{clone_bytes, push_bytes, bytes_leq, bytes_eq, lemma_lex_antisym, lemma_lex_trans};
use crate::digest::{is_hex_id, is_hex_byte, check_hex_id};
use crate::objects::{
    EntryRef, EntryV, Tree, TreeV, Commit, CommitV, entry_views, wf_name, wf_text, wf_name_byte,
    wf_entry, wf_tree, wf_commit, entries_sorted, names_unique, opt_bytes,
};

verus! {

/// `{"id":"`
pub open spec fn tree_prefix() -> Seq<u8> {
    seq![0x7bu8, 0x22u8, 0x69u8, 0x64u8, 0x22u8, 0x3au8, 0x22u8]
}

/// `","name":"`
pub open spec fn name_key() -> Seq<u8> {
    seq![0x22u8, 0x2cu8, 0x22u8, 0x6eu8, 0x61u8, 0x6du8, 0x65u8, 0x22u8, 0x3au8, 0x22u8]
}

/// `","entries":[`
pub open spec fn entries_key() -> Seq<u8> {
    seq![
        0x22u8, 0x2cu8, 0x22u8, 0x65u8, 0x6eu8, 0x74u8, 0x72u8, 0x69u8, 0x65u8, 0x73u8, 0x22u8,
        0x3au8, 0x5bu8,
    ]
}

/// `{"name":"`
pub open spec fn entry_prefix() -> Seq<u8> {
    seq![0x7bu8, 0x22u8, 0x6eu8, 0x61u8, 0x6du8, 0x65u8, 0x22u8, 0x3au8, 0x22u8]
}

/// `","id":"`
pub open spec fn id_key() -> Seq<u8> {
    seq![0x22u8, 0x2cu8, 0x22u8, 0x69u8, 0x64u8, 0x22u8, 0x3au8, 0x22u8]
}

/// `"}`
pub open spec fn entry_suffix() -> Seq<u8> {
    seq![0x22u8, 0x7du8]
}

/// `]}`
pub open spec fn tree_suffix() -> Seq<u8> {
    seq![0x5du8, 0x7du8]
}

/// `","tree_id":"`
pub open spec fn tree_id_key() -> Seq<u8> {
    seq![
        0x22u8, 0x2cu8, 0x22u8, 0x74u8, 0x72u8, 0x65u8, 0x65u8, 0x5fu8, 0x69u8, 0x64u8, 0x22u8,
        0x3au8, 0x22u8,
    ]
}

/// `","parent":`
pub open spec fn parent_key() -> Seq<u8> {
    seq![0x22u8, 0x2cu8, 0x22u8, 0x70u8, 0x61u8, 0x72u8, 0x65u8, 0x6eu8, 0x74u8, 0x22u8, 0x3au8]
}

/// `,"message":"`
pub open spec fn message_key() -> Seq<u8> {
    seq![
        0x2cu8, 0x22u8, 0x6du8, 0x65u8, 0x73u8, 0x73u8, 0x61u8, 0x67u8, 0x65u8, 0x22u8, 0x3au8,
        0x22u8,
    ]
}

/// `null`
pub open spec fn null_lit() -> Seq<u8> {
    seq![0x6eu8, 0x75u8, 0x6cu8, 0x6cu8]
}

/// The canonical JSON of one entry.
pub open spec fn entry_json(e: EntryV) -> Seq<u8> {
    entry_prefix() + e.name + id_key() + e.id + entry_suffix()
}

/// The canonical JSON of a listing: entries in the order given,
/// separated by commas.
pub open spec fn entries_json(s: Seq<EntryV>) -> Seq<u8>
    decreases s.len(),
{
    if s.len() == 0 {
        Seq::empty()
    } else if s.len() == 1 {
        entry_json(s[0])
    } else {
        entries_json(s.drop_last()) + seq![0x2cu8] + entry_json(s.last())
    }
}

/// The canonical JSON of a tree.
pub open spec fn tree_json(t: TreeV) -> Seq<u8> {
    tree_prefix() + t.id + name_key() + t.name + entries_key() + entries_json(t.entries)
        + tree_suffix()
}

/// The canonical JSON of a parent field: the quoted id, or `null`.
pub open spec fn parent_json(p: Option<Seq<u8>>) -> Seq<u8> {
    match p {
        Some(id) => seq![0x22u8] + id + seq![0x22u8],
        None => null_lit(),
    }
}

/// The canonical JSON of a commit.
pub open spec fn commit_json(c: CommitV) -> Seq<u8> {
    tree_prefix() + c.id + tree_id_key() + c.tree_id + parent_key() + parent_json(c.parent)
        + message_key() + c.message + entry_suffix()
}

/// The remainder of `s` after a literal prefix, if it starts so.
pub open spec fn strip_lit(s: Seq<u8>, p: Seq<u8>) -> Option<Seq<u8>> {
    if p.is_prefix_of(s) {
        Some(s.skip(p.len() as int))
    } else {
        None
    }
}

/// Splits a byte string at its first quote: the bytes before it and
/// the bytes after it.
pub open spec fn split_at_quote(s: Seq<u8>) -> Option<(Seq<u8>, Seq<u8>)>
    decreases s.len(),
{
    if s.len() == 0 {
        None
    } else if s[0] == 0x22 {
        Some((Seq::empty(), s.drop_first()))
    } else {
        match split_at_quote(s.drop_first()) {
            None => None,
            Some(p) => Some((seq![s[0]] + p.0, p.1)),
        }
    }
}

/// What a successful split promises: the string is content, quote,
/// remainder, with no quote in the content.
pub proof fn lemma_split_at_quote(s: Seq<u8>)
    ensures
        match split_at_quote(s) {
            Some(p) => {
                &&& s == p.0 + seq![0x22u8] + p.1
                &&& p.1.len() < s.len()
                &&& forall|i: int| 0 <= i < p.0.len() ==> (#[trigger] p.0[i]) != 0x22
            },
            None => forall|i: int| 0 <= i < s.len() ==> (#[trigger] s[i]) != 0x22,
        },
    decreases s.len(),
{
    if s.len() == 0 {
    } else if s[0] == 0x22 {
        let p = split_at_quote(s)->0;
        assert(s =~= p.0 + seq![0x22u8] + p.1);
    } else {
        lemma_split_at_quote(s.drop_first());
        match split_at_quote(s.drop_first()) {
            None => {
                assert forall|i: int| 0 <= i < s.len() implies (#[trigger] s[i]) != 0x22 by {
                    if i > 0 {
                        assert(s.drop_first()[i - 1] == s[i]);
                    }
                }
            },
            Some(q) => {
                let p = split_at_quote(s)->0;
                assert(s.drop_first() == q.0 + seq![0x22u8] + q.1);
                assert(s =~= seq![s[0]] + s.drop_first());
                assert(s =~= p.0 + seq![0x22u8] + p.1);
                assert forall|i: int| 0 <= i < p.0.len() implies (#[trigger] p.0[i]) != 0x22 by {
                    if i > 0 {
                        assert(p.0[i] == q.0[i - 1]);
                    }
                }
            },
        }
    }
}

/// Splitting at a known first quote position.
pub proof fn lemma_split_at_quote_at(t: Seq<u8>, k: int)
    requires
        0 <= k < t.len(),
        t[k] == 0x22,
        forall|j: int| 0 <= j < k ==> (#[trigger] t[j]) != 0x22,
    ensures
        split_at_quote(t) == Some((t.take(k), t.skip(k + 1))),
    decreases k,
{
    if k == 0 {
        assert(t.take(0) =~= Seq::<u8>::empty());
        assert(t.skip(1) =~= t.drop_first());
    } else {
        assert(t[0] != 0x22);
        assert(t.drop_first()[k - 1] == t[k]);
        assert(forall|j: int| 0 <= j < k - 1 ==> (#[trigger] t.drop_first()[j]) != 0x22) by {
            assert(forall|j: int| 0 <= j < k - 1 ==> t.drop_first()[j] == t[j + 1]);
        }
        lemma_split_at_quote_at(t.drop_first(), k - 1);
        assert(seq![t[0]] + t.drop_first().take(k - 1) =~= t.take(k));
        assert(t.drop_first().skip(k) =~= t.skip(k + 1));
    }
}

/// No quote anywhere means no split.
pub proof fn lemma_split_at_quote_none(t: Seq<u8>)
    requires
        forall|j: int| 0 <= j < t.len() ==> (#[trigger] t[j]) != 0x22,
    ensures
        split_at_quote(t) is None,
    decreases t.len(),
{
    if t.len() != 0 {
        assert(forall|j: int| 0 <= j < t.drop_first().len() ==> (#[trigger] t.drop_first()[j]) != 0x22) by {
            assert(forall|j: int| 0 <= j < t.drop_first().len() ==> t.drop_first()[j] == t[j + 1]);
        }
        lemma_split_at_quote_none(t.drop_first());
    }
}

/// Parses one entry object and returns it with the remainder.
pub open spec fn parse_entry_spec(s: Seq<u8>) -> Option<(EntryV, Seq<u8>)> {
    match strip_lit(s, entry_prefix()) {
        None => None,
        Some(r0) => match split_at_quote(r0) {
            None => None,
            Some((name, r1)) => if !wf_name(name) {
                None
            } else {
                match strip_lit(r1, id_key().drop_first()) {
                    None => None,
                    Some(r2) => if r2.len() < 66 {
                        None
                    } else {
                        let id = r2.take(64);
                        if !is_hex_id(id) {
                            None
                        } else if r2[64] != 0x22 || r2[65] != 0x7d {
                            None
                        } else {
                            Some((EntryV { name, id }, r2.skip(66)))
                        }
                    },
                }
            },
        },
    }
}

/// A parsed entry consumes at least one byte.
pub proof fn lemma_parse_entry_shrinks(s: Seq<u8>)
    ensures
        parse_entry_spec(s) matches Some(p) ==> p.1.len() < s.len(),
{
    match strip_lit(s, entry_prefix()) {
        None => {},
        Some(r0) => {
            lemma_split_at_quote(r0);
        },
    }
}

/// Parses one or more entries separated by commas, up to and past
/// the closing bracket.
pub open spec fn parse_entries_spec(s: Seq<u8>) -> Option<(Seq<EntryV>, Seq<u8>)>
    decreases s.len(),
    via parse_entries_spec_dec
{
    match parse_entry_spec(s) {
        None => None,
        Some((e, r)) => if r.len() >= 1 && r[0] == 0x2c {
            match parse_entries_spec(r.skip(1)) {
                None => None,
                Some((es, rr)) => Some((seq![e] + es, rr)),
            }
        } else if r.len() >= 1 && r[0] == 0x5d {
            Some((seq![e], r.skip(1)))
        } else {
            None
        },
    }
}

#[via_fn]
proof fn parse_entries_spec_dec(s: Seq<u8>) {
    lemma_parse_entry_shrinks(s);
}

/// Every entry a successful parse yields is well-formed.
pub proof fn lemma_parse_entries_wf(s: Seq<u8>)
    ensures
        parse_entries_spec(s) matches Some(p) ==> forall|k: int| 0 <= k < p.0.len()
            ==> wf_entry(#[trigger] p.0[k]),
    decreases s.len(),
{
    match parse_entry_spec(s) {
        None => {},
        Some((e, r)) => {
            lemma_parse_entry_shrinks(s);
            if r.len() >= 1 && r[0] == 0x2c {
                lemma_parse_entries_wf(r.skip(1));
                match parse_entries_spec(r.skip(1)) {
                    None => {},
                    Some((es, _)) => {
                        assert forall|k: int| 0 <= k < es.len() + 1 implies wf_entry(
                            #[trigger] (seq![e] + es)[k],
                        ) by {
                            if k > 0 {
                                assert((seq![e] + es)[k] == es[k - 1]);
                            }
                        }
                    },
                }
            }
        },
    }
}

/// Parses the canonical JSON of a tree: `None` unless the whole
/// string is exactly one canonical tree object with well-formed
/// fields and canonically ordered entries.
pub open spec fn parse_tree_spec(s: Seq<u8>) -> Option<TreeV> {
    match strip_lit(s, tree_prefix()) {
        None => None,
        Some(r0) => if r0.len() < 64 || !is_hex_id(r0.take(64)) {
            None
        } else {
            let id = r0.take(64);
            match strip_lit(r0.skip(64), name_key()) {
                None => None,
                Some(r1) => match split_at_quote(r1) {
                    None => None,
                    Some((name, r2)) => if !wf_name(name) {
                        None
                    } else {
                        match strip_lit(seq![0x22u8] + r2, entries_key()) {
                            None => None,
                            Some(r3) => if r3.len() == 2 && r3[0] == 0x5d && r3[1] == 0x7d {
                                Some(TreeV { id, name, entries: Seq::empty() })
                            } else {
                                match parse_entries_spec(r3) {
                                    None => None,
                                    Some((es, r4)) => if entries_sorted(es) && names_unique(es)
                                        && r4.len() == 1 && r4[0] == 0x7d {
                                        Some(TreeV { id, name, entries: es })
                                    } else {
                                        None
                                    },
                                }
                            },
                        }
                    },
                },
            }
        },
    }
}

/// Parses the canonical JSON of a commit.
pub open spec fn parse_commit_spec(s: Seq<u8>) -> Option<CommitV> {
    match strip_lit(s, tree_prefix()) {
        None => None,
        Some(r0) => if r0.len() < 64 || !is_hex_id(r0.take(64)) {
            None
        } else {
            let id = r0.take(64);
            match strip_lit(r0.skip(64), tree_id_key()) {
                None => None,
                Some(r1) => if r1.len() < 64 || !is_hex_id(r1.take(64)) {
                    None
                } else {
                    let tree_id = r1.take(64);
                    match strip_lit(r1.skip(64), parent_key()) {
                        None => None,
                        Some(r2) => parse_commit_tail(id, tree_id, r2),
                    }
                },
            }
        },
    }
}

/// Parses the parent and message fields of a commit.
pub open spec fn parse_commit_tail(id: Seq<u8>, tree_id: Seq<u8>, r2: Seq<u8>) -> Option<CommitV> {
    let after: Option<(Option<Seq<u8>>, Seq<u8>)> = if null_lit().is_prefix_of(r2) {
        Some((None, r2.skip(4)))
    } else if r2.len() >= 66 && r2[0] == 0x22 && is_hex_id(r2.subrange(1, 65)) && r2[65] == 0x22 {
        Some((Some(r2.subrange(1, 65)), r2.skip(66)))
    } else {
        None
    };
    match after {
        None => None,
        Some((parent, r3)) => match strip_lit(r3, message_key()) {
            None => None,
            Some(r4) => match split_at_quote(r4) {
                None => None,
                Some((message, r5)) => if wf_text(message) && r5.len() == 1 && r5[0] == 0x7d {
                    Some(CommitV { id, tree_id, parent, message })
                } else {
                    None
                },
            },
        },
    }
}

/// Appends a fixed slice of bytes.
pub fn push_slice(dst: &mut Vec<u8>, src: &[u8])
    ensures
        final(dst)@ == old(dst)@ + src@,
{
    let mut i: usize = 0;
    while i < src.len()
        invariant
            i <= src@.len(),
            dst@ == old(dst)@ + src@.take(i as int),
        decreases src@.len() - i,
    {
        dst.push(src[i]);
        proof {
            assert(src@.take(i + 1) =~= src@.take(i as int).push(src@[i as int]));
        }
        i += 1;
    }
    proof {
        assert(src@.take(src@.len() as int) =~= src@);
    }
}

/// Checks that a byte string is a well-formed basename.
pub fn check_name(s: &Vec<u8>) -> (r: bool)
    ensures
        r == wf_name(s@),
{
    if s.len() == 0 {
        return false;
    }
    check_text(s)
}

/// Checks that a byte string is well-formed free text.
pub fn check_text(s: &Vec<u8>) -> (r: bool)
    ensures
        r == wf_text(s@),
{
    let mut i: usize = 0;
    while i < s.len()
        invariant
            i <= s@.len(),
            forall|j: int| 0 <= j < i ==> wf_name_byte(#[trigger] s@[j]),
        decreases s@.len() - i,
    {
        let b = s[i];
        if !(0x20 <= b && b < 0x7f && b != 0x22 && b != 0x2f && b != 0x5c) {
            return false;
        }
        i += 1;
    }
    true
}

/// In a non-strictly sorted listing whose adjacent names differ, all
/// names are pairwise distinct.
proof fn lemma_adjacent_unique(s: Seq<EntryV>)
    requires
        entries_sorted(s),
        forall|i: int| 0 <= i < s.len() - 1 ==> (#[trigger] s[i]).name != s[i + 1].name,
    ensures
        names_unique(s),
{
    assert forall|i: int, j: int| 0 <= i < j < s.len() implies (#[trigger] s[i].name)
        != (#[trigger] s[j].name) by {
        if s[i].name == s[j].name {
            if i + 1 == j {
                assert(s[i].name != s[i + 1].name);
            } else {
                // s[i] <= s[i+1] <= s[j] == s[i] squeezes the
                // neighbours equal
                assert(crate::bytesutil::lex_leq(s[i].name, s[i + 1].name));
                assert(crate::bytesutil::lex_leq(s[i + 1].name, s[j].name));
                lemma_lex_antisym(s[i].name, s[i + 1].name);
                assert(s[i].name != s[i + 1].name);
            }
        }
    }
}

/// Checks that a listing is canonically sorted with pairwise
/// distinct names.
pub fn check_entries_order(entries: &Vec<EntryRef>) -> (r: bool)
    ensures
        r == (entries_sorted(entry_views(entries@)) && names_unique(entry_views(entries@))),
{
    let ghost vs = entry_views(entries@);
    let mut i: usize = 0;
    if entries.len() == 0 {
        return true;
    }
    while i < entries.len() - 1
        invariant
            i < vs.len(),
            1 <= vs.len(),
            vs.len() == entries@.len(),
            vs == entry_views(entries@),
            forall|k: int| 0 <= k < i ==> crate::bytesutil::lex_leq(
                (#[trigger] vs[k]).name,
                vs[k + 1].name,
            ) && vs[k].name != vs[k + 1].name,
        decreases vs.len() - i,
    {
        proof {
            assert(vs[i as int] == entries@[i as int]@);
            assert(vs[i + 1] == entries@[i + 1]@);
        }
        if !bytes_leq(&entries[i].name, &entries[i + 1].name) {
            proof {
                lemma_sorted_refutes(vs, i as int);
            }
            return false;
        }
        if bytes_eq(&entries[i].name, &entries[i + 1].name) {
            proof {
                lemma_unique_refutes(vs, i as int);
            }
            return false;
        }
        i += 1;
    }
    proof {
        lemma_adjacent_sorted(vs);
        lemma_adjacent_unique(vs);
    }
    true
}

/// A violation between neighbours refutes sortedness.
proof fn lemma_sorted_refutes(s: Seq<EntryV>, i: int)
    requires
        0 <= i < s.len() - 1,
        !crate::bytesutil::lex_leq(s[i].name, s[i + 1].name),
    ensures
        !entries_sorted(s),
{
}

/// Equal neighbours refute uniqueness.
proof fn lemma_unique_refutes(s: Seq<EntryV>, i: int)
    requires
        0 <= i < s.len() - 1,
        s[i].name == s[i + 1].name,
    ensures
        !names_unique(s),
{
}

/// Neighbourwise order gives full sortedness.
proof fn lemma_adjacent_sorted(s: Seq<EntryV>)
    requires
        forall|k: int| 0 <= k < s.len() - 1 ==> crate::bytesutil::lex_leq(
            (#[trigger] s[k]).name,
            s[k + 1].name,
        ),
    ensures
        entries_sorted(s),
{
    assert forall|i: int, j: int| 0 <= i < j < s.len() implies crate::bytesutil::lex_leq(
        #[trigger] s[i].name,
        #[trigger] s[j].name,
    ) by {
        lemma_adjacent_sorted_range(s, i, j);
    }
}

proof fn lemma_adjacent_sorted_range(s: Seq<EntryV>, i: int, j: int)
    requires
        0 <= i < j < s.len(),
        forall|k: int| 0 <= k < s.len() - 1 ==> crate::bytesutil::lex_leq(
            (#[trigger] s[k]).name,
            s[k + 1].name,
        ),
    ensures
        crate::bytesutil::lex_leq(s[i].name, s[j].name),
    decreases j - i,
{
    if i + 1 == j {
    } else {
        lemma_adjacent_sorted_range(s, i + 1, j);
        lemma_lex_trans(s[i].name, s[i + 1].name, s[j].name);
    }
}

/// Serializes a tree into its canonical JSON, or refuses a tree
/// whose fields cannot stand in it: an id that is not 64 hex digits,
/// a name outside the printable set, or entries out of canonical
/// order.
pub fn tree_json_bytes(t: &Tree) -> (r: Result<Vec<u8>, BackupError>)
    ensures
        match r {
            Ok(s) => wf_tree(t@) && s@ == tree_json(t@),
            Err(e) => e == BackupError::EncodingError && !wf_tree(t@),
        },
{
    if !check_hex_id(&t.id) {
        return Err(BackupError::EncodingError);
    }
    if !check_name(&t.name) {
        return Err(BackupError::EncodingError);
    }
    if !check_entries_order(&t.entries) {
        return Err(BackupError::EncodingError);
    }
    let ghost vs = entry_views(t.entries@);
    let mut ok = true;
    let mut i: usize = 0;
    while i < t.entries.len()
        invariant
            i <= vs.len(),
            vs == entry_views(t.entries@),
            ok == forall|k: int| 0 <= k < i ==> wf_entry(#[trigger] vs[k]),
        decreases vs.len() - i,
    {
        proof {
            assert(vs[i as int] == t.entries@[i as int]@);
        }
        if !(check_name(&t.entries[i].name) && check_hex_id(&t.entries[i].id)) {
            ok = false;
        }
        i += 1;
    }
    if !ok {
        return Err(BackupError::EncodingError);
    }
    let mut buf: Vec<u8> = Vec::new();
    let lit0: [u8; 7] = [0x7b, 0x22, 0x69, 0x64, 0x22, 0x3a, 0x22];
    push_slice(&mut buf, lit0.as_slice());
    push_bytes(&mut buf, &t.id);
    let lit1: [u8; 10] = [0x22, 0x2c, 0x22, 0x6e, 0x61, 0x6d, 0x65, 0x22, 0x3a, 0x22];
    push_slice(&mut buf, lit1.as_slice());
    push_bytes(&mut buf, &t.name);
    let lit2: [u8; 13] = [
        0x22, 0x2c, 0x22, 0x65, 0x6e, 0x74, 0x72, 0x69, 0x65, 0x73, 0x22, 0x3a, 0x5b,
    ];
    push_slice(&mut buf, lit2.as_slice());
    proof {
        assert(lit0@ =~= tree_prefix());
        assert(lit1@ =~= name_key());
        assert(lit2@ =~= entries_key());
        assert(buf@ =~= tree_prefix() + t.id@ + name_key() + t.name@ + entries_key());
        assert(entries_json(vs.take(0)) =~= Seq::<u8>::empty());
    }
    let ghost head = buf@;
    let mut j: usize = 0;
    while j < t.entries.len()
        invariant
            j <= vs.len(),
            vs == entry_views(t.entries@),
            head == tree_prefix() + t.id@ + name_key() + t.name@ + entries_key(),
            buf@ == head + entries_json(vs.take(j as int)),
        decreases vs.len() - j,
    {
        proof {
            assert(vs[j as int] == t.entries@[j as int]@);
            assert(vs.take(j + 1).drop_last() =~= vs.take(j as int));
            assert(vs.take(j + 1).last() == vs[j as int]);
        }
        if j > 0 {
            buf.push(0x2c);
        }
        let lit3: [u8; 9] = [0x7b, 0x22, 0x6e, 0x61, 0x6d, 0x65, 0x22, 0x3a, 0x22];
        push_slice(&mut buf, lit3.as_slice());
        push_bytes(&mut buf, &t.entries[j].name);
        let lit4: [u8; 8] = [0x22, 0x2c, 0x22, 0x69, 0x64, 0x22, 0x3a, 0x22];
        push_slice(&mut buf, lit4.as_slice());
        push_bytes(&mut buf, &t.entries[j].id);
        let lit5: [u8; 2] = [0x22, 0x7d];
        push_slice(&mut buf, lit5.as_slice());
        proof {
            assert(lit3@ =~= entry_prefix());
            assert(lit4@ =~= id_key());
            assert(lit5@ =~= entry_suffix());
            if j == 0 {
                assert(buf@ =~= head + entries_json(vs.take(1)));
            } else {
                assert(buf@ =~= head + entries_json(vs.take(j + 1)));
            }
        }
        j += 1;
    }
    let lit6: [u8; 2] = [0x5d, 0x7d];
    push_slice(&mut buf, lit6.as_slice());
    proof {
        assert(lit6@ =~= tree_suffix());
        assert(vs.take(vs.len() as int) =~= vs);
        assert(buf@ =~= tree_json(t@));
    }
    Ok(buf)
}

/// Serializes a commit into its canonical JSON, or refuses one whose
/// fields cannot stand in it.
pub fn commit_json_bytes(c: &Commit) -> (r: Result<Vec<u8>, BackupError>)
    ensures
        match r {
            Ok(s) => wf_commit(c@) && s@ == commit_json(c@),
            Err(e) => e == BackupError::EncodingError && !wf_commit(c@),
        },
{
    if !check_hex_id(&c.id) {
        return Err(BackupError::EncodingError);
    }
    if !check_hex_id(&c.tree_id) {
        return Err(BackupError::EncodingError);
    }
    if let Some(p) = &c.parent {
        if !check_hex_id(p) {
            return Err(BackupError::EncodingError);
        }
    }
    if !check_text(&c.message) {
        return Err(BackupError::EncodingError);
    }
    let mut buf: Vec<u8> = Vec::new();
    let lit0: [u8; 7] = [0x7b, 0x22, 0x69, 0x64, 0x22, 0x3a, 0x22];
    push_slice(&mut buf, lit0.as_slice());
    push_bytes(&mut buf, &c.id);
    let lit1: [u8; 13] = [
        0x22, 0x2c, 0x22, 0x74, 0x72, 0x65, 0x65, 0x5f, 0x69, 0x64, 0x22, 0x3a, 0x22,
    ];
    push_slice(&mut buf, lit1.as_slice());
    push_bytes(&mut buf, &c.tree_id);
    let lit2: [u8; 11] = [0x22, 0x2c, 0x22, 0x70, 0x61, 0x72, 0x65, 0x6e, 0x74, 0x22, 0x3a];
    push_slice(&mut buf, lit2.as_slice());
    match &c.parent {
        Some(p) => {
            buf.push(0x22);
            push_bytes(&mut buf, p);
            buf.push(0x22);
        },
        None => {
            let litn: [u8; 4] = [0x6e, 0x75, 0x6c, 0x6c];
            push_slice(&mut buf, litn.as_slice());
            proof {
                assert(litn@ =~= null_lit());
            }
        },
    }
    let lit3: [u8; 12] = [0x2c, 0x22, 0x6d, 0x65, 0x73, 0x73, 0x61, 0x67, 0x65, 0x22, 0x3a, 0x22];
    push_slice(&mut buf, lit3.as_slice());
    push_bytes(&mut buf, &c.message);
    let lit4: [u8; 2] = [0x22, 0x7d];
    push_slice(&mut buf, lit4.as_slice());
    proof {
        assert(lit0@ =~= tree_prefix());
        assert(lit1@ =~= tree_id_key());
        assert(lit2@ =~= parent_key());
        assert(lit3@ =~= message_key());
        assert(lit4@ =~= entry_suffix());
        match c.parent {
            Some(_) => {
                assert(buf@ =~= commit_json(c@));
            },
            None => {
                assert(buf@ =~= commit_json(c@));
            },
        }
    }
    Ok(buf)
}

/// Whether the bytes at `pos` continue with a literal.
fn match_lit(s: &Vec<u8>, pos: usize, pat: &[u8]) -> (r: bool)
    requires
        pos <= s@.len(),
    ensures
        r == pat@.is_prefix_of(s@.skip(pos as int)),
{
    if s.len() - pos < pat.len() {
        proof {
            assert(s@.skip(pos as int).len() < pat@.len());
        }
        return false;
    }
    let mut i: usize = 0;
    while i < pat.len()
        invariant
            i <= pat@.len(),
            pos + pat@.len() <= s@.len(),
            s@.len() <= usize::MAX,
            forall|j: int| 0 <= j < i ==> s@[pos + j] == pat@[j],
        decreases pat@.len() - i,
    {
        if s[pos + i] != pat[i] {
            proof {
                assert(s@.skip(pos as int)[i as int] == s@[pos + i]);
            }
            return false;
        }
        i += 1;
    }
    proof {
        assert forall|j: int| 0 <= j < pat@.len() implies s@.skip(pos as int)[j] == pat@[j] by {
            assert(s@.skip(pos as int)[j] == s@[pos + j]);
        }
        assert(pat@.is_prefix_of(s@.skip(pos as int))) by {
            assert(s@.skip(pos as int).take(pat@.len() as int) =~= pat@);
        }
    }
    true
}

/// Copies the bytes of a range.
fn copy_range(s: &Vec<u8>, a: usize, b: usize) -> (r: Vec<u8>)
    requires
        a <= b <= s@.len(),
    ensures
        r@ == s@.subrange(a as int, b as int),
{
    let mut out: Vec<u8> = Vec::new();
    let mut i: usize = a;
    while i < b
        invariant
            a <= i <= b <= s@.len(),
            out@ == s@.subrange(a as int, i as int),
        decreases b - i,
    {
        out.push(s[i]);
        proof {
            assert(s@.subrange(a as int, i + 1) =~= s@.subrange(a as int, i as int).push(s@[i as int]));
        }
        i += 1;
    }
    out
}

/// The first quote at or after `pos`.
fn scan_quote(s: &Vec<u8>, pos: usize) -> (r: Option<usize>)
    requires
        pos <= s@.len(),
    ensures
        match r {
            Some(q) => {
                &&& pos <= q < s@.len()
                &&& s@[q as int] == 0x22
                &&& forall|j: int| pos <= j < q ==> (#[trigger] s@[j]) != 0x22
            },
            None => forall|j: int| pos <= j < s@.len() ==> (#[trigger] s@[j]) != 0x22,
        },
{
    let mut i: usize = pos;
    while i < s.len()
        invariant
            pos <= i <= s@.len(),
            forall|j: int| pos <= j < i ==> (#[trigger] s@[j]) != 0x22,
        decreases s@.len() - i,
    {
        if s[i] == 0x22 {
            return Some(i);
        }
        i += 1;
    }
    None
}

/// Splitting the tail at `pos` at a quote found at `q`.
proof fn lemma_scan_to_split(s: Seq<u8>, pos: int, q: int)
    requires
        0 <= pos <= q < s.len(),
        s[q] == 0x22,
        forall|j: int| pos <= j < q ==> (#[trigger] s[j]) != 0x22,
    ensures
        split_at_quote(s.skip(pos)) == Some((s.subrange(pos, q), s.skip(q + 1))),
{
    let t = s.skip(pos);
    assert(t[q - pos] == s[q]);
    assert(forall|j: int| 0 <= j < q - pos ==> (#[trigger] t[j]) != 0x22) by {
        assert(forall|j: int| 0 <= j < q - pos ==> t[j] == s[j + pos]);
    }
    lemma_split_at_quote_at(t, q - pos);
    assert(t.take(q - pos) =~= s.subrange(pos, q));
    assert(t.skip(q - pos + 1) =~= s.skip(q + 1));
}

/// No quote in the tail at `pos` means no split.
proof fn lemma_scan_to_split_none(s: Seq<u8>, pos: int)
    requires
        0 <= pos <= s.len(),
        forall|j: int| pos <= j < s.len() ==> (#[trigger] s[j]) != 0x22,
    ensures
        split_at_quote(s.skip(pos)) is None,
{
    let t = s.skip(pos);
    assert(forall|j: int| 0 <= j < t.len() ==> (#[trigger] t[j]) != 0x22) by {
        assert(forall|j: int| 0 <= j < t.len() ==> t[j] == s[j + pos]);
    }
    lemma_split_at_quote_none(t);
}

/// Parses the canonical JSON of a tree, or refuses the bytes with
/// `EncodingError` when they are not exactly one canonical tree
/// object.
#[verifier::rlimit(100)]
pub fn parse_tree(s: &Vec<u8>) -> (r: Result<Tree, BackupError>)
    ensures
        match r {
            Ok(t) => parse_tree_spec(s@) == Some(t@) && wf_tree(t@),
            Err(e) => e == BackupError::EncodingError && parse_tree_spec(s@) is None,
        },
{
    let pre: [u8; 7] = [0x7b, 0x22, 0x69, 0x64, 0x22, 0x3a, 0x22];
    proof {
        assert(pre@ =~= tree_prefix());
        assert(s@.skip(0) =~= s@);
    }
    if !match_lit(s, 0, pre.as_slice()) {
        return Err(BackupError::EncodingError);
    }
    let ghost r0 = s@.skip(7);
    if s.len() - 7 < 64 {
        return Err(BackupError::EncodingError);
    }
    let id = copy_range(s, 7, 7 + 64);
    proof {
        assert(id@ =~= r0.take(64));
    }
    if !check_hex_id(&id) {
        return Err(BackupError::EncodingError);
    }
    let nk: [u8; 10] = [0x22, 0x2c, 0x22, 0x6e, 0x61, 0x6d, 0x65, 0x22, 0x3a, 0x22];
    proof {
        assert(nk@ =~= name_key());
        assert(s@.skip(71) =~= r0.skip(64));
    }
    if !match_lit(s, 71, nk.as_slice()) {
        return Err(BackupError::EncodingError);
    }
    let ghost r1 = s@.skip(81);
    proof {
        assert(r0.skip(64).skip(name_key().len() as int) =~= r1);
    }
    let name_start: usize = 81;
    let q = match scan_quote(s, name_start) {
        Some(q) => q,
        None => {
            proof {
                lemma_scan_to_split_none(s@, name_start as int);
            }
            return Err(BackupError::EncodingError);
        },
    };
    proof {
        lemma_scan_to_split(s@, name_start as int, q as int);
    }
    let name = copy_range(s, name_start, q);
    let ghost r2 = s@.skip(q + 1);
    if !check_name(&name) {
        return Err(BackupError::EncodingError);
    }
    // the closing quote of the name is the first byte of the
    // entries key, so the rest of that key must follow
    let ek_tail: [u8; 12] = [0x2c, 0x22, 0x65, 0x6e, 0x74, 0x72, 0x69, 0x65, 0x73, 0x22, 0x3a, 0x5b];
    proof {
        assert(entries_key().drop_first() =~= ek_tail@);
        assert(entries_key().is_prefix_of(seq![0x22u8] + r2) == ek_tail@.is_prefix_of(r2)) by {
            if ek_tail@.is_prefix_of(r2) {
                assert((seq![0x22u8] + r2).take(13) =~= entries_key());
            }
            if entries_key().is_prefix_of(seq![0x22u8] + r2) {
                assert forall|j: int| 0 <= j < 12 implies r2[j] == ek_tail@[j] by {
                    assert((seq![0x22u8] + r2)[j + 1] == r2[j]);
                }
                assert(r2.take(12) =~= ek_tail@);
            }
        }
        assert(s@.skip(q + 1) =~= r2);
    }
    if s.len() - (q + 1) < 12 {
        // not enough bytes for the key
        proof {
            assert(!ek_tail@.is_prefix_of(r2)) by {
                assert(r2.len() < 12);
            }
        }
        return Err(BackupError::EncodingError);
    }
    if !match_lit(s, q + 1, ek_tail.as_slice()) {
        return Err(BackupError::EncodingError);
    }
    let ghost r3 = s@.skip(q + 13);
    proof {
        assert((seq![0x22u8] + r2).skip(13) =~= r3);
        assert(r2.skip(12) =~= r3);
    }
    let entries_start = q + 13;
    // an empty listing closes immediately
    if s.len() - entries_start == 2 && s[entries_start] == 0x5d {
        if s[entries_start + 1] == 0x7d {
            let t = Tree { id, name, entries: Vec::new() };
            proof {
                assert(r3[0] == s@[entries_start as int]);
                assert(r3[1] == s@[entries_start + 1]);
                assert(r3.len() == 2);
                assert(entry_views(t.entries@) =~= Seq::<EntryV>::empty());
                assert(parse_tree_spec(s@) == Some(t@));
            }
            return Ok(t);
        }
    }
    let mut entries: Vec<EntryRef> = Vec::new();
    let mut pos: usize = entries_start;
    let ghost whole = parse_entries_spec(r3);
    proof {
        assert(entry_views(entries@) =~= Seq::<EntryV>::empty());
        if r3.len() == 2 && r3[0] == 0x5d && r3[1] == 0x7d {
            assert(r3[0] == s@[entries_start as int]);
            assert(r3[1] == s@[entries_start + 1]);
            assert(false);
        }
        assert(parse_tree_spec(s@) == match parse_entries_spec(s@.skip(entries_start as int)) {
            None => None::<TreeV>,
            Some((es, rr)) => if entries_sorted(es) && names_unique(es) && rr.len() == 1
                && rr[0] == 0x7d {
                Some(TreeV { id: id@, name: name@, entries: es })
            } else {
                None::<TreeV>
            },
        });
    }
    // the continuation invariant: what remains to parse at `pos`,
    // prefixed by what is already collected, is the whole listing
    loop
        invariant_except_break
            whole == match parse_entries_spec(s@.skip(pos as int)) {
                None => None::<(Seq<EntryV>, Seq<u8>)>,
                Some((es, rr)) => Some((entry_views(entries@) + es, rr)),
            },
        invariant
            entries_start <= pos <= s@.len(),
            s@.len() <= usize::MAX,
            whole == parse_entries_spec(s@.skip(entries_start as int)),
            parse_tree_spec(s@) == match parse_entries_spec(s@.skip(entries_start as int)) {
                None => None::<TreeV>,
                Some((es, rr)) => if entries_sorted(es) && names_unique(es) && rr.len() == 1
                    && rr[0] == 0x7d {
                    Some(TreeV { id: id@, name: name@, entries: es })
                } else {
                    None::<TreeV>
                },
            },
        ensures
            entries_start <= pos <= s@.len(),
            whole == parse_entries_spec(s@.skip(entries_start as int)),
            whole == Some((entry_views(entries@), s@.skip(pos as int))),
            parse_tree_spec(s@) == match parse_entries_spec(s@.skip(entries_start as int)) {
                None => None::<TreeV>,
                Some((es, rr)) => if entries_sorted(es) && names_unique(es) && rr.len() == 1
                    && rr[0] == 0x7d {
                    Some(TreeV { id: id@, name: name@, entries: es })
                } else {
                    None::<TreeV>
                },
            },
        decreases s@.len() - pos,
    {
        let ghost tail = s@.skip(pos as int);
        let ghost prev_entries = entries@;
        let ep: [u8; 9] = [0x7b, 0x22, 0x6e, 0x61, 0x6d, 0x65, 0x22, 0x3a, 0x22];
        proof {
            assert(ep@ =~= entry_prefix());
        }
        if !match_lit(s, pos, ep.as_slice()) {
            return Err(BackupError::EncodingError);
        }
        let ghost e0 = tail.skip(9);
        proof {
            assert(ep@.is_prefix_of(s@.skip(pos as int)));
            assert(pos + 9 <= s@.len());
            assert(s@.skip(pos + 9) =~= e0);
        }
        let en_start = pos + 9;
        let eq = match scan_quote(s, en_start) {
            Some(eq) => eq,
            None => {
                proof {
                    lemma_scan_to_split_none(s@, en_start as int);
                }
                return Err(BackupError::EncodingError);
            },
        };
        proof {
            lemma_scan_to_split(s@, en_start as int, eq as int);
            assert(split_at_quote(e0) == Some((s@.subrange(en_start as int, eq as int), s@.skip(eq + 1))));
        }
        let ename = copy_range(s, en_start, eq);
        if !check_name(&ename) {
            return Err(BackupError::EncodingError);
        }
        let ik_tail: [u8; 7] = [0x2c, 0x22, 0x69, 0x64, 0x22, 0x3a, 0x22];
        proof {
            assert(id_key().drop_first() =~= ik_tail@);
            assert(s@.skip(eq + 1) =~= s@.skip(eq + 1));
        }
        if !match_lit(s, eq + 1, ik_tail.as_slice()) {
            return Err(BackupError::EncodingError);
        }
        let ghost e1 = s@.skip(eq + 1).skip(7);
        proof {
            assert(ik_tail@.is_prefix_of(s@.skip(eq + 1)));
            assert(eq + 8 <= s@.len());
            assert(s@.skip(eq + 8) =~= e1);
        }
        if s.len() - (eq + 8) < 66 {
            proof {
                assert(e1.len() < 66);
            }
            return Err(BackupError::EncodingError);
        }
        let eid = copy_range(s, eq + 8, eq + 8 + 64);
        proof {
            assert(eid@ =~= e1.take(64));
        }
        if !check_hex_id(&eid) {
            return Err(BackupError::EncodingError);
        }
        if !(s[eq + 8 + 64] == 0x22 && s[eq + 8 + 65] == 0x7d) {
            proof {
                assert(e1[64] == s@[eq + 8 + 64]);
                assert(e1[65] == s@[eq + 8 + 65]);
            }
            return Err(BackupError::EncodingError);
        }
        let after_entry = eq + 8 + 66;
        let e = EntryRef { name: ename, id: eid };
        proof {
            assert(e1[64] == s@[eq + 8 + 64]);
            assert(e1[65] == s@[eq + 8 + 65]);
            assert(e1.skip(66) =~= s@.skip(after_entry as int));
            assert(parse_entry_spec(tail) == Some((e@, s@.skip(after_entry as int))));
        }
        if after_entry < s.len() && s[after_entry] == 0x2c {
            entries.push(e);
            proof {
                crate::objects::lemma_entry_views_push(prev_entries, e);
                assert(s@.skip(after_entry as int)[0] == s@[after_entry as int]);
                assert(s@.skip(after_entry as int).skip(1) =~= s@.skip(after_entry + 1));
                assert forall|esx: Seq<EntryV>| true implies entry_views(prev_entries) + (seq![e@]
                    + esx) =~= entry_views(entries@) + esx by {}
            }
            pos = after_entry + 1;
        } else if after_entry < s.len() && s[after_entry] == 0x5d {
            entries.push(e);
            proof {
                crate::objects::lemma_entry_views_push(prev_entries, e);
                assert(s@.skip(after_entry as int)[0] == s@[after_entry as int]);
                assert(s@.skip(after_entry as int).skip(1) =~= s@.skip(after_entry + 1));
                assert(parse_entries_spec(tail) == Some((seq![e@], s@.skip(after_entry + 1))));
                assert(entry_views(prev_entries) + seq![e@] =~= entry_views(entries@));
            }
            pos = after_entry + 1;
            break;
        } else {
            proof {
                if after_entry < s@.len() {
                    assert(s@.skip(after_entry as int)[0] == s@[after_entry as int]);
                } else {
                    assert(s@.skip(after_entry as int).len() == 0);
                }
            }
            return Err(BackupError::EncodingError);
        }
    }
    // after the bracket only the closing brace may stand
    if !(s.len() - pos == 1 && s[pos] == 0x7d) {
        proof {
            match parse_entries_spec(s@.skip(entries_start as int)) {
                None => {},
                Some((es, rr)) => {
                    assert(rr =~= s@.skip(pos as int));
                    if pos < s@.len() {
                        assert(rr[0] == s@[pos as int]);
                    }
                },
            }
        }
        return Err(BackupError::EncodingError);
    }
    if !check_entries_order(&entries) {
        proof {
            match parse_entries_spec(s@.skip(entries_start as int)) {
                None => {},
                Some((es, rr)) => {
                    assert(es =~= entry_views(entries@));
                },
            }
        }
        return Err(BackupError::EncodingError);
    }
    let t = Tree { id, name, entries };
    proof {
        match parse_entries_spec(s@.skip(entries_start as int)) {
            None => {
                assert(false);
            },
            Some((es, rr)) => {
                assert(es == entry_views(t.entries@));
                assert(rr == s@.skip(pos as int));
                assert(rr.len() == 1 && rr[0] == 0x7d) by {
                    assert(rr[0] == s@[pos as int]);
                }
                assert(parse_tree_spec(s@) == Some(t@));
                lemma_parse_entries_wf(s@.skip(entries_start as int));
                assert forall|k: int| 0 <= k < t@.entries.len() implies wf_entry(
                    #[trigger] t@.entries[k],
                ) by {
                    assert(t@.entries[k] == es[k]);
                }
                assert(wf_tree(t@));
            },
        }
    }
    Ok(t)
}

/// Parses the canonical JSON of a commit, or refuses the bytes with
/// `EncodingError`.
#[verifier::rlimit(100)]
pub fn parse_commit(s: &Vec<u8>) -> (r: Result<Commit, BackupError>)
    ensures
        match r {
            Ok(c) => parse_commit_spec(s@) == Some(c@) && wf_commit(c@),
            Err(e) => e == BackupError::EncodingError && parse_commit_spec(s@) is None,
        },
{
    let pre: [u8; 7] = [0x7b, 0x22, 0x69, 0x64, 0x22, 0x3a, 0x22];
    proof {
        assert(pre@ =~= tree_prefix());
        assert(s@.skip(0) =~= s@);
    }
    if !match_lit(s, 0, pre.as_slice()) {
        return Err(BackupError::EncodingError);
    }
    let ghost r0 = s@.skip(7);
    if s.len() - 7 < 64 {
        return Err(BackupError::EncodingError);
    }
    let id = copy_range(s, 7, 71);
    proof {
        assert(id@ =~= r0.take(64));
    }
    if !check_hex_id(&id) {
        return Err(BackupError::EncodingError);
    }
    let tik: [u8; 13] = [0x22, 0x2c, 0x22, 0x74, 0x72, 0x65, 0x65, 0x5f, 0x69, 0x64, 0x22, 0x3a, 0x22];
    proof {
        assert(tik@ =~= tree_id_key());
        assert(s@.skip(71) =~= r0.skip(64));
    }
    if !match_lit(s, 71, tik.as_slice()) {
        return Err(BackupError::EncodingError);
    }
    let ghost r1 = s@.skip(84);
    proof {
        assert(r0.skip(64).skip(13) =~= r1);
    }
    if s.len() - 84 < 64 {
        proof {
            assert(r1.len() < 64);
        }
        return Err(BackupError::EncodingError);
    }
    let tree_id = copy_range(s, 84, 148);
    proof {
        assert(tree_id@ =~= r1.take(64));
    }
    if !check_hex_id(&tree_id) {
        return Err(BackupError::EncodingError);
    }
    let pk: [u8; 11] = [0x22, 0x2c, 0x22, 0x70, 0x61, 0x72, 0x65, 0x6e, 0x74, 0x22, 0x3a];
    proof {
        assert(pk@ =~= parent_key());
        assert(s@.skip(148) =~= r1.skip(64));
    }
    if !match_lit(s, 148, pk.as_slice()) {
        return Err(BackupError::EncodingError);
    }
    let ghost r2 = s@.skip(159);
    proof {
        assert(r1.skip(64).skip(11) =~= r2);
    }
    let nl: [u8; 4] = [0x6e, 0x75, 0x6c, 0x6c];
    proof {
        assert(nl@ =~= null_lit());
    }
    let parent: Option<Vec<u8>>;
    let after_parent: usize;
    if match_lit(s, 159, nl.as_slice()) {
        parent = None;
        after_parent = 163;
        proof {
            assert(s@.skip(163) =~= r2.skip(4));
        }
    } else if s.len() - 159 >= 66 && s[159] == 0x22 {
        let p = copy_range(s, 160, 224);
        proof {
            assert(p@ =~= r2.subrange(1, 65)) by {
                assert forall|j: int| 0 <= j < 64 implies r2.subrange(1, 65)[j] == s@[160 + j] by {
                    assert(r2[1 + j] == s@[160 + j]);
                }
                assert(p@.len() == r2.subrange(1, 65).len());
                assert(forall|j: int| 0 <= j < 64 ==> p@[j] == s@[160 + j]);
            }
        }
        if !check_hex_id(&p) {
            proof {
                assert(r2[0] == s@[159]);
            }
            return Err(BackupError::EncodingError);
        }
        if s[224] != 0x22 {
            proof {
                assert(r2[0] == s@[159]);
                assert(r2[65] == s@[224]);
            }
            return Err(BackupError::EncodingError);
        }
        parent = Some(p);
        after_parent = 225;
        proof {
            assert(r2[0] == s@[159]);
            assert(r2[65] == s@[224]);
            assert(s@.skip(225) =~= r2.skip(66));
        }
    } else {
        proof {
            if r2.len() >= 66 {
                assert(r2[0] == s@[159]);
            }
        }
        return Err(BackupError::EncodingError);
    }
    let ghost r3 = s@.skip(after_parent as int);
    let mk: [u8; 12] = [0x2c, 0x22, 0x6d, 0x65, 0x73, 0x73, 0x61, 0x67, 0x65, 0x22, 0x3a, 0x22];
    proof {
        assert(mk@ =~= message_key());
    }
    if !match_lit(s, after_parent, mk.as_slice()) {
        return Err(BackupError::EncodingError);
    }
    let msg_start = after_parent + 12;
    let ghost r4 = s@.skip(msg_start as int);
    proof {
        assert(r3.skip(12) =~= r4);
    }
    let q = match scan_quote(s, msg_start) {
        Some(q) => q,
        None => {
            proof {
                lemma_scan_to_split_none(s@, msg_start as int);
            }
            return Err(BackupError::EncodingError);
        },
    };
    proof {
        lemma_scan_to_split(s@, msg_start as int, q as int);
    }
    let message = copy_range(s, msg_start, q);
    if !check_text(&message) {
        return Err(BackupError::EncodingError);
    }
    if !(s.len() - q == 2 && s[q + 1] == 0x7d) {
        proof {
            let r5 = s@.skip(q + 1);
            if r5.len() == 1 {
                assert(r5[0] == s@[q + 1]);
            }
        }
        return Err(BackupError::EncodingError);
    }
    let c = Commit { id, tree_id, parent, message };
    proof {
        let r5 = s@.skip(q + 1);
        assert(r5.len() == 1);
        assert(r5[0] == s@[q + 1]);
        assert(parse_commit_spec(s@) == Some(c@));
    }
    Ok(c)
}

/// A literal prefix strips off what was appended after it.
pub proof fn lemma_strip_concat(p: Seq<u8>, rest: Seq<u8>)
    ensures
        strip_lit(p + rest, p) == Some(rest),
{
    assert((p + rest).take(p.len() as int) =~= p);
    assert(p.is_prefix_of(p + rest));
    assert((p + rest).skip(p.len() as int) =~= rest);
}

/// One entry's canonical bytes parse back to the entry.
proof fn lemma_parse_entry_inverse(e: EntryV, rest: Seq<u8>)
    requires
        wf_entry(e),
    ensures
        parse_entry_spec(entry_json(e) + rest) == Some((e, rest)),
{
    let s = entry_json(e) + rest;
    assert(s =~= entry_prefix() + (e.name + id_key() + e.id + entry_suffix() + rest));
    lemma_strip_concat(entry_prefix(), e.name + id_key() + e.id + entry_suffix() + rest);
    let r0 = e.name + id_key() + e.id + entry_suffix() + rest;
    assert(r0[e.name.len() as int] == 0x22) by {
        assert(r0[e.name.len() as int] == id_key()[0]);
    }
    assert(forall|j: int| 0 <= j < e.name.len() ==> (#[trigger] r0[j]) != 0x22) by {
        assert(forall|j: int| 0 <= j < e.name.len() ==> r0[j] == e.name[j]);
    }
    lemma_split_at_quote_at(r0, e.name.len() as int);
    assert(r0.take(e.name.len() as int) =~= e.name);
    let r1 = r0.skip(e.name.len() as int + 1);
    assert(r1 =~= id_key().drop_first() + (e.id + entry_suffix() + rest));
    lemma_strip_concat(id_key().drop_first(), e.id + entry_suffix() + rest);
    let r2 = e.id + entry_suffix() + rest;
    assert(r2.len() == 66 + rest.len());
    assert(r2.take(64) =~= e.id);
    assert(r2[64] == 0x22 && r2[65] == 0x7d) by {
        assert(r2[64] == entry_suffix()[0]);
        assert(r2[65] == entry_suffix()[1]);
    }
    assert(r2.skip(66) =~= rest);
}

/// A listing's canonical bytes begin with its first entry.
proof fn lemma_entries_json_front(es: Seq<EntryV>)
    requires
        es.len() >= 1,
    ensures
        entries_json(es) == entry_json(es[0]) + (if es.len() == 1 {
            Seq::<u8>::empty()
        } else {
            seq![0x2cu8] + entries_json(es.drop_first())
        }),
    decreases es.len(),
{
    if es.len() == 1 {
        assert(entries_json(es) =~= entry_json(es[0]) + Seq::<u8>::empty());
    } else {
        lemma_entries_json_front(es.drop_last());
        assert(es.drop_last()[0] == es[0]);
        if es.len() == 2 {
            assert(es.drop_last() =~= seq![es[0]]);
            assert(es.drop_first() =~= seq![es[1]]);
            assert(entries_json(es.drop_first()) == entry_json(es[1]));
            assert(entries_json(es) =~= entry_json(es[0]) + (seq![0x2cu8] + entries_json(es.drop_first())));
        } else {
            assert(es.drop_last().drop_first() =~= es.drop_first().drop_last());
            assert(es.drop_first().last() == es.last());
            assert(es.drop_first().len() >= 2);
            assert(entries_json(es.drop_first()) == entries_json(es.drop_first().drop_last())
                + seq![0x2cu8] + entry_json(es.drop_first().last()));
            assert(entries_json(es) =~= entry_json(es[0]) + (seq![0x2cu8] + entries_json(es.drop_first())));
        }
    }
}

/// A non-empty listing's canonical bytes, a bracket, and a remainder
/// parse back to the listing and the remainder.
proof fn lemma_parse_entries_inverse(es: Seq<EntryV>, rest: Seq<u8>)
    requires
        es.len() >= 1,
        forall|k: int| 0 <= k < es.len() ==> wf_entry(#[trigger] es[k]),
    ensures
        parse_entries_spec(entries_json(es) + seq![0x5du8] + rest) == Some((es, rest)),
    decreases es.len(),
{
    let s = entries_json(es) + seq![0x5du8] + rest;
    lemma_entries_json_front(es);
    if es.len() == 1 {
        assert(s =~= entry_json(es[0]) + (seq![0x5du8] + rest));
        lemma_parse_entry_inverse(es[0], seq![0x5du8] + rest);
        let r = seq![0x5du8] + rest;
        assert(r[0] == 0x5d);
        assert(r.skip(1) =~= rest);
        assert(seq![es[0]] =~= es);
    } else {
        let tail_bytes = entries_json(es.drop_first()) + seq![0x5du8] + rest;
        assert(s =~= entry_json(es[0]) + (seq![0x2cu8] + tail_bytes));
        lemma_parse_entry_inverse(es[0], seq![0x2cu8] + tail_bytes);
        let r = seq![0x2cu8] + tail_bytes;
        assert(r[0] == 0x2c);
        assert(r.skip(1) =~= tail_bytes);
        assert(forall|k: int| 0 <= k < es.drop_first().len() ==> wf_entry(#[trigger] es.drop_first()[k])) by {
            assert(forall|k: int| 0 <= k < es.drop_first().len() ==> es.drop_first()[k] == es[k + 1]);
        }
        lemma_parse_entries_inverse(es.drop_first(), rest);
        assert(seq![es[0]] + es.drop_first() =~= es);
    }
}

/// The entries-and-suffix part of a tree's canonical bytes, parsed.
spec fn tree_entries_parse(t: TreeV) -> Option<TreeV> {
    let r3 = entries_json(t.entries) + tree_suffix();
    if r3.len() == 2 && r3[0] == 0x5d && r3[1] == 0x7d {
        Some(TreeV { id: t.id, name: t.name, entries: Seq::empty() })
    } else {
        match parse_entries_spec(r3) {
            None => None,
            Some((es, r4)) => if entries_sorted(es) && names_unique(es) && r4.len() == 1
                && r4[0] == 0x7d {
                Some(TreeV { id: t.id, name: t.name, entries: es })
            } else {
                None
            },
        }
    }
}

#[verifier::rlimit(100)]
#[verifier::spinoff_prover]
proof fn lemma_tree_round_trip_head(t: TreeV)
    requires
        wf_tree(t),
    ensures
        parse_tree_spec(tree_json(t)) == tree_entries_parse(t),
{
    let s = tree_json(t);
    assert(s =~= tree_prefix() + (t.id + name_key() + t.name + entries_key() + entries_json(t.entries)
        + tree_suffix()));
    lemma_strip_concat(tree_prefix(), t.id + name_key() + t.name + entries_key()
        + entries_json(t.entries) + tree_suffix());
    let r0 = t.id + name_key() + t.name + entries_key() + entries_json(t.entries) + tree_suffix();
    assert(r0.take(64) =~= t.id);
    assert(r0.skip(64) =~= name_key() + (t.name + entries_key() + entries_json(t.entries) + tree_suffix()));
    lemma_strip_concat(name_key(), t.name + entries_key() + entries_json(t.entries) + tree_suffix());
    let r1 = t.name + entries_key() + entries_json(t.entries) + tree_suffix();
    assert(r1[t.name.len() as int] == 0x22) by {
        assert(r1[t.name.len() as int] == entries_key()[0]);
    }
    assert(forall|j: int| 0 <= j < t.name.len() ==> (#[trigger] r1[j]) != 0x22) by {
        assert(forall|j: int| 0 <= j < t.name.len() ==> r1[j] == t.name[j]);
    }
    lemma_split_at_quote_at(r1, t.name.len() as int);
    assert(r1.take(t.name.len() as int) =~= t.name);
    let r2 = r1.skip(t.name.len() as int + 1);
    assert(seq![0x22u8] + r2 =~= entries_key() + (entries_json(t.entries) + tree_suffix()));
    lemma_strip_concat(entries_key(), entries_json(t.entries) + tree_suffix());
    let r3 = entries_json(t.entries) + tree_suffix();
    assert(strip_lit(s, tree_prefix()) == Some(r0));
    assert(r0.len() >= 64 && r0.take(64) == t.id && is_hex_id(r0.take(64)));
    assert(strip_lit(r0.skip(64), name_key()) == Some(r1));
    assert(split_at_quote(r1) == Some((t.name, r2)));
    assert(wf_name(t.name));
    assert(strip_lit(seq![0x22u8] + r2, entries_key()) == Some(r3));
}

#[verifier::rlimit(100)]
#[verifier::spinoff_prover]
proof fn lemma_tree_round_trip_tail(t: TreeV)
    requires
        wf_tree(t),
    ensures
        tree_entries_parse(t) == Some(t),
{
    let r3 = entries_json(t.entries) + tree_suffix();
    if t.entries.len() == 0 {
        assert(r3 =~= tree_suffix());
        assert(r3.len() == 2 && r3[0] == 0x5d && r3[1] == 0x7d);
        assert(t.entries =~= Seq::<EntryV>::empty());
        assert(tree_entries_parse(t) == Some(TreeV { id: t.id, name: t.name, entries: t.entries }));
        assert(TreeV { id: t.id, name: t.name, entries: t.entries } == t);
    } else {
        lemma_entries_json_front(t.entries);
        assert(!(r3.len() == 2 && r3[0] == 0x5d && r3[1] == 0x7d)) by {
            assert(r3[0] == entry_json(t.entries[0])[0]);
            assert(entry_json(t.entries[0])[0] == entry_prefix()[0]);
        }
        assert(r3 =~= entries_json(t.entries) + seq![0x5du8] + seq![0x7du8]);
        lemma_parse_entries_inverse(t.entries, seq![0x7du8]);
        assert(tree_entries_parse(t) == Some(TreeV { id: t.id, name: t.name, entries: t.entries }));
        assert(TreeV { id: t.id, name: t.name, entries: t.entries } == t);
    }
}

/// Round trip: the canonical JSON of a well-formed tree parses back
/// to exactly that tree, so serialize-parse-serialize is a fixed
/// point.
pub proof fn lemma_tree_round_trip(t: TreeV)
    requires
        wf_tree(t),
    ensures
        parse_tree_spec(tree_json(t)) == Some(t),
{
    lemma_tree_round_trip_head(t);
    lemma_tree_round_trip_tail(t);
}

#[verifier::rlimit(100)]
#[verifier::spinoff_prover]
proof fn lemma_commit_round_trip_head(c: CommitV)
    requires
        wf_commit(c),
    ensures
        parse_commit_spec(commit_json(c)) == parse_commit_tail(c.id, c.tree_id, parent_json(c.parent)
            + message_key() + c.message + entry_suffix()),
{
    let s = commit_json(c);
    let tail0 = c.id + tree_id_key() + c.tree_id + parent_key() + parent_json(c.parent)
        + message_key() + c.message + entry_suffix();
    assert(s =~= tree_prefix() + tail0);
    lemma_strip_concat(tree_prefix(), tail0);
    assert(tail0.take(64) =~= c.id);
    assert(tail0.skip(64) =~= tree_id_key() + (c.tree_id + parent_key() + parent_json(c.parent)
        + message_key() + c.message + entry_suffix()));
    lemma_strip_concat(tree_id_key(), c.tree_id + parent_key() + parent_json(c.parent)
        + message_key() + c.message + entry_suffix());
    let r1 = c.tree_id + parent_key() + parent_json(c.parent) + message_key() + c.message
        + entry_suffix();
    assert(r1.take(64) =~= c.tree_id);
    assert(r1.skip(64) =~= parent_key() + (parent_json(c.parent) + message_key() + c.message
        + entry_suffix()));
    lemma_strip_concat(parent_key(), parent_json(c.parent) + message_key() + c.message
        + entry_suffix());
}

#[verifier::rlimit(100)]
#[verifier::spinoff_prover]
proof fn lemma_commit_round_trip_tail(c: CommitV)
    requires
        wf_commit(c),
    ensures
        parse_commit_tail(c.id, c.tree_id, parent_json(c.parent) + message_key() + c.message
            + entry_suffix()) == Some(c),
{
    let r2 = parent_json(c.parent) + message_key() + c.message + entry_suffix();
    let r3 = message_key() + c.message + entry_suffix();
    match c.parent {
        None => {
            assert(r2 =~= null_lit() + r3);
            lemma_strip_concat(null_lit(), r3);
            assert(null_lit().is_prefix_of(r2));
            assert(r2.skip(4) =~= r3);
        },
        Some(p) => {
            assert(r2 =~= (seq![0x22u8] + p + seq![0x22u8]) + r3);
            assert(r2.len() >= 66 + r3.len());
            assert(r2[0] == 0x22);
            assert(r2.subrange(1, 65) =~= p);
            assert(r2[65] == 0x22);
            assert(r2.skip(66) =~= r3);
            assert(!null_lit().is_prefix_of(r2)) by {
                assert(r2[0] != null_lit()[0]);
            }
        },
    }
    lemma_strip_concat(message_key(), c.message + entry_suffix());
    assert(r3 =~= message_key() + (c.message + entry_suffix()));
    let r4 = c.message + entry_suffix();
    assert(r4[c.message.len() as int] == 0x22) by {
        assert(r4[c.message.len() as int] == entry_suffix()[0]);
    }
    assert(forall|j: int| 0 <= j < c.message.len() ==> (#[trigger] r4[j]) != 0x22) by {
        assert(forall|j: int| 0 <= j < c.message.len() ==> r4[j] == c.message[j]);
    }
    lemma_split_at_quote_at(r4, c.message.len() as int);
    assert(r4.take(c.message.len() as int) =~= c.message);
    let r5 = r4.skip(c.message.len() as int + 1);
    assert(r5.len() == 1 && r5[0] == 0x7d) by {
        assert(r5[0] == r4[c.message.len() as int + 1]);
        assert(r4[c.message.len() as int + 1] == entry_suffix()[1]);
    }
    assert(parse_commit_tail(c.id, c.tree_id, r2) == Some(CommitV {
        id: c.id,
        tree_id: c.tree_id,
        parent: c.parent,
        message: c.message,
    }));
    assert(CommitV { id: c.id, tree_id: c.tree_id, parent: c.parent, message: c.message } == c);
}

/// Round trip: the canonical JSON of a well-formed commit parses
/// back to exactly that commit.
pub proof fn lemma_commit_round_trip(c: CommitV)
    requires
        wf_commit(c),
    ensures
        parse_commit_spec(commit_json(c)) == Some(c),
{
    lemma_commit_round_trip_head(c);
    lemma_commit_round_trip_tail(c);
}

} // verus!
