//! Inspection of a downloaded pack archive: listing the controllers whose
//! device description files it holds.

use crate::packs::PackError;
use crate::text::{lemma_lex_leq_connected, lemma_lex_leq_reflexive, lemma_lex_leq_total_ordering,
    lemma_lex_leq_transitive, lex_le, lex_leq, lex_leq_fn, str_views};
use vstd::prelude::*;
use vstd::relations::sorted_by;
use vstd::seq_lib::lemma_multiset_commutative;
use vstd::seq_lib::lemma_sorted_unique;

verus! {

broadcast use vstd::seq_lib::group_to_multiset_ensures, vstd::multiset::group_multiset_axioms;

/// The names of the entries of the archive the bytes form, in archive
/// directory order.
pub uninterp spec fn zip_entry_names(bytes: Seq<u8>) -> Seq<Seq<char>>;

/// Whether the bytes form a well-formed archive: zip's parse accepts or
/// refuses an in-memory buffer as a function of the bytes alone.
pub uninterp spec fn zip_wellformed(bytes: Seq<u8>) -> bool;

/// zip's error type, carried opaquely.
#[verifier::external_type_specification]
#[verifier::external_body]
pub struct ExZipError(zip::result::ZipError);

/// Relies on zip's `ZipArchive`: reading the central directory of an
/// in-memory buffer succeeds exactly on well-formed archive bytes and yields
/// the archive's entry names; both are functions of the bytes alone.
#[verifier::external_body]
fn read_entry_names(bytes: &Vec<u8>) -> (r: Result<Vec<String>, zip::result::ZipError>)
    ensures
        r is Ok <==> zip_wellformed(bytes@),
        match r {
            Ok(names) => str_views(names@) == zip_entry_names(bytes@),
            Err(_) => true,
        },
{
    let archive = zip::ZipArchive::new(std::io::Cursor::new(bytes.as_slice()))?;
    Ok(archive.file_names().map(|s| s.to_string()).collect())
}

/// The subdirectory the archive keeps device description files under.
pub open spec fn atdf_dir() -> Seq<char> {
    seq!['a', 't', 'd', 'f', '/']
}

/// The extension of a device description file.
pub open spec fn atdf_ext() -> Seq<char> {
    seq!['.', 'a', 't', 'd', 'f']
}

/// An entry that names a device description file: under the fixed
/// subdirectory, with the fixed extension.
pub open spec fn is_controller_entry(name: Seq<char>) -> bool {
    &&& name.len() >= 10
    &&& name.subrange(0, 5) == atdf_dir()
    &&& name.subrange(name.len() - 5, name.len() as int) == atdf_ext()
}

/// The controller a device description entry names: the entry with the
/// subdirectory and the extension stripped.
pub open spec fn controller_of(name: Seq<char>) -> Seq<char> {
    name.subrange(5, name.len() - 5)
}

pub open spec fn entry_pred() -> spec_fn(Seq<char>) -> bool {
    |n: Seq<char>| is_controller_entry(n)
}

pub open spec fn entry_map() -> spec_fn(Seq<char>) -> Seq<char> {
    |n: Seq<char>| controller_of(n)
}

/// The controllers an archive's entry names yield: the device description
/// entries, stripped, sorted ascending.
pub open spec fn controllers_spec(names: Seq<Seq<char>>) -> Seq<Seq<char>> {
    names.filter(entry_pred()).map_values(entry_map()).sort_by(lex_leq_fn())
}

/// What listing the controllers of archive bytes returns: the sorted,
/// stripped device description entries when the bytes form a well-formed
/// archive, and the malformed-archive error exactly otherwise.
pub open spec fn listing_spec(r: Result<Vec<String>, PackError>, bytes: Seq<u8>) -> bool {
    match r {
        Ok(v) => zip_wellformed(bytes) && str_views(v@) == controllers_spec(zip_entry_names(bytes)),
        Err(e) => !zip_wellformed(bytes) && e matches PackError::MalformedArchive,
    }
}

/// A downloaded pack archive, held as its raw bytes.
pub struct Pack {
    pub content: Vec<u8>,
}

impl Pack {
    /// Lists the controllers whose device description files the archive
    /// holds, sorted ascending; fails exactly when the bytes cannot be read
    /// as an archive.
    pub fn list_controllers(&self) -> (r: Result<Vec<String>, PackError>)
        ensures
            listing_spec(r, self.content@),
    {
        match read_entry_names(&self.content) {
            Ok(names) => Ok(controllers_from_entries(names)),
            Err(_) => Err(PackError::MalformedArchive),
        }
    }
}

/// Listing controllers is a pure function of the archive bytes: on identical
/// bytes two listings succeed or fail together, and successful ones yield
/// identical names.
pub proof fn lemma_list_controllers_idempotent(
    r1: Result<Vec<String>, PackError>,
    r2: Result<Vec<String>, PackError>,
    bytes: Seq<u8>,
)
    requires
        listing_spec(r1, bytes),
        listing_spec(r2, bytes),
    ensures
        r1 is Ok <==> r2 is Ok,
        match (r1, r2) {
            (Ok(v1), Ok(v2)) => str_views(v1@) == str_views(v2@),
            _ => true,
        },
{
}

fn is_entry(s: &String) -> (r: bool)
    ensures
        r == is_controller_entry(s@),
{
    let a = s.as_str();
    let n = a.unicode_len();
    if n < 10 {
        return false;
    }
    let r = a.get_char(0) == 'a' && a.get_char(1) == 't' && a.get_char(2) == 'd' && a.get_char(3)
        == 'f' && a.get_char(4) == '/' && a.get_char(n - 5) == '.' && a.get_char(n - 4) == 'a'
        && a.get_char(n - 3) == 't' && a.get_char(n - 2) == 'd' && a.get_char(n - 1) == 'f';
    proof {
        let pre = s@.subrange(0, 5);
        let suf = s@.subrange(s@.len() - 5, s@.len() as int);
        assert(pre[0] == s@[0] && pre[1] == s@[1] && pre[2] == s@[2] && pre[3] == s@[3] && pre[4]
            == s@[4]);
        assert(suf[0] == s@[s@.len() - 5] && suf[1] == s@[s@.len() - 4] && suf[2] == s@[s@.len()
            - 3] && suf[3] == s@[s@.len() - 2] && suf[4] == s@[s@.len() - 1]);
        if r {
            assert(pre =~= atdf_dir());
            assert(suf =~= atdf_ext());
        } else {
            assert(!(pre == atdf_dir() && suf == atdf_ext()));
        }
    }
    r
}

fn controller_of_entry(s: &String) -> (r: String)
    requires
        is_controller_entry(s@),
    ensures
        r@ == controller_of(s@),
{
    let a = s.as_str();
    let n = a.unicode_len();
    String::from_str(a.substring_char(5, n - 5))
}

/// The controllers named by a list of archive entries: the device
/// description entries, stripped of the fixed subdirectory and extension,
/// sorted ascending. Entries elsewhere in the archive are passed over.
pub fn controllers_from_entries(entries: Vec<String>) -> (r: Vec<String>)
    ensures
        str_views(r@) == controllers_spec(str_views(entries@)),
{
    let n = entries.len();
    let mut kept: Vec<String> = Vec::new();
    let mut i: usize = 0;
    while i < n
        invariant
            0 <= i <= n,
            n == entries@.len(),
            str_views(kept@) =~= str_views(entries@).subrange(0, i as int).filter(
                entry_pred(),
            ).map_values(entry_map()),
        decreases n - i,
    {
        let ghost pre = str_views(entries@).subrange(0, i as int);
        let ghost cur = str_views(entries@).subrange(0, i + 1);
        proof {
            reveal(Seq::filter);
            assert(cur.drop_last() =~= pre);
            assert(cur.last() == entries@[i as int]@);
        }
        let e = &entries[i];
        if is_entry(e) {
            let ghost old_kept = kept@;
            kept.push(controller_of_entry(e));
            proof {
                assert(cur.filter(entry_pred()) == pre.filter(entry_pred()).push(e@));
                assert(str_views(kept@) =~= str_views(old_kept).push(controller_of(e@)));
                assert(cur.filter(entry_pred()).map_values(entry_map()) =~= pre.filter(
                    entry_pred(),
                ).map_values(entry_map()).push(controller_of(e@)));
            }
        } else {
            proof {
                assert(cur.filter(entry_pred()) == pre.filter(entry_pred()));
            }
        }
        i = i + 1;
    }
    proof {
        assert(str_views(entries@).subrange(0, n as int) =~= str_views(entries@));
    }
    let r = sort_strings(kept);
    proof {
        lemma_lex_leq_total_ordering();
        let f = str_views(entries@).filter(entry_pred()).map_values(entry_map());
        f.lemma_sort_by_ensures(lex_leq_fn());
        lemma_sorted_unique(str_views(r@), f.sort_by(lex_leq_fn()), lex_leq_fn());
    }
    r
}

fn insert_pos(out: &Vec<String>, s: &str) -> (p: usize)
    ensures
        p <= out@.len(),
        forall|j: int| 0 <= j < p ==> lex_leq(#[trigger] str_views(out@)[j], s@),
        p < out@.len() ==> !lex_leq(str_views(out@)[p as int], s@),
{
    let n = out.len();
    let mut p: usize = 0;
    while p < n
        invariant
            0 <= p <= n,
            n == out@.len(),
            forall|j: int| 0 <= j < p ==> lex_leq(#[trigger] str_views(out@)[j], s@),
        decreases n - p,
    {
        if !lex_le(out[p].as_str(), s) {
            return p;
        }
        p = p + 1;
    }
    p
}

fn sort_strings(v: Vec<String>) -> (r: Vec<String>)
    ensures
        sorted_by(str_views(r@), lex_leq_fn()),
        str_views(r@).to_multiset() == str_views(v@).to_multiset(),
{
    let n = v.len();
    let mut out: Vec<String> = Vec::new();
    let mut i: usize = 0;
    while i < n
        invariant
            0 <= i <= n,
            n == v@.len(),
            sorted_by(str_views(out@), lex_leq_fn()),
            str_views(out@).to_multiset() == str_views(v@).subrange(0, i as int).to_multiset(),
        decreases n - i,
    {
        let s = v[i].clone();
        let p = insert_pos(&out, s.as_str());
        let ghost old_out = str_views(out@);
        let ghost x = s@;
        out.insert(p, s);
        proof {
            let ins = old_out.insert(p as int, x);
            assert(str_views(out@) =~= ins);
            lemma_insert_sorted(old_out, x, p as int);
            lemma_insert_multiset(old_out, x, p as int);
            assert(str_views(v@).subrange(0, i + 1) =~= str_views(v@).subrange(0, i as int).push(
                x,
            ));
        }
        i = i + 1;
    }
    proof {
        assert(str_views(v@).subrange(0, n as int) =~= str_views(v@));
    }
    out
}

proof fn lemma_insert_sorted(s: Seq<Seq<char>>, x: Seq<char>, p: int)
    requires
        0 <= p <= s.len(),
        sorted_by(s, lex_leq_fn()),
        forall|j: int| 0 <= j < p ==> lex_leq(#[trigger] s[j], x),
        p < s.len() ==> !lex_leq(s[p], x),
    ensures
        sorted_by(s.insert(p, x), lex_leq_fn()),
{
    let ins = s.insert(p, x);
    s.insert_ensures(p, x);
    if p < s.len() {
        lemma_lex_leq_connected(s[p], x);
    }
    assert forall|a: int, b: int| 0 <= a < b < ins.len() implies lex_leq_fn()(ins[a], ins[b]) by {
        if a < p && b < p {
            assert(lex_leq_fn()(s[a], s[b]));
        } else if a < p && b == p {
            assert(lex_leq(s[a], x));
        } else if a < p && b > p {
            if a == b - 1 {
                lemma_lex_leq_reflexive(s[a]);
            } else {
                assert(lex_leq_fn()(s[a], s[b - 1]));
            }
        } else if a == p && b > p {
            assert(lex_leq(x, s[p]));
            if p == b - 1 {
            } else {
                assert(lex_leq_fn()(s[p], s[b - 1]));
                lemma_lex_leq_transitive(x, s[p], s[b - 1]);
            }
        } else {
            assert(a > p && b > p);
            assert(lex_leq_fn()(s[a - 1], s[b - 1]));
        }
    }
}

proof fn lemma_insert_multiset(s: Seq<Seq<char>>, x: Seq<char>, p: int)
    requires
        0 <= p <= s.len(),
    ensures
        s.insert(p, x).to_multiset() == s.to_multiset().insert(x),
{
    let left = s.subrange(0, p);
    let right = s.subrange(p, s.len() as int);
    lemma_multiset_commutative(left.push(x), right);
    lemma_multiset_commutative(left, right);
    assert(s =~= left + right);
    assert(s.insert(p, x).to_multiset() =~= s.to_multiset().insert(x));
}

} // verus!
