//! Extraction of available pack versions from a vendor catalog page.
//!
//! A catalog page advertises downloadable archives under names of the form
//! `<download name>.<major>.<minor>.<patch>.atpack`. Scanning the page text
//! left to right for non-overlapping occurrences of that shape and collecting
//! the three dot-separated digit groups yields the versions on offer, in page
//! order, duplicates preserved.

use crate::text::str_views;
use vstd::prelude::*;
use vstd::std_specs::iter::IteratorSpec;

verus! {

broadcast use vstd::string::group_string_axioms;

/// A decimal digit.
pub open spec fn is_digit_char(c: char) -> bool {
    48 <= c as u32 && c as u32 <= 57
}

/// First position at or after `j` that holds no digit, or the end of `t`.
pub open spec fn digit_run_end(t: Seq<char>, j: int) -> int
    decreases t.len() - j,
{
    if j < 0 || j >= t.len() {
        j
    } else if is_digit_char(t[j]) {
        digit_run_end(t, j + 1)
    } else {
        j
    }
}

pub proof fn lemma_digit_run_end(t: Seq<char>, j: int)
    requires
        0 <= j,
    ensures
        j <= digit_run_end(t, j),
        j <= t.len() ==> digit_run_end(t, j) <= t.len(),
    decreases t.len() - j,
{
    if j < t.len() && is_digit_char(t[j]) {
        lemma_digit_run_end(t, j + 1);
    }
}

/// The dot and archive suffix that close every advertised archive name.
pub open spec fn archive_suffix() -> Seq<char> {
    seq!['.', 'a', 't', 'p', 'a', 'c', 'k']
}

/// Whether an occurrence of the version pattern for download name `n` starts
/// at position `i` of `t`: the name, a dot, three non-empty digit groups
/// separated by dots, a dot and the archive suffix.
pub open spec fn match_at(t: Seq<char>, n: Seq<char>, i: int) -> bool {
    let p = i + n.len();
    let v0 = p + 1;
    let e1 = digit_run_end(t, v0);
    let e2 = digit_run_end(t, e1 + 1);
    let e3 = digit_run_end(t, e2 + 1);
    &&& 0 <= i
    &&& p < t.len()
    &&& t.subrange(i, p) == n
    &&& t[p] == '.'
    &&& e1 > v0
    &&& e1 < t.len()
    &&& t[e1] == '.'
    &&& e2 > e1 + 1
    &&& e2 < t.len()
    &&& t[e2] == '.'
    &&& e3 > e2 + 1
    &&& e3 + 7 <= t.len()
    &&& t.subrange(e3, e3 + 7) == archive_suffix()
}

/// One past the last position of the occurrence starting at `i`.
pub open spec fn match_end(t: Seq<char>, n: Seq<char>, i: int) -> int {
    let v0 = i + n.len() + 1;
    let e1 = digit_run_end(t, v0);
    let e2 = digit_run_end(t, e1 + 1);
    let e3 = digit_run_end(t, e2 + 1);
    e3 + 7
}

/// The version captured by the occurrence starting at `i`: the three digit
/// groups with their separating dots.
pub open spec fn match_version(t: Seq<char>, n: Seq<char>, i: int) -> Seq<char> {
    let v0 = i + n.len() + 1;
    let e1 = digit_run_end(t, v0);
    let e2 = digit_run_end(t, e1 + 1);
    let e3 = digit_run_end(t, e2 + 1);
    t.subrange(v0, e3)
}

pub proof fn lemma_match_at_bounds(t: Seq<char>, n: Seq<char>, i: int)
    requires
        match_at(t, n, i),
    ensures
        i + n.len() + 1 <= i + n.len() + 6 <= match_end(t, n, i) - 7 <= t.len(),
        i < match_end(t, n, i) <= t.len(),
{
    let v0 = i + n.len() + 1;
    let e1 = digit_run_end(t, v0);
    let e2 = digit_run_end(t, e1 + 1);
    let e3 = digit_run_end(t, e2 + 1);
    lemma_digit_run_end(t, v0);
    lemma_digit_run_end(t, e1 + 1);
    lemma_digit_run_end(t, e2 + 1);
}

/// All versions advertised for download name `n` in `t` at or after position
/// `i`, in order of occurrence, matches taken non-overlapping and leftmost
/// first.
pub open spec fn versions_from(t: Seq<char>, n: Seq<char>, i: int) -> Seq<Seq<char>>
    decreases t.len() - i,
    via versions_from_decreases
{
    if i < 0 || i >= t.len() {
        Seq::empty()
    } else if match_at(t, n, i) {
        seq![match_version(t, n, i)] + versions_from(t, n, match_end(t, n, i))
    } else {
        versions_from(t, n, i + 1)
    }
}

#[via_fn]
proof fn versions_from_decreases(t: Seq<char>, n: Seq<char>, i: int) {
    if 0 <= i && i < t.len() && match_at(t, n, i) {
        lemma_match_at_bounds(t, n, i);
    }
}

/// A page on which the pattern occurs nowhere yields no versions.
pub proof fn lemma_no_occurrence_no_versions(t: Seq<char>, n: Seq<char>, i: int)
    requires
        forall|j: int| !match_at(t, n, j),
    ensures
        versions_from(t, n, i) == Seq::<Seq<char>>::empty(),
    decreases t.len() - i,
{
    if 0 <= i && i < t.len() {
        lemma_no_occurrence_no_versions(t, n, i + 1);
    }
}

/// Extraction is a pure function of the page and the download name: two
/// extractions from identical input yield identical strings.
pub proof fn lemma_extraction_idempotent(r1: Seq<String>, r2: Seq<String>, t: Seq<char>, n: Seq<char>)
    requires
        str_views(r1) == versions_from(t, n, 0),
        str_views(r2) == versions_from(t, n, 0),
    ensures
        str_views(r1) == str_views(r2),
{
}

fn is_digit(c: char) -> (r: bool)
    ensures
        r == is_digit_char(c),
{
    let u = c as u32;
    48 <= u && u <= 57
}

/// The characters of a string slice, as a vector.
pub fn str_chars(s: &str) -> (v: Vec<char>)
    ensures
        v@ == s@,
{
    let mut it = s.chars();
    let mut v: Vec<char> = Vec::new();
    loop
        invariant
            s@ == v@ + it.remaining(),
            it.decrease() is Some,
        ensures
            s@ == v@ + it.remaining(),
            it.remaining().len() == 0,
        decreases it.decrease()->0,
    {
        match it.next() {
            Some(c) => {
                v.push(c);
            },
            None => {
                break ;
            },
        }
    }
    assert(v@ =~= s@);
    v
}

fn digit_run(t: &Vec<char>, j: usize) -> (e: usize)
    requires
        j <= t@.len(),
    ensures
        e == digit_run_end(t@, j as int),
        j <= e <= t@.len(),
{
    let mut e = j;
    while e < t.len() && is_digit(t[e])
        invariant
            j <= e <= t@.len(),
            digit_run_end(t@, j as int) == digit_run_end(t@, e as int),
        decreases t@.len() - e,
    {
        e = e + 1;
    }
    e
}

/// Looks for an occurrence of the pattern starting exactly at `i`; reports
/// the bounds of the captured version and the end of the occurrence.
fn try_match(t: &Vec<char>, n: &Vec<char>, i: usize) -> (r: Option<(usize, usize, usize)>)
    requires
        i < t@.len(),
    ensures
        match r {
            Some(b) => {
                &&& match_at(t@, n@, i as int)
                &&& b.0 == i + n@.len() + 1
                &&& match_version(t@, n@, i as int) == t@.subrange(b.0 as int, b.1 as int)
                &&& b.2 == match_end(t@, n@, i as int)
                &&& b.0 <= b.1 <= t@.len()
                &&& i < b.2 <= t@.len()
            },
            None => !match_at(t@, n@, i as int),
        },
{
    let tn = t.len();
    let m = n.len();
    if tn - i <= m {
        return None;
    }
    let p = i + m;
    let mut k: usize = 0;
    while k < m
        invariant
            0 <= k <= m,
            i + m < t@.len(),
            t@.len() == tn,
            m == n@.len(),
            forall|j: int| 0 <= j < k ==> t@[i + j] == n@[j],
        decreases m - k,
    {
        if t[i + k] != n[k] {
            assert(t@.subrange(i as int, i as int + m as int)[k as int] == t@[i + k]);
            return None;
        }
        k = k + 1;
    }
    assert(t@.subrange(i as int, p as int) =~= n@);
    if t[p] != '.' {
        return None;
    }
    let v0 = p + 1;
    let e1 = digit_run(t, v0);
    if e1 == v0 || e1 == tn {
        return None;
    }
    if t[e1] != '.' {
        return None;
    }
    let e2 = digit_run(t, e1 + 1);
    if e2 == e1 + 1 || e2 == tn {
        return None;
    }
    if t[e2] != '.' {
        return None;
    }
    let e3 = digit_run(t, e2 + 1);
    if e3 == e2 + 1 {
        return None;
    }
    if tn - e3 < 7 {
        return None;
    }
    if !suffix_at(t, e3) {
        return None;
    }
    proof {
        lemma_match_at_bounds(t@, n@, i as int);
    }
    Some((v0, e3, e3 + 7))
}

fn suffix_at(t: &Vec<char>, j: usize) -> (r: bool)
    requires
        j + 7 <= t@.len(),
    ensures
        r == (t@.subrange(j as int, j as int + 7) == archive_suffix()),
{
    let n = t.len();
    assert(j + 7 <= n);
    let r = t[j] == '.' && t[j + 1] == 'a' && t[j + 2] == 't' && t[j + 3] == 'p' && t[j + 4] == 'a'
        && t[j + 5] == 'c' && t[j + 6] == 'k';
    proof {
        let sub = t@.subrange(j as int, j as int + 7);
        assert(sub[0] == t@[j as int] && sub[1] == t@[j as int + 1] && sub[2] == t@[j as int + 2]
            && sub[3] == t@[j as int + 3] && sub[4] == t@[j as int + 4] && sub[5] == t@[j as int
            + 5] && sub[6] == t@[j as int + 6]);
        if r {
            assert(sub =~= archive_suffix());
        } else {
            assert(sub != archive_suffix());
        }
    }
    r
}

/// All versions advertised for download name `pack_name` in `html`, in page
/// order, duplicates preserved; empty when the pattern occurs nowhere. The
/// download name is matched literally, whatever characters it holds.
pub fn parse_available_versions_from_html(html: &str, pack_name: &str) -> (r: Vec<String>)
    ensures
        str_views(r@) == versions_from(html@, pack_name@, 0),
{
    let t = str_chars(html);
    let n = str_chars(pack_name);
    let tn = t.len();
    let mut out: Vec<String> = Vec::new();
    let mut i: usize = 0;
    while i < tn
        invariant
            t@ == html@,
            n@ == pack_name@,
            tn == t@.len(),
            0 <= i,
            versions_from(html@, pack_name@, 0) == str_views(out@) + versions_from(
                html@,
                pack_name@,
                i as int,
            ),
        decreases tn - i,
    {
        match try_match(&t, &n, i) {
            Some(b) => {
                let vs = html.substring_char(b.0, b.1);
                let ghost old_out = out@;
                out.push(String::from_str(vs));
                proof {
                    assert(str_views(out@) =~= str_views(old_out).push(vs@));
                    assert(str_views(out@) + versions_from(html@, pack_name@, b.2 as int) =~= str_views(
                        old_out,
                    ) + (seq![match_version(html@, pack_name@, i as int)] + versions_from(
                        html@,
                        pack_name@,
                        b.2 as int,
                    )));
                }
                i = b.2;
            },
            None => {
                i = i + 1;
            },
        }
    }
    assert(str_views(out@) =~= versions_from(html@, pack_name@, 0));
    out
}

} // verus!
