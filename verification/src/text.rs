//! Lexicographic ordering of strings by Unicode code point, together with the
//! executable comparison the rest of the library sorts and selects with.

use vstd::prelude::*;
use vstd::relations::total_ordering;

verus! {

/// Lexicographic order on character sequences, comparing code points.
/// The empty sequence precedes everything; otherwise the first differing
/// character decides, and a proper prefix precedes its extensions.
pub open spec fn lex_leq(a: Seq<char>, b: Seq<char>) -> bool
    decreases a.len(),
{
    if a.len() == 0 {
        true
    } else if b.len() == 0 {
        false
    } else if (a[0] as u32) < (b[0] as u32) {
        true
    } else if (b[0] as u32) < (a[0] as u32) {
        false
    } else {
        lex_leq(a.drop_first(), b.drop_first())
    }
}

/// The character sequences of a sequence of strings.
pub open spec fn str_views(s: Seq<String>) -> Seq<Seq<char>> {
    s.map_values(|x: String| x@)
}

/// The order as a value, for use with `sort_by` and `sorted_by`.
pub open spec fn lex_leq_fn() -> spec_fn(Seq<char>, Seq<char>) -> bool {
    |a: Seq<char>, b: Seq<char>| lex_leq(a, b)
}

pub proof fn lemma_lex_leq_reflexive(a: Seq<char>)
    ensures
        lex_leq(a, a),
    decreases a.len(),
{
    if a.len() > 0 {
        lemma_lex_leq_reflexive(a.drop_first());
    }
}

pub proof fn lemma_lex_leq_antisymmetric(a: Seq<char>, b: Seq<char>)
    requires
        lex_leq(a, b),
        lex_leq(b, a),
    ensures
        a == b,
    decreases a.len(),
{
    if a.len() == 0 {
        assert(b.len() == 0);
        assert(a =~= b);
    } else {
        let u = a[0] as u32;
        assert(b[0] as u32 == u);
        vstd::utf8::char_u32_cast(a[0], u);
        vstd::utf8::char_u32_cast(b[0], b[0] as u32);
        assert(a[0] == b[0]);
        lemma_lex_leq_antisymmetric(a.drop_first(), b.drop_first());
        assert forall|i: int| 0 <= i < a.len() implies a[i] == b[i] by {
            if i > 0 {
                assert(a[i] == a.drop_first()[i - 1]);
                assert(b[i] == b.drop_first()[i - 1]);
            }
        }
        assert(a =~= b);
    }
}

pub proof fn lemma_lex_leq_transitive(a: Seq<char>, b: Seq<char>, c: Seq<char>)
    requires
        lex_leq(a, b),
        lex_leq(b, c),
    ensures
        lex_leq(a, c),
    decreases a.len(),
{
    if a.len() > 0 && b.len() > 0 && c.len() > 0 {
        if (a[0] as u32) == (b[0] as u32) && (b[0] as u32) == (c[0] as u32) {
            lemma_lex_leq_transitive(a.drop_first(), b.drop_first(), c.drop_first());
        }
    }
}

pub proof fn lemma_lex_leq_connected(a: Seq<char>, b: Seq<char>)
    ensures
        lex_leq(a, b) || lex_leq(b, a),
    decreases a.len(),
{
    if a.len() > 0 && b.len() > 0 && (a[0] as u32) == (b[0] as u32) {
        lemma_lex_leq_connected(a.drop_first(), b.drop_first());
    }
}

/// The lexicographic order is a total order, in the sense `sort_by` needs.
pub proof fn lemma_lex_leq_total_ordering()
    ensures
        total_ordering(lex_leq_fn()),
{
    assert forall|a: Seq<char>| #[trigger] lex_leq(a, a) by {
        lemma_lex_leq_reflexive(a);
    }
    assert forall|a: Seq<char>, b: Seq<char>|
        #[trigger] lex_leq(a, b) && #[trigger] lex_leq(b, a) implies a == b by {
        lemma_lex_leq_antisymmetric(a, b);
    }
    assert forall|a: Seq<char>, b: Seq<char>, c: Seq<char>|
        #[trigger] lex_leq(a, b) && #[trigger] lex_leq(b, c) implies lex_leq(a, c) by {
        lemma_lex_leq_transitive(a, b, c);
    }
    assert forall|a: Seq<char>, b: Seq<char>| #[trigger] lex_leq(a, b) || #[trigger] lex_leq(
        b,
        a,
    ) by {
        lemma_lex_leq_connected(a, b);
    }
}

/// The lexicographically greatest element of a non-empty sequence; among
/// equal greatest elements, the last.
pub open spec fn lex_max(s: Seq<Seq<char>>) -> Seq<char>
    recommends
        s.len() > 0,
    decreases s.len(),
{
    if s.len() <= 1 {
        s[0]
    } else {
        let m = lex_max(s.drop_last());
        if lex_leq(m, s.last()) {
            s.last()
        } else {
            m
        }
    }
}

/// `lex_max` is an element of the sequence, and dominates every element.
pub proof fn lemma_lex_max_greatest(s: Seq<Seq<char>>)
    requires
        s.len() > 0,
    ensures
        s.contains(lex_max(s)),
        forall|j: int| 0 <= j < s.len() ==> lex_leq(#[trigger] s[j], lex_max(s)),
    decreases s.len(),
{
    if s.len() == 1 {
        assert(s[0] == lex_max(s));
        lemma_lex_leq_reflexive(s[0]);
    } else {
        lemma_lex_max_greatest(s.drop_last());
        let m = lex_max(s.drop_last());
        lemma_lex_leq_connected(m, s.last());
        lemma_lex_leq_reflexive(lex_max(s));
        assert forall|j: int| 0 <= j < s.len() implies lex_leq(#[trigger] s[j], lex_max(s)) by {
            if j < s.len() - 1 {
                assert(s.drop_last()[j] == s[j]);
                assert(lex_leq(s[j], m));
                if lex_leq(m, s.last()) {
                    lemma_lex_leq_transitive(s[j], m, s.last());
                }
            }
        }
        if lex_leq(m, s.last()) {
            assert(s[s.len() - 1] == lex_max(s));
        } else {
            let k = choose|k: int| 0 <= k < s.drop_last().len() && s.drop_last()[k] == m;
            assert(s[k] == m);
        }
    }
}

/// Decides `lex_leq` on string slices.
pub fn lex_le(a: &str, b: &str) -> (r: bool)
    ensures
        r == lex_leq(a@, b@),
    decreases a@.len(),
{
    let a_len = a.unicode_len();
    let b_len = b.unicode_len();
    if a_len == 0 {
        true
    } else if b_len == 0 {
        false
    } else {
        let ca = a.get_char(0);
        let cb = b.get_char(0);
        if (ca as u32) < (cb as u32) {
            true
        } else if (cb as u32) < (ca as u32) {
            false
        } else {
            let ra = a.substring_char(1, a_len);
            let rb = b.substring_char(1, b_len);
            assert(ra@ =~= a@.drop_first());
            assert(rb@ =~= b@.drop_first());
            lex_le(ra, rb)
        }
    }
}

/// Decides string equality, as equality of the character sequences.
pub fn str_eq(a: &str, b: &str) -> (r: bool)
    ensures
        r == (a@ == b@),
{
    let sa = a.to_owned();
    let sb = b.to_owned();
    sa == sb
}

} // verus!
