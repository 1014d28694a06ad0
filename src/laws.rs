use vstd::prelude::*;

use crate::bwt::{backward_count, is_bwt_of, search_from};
use crate::rotation::rot_at;

verus! {

broadcast use vstd::seq_lib::group_to_multiset_ensures;

/// Whether `p` occurs in `s`, read cyclically, from offset `i` on.
pub open spec fn occurs_at(s: Seq<char>, p: Seq<char>, i: int) -> bool {
    forall|k: int| 0 <= k < p.len() ==> p[k] == #[trigger] rot_at(s, i, k)
}

/// How many of the offsets `0 .. n` of `s` start an occurrence of `p`, reading
/// `s` cyclically: the count that a scan of every rotation gives.
pub open spec fn cyclic_count(s: Seq<char>, p: Seq<char>, n: int) -> nat
    decreases n,
{
    if n <= 0 {
        0
    } else {
        cyclic_count(s, p, n - 1) + if occurs_at(s, p, n - 1) {
            1nat
        } else {
            0nat
        }
    }
}

/// A transform holds exactly the characters of its text.
proof fn lemma_same_chars(s: Seq<char>, t: Seq<char>, c: char)
    requires
        is_bwt_of(t, s),
    ensures
        t.contains(c) <==> s.contains(c),
{
    assert(t.to_multiset().count(c) == s.to_multiset().count(c));
}

proof fn lemma_search_missing(t: Seq<char>, p: Seq<char>, n: int, lo: int, hi: int, i: int)
    requires
        0 <= i < n <= p.len(),
        !t.contains(p[i]),
    ensures
        search_from(t, p, n, lo, hi) == 0,
    decreases n,
{
    if i < n - 1 && t.contains(p[n - 1]) {
        let ch = p[n - 1];
        lemma_search_missing(t, p, n - 1, crate::bwt::lf(t, ch, lo), crate::bwt::lf(t, ch, hi), i);
    }
}

/// The empty pattern is counted once at each of the `len + 1` gaps of the text.
pub proof fn law_empty_pattern(s: Seq<char>, t: Seq<char>)
    requires
        is_bwt_of(t, s),
    ensures
        backward_count(t, Seq::empty()) == s.len() + 1,
{
}

/// A pattern holding a character that the text lacks occurs nowhere.
pub proof fn law_absent_char(s: Seq<char>, t: Seq<char>, p: Seq<char>, i: int)
    requires
        is_bwt_of(t, s),
        0 <= i < p.len(),
        !s.contains(p[i]),
    ensures
        backward_count(t, p) == 0,
{
    lemma_same_chars(s, t, p[i]);
    if i < p.len() - 1 && t.contains(p.last()) {
        let c = p.last();
        lemma_search_missing(t, p, p.len() - 1, crate::bwt::lf(t, c, 0), crate::bwt::lf(t, c, t.len() as int), i);
    }
}

} // verus!
