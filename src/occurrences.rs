use vstd::prelude::*;

use crate::bwt::{backward_count, c_of, is_bwt_of, lf, less_than, occ, search_from};
use crate::counting::{
    count_in, lemma_count_congruent, lemma_count_disjoint, lemma_count_none, lemma_count_perm,
    lemma_count_positions, lemma_same_elements_perm, range,
};
use crate::laws::{cyclic_count, occurs_at};
use crate::rotation::{as_ints, cmp_from, is_rotation_order, last_column, lemma_rot_lt_irrefl, rot_at, rot_lt};

verus! {

broadcast use vstd::seq_lib::group_to_multiset_ensures;

/// The offset after `i` in a cyclic text of length `n`.
pub open spec fn nxt(n: int, i: int) -> int {
    if i + 1 < n {
        i + 1
    } else {
        0
    }
}

/// Three-way comparison of the first `q.len()` characters of the rotation at
/// offset `i` with `q`, from position `k` on.
pub open spec fn pcmp(s: Seq<char>, i: int, q: Seq<char>, k: int) -> int
    decreases q.len() - k,
{
    if k >= q.len() {
        0
    } else if rot_at(s, i, k) < q[k] {
        -1
    } else if q[k] < rot_at(s, i, k) {
        1
    } else {
        pcmp(s, i, q, k + 1)
    }
}

/// How many rotations of `s` begin with something smaller than `q`.
pub open spec fn below(s: Seq<char>, q: Seq<char>) -> nat {
    count_in(range(s.len() as int), |i: int| pcmp(s, i, q, 0) < 0)
}

/// How many rotations of `s` begin with something no greater than `q`.
pub open spec fn upto(s: Seq<char>, q: Seq<char>) -> nat {
    count_in(range(s.len() as int), |i: int| pcmp(s, i, q, 0) <= 0)
}

/// How many offsets of `s` start an occurrence of `q`.
pub open spec fn matches(s: Seq<char>, q: Seq<char>) -> nat {
    count_in(range(s.len() as int), |i: int| occurs_at(s, q, i))
}

proof fn lemma_rot_next(s: Seq<char>, i: int, k: int)
    requires
        0 <= i < s.len(),
        0 <= k,
    ensures
        rot_at(s, i, k + 1) == rot_at(s, nxt(s.len() as int, i), k),
{
    let n = s.len() as int;
    if i + 1 >= n {
        vstd::arithmetic::div_mod::lemma_mod_add_multiples_vanish(k, n);
        assert(i + k + 1 == n + k);
    } else {
        assert(i + (k + 1) == (i + 1) + k);
    }
}

proof fn lemma_pcmp_zero(s: Seq<char>, i: int, q: Seq<char>, k: int)
    requires
        0 <= k <= q.len(),
    ensures
        pcmp(s, i, q, k) == 0 <==> forall|m: int| k <= m < q.len() ==> q[m] == #[trigger] rot_at(s, i, m),
    decreases q.len() - k,
{
    if k < q.len() {
        lemma_pcmp_zero(s, i, q, k + 1);
    }
}

proof fn lemma_pcmp_mono(s: Seq<char>, i: int, j: int, q: Seq<char>, k: int)
    requires
        q.len() <= s.len(),
        0 <= k,
        cmp_from(s, i, j, k) <= 0,
    ensures
        pcmp(s, j, q, k) <= 0 ==> pcmp(s, i, q, k) <= 0,
        pcmp(s, j, q, k) < 0 ==> pcmp(s, i, q, k) < 0,
    decreases q.len() - k,
{
    if k < q.len() {
        let (a, b, c) = (rot_at(s, i, k), rot_at(s, j, k), q[k]);
        if a == b && b == c {
            lemma_pcmp_mono(s, i, j, q, k + 1);
        }
    }
}

proof fn lemma_pcmp_shift(s: Seq<char>, i: int, ch: char, q: Seq<char>, k: int)
    requires
        0 <= i < s.len(),
        0 <= k <= q.len(),
    ensures
        pcmp(s, i, seq![ch] + q, k + 1) == pcmp(s, nxt(s.len() as int, i), q, k),
    decreases q.len() - k,
{
    if k < q.len() {
        lemma_rot_next(s, i, k);
        assert((seq![ch] + q)[k + 1] == q[k]);
        lemma_pcmp_shift(s, i, ch, q, k + 1);
    }
}

proof fn lemma_pcmp_cons(s: Seq<char>, i: int, ch: char, q: Seq<char>)
    requires
        0 <= i < s.len(),
    ensures
        pcmp(s, i, seq![ch] + q, 0) < 0 <==> (s[i] < ch || (s[i] == ch && pcmp(s, nxt(s.len() as int, i), q, 0) < 0)),
        pcmp(s, i, seq![ch] + q, 0) <= 0 <==> (s[i] < ch || (s[i] == ch && pcmp(s, nxt(s.len() as int, i), q, 0) <= 0)),
{
    lemma_pcmp_shift(s, i, ch, q, 0);
    vstd::arithmetic::div_mod::lemma_small_mod(i as nat, s.len());
    assert(rot_at(s, i, 0) == s[i]);
    assert((seq![ch] + q)[0] == ch);
}

proof fn lemma_count_le_len(a: Seq<int>, f: spec_fn(int) -> bool)
    ensures
        count_in(a, f) <= a.len(),
    decreases a.len(),
{
    if a.len() > 0 {
        lemma_count_le_len(a.drop_last(), f);
    }
}

/// A predicate closed downwards over `0 .. n` holds exactly below its count.
proof fn lemma_prefix_count(f: spec_fn(int) -> bool, n: int)
    requires
        0 <= n,
        forall|a: int, b: int| 0 <= a < b < n && #[trigger] f(b) ==> #[trigger] f(a),
    ensures
        forall|k: int| 0 <= k < n ==> (#[trigger] f(k) <==> k < count_in(range(n), f)),
    decreases n,
{
    if n > 0 {
        assert(range(n).drop_last() =~= range(n - 1));
        lemma_prefix_count(f, n - 1);
        lemma_count_le_len(range(n - 1), f);
        if f(n - 1) {
            assert forall|k: int| 0 <= k < n - 1 implies #[trigger] f(k) by {
                assert(f(n - 1));
            }
            assert(n - 1 <= count_in(range(n - 1), f)) by {
                if n - 1 > count_in(range(n - 1), f) {
                    let k = count_in(range(n - 1), f) as int;
                    assert(f(k));
                }
            }
        }
    }
}

/// Counting over `0 .. n` is counting over `0 .. m` the positions below `n`.
proof fn lemma_count_prefix(f: spec_fn(int) -> bool, n: int, m: int)
    requires
        0 <= n <= m,
    ensures
        count_in(range(n), f) == count_in(range(m), |k: int| k < n && f(k)),
    decreases m - n,
{
    if m == n {
        lemma_count_congruent(range(n), f, |k: int| k < n && f(k));
    } else {
        lemma_count_prefix(f, n, m - 1);
        assert(range(m).drop_last() =~= range(m - 1));
    }
}

proof fn lemma_occ_count(t: Seq<char>, c: char, n: int)
    requires
        0 <= n <= t.len(),
    ensures
        occ(t, c, n) == count_in(range(n), |k: int| t[k] == c),
        less_than(t, c, n) == count_in(range(n), |k: int| t[k] < c),
    decreases n,
{
    if n > 0 {
        assert(range(n).drop_last() =~= range(n - 1));
        lemma_occ_count(t, c, n - 1);
    }
}

proof fn lemma_rows_perm(s: Seq<char>, o: Seq<usize>)
    requires
        is_rotation_order(s, o),
    ensures
        as_ints(o).to_multiset() == range(s.len() as int).to_multiset(),
{
    let r = as_ints(o);
    let n = s.len() as int;
    assert forall|a: int, b: int| 0 <= a < r.len() && 0 <= b < r.len() && a != b implies r[a] != r[b] by {
        if a < b {
            assert(rot_lt(s, o[a] as int, o[b] as int));
        } else {
            assert(rot_lt(s, o[b] as int, o[a] as int));
        }
        lemma_rot_lt_irrefl(s, o[a] as int);
    }
    assert forall|x: int| r.contains(x) <==> range(n).contains(x) by {
        if r.contains(x) {
            let k = choose|k: int| 0 <= k < r.len() && r[k] == x;
            assert(o[k] < n);
            assert(range(n)[x] == x);
        }
    }
    lemma_same_elements_perm(r, range(n));
}

proof fn lemma_nexts_perm(n: int)
    requires
        n > 0,
    ensures
        Seq::new(n as nat, |i: int| nxt(n, i)).to_multiset() == range(n).to_multiset(),
{
    let r = Seq::new(n as nat, |i: int| nxt(n, i));
    assert forall|x: int| r.contains(x) <==> range(n).contains(x) by {
        if 0 <= x < n {
            if x == 0 {
                assert(r[n - 1] == x);
            } else {
                assert(r[x - 1] == x);
            }
            assert(range(n)[x] == x);
        }
    }
    lemma_same_elements_perm(r, range(n));
}

/// Counting a property of the rows' offsets, or of the offsets that follow
/// each offset, is counting it over all offsets.
proof fn lemma_rows_to_offsets(s: Seq<char>, o: Seq<usize>, g: spec_fn(int) -> bool)
    requires
        is_rotation_order(s, o),
        s.len() > 0,
    ensures
        count_in(range(s.len() as int), |k: int| g(o[k] as int)) == count_in(range(s.len() as int), g),
        count_in(range(s.len() as int), |j: int| g(nxt(s.len() as int, j))) == count_in(range(s.len() as int), g),
{
    let n = s.len() as int;
    let r = as_ints(o);
    lemma_rows_perm(s, o);
    lemma_count_perm(r, range(n), g);
    lemma_count_positions(r, g);
    lemma_count_congruent(range(n), |k: int| g(r[k]), |k: int| g(o[k] as int));
    let nx = Seq::new(n as nat, |i: int| nxt(n, i));
    lemma_nexts_perm(n);
    lemma_count_perm(nx, range(n), g);
    lemma_count_positions(nx, g);
    lemma_count_congruent(range(n), |k: int| g(nx[k]), |j: int| g(nxt(n, j)));
}

proof fn lemma_last_column_at(s: Seq<char>, o: Seq<usize>, k: int)
    requires
        is_rotation_order(s, o),
        0 <= k < s.len(),
    ensures
        last_column(s, o)[k] == s[if o[k] == 0 {
            s.len() - 1
        } else {
            o[k] - 1
        }],
        nxt(s.len() as int, if o[k] == 0 {
            s.len() - 1
        } else {
            o[k] - 1
        }) == o[k],
{
    let n = s.len() as int;
    assert(o[k] < n);
    if o[k] == 0 {
        vstd::arithmetic::div_mod::lemma_small_mod((n - 1) as nat, n as nat);
    } else {
        vstd::arithmetic::div_mod::lemma_mod_add_multiples_vanish(o[k] - 1, n);
        vstd::arithmetic::div_mod::lemma_small_mod((o[k] - 1) as nat, n as nat);
    }
}

/// The rows whose rotation begins below `q` (or no higher than `q`) are the
/// first `below` (or `upto`) rows.
proof fn lemma_rows_prefix(s: Seq<char>, o: Seq<usize>, q: Seq<char>)
    requires
        is_rotation_order(s, o),
        s.len() > 0,
        q.len() <= s.len(),
    ensures
        forall|k: int| 0 <= k < s.len() ==> (pcmp(s, o[k] as int, q, 0) < 0 <==> k < below(s, q)),
        forall|k: int| 0 <= k < s.len() ==> (pcmp(s, o[k] as int, q, 0) <= 0 <==> k < upto(s, q)),
{
    let n = s.len() as int;
    let fb = |i: int| pcmp(s, i, q, 0) < 0;
    let fu = |i: int| pcmp(s, i, q, 0) <= 0;
    let rb = |k: int| fb(o[k] as int);
    let ru = |k: int| fu(o[k] as int);
    assert forall|a: int, b: int| 0 <= a < b < n && #[trigger] rb(b) implies #[trigger] rb(a) by {
        assert(rot_lt(s, o[a] as int, o[b] as int));
        lemma_pcmp_mono(s, o[a] as int, o[b] as int, q, 0);
    }
    assert forall|a: int, b: int| 0 <= a < b < n && #[trigger] ru(b) implies #[trigger] ru(a) by {
        assert(rot_lt(s, o[a] as int, o[b] as int));
        lemma_pcmp_mono(s, o[a] as int, o[b] as int, q, 0);
    }
    lemma_prefix_count(rb, n);
    lemma_prefix_count(ru, n);
    lemma_rows_to_offsets(s, o, fb);
    lemma_rows_to_offsets(s, o, fu);
    lemma_count_congruent(range(n), rb, |k: int| fb(o[k] as int));
    lemma_count_congruent(range(n), ru, |k: int| fu(o[k] as int));
    lemma_count_congruent(range(n), fb, |i: int| pcmp(s, i, q, 0) < 0);
    lemma_count_congruent(range(n), fu, |i: int| pcmp(s, i, q, 0) <= 0);
    assert(count_in(range(n), rb) == below(s, q));
    assert(count_in(range(n), ru) == upto(s, q));
    assert forall|k: int| 0 <= k < n implies (pcmp(s, o[k] as int, q, 0) < 0 <==> k < below(s, q)) by {
        assert(rb(k) <==> k < count_in(range(n), rb));
    }
    assert forall|k: int| 0 <= k < n implies (pcmp(s, o[k] as int, q, 0) <= 0 <==> k < upto(s, q)) by {
        assert(ru(k) <==> k < count_in(range(n), ru));
    }
}

/// The C-table entry and a rank, read off the transform, as counts over the
/// text's offsets.
proof fn lemma_lf_counts(s: Seq<char>, o: Seq<usize>, ch: char, lo: int, f: spec_fn(int) -> bool)
    requires
        is_rotation_order(s, o),
        s.len() > 0,
        0 <= lo <= s.len(),
        forall|k: int| 0 <= k < s.len() ==> (f(o[k] as int) <==> k < lo),
    ensures
        lf(last_column(s, o), ch, lo) == count_in(range(s.len() as int), |j: int| s[j] < ch) + count_in(
            range(s.len() as int),
            |j: int| s[j] == ch && f(nxt(s.len() as int, j)),
        ),
{
    let n = s.len() as int;
    let t = last_column(s, o);
    let prv = |x: int| if x == 0 {
        n - 1
    } else {
        x - 1
    };
    let is_ch = |k: int| t[k] == ch;
    let below_ch = |k: int| k < lo && is_ch(k);
    lemma_occ_count(t, ch, lo);
    lemma_occ_count(t, ch, n);
    lemma_count_congruent(range(lo), is_ch, |k: int| t[k] == ch);
    lemma_count_prefix(is_ch, lo, n);
    let g = |x: int| f(x) && s[prv(x)] == ch;
    assert forall|k: int| 0 <= k < n implies below_ch(range(n)[k]) == g(o[range(n)[k]] as int) by {
        lemma_last_column_at(s, o, k);
    }
    lemma_count_congruent(range(n), below_ch, |k: int| g(o[k] as int));
    lemma_count_congruent(range(n), below_ch, |k: int| k < lo && is_ch(k));
    lemma_rows_to_offsets(s, o, g);
    let gn = |j: int| g(nxt(n, j));
    let target = |j: int| s[j] == ch && f(nxt(n, j));
    assert forall|j: int| 0 <= j < n implies gn(range(n)[j]) == target(range(n)[j]) by {
        assert(prv(nxt(n, j)) == j);
    }
    lemma_count_congruent(range(n), gn, target);
    lemma_count_congruent(range(n), gn, |j: int| g(nxt(n, j)));
    lemma_count_congruent(range(n), target, |j: int| s[j] == ch && f(nxt(n, j)));
    assert(occ(t, ch, lo) == count_in(range(n), |j: int| s[j] == ch && f(nxt(n, j))));
    let h = |x: int| s[prv(x)] < ch;
    let lt_ch = |k: int| t[k] < ch;
    assert forall|k: int| 0 <= k < n implies lt_ch(range(n)[k]) == h(o[range(n)[k]] as int) by {
        lemma_last_column_at(s, o, k);
    }
    lemma_count_congruent(range(n), lt_ch, |k: int| h(o[k] as int));
    lemma_count_congruent(range(n), lt_ch, |k: int| t[k] < ch);
    lemma_rows_to_offsets(s, o, h);
    let hn = |j: int| h(nxt(n, j));
    let lt_s = |j: int| s[j] < ch;
    assert forall|j: int| 0 <= j < n implies hn(range(n)[j]) == lt_s(range(n)[j]) by {
        assert(prv(nxt(n, j)) == j);
    }
    lemma_count_congruent(range(n), hn, lt_s);
    lemma_count_congruent(range(n), hn, |j: int| h(nxt(n, j)));
    lemma_count_congruent(range(n), lt_s, |j: int| s[j] < ch);
    assert(c_of(t, ch) == count_in(range(n), |j: int| s[j] < ch));
}

/// One backward-search step: from the interval of `q`, the mapping gives the
/// interval of `ch` followed by `q`.
proof fn lemma_step(s: Seq<char>, o: Seq<usize>, q: Seq<char>, ch: char)
    requires
        is_rotation_order(s, o),
        s.len() > 0,
        q.len() + 1 <= s.len(),
    ensures
        lf(last_column(s, o), ch, below(s, q) as int) == below(s, seq![ch] + q),
        lf(last_column(s, o), ch, upto(s, q) as int) == upto(s, seq![ch] + q),
{
    let n = s.len() as int;
    let cq = seq![ch] + q;
    lemma_rows_prefix(s, o, q);
    lemma_count_le_len(range(n), |i: int| pcmp(s, i, q, 0) < 0);
    lemma_count_le_len(range(n), |i: int| pcmp(s, i, q, 0) <= 0);
    let fb = |i: int| pcmp(s, i, q, 0) < 0;
    let fu = |i: int| pcmp(s, i, q, 0) <= 0;
    lemma_lf_counts(s, o, ch, below(s, q) as int, fb);
    lemma_lf_counts(s, o, ch, upto(s, q) as int, fu);
    let lt = |j: int| s[j] < ch;
    let eb = |j: int| s[j] == ch && fb(nxt(n, j));
    let eu = |j: int| s[j] == ch && fu(nxt(n, j));
    lemma_count_disjoint(range(n), lt, eb);
    lemma_count_disjoint(range(n), lt, eu);
    assert forall|i: int| 0 <= i < n implies (pcmp(s, i, cq, 0) < 0) == (lt(i) || eb(i)) by {
        lemma_pcmp_cons(s, i, ch, q);
    }
    assert forall|i: int| 0 <= i < n implies (pcmp(s, i, cq, 0) <= 0) == (lt(i) || eu(i)) by {
        lemma_pcmp_cons(s, i, ch, q);
    }
    lemma_count_congruent(range(n), |i: int| pcmp(s, i, cq, 0) < 0, |i: int| lt(i) || eb(i));
    lemma_count_congruent(range(n), |i: int| pcmp(s, i, cq, 0) <= 0, |i: int| lt(i) || eu(i));
}

/// The rotations no greater than `q` are those below it and those it begins.
proof fn lemma_upto_split(s: Seq<char>, q: Seq<char>)
    ensures
        upto(s, q) == below(s, q) + matches(s, q),
{
    let n = s.len() as int;
    let fb = |i: int| pcmp(s, i, q, 0) < 0;
    let fm = |i: int| occurs_at(s, q, i);
    assert forall|i: int| 0 <= i < n implies (pcmp(s, i, q, 0) <= 0) == (fb(i) || fm(i)) && !(fb(i) && fm(i)) by {
        lemma_pcmp_zero(s, i, q, 0);
    }
    lemma_count_disjoint(range(n), fb, fm);
    lemma_count_congruent(range(n), |i: int| pcmp(s, i, q, 0) <= 0, |i: int| fb(i) || fm(i));
}

proof fn lemma_count_witness(a: Seq<int>, f: spec_fn(int) -> bool, k: int)
    requires
        0 <= k < a.len(),
        f(a[k]),
    ensures
        count_in(a, f) > 0,
    decreases a.len(),
{
    if k < a.len() - 1 {
        lemma_count_witness(a.drop_last(), f, k);
    }
}

/// A text without occurrences of a suffix of `p` has none of `p`.
proof fn lemma_suffix_absent(s: Seq<char>, p: Seq<char>, m: int)
    requires
        s.len() > 0,
        0 <= m <= p.len(),
        matches(s, p.subrange(m, p.len() as int)) == 0,
    ensures
        matches(s, p) == 0,
{
    let n = s.len() as int;
    let q = p.subrange(m, p.len() as int);
    assert forall|i: int| 0 <= i < n implies !occurs_at(s, p, range(n)[i]) by {
        if occurs_at(s, p, i) {
            let j = (i + m) % n;
            assert forall|k: int| 0 <= k < q.len() implies q[k] == #[trigger] rot_at(s, j, k) by {
                vstd::arithmetic::div_mod::lemma_add_mod_noop(i + m, k, n);
                vstd::arithmetic::div_mod::lemma_add_mod_noop((i + m) % n, k, n);
                vstd::arithmetic::div_mod::lemma_mod_twice(i + m, n);
                assert(rot_at(s, i, m + k) == p[m + k]);
                assert(i + (m + k) == (i + m) + k);
            }
            vstd::arithmetic::div_mod::lemma_mod_bound(i + m, n);
            assert(range(n)[j] == j);
            lemma_count_witness(range(n), |x: int| occurs_at(s, q, x), j);
        }
    }
    lemma_count_none(range(n), |i: int| occurs_at(s, p, i));
}

proof fn lemma_search_from(s: Seq<char>, o: Seq<usize>, p: Seq<char>, n: int)
    requires
        is_rotation_order(s, o),
        s.len() > 0,
        p.len() <= s.len(),
        0 <= n <= p.len(),
        last_column(s, o).to_multiset() == s.to_multiset(),
    ensures
        search_from(
            last_column(s, o),
            p,
            n,
            below(s, p.subrange(n, p.len() as int)) as int,
            upto(s, p.subrange(n, p.len() as int)) as int,
        ) == matches(s, p),
    decreases n,
{
    let t = last_column(s, o);
    let len = s.len() as int;
    if n == 0 {
        assert(p.subrange(0, p.len() as int) =~= p);
        lemma_upto_split(s, p);
    } else {
        let ch = p[n - 1];
        let q = p.subrange(n, p.len() as int);
        let cq = p.subrange(n - 1, p.len() as int);
        assert(cq =~= seq![ch] + q);
        lemma_step(s, o, q, ch);
        lemma_upto_split(s, cq);
        if !t.contains(ch) {
            assert forall|i: int| 0 <= i < len implies !occurs_at(s, cq, range(len)[i]) by {
                if occurs_at(s, cq, i) {
                    vstd::arithmetic::div_mod::lemma_small_mod(i as nat, len as nat);
                    assert(cq[0] == rot_at(s, i, 0));
                    assert(s.to_multiset().count(s[i]) > 0);
                }
            }
            lemma_count_none(range(len), |i: int| occurs_at(s, cq, i));
            lemma_suffix_absent(s, p, n - 1);
        } else if lf(t, ch, below(s, q) as int) >= lf(t, ch, upto(s, q) as int) {
            lemma_suffix_absent(s, p, n - 1);
        } else {
            lemma_search_from(s, o, p, n - 1);
        }
    }
}

proof fn lemma_cyclic_count(s: Seq<char>, p: Seq<char>, n: int)
    requires
        0 <= n,
    ensures
        cyclic_count(s, p, n) == count_in(range(n), |i: int| occurs_at(s, p, i)),
    decreases n,
{
    if n > 0 {
        assert(range(n).drop_last() =~= range(n - 1));
        lemma_cyclic_count(s, p, n - 1);
    }
}

/// Backward search over the transform of `s` counts, for every non-empty
/// pattern no longer than `s`, the offsets at which a scan of the rotations
/// of `s` finds it.
pub proof fn law_search_counts_occurrences(s: Seq<char>, t: Seq<char>, p: Seq<char>)
    requires
        is_bwt_of(t, s),
        0 < p.len() <= s.len(),
    ensures
        backward_count(t, p) == cyclic_count(s, p, s.len() as int),
{
    let n = s.len() as int;
    let o = choose|o: Seq<usize>| is_rotation_order(s, o) && t == last_column(s, o);
    lemma_search_from(s, o, p, p.len() as int);
    lemma_cyclic_count(s, p, n);
    let e = p.subrange(p.len() as int, p.len() as int);
    assert(e =~= Seq::<char>::empty());
    lemma_count_none(range(n), |i: int| pcmp(s, i, e, 0) < 0);
    assert forall|i: int| 0 <= i < n implies (pcmp(s, i, e, 0) <= 0) == (range(n)[i] == range(n)[i]) by {
    }
    lemma_count_congruent(range(n), |i: int| pcmp(s, i, e, 0) <= 0, |i: int| i == i);
    lemma_count_all(range(n), |i: int| i == i);
    let c = p.last();
    if t.contains(c) {
        let k = choose|k: int| 0 <= k < t.len() && t[k] == c;
        lemma_occ_count(t, c, n);
        lemma_count_witness(range(n), |j: int| t[j] == c, k);
        lemma_occ_count(t, c, 0);
    }
}

/// The rotations of `s` at offsets `i` and `j` differ somewhere.
pub open spec fn rotations_differ(s: Seq<char>, i: int, j: int) -> bool {
    exists|k: int| 0 <= k < s.len() && #[trigger] rot_at(s, i, k) != #[trigger] rot_at(s, j, k)
}

/// Every two rotations of `s` differ somewhere.
pub open spec fn rotations_distinct(s: Seq<char>) -> bool {
    forall|i: int, j: int| 0 <= i < j < s.len() ==> #[trigger] rotations_differ(s, i, j)
}

proof fn lemma_count_only_first(f: spec_fn(int) -> bool, n: int)
    requires
        n >= 1,
        f(0),
        forall|j: int| 1 <= j < n ==> !#[trigger] f(j),
    ensures
        count_in(range(n), f) == 1,
    decreases n,
{
    assert(range(n).drop_last() =~= range(n - 1));
    assert(range(n).last() == n - 1);
    if n > 1 {
        lemma_count_only_first(f, n - 1);
        assert(!f(n - 1));
    } else {
        assert(count_in(range(0), f) == 0);
    }
}

/// A non-empty text is found at least once in itself, and exactly once when
/// its rotations are all different.
pub proof fn law_whole_text_found(s: Seq<char>, t: Seq<char>)
    requires
        is_bwt_of(t, s),
        s.len() > 0,
    ensures
        backward_count(t, s) >= 1,
        rotations_distinct(s) ==> backward_count(t, s) == 1,
{
    let n = s.len() as int;
    law_search_counts_occurrences(s, t, s);
    lemma_cyclic_count(s, s, n);
    let f = |i: int| occurs_at(s, s, i);
    assert forall|k: int| 0 <= k < n implies s[k] == #[trigger] rot_at(s, 0, k) by {
        vstd::arithmetic::div_mod::lemma_small_mod(k as nat, n as nat);
    }
    assert(f(0));
    assert(range(n)[0] == 0);
    lemma_count_witness(range(n), f, 0);
    if rotations_distinct(s) {
        assert forall|j: int| 1 <= j < n implies !#[trigger] f(j) by {
            assert(rotations_differ(s, 0, j));
            let k = choose|k: int| 0 <= k < n && #[trigger] rot_at(s, 0, k) != #[trigger] rot_at(s, j, k);
            assert(s[k] == rot_at(s, 0, k));
        }
        lemma_count_only_first(f, n);
    }
}

proof fn lemma_count_all(a: Seq<int>, f: spec_fn(int) -> bool)
    requires
        forall|k: int| 0 <= k < a.len() ==> f(a[k]),
    ensures
        count_in(a, f) == a.len(),
    decreases a.len(),
{
    if a.len() > 0 {
        lemma_count_all(a.drop_last(), f);
    }
}

} // verus!
