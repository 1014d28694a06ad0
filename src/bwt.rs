use std::collections::HashMap;
use vstd::prelude::*;

use crate::laws::{cyclic_count, law_absent_char, law_empty_pattern};
use crate::occurrences::law_search_counts_occurrences;
use crate::rotation::{char_lt, is_rotation_order, last_column, sorted_rotations};

verus! {

broadcast use vstd::std_specs::hash::group_hash_axioms;

/// Number of occurrences of `c` in `t[0 .. n)`.
pub open spec fn occ(t: Seq<char>, c: char, n: int) -> nat
    decreases n,
{
    if n <= 0 {
        0
    } else {
        occ(t, c, n - 1) + if t[n - 1] == c {
            1nat
        } else {
            0nat
        }
    }
}

/// Number of characters of `t[0 .. n)` that sort strictly before `c`.
pub open spec fn less_than(t: Seq<char>, c: char, n: int) -> nat
    decreases n,
{
    if n <= 0 {
        0
    } else {
        less_than(t, c, n - 1) + if char_lt(t[n - 1], c) {
            1nat
        } else {
            0nat
        }
    }
}

/// The C-table entry of `c`: how many characters of `t` are smaller than `c`.
pub open spec fn c_of(t: Seq<char>, c: char) -> nat {
    less_than(t, c, t.len() as int)
}

/// Where the rows of `t` whose rotation starts with `c` begin, shifted by the
/// number of `c` in `t[0 .. i)` (the last-to-first mapping).
pub open spec fn lf(t: Seq<char>, c: char, i: int) -> int {
    (c_of(t, c) + occ(t, c, i)) as int
}

/// Backward search over `t` on the first `n` characters of `p`, from the
/// interval `[lo, hi)`: the width of the final interval, or 0 once it is empty
/// or a character is missing from `t`.
pub open spec fn search_from(t: Seq<char>, p: Seq<char>, n: int, lo: int, hi: int) -> int
    decreases n,
{
    if n <= 0 {
        hi - lo
    } else {
        let ch = p[n - 1];
        if !t.contains(ch) {
            0
        } else if lf(t, ch, lo) >= lf(t, ch, hi) {
            0
        } else {
            search_from(t, p, n - 1, lf(t, ch, lo), lf(t, ch, hi))
        }
    }
}

/// The occurrence count that backward search over the transform `t` gives
/// for pattern `p`; the empty pattern counts every gap, `t.len() + 1`.
pub open spec fn backward_count(t: Seq<char>, p: Seq<char>) -> int {
    if p.len() == 0 {
        t.len() + 1int
    } else {
        let c = p.last();
        if !t.contains(c) {
            0
        } else {
            search_from(t, p, p.len() - 1, lf(t, c, 0), lf(t, c, t.len() as int))
        }
    }
}

/// `t` is the Burrows-Wheeler transform of `s`: the last characters of the
/// rotations of `s` in sorted order (the empty text has the empty transform).
pub open spec fn is_bwt_of(t: Seq<char>, s: Seq<char>) -> bool {
    &&& t.len() == s.len()
    &&& t.to_multiset() == s.to_multiset()
    &&& s.len() > 0 ==> exists|o: Seq<usize>| is_rotation_order(s, o) && t == last_column(s, o)
}

/// The tables hold, for each character of `t`, its C-table entry and its count.
pub open spec fn tables_match(t: Seq<char>, c_table: Map<u32, u64>, amount_of: Map<u32, u64>) -> bool {
    &&& c_table.dom() == amount_of.dom()
    &&& forall|k: u32| #[trigger] amount_of.contains_key(k) ==> exists|i: int| 0 <= i < t.len() && t[i] as u32 == k
    &&& forall|c: char| #[trigger] amount_of.contains_key(c as u32) <==> t.contains(c)
    &&& forall|c: char|
        #[trigger] amount_of.contains_key(c as u32) ==> amount_of[c as u32] == occ(t, c, t.len() as int)
            && c_table[c as u32] == c_of(t, c)
}

proof fn lemma_code_injective(a: char, b: char)
    requires
        a as u32 == b as u32,
    ensures
        a == b,
{
}

proof fn lemma_table_entry(t: Seq<char>, c_table: Map<u32, u64>, amount_of: Map<u32, u64>, c: char)
    requires
        tables_match(t, c_table, amount_of),
    ensures
        c_table.contains_key(c as u32) <==> t.contains(c),
        amount_of.contains_key(c as u32) <==> t.contains(c),
        t.contains(c) ==> amount_of[c as u32] == occ(t, c, t.len() as int) && c_table[c as u32] == c_of(t, c),
{
}

proof fn lemma_counts_bounded(t: Seq<char>, c: char, n: int)
    requires
        0 <= n <= t.len(),
    ensures
        less_than(t, c, n) + occ(t, c, n) <= n,
    decreases n,
{
    if n > 0 {
        lemma_counts_bounded(t, c, n - 1);
    }
}

proof fn lemma_occ_monotonic(t: Seq<char>, c: char, i: int, j: int)
    requires
        0 <= i <= j <= t.len(),
    ensures
        occ(t, c, i) <= occ(t, c, j),
    decreases j - i,
{
    if i < j {
        lemma_occ_monotonic(t, c, i, j - 1);
    }
}

/// The chars of `s`, in order.
fn chars_of(s: &String) -> (v: Vec<char>)
    ensures
        v@ == s@,
{
    let mut v: Vec<char> = Vec::new();
    for ch in it: s.as_str().chars()
        invariant
            v@ == it.seq().take(it.index() as int),
    {
        v.push(ch);
    }
    assert(v@ =~= s@);
    v
}

/// Relies on `String::from_iter` over `&char`: the string holds the chars in order.
#[verifier::external_body]
fn string_from_chars(v: &Vec<char>) -> (r: String)
    ensures
        r@ == v@,
{
    String::from_iter(v.iter())
}

/// Counts the occurrences of `c` in `t[0 .. end)`.
fn count_before(t: &Vec<char>, c: char, end: usize) -> (r: u64)
    requires
        end <= t.len(),
        t.len() < u64::MAX,
    ensures
        r == occ(t@, c, end as int),
{
    let mut count: u64 = 0;
    let mut i: usize = 0;
    while i < end
        invariant
            end <= t.len() < u64::MAX,
            i <= end,
            count == occ(t@, c, i as int),
        decreases end - i,
    {
        proof {
            lemma_counts_bounded(t@, c, i as int);
        }
        if t[i] == c {
            count = count + 1;
        }
        i = i + 1;
    }
    count
}

/// Counts the characters of `t` that sort strictly before `c`.
fn count_smaller(t: &Vec<char>, c: char) -> (r: u64)
    requires
        t.len() < u64::MAX,
    ensures
        r == c_of(t@, c),
{
    let mut count: u64 = 0;
    let mut i: usize = 0;
    while i < t.len()
        invariant
            t.len() < u64::MAX,
            i <= t.len(),
            count == less_than(t@, c, i as int),
        decreases t.len() - i,
    {
        proof {
            lemma_counts_bounded(t@, c, i as int);
        }
        if t[i] < c {
            count = count + 1;
        }
        assert(less_than(t@, c, i + 1) == less_than(t@, c, i as int) + if char_lt(t@[i as int], c) {
            1nat
        } else {
            0nat
        });
        i = i + 1;
    }
    count
}

/// An FM index: the Burrows-Wheeler transform of a text with the tables that
/// backward search reads.
pub struct BWT {
    transform: Vec<char>,
    c_table: HashMap<u32, u64>,
    amount_of: HashMap<u32, u64>,
    last_char_pos: u64,
    source: Ghost<Seq<char>>,
}

struct SearchState {
    curr_char: char,
    lo: u64,
    hi: u64,
    occ_lo: u64,
    occ_hi: u64,
    did_fail: bool,
}

/// Builds the C-table and the counts of every character of `t`.
fn make_tables(t: &Vec<char>) -> (r: (HashMap<u32, u64>, HashMap<u32, u64>))
    requires
        t.len() < u64::MAX,
    ensures
        tables_match(t@, r.0@, r.1@),
{
    let mut c_table: HashMap<u32, u64> = HashMap::new();
    let mut amount_of: HashMap<u32, u64> = HashMap::new();
    let mut k: usize = 0;
    while k < t.len()
        invariant
            t.len() < u64::MAX,
            k <= t.len(),
            c_table@.dom() == amount_of@.dom(),
            forall|x: u32| #[trigger]
                amount_of@.contains_key(x) ==> exists|i: int| 0 <= i < k && t@[i] as u32 == x,
            forall|c: char| #[trigger]
                amount_of@.contains_key(c as u32) <==> exists|i: int| 0 <= i < k && t@[i] == c,
            forall|c: char| #[trigger]
                amount_of@.contains_key(c as u32) ==> amount_of@[c as u32] == occ(t@, c, t.len() as int)
                    && c_table@[c as u32] == c_of(t@, c),
        decreases t.len() - k,
    {
        let ch = t[k];
        let ghost before = amount_of@;
        if !amount_of.contains_key(&(ch as u32)) {
            let amount = count_before(t, ch, t.len());
            let first = count_smaller(t, ch);
            amount_of.insert(ch as u32, amount);
            c_table.insert(ch as u32, first);
            assert(c_table@.dom() =~= amount_of@.dom());
        }
        proof {
            assert forall|x: u32| #[trigger]
                amount_of@.contains_key(x) implies exists|i: int| 0 <= i < k + 1 && t@[i] as u32 == x by {
                if x == ch as u32 {
                    assert(t@[k as int] as u32 == x);
                }
            }
            assert forall|c: char|
                #[trigger] amount_of@.contains_key(c as u32) <==> exists|i: int| 0 <= i < k + 1 && t@[i] == c by {
                if c as u32 == ch as u32 {
                    lemma_code_injective(c, ch);
                    assert(t@[k as int] == c);
                } else {
                    assert(amount_of@.contains_key(c as u32) == before.contains_key(c as u32));
                }
            }
        }
        k = k + 1;
    }
    proof {
        assert forall|c: char| #[trigger] amount_of@.contains_key(c as u32) <==> t@.contains(c) by {
            if t@.contains(c) {
                let i = choose|i: int| 0 <= i < t.len() && t@[i] == c;
                assert(0 <= i < k && t@[i] == c);
            }
        }
    }
    (c_table, amount_of)
}

/// Builds the index of `from`: sorts its rotations, keeps their last
/// characters, and tabulates them. The empty text gives the empty index.
pub fn make_bwt(from: String) -> (r: BWT)
    requires
        from@.len() < u64::MAX,
    ensures
        r.wf(),
        r.spec_source() == from@,
        is_bwt_of(r.spec_transform(), from@),
        r.spec_transform().len() == from@.len(),
        r.spec_transform().to_multiset() == from@.to_multiset(),
        from@.len() == 0 ==> r.spec_last_pos() == 0,
        from@.len() > 0 ==> r.spec_last_pos() < from@.len() && exists|o: Seq<usize>|
            is_rotation_order(from@, o) && r.spec_transform() == last_column(from@, o) && o[r.spec_last_pos() as int] == 0,
{
    let s = chars_of(&from);
    let n = s.len();
    if n == 0 {
        let (c_table, amount_of) = make_tables(&s);
        let r = BWT { transform: s, c_table, amount_of, last_char_pos: 0, source: Ghost(from@) };
        assert(r.transform@ =~= from@);
        return r;
    }
    let order = sorted_rotations(&s);
    let mut transform: Vec<char> = Vec::new();
    let mut last_char_pos: u64 = 0;
    let mut k: usize = 0;
    while k < n
        invariant
            n == s.len() == order.len(),
            n < u64::MAX,
            is_rotation_order(s@, order@),
            k <= n,
            transform@ == last_column(s@, order@).take(k as int),
            last_char_pos < n,
            (exists|a: int| 0 <= a < k && order[a] == 0) ==> order[last_char_pos as int] == 0,
        decreases n - k,
    {
        let at = order[k];
        let prev: usize = if at == 0 {
            n - 1
        } else {
            at - 1
        };
        proof {
            assert(prev as int == (at + n - 1) % (n as int)) by {
                if at == 0 {
                    vstd::arithmetic::div_mod::lemma_small_mod((n - 1) as nat, n as nat);
                } else {
                    vstd::arithmetic::div_mod::lemma_mod_add_multiples_vanish((at - 1) as int, n as int);
                    vstd::arithmetic::div_mod::lemma_small_mod((at - 1) as nat, n as nat);
                }
            }
        }
        transform.push(s[prev]);
        if at == 0 {
            last_char_pos = k as u64;
        }
        proof {
            assert(transform@ =~= last_column(s@, order@).take(k + 1));
        }
        k = k + 1;
    }
    proof {
        assert(transform@ =~= last_column(s@, order@));
        assert(crate::rotation::as_ints(order@).contains(0));
        let a = choose|a: int| 0 <= a < n && crate::rotation::as_ints(order@)[a] == 0;
        assert(order[a] == 0);
    }
    let (c_table, amount_of) = make_tables(&transform);
    BWT { transform, c_table, amount_of, last_char_pos, source: Ghost(from@) }
}

impl BWT {
    /// The transform, as a sequence of characters.
    pub closed spec fn spec_transform(&self) -> Seq<char> {
        self.transform@
    }

    /// The text that the index was built from.
    pub closed spec fn spec_source(&self) -> Seq<char> {
        self.source@
    }

    /// Where the unrotated text stands among the sorted rotations.
    pub closed spec fn spec_last_pos(&self) -> nat {
        self.last_char_pos as nat
    }

    /// The transform is that of the source text, the tables agree with it, and
    /// every count fits in a `u64`.
    pub closed spec fn wf(&self) -> bool {
        &&& is_bwt_of(self.transform@, self.source@)
        &&& self.transform.len() < u64::MAX
        &&& tables_match(self.transform@, self.c_table@, self.amount_of@)
    }

    /// The rank of `c` at `ind`: how many times `c` occurs in the transform
    /// strictly before position `ind`.
    fn rank(&self, c: char, ind: u64) -> (r: u64)
        requires
            self.wf(),
            ind <= self.spec_transform().len(),
        ensures
            r == occ(self.spec_transform(), c, ind as int),
    {
        count_before(&self.transform, c, ind as usize)
    }

    /// One step of backward search: narrows `[state.lo, state.hi)` to the rows
    /// whose rotation starts with `goal` followed by the text matched so far.
    fn reverse_search(&self, state: &SearchState, goal: char) -> (r: SearchState)
        requires
            self.wf(),
            state.lo <= state.hi <= self.spec_transform().len(),
        ensures
            r.curr_char == goal,
            r.did_fail == (!self.spec_transform().contains(goal) || lf(
                self.spec_transform(),
                goal,
                state.lo as int,
            ) >= lf(self.spec_transform(), goal, state.hi as int)),
            !r.did_fail ==> r.lo == lf(self.spec_transform(), goal, state.lo as int) && r.hi == lf(
                self.spec_transform(),
                goal,
                state.hi as int,
            ) && r.hi <= self.spec_transform().len(),
    {
        let mut new_state = SearchState { curr_char: goal, lo: 0, hi: 0, occ_lo: 0, occ_hi: 0, did_fail: false };
        let first = match self.c_table.get(&(goal as u32)) {
            Some(f) => *f,
            None => {
                new_state.did_fail = true;
                return new_state;
            },
        };
        proof {
            let t = self.spec_transform();
            lemma_counts_bounded(t, goal, t.len() as int);
            lemma_occ_monotonic(t, goal, state.hi as int, t.len() as int);
            lemma_occ_monotonic(t, goal, state.lo as int, state.hi as int);
        }
        new_state.occ_lo = self.rank(goal, state.lo);
        new_state.occ_hi = self.rank(goal, state.hi);
        new_state.lo = first + new_state.occ_lo;
        new_state.hi = first + new_state.occ_hi;
        if new_state.lo >= new_state.hi {
            new_state.did_fail = true;
        }
        new_state
    }

    /// Counts the occurrences of `pattern` by backward search: for a pattern
    /// no longer than the text, the offsets at which it starts when the text
    /// is read cyclically. The empty pattern matches every gap between
    /// characters, `len + 1` of them; a pattern with a character that the
    /// text lacks matches nowhere.
    pub fn find_num_occurences(&self, pattern: String) -> (r: u64)
        requires
            self.wf(),
        ensures
            r == backward_count(self.spec_transform(), pattern@),
            pattern@.len() == 0 ==> r == self.spec_source().len() + 1,
            0 < pattern@.len() <= self.spec_source().len() ==> r == cyclic_count(
                self.spec_source(),
                pattern@,
                self.spec_source().len() as int,
            ),
            (exists|i: int| 0 <= i < pattern@.len() && !self.spec_source().contains(#[trigger] pattern@[i]))
                ==> r == 0,
    {
        proof {
            let (s, t, p) = (self.spec_source(), self.spec_transform(), pattern@);
            law_empty_pattern(s, t);
            if 0 < p.len() <= s.len() {
                law_search_counts_occurrences(s, t, p);
            }
            if exists|i: int| 0 <= i < p.len() && !s.contains(#[trigger] p[i]) {
                let i = choose|i: int| 0 <= i < p.len() && !s.contains(#[trigger] p[i]);
                law_absent_char(s, t, p, i);
            }
        }
        let p = chars_of(&pattern);
        let n = self.transform.len();
        if p.len() == 0 {
            return n as u64 + 1;
        }
        let ghost t = self.spec_transform();
        let c = p[p.len() - 1];
        let first = match self.c_table.get(&(c as u32)) {
            Some(f) => *f,
            None => {
                proof {
                    lemma_table_entry(t, self.c_table@, self.amount_of@, c);
                }
                return 0;
            },
        };
        proof {
            lemma_table_entry(t, self.c_table@, self.amount_of@, c);
        }
        let amount = match self.amount_of.get(&(c as u32)) {
            Some(a) => *a,
            None => {
                return 0;
            },
        };
        proof {
            lemma_counts_bounded(t, c, t.len() as int);
            assert(occ(t, c, 0) == 0);
        }
        let mut state = SearchState { curr_char: c, lo: first, hi: first + amount, occ_lo: 0, occ_hi: 0, did_fail: false };
        let mut i: usize = p.len() - 1;
        while i > 0
            invariant
                self.wf(),
                t == self.spec_transform(),
                p@ == pattern@,
                p.len() > 0,
                i < p.len(),
                state.lo <= state.hi <= t.len(),
                backward_count(t, p@) == search_from(t, p@, i as int, state.lo as int, state.hi as int),
                0 < p@.len() <= self.spec_source().len() ==> backward_count(t, p@) == cyclic_count(
                    self.spec_source(),
                    p@,
                    self.spec_source().len() as int,
                ),
                (exists|j: int| 0 <= j < p@.len() && !self.spec_source().contains(#[trigger] p@[j]))
                    ==> backward_count(t, p@) == 0,
            decreases i,
        {
            state = self.reverse_search(&state, p[i - 1]);
            if state.did_fail {
                return 0;
            }
            i = i - 1;
        }
        state.hi - state.lo
    }

    /// The transform as a string.
    pub fn transform(&self) -> (r: String)
        ensures
            r@ == self.spec_transform(),
    {
        string_from_chars(&self.transform)
    }

    /// Where the unrotated text stands among the sorted rotations.
    pub fn last_char_pos(&self) -> (r: u64)
        ensures
            r == self.spec_last_pos(),
    {
        self.last_char_pos
    }

    /// The C-table entry of `c`: the count of characters of the transform
    /// that are smaller than `c`, or `None` where `c` does not occur.
    pub fn c_table(&self, c: char) -> (r: Option<u64>)
        requires
            self.wf(),
        ensures
            r == (if self.spec_transform().contains(c) {
                Some(c_of(self.spec_transform(), c) as u64)
            } else {
                None
            }),
    {
        match self.c_table.get(&(c as u32)) {
            Some(f) => Some(*f),
            None => None,
        }
    }

    /// How many times `c` occurs in the transform, or `None` where it does not.
    pub fn amount_of(&self, c: char) -> (r: Option<u64>)
        requires
            self.wf(),
        ensures
            r == (if self.spec_transform().contains(c) {
                Some(occ(self.spec_transform(), c, self.spec_transform().len() as int) as u64)
            } else {
                None
            }),
    {
        match self.amount_of.get(&(c as u32)) {
            Some(a) => Some(*a),
            None => None,
        }
    }
}

} // verus!
