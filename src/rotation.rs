use vstd::prelude::*;

verus! {

broadcast use vstd::seq_lib::group_to_multiset_ensures;

/// Whether character `a` sorts strictly before `b` (by Unicode scalar value).
pub open spec fn char_lt(a: char, b: char) -> bool {
    a < b
}

/// Character `k` of the rotation of `s` that starts at offset `i`.
pub open spec fn rot_at(s: Seq<char>, i: int, k: int) -> char {
    s[(i + k) % s.len() as int]
}

/// Three-way lexicographic comparison of the rotations at offsets `i` and `j`,
/// starting at position `k`: negative, zero or positive.
pub open spec fn cmp_from(s: Seq<char>, i: int, j: int, k: int) -> int
    decreases s.len() - k,
{
    if k >= s.len() {
        0
    } else if char_lt(rot_at(s, i, k), rot_at(s, j, k)) {
        -1
    } else if char_lt(rot_at(s, j, k), rot_at(s, i, k)) {
        1
    } else {
        cmp_from(s, i, j, k + 1)
    }
}

/// The total order on rotation offsets: by the rotations' text, ties broken
/// by the smaller offset.
pub open spec fn rot_lt(s: Seq<char>, i: int, j: int) -> bool {
    cmp_from(s, i, j, 0) < 0 || (cmp_from(s, i, j, 0) == 0 && i < j)
}

/// `o` lists every offset of `s` once, in strictly increasing rotation order.
pub open spec fn is_rotation_order(s: Seq<char>, o: Seq<usize>) -> bool {
    &&& o.len() == s.len()
    &&& forall|a: int| 0 <= a < o.len() ==> #[trigger] o[a] < s.len()
    &&& forall|a: int, b: int| 0 <= a < b < o.len() ==> rot_lt(s, #[trigger] o[a] as int, #[trigger] o[b] as int)
    &&& forall|x: int| 0 <= x < s.len() ==> #[trigger] as_ints(o).contains(x)
}

/// The offsets of `o`, as integers.
pub open spec fn as_ints(o: Seq<usize>) -> Seq<int> {
    Seq::new(o.len(), |k: int| o[k] as int)
}

/// The last character of each rotation listed by `o`.
pub open spec fn last_column(s: Seq<char>, o: Seq<usize>) -> Seq<char> {
    Seq::new(o.len(), |k: int| s[(o[k] + s.len() - 1) % (s.len() as int)])
}

pub proof fn lemma_cmp_antisym(s: Seq<char>, i: int, j: int, k: int)
    ensures
        cmp_from(s, i, j, k) == -cmp_from(s, j, i, k),
    decreases s.len() - k,
{
    if k < s.len() {
        lemma_cmp_antisym(s, i, j, k + 1);
    }
}

pub proof fn lemma_cmp_trans(s: Seq<char>, i: int, j: int, l: int, k: int)
    requires
        cmp_from(s, i, j, k) <= 0,
        cmp_from(s, j, l, k) <= 0,
    ensures
        cmp_from(s, i, l, k) <= 0,
        cmp_from(s, i, j, k) < 0 || cmp_from(s, j, l, k) < 0 ==> cmp_from(s, i, l, k) < 0,
    decreases s.len() - k,
{
    if k < s.len() {
        let (a, b, c) = (rot_at(s, i, k) as u32, rot_at(s, j, k) as u32, rot_at(s, l, k) as u32);
        if a == b && b == c {
            lemma_cmp_trans(s, i, j, l, k + 1);
        }
    }
}

pub proof fn lemma_rot_lt_trans(s: Seq<char>, i: int, j: int, l: int)
    requires
        rot_lt(s, i, j),
        rot_lt(s, j, l),
    ensures
        rot_lt(s, i, l),
{
    lemma_cmp_trans(s, i, j, l, 0);
}

pub proof fn lemma_rot_lt_total(s: Seq<char>, i: int, j: int)
    requires
        i != j,
    ensures
        rot_lt(s, i, j) || rot_lt(s, j, i),
        !(rot_lt(s, i, j) && rot_lt(s, j, i)),
{
    lemma_cmp_antisym(s, i, j, 0);
}

pub proof fn lemma_rot_lt_irrefl(s: Seq<char>, i: int)
    ensures
        !rot_lt(s, i, i),
{
    lemma_cmp_antisym(s, i, i, 0);
}

/// Decides `rot_lt(s, i, j)` by comparing the two rotations character by character.
fn rotation_less(s: &Vec<char>, i: usize, j: usize) -> (r: bool)
    requires
        i < s.len(),
        j < s.len(),
    ensures
        r == rot_lt(s@, i as int, j as int),
{
    let n = s.len();
    let mut k: usize = 0;
    while k < n
        invariant
            n == s.len(),
            i < n,
            j < n,
            k <= n,
            cmp_from(s@, i as int, j as int, 0) == cmp_from(s@, i as int, j as int, k as int),
        decreases n - k,
    {
        let a: usize = if k < n - i {
            i + k
        } else {
            k - (n - i)
        };
        let b: usize = if k < n - j {
            j + k
        } else {
            k - (n - j)
        };
        proof {
            assert(a as int == (i + k) % (n as int)) by {
                if k < n - i {
                    vstd::arithmetic::div_mod::lemma_small_mod((i + k) as nat, n as nat);
                } else {
                    vstd::arithmetic::div_mod::lemma_mod_add_multiples_vanish((i + k - n) as int, n as int);
                    vstd::arithmetic::div_mod::lemma_small_mod((i + k - n) as nat, n as nat);
                }
            }
            assert(b as int == (j + k) % (n as int)) by {
                if k < n - j {
                    vstd::arithmetic::div_mod::lemma_small_mod((j + k) as nat, n as nat);
                } else {
                    vstd::arithmetic::div_mod::lemma_mod_add_multiples_vanish((j + k - n) as int, n as int);
                    vstd::arithmetic::div_mod::lemma_small_mod((j + k - n) as nat, n as nat);
                }
            }
        }
        if s[a] < s[b] {
            return true;
        }
        if s[b] < s[a] {
            return false;
        }
        k = k + 1;
    }
    i < j
}

/// Returns the offsets `0 .. s.len()` sorted by `rot_lt`, by binary insertion:
/// O(n log n) rotation comparisons of O(n) each.
pub fn sorted_rotations(s: &Vec<char>) -> (o: Vec<usize>)
    requires
        s.len() > 0,
    ensures
        is_rotation_order(s@, o@),
        last_column(s@, o@).to_multiset() == s@.to_multiset(),
{
    let n = s.len();
    let mut o: Vec<usize> = Vec::new();
    for x in 0..n
        invariant
            n == s.len(),
            o.len() == x,
            forall|a: int| 0 <= a < x ==> o[a] == a,
    {
        o.push(x);
    }
    proof {
        assert forall|x: usize| x < n implies #[trigger] o@.contains(x) by {
            assert(o@[x as int] == x);
        }
        let col = last_column(s@, o@);
        let front = s@.subrange(0, n - 1);
        let back = s@.subrange(n - 1, n as int);
        assert(col =~= back + front) by {
            assert forall|k: int| 0 <= k < n implies col[k] == (back + front)[k] by {
                if k == 0 {
                    vstd::arithmetic::div_mod::lemma_small_mod((n - 1) as nat, n as nat);
                } else {
                    vstd::arithmetic::div_mod::lemma_mod_add_multiples_vanish((k + n - 1 - n) as int, n as int);
                    vstd::arithmetic::div_mod::lemma_small_mod((k - 1) as nat, n as nat);
                }
            }
        }
        vstd::seq_lib::lemma_multiset_commutative(back, front);
        vstd::seq_lib::lemma_multiset_commutative(front, back);
        assert(front + back =~= s@);
    }
    let mut i: usize = 1;
    while i < n
        invariant
            n == s.len(),
            o.len() == n,
            1 <= i <= n,
            forall|a: int| 0 <= a < n ==> #[trigger] o[a] < n,
            forall|a: int, b: int| 0 <= a < b < n ==> #[trigger] o[a] != #[trigger] o[b],
            forall|a: int, b: int|
                0 <= a < b < i ==> rot_lt(s@, #[trigger] o[a] as int, #[trigger] o[b] as int),
            forall|x: usize| x < n ==> #[trigger] o@.contains(x),
            last_column(s@, o@).to_multiset() == s@.to_multiset(),
        decreases n - i,
    {
        let x = o[i];
        let mut lo: usize = 0;
        let mut hi: usize = i;
        while lo < hi
            invariant
                n == s.len(),
                o.len() == n,
                1 <= i < n,
                x == o[i as int],
                lo <= hi <= i,
                forall|a: int| 0 <= a < n ==> #[trigger] o[a] < n,
                forall|a: int, b: int| 0 <= a < b < n ==> #[trigger] o[a] != #[trigger] o[b],
                forall|a: int, b: int|
                    0 <= a < b < i ==> rot_lt(s@, #[trigger] o[a] as int, #[trigger] o[b] as int),
                forall|a: int| 0 <= a < lo ==> rot_lt(s@, #[trigger] o[a] as int, x as int),
                forall|a: int| hi <= a < i ==> rot_lt(s@, x as int, #[trigger] o[a] as int),
            decreases hi - lo,
        {
            let mid = lo + (hi - lo) / 2;
            if rotation_less(s, o[mid], x) {
                proof {
                    assert forall|a: int| 0 <= a < mid + 1 implies rot_lt(s@, #[trigger] o[a] as int, x as int) by {
                        if a < mid {
                            lemma_rot_lt_trans(s@, o[a] as int, o[mid as int] as int, x as int);
                        }
                    }
                }
                lo = mid + 1;
            } else {
                proof {
                    lemma_rot_lt_total(s@, o[mid as int] as int, x as int);
                    assert forall|a: int| mid <= a < i implies rot_lt(s@, x as int, #[trigger] o[a] as int) by {
                        if a > mid {
                            lemma_rot_lt_trans(s@, x as int, o[mid as int] as int, o[a] as int);
                        }
                    }
                }
                hi = mid;
            }
        }
        let mut j: usize = i;
        while j > lo
            invariant
                n == s.len(),
                o.len() == n,
                1 <= i < n,
                lo <= j <= i,
                o[j as int] == x,
                forall|a: int| 0 <= a < lo ==> rot_lt(s@, #[trigger] o[a] as int, x as int),
                forall|a: int| lo <= a < j ==> rot_lt(s@, x as int, #[trigger] o[a] as int),
                forall|a: int| 0 <= a < n ==> #[trigger] o[a] < n,
                forall|a: int, b: int| 0 <= a < b < n ==> #[trigger] o[a] != #[trigger] o[b],
                forall|a: int, b: int|
                    0 <= a < b <= i && b != j ==> rot_lt(s@, #[trigger] o[a] as int, #[trigger] o[b] as int),
                forall|x: usize| x < n ==> #[trigger] o@.contains(x),
                last_column(s@, o@).to_multiset() == s@.to_multiset(),
            decreases j,
        {
            let ghost before = o@;
            let x = o[j];
            let y = o[j - 1];
            o.set(j - 1, x);
            o.set(j, y);
            proof {
                let c0 = last_column(s@, before);
                let c1 = c0.update(j - 1, c0[j as int]);
                assert(last_column(s@, o@) =~= c1.update(j as int, c0[j - 1]));
                vstd::seq_lib::to_multiset_update(c0, j - 1, c0[j as int]);
                vstd::seq_lib::to_multiset_update(c1, j as int, c0[j - 1]);
                assert(c1.update(j as int, c0[j - 1]).to_multiset() =~= c0.to_multiset());
                assert forall|x: usize| x < n implies #[trigger] o@.contains(x) by {
                    assert(before.contains(x));
                    let a = choose|a: int| 0 <= a < n && before[a] == x;
                    if a == j {
                        assert(o@[j - 1] == x);
                    } else if a == j - 1 {
                        assert(o@[j as int] == x);
                    } else {
                        assert(o@[a] == x);
                    }
                }
                assert forall|a: int, b: int| 0 <= a < b < n implies #[trigger] o[a] != #[trigger] o[b] by {
                    assert(before[a] != before[b]);
                    if a == j - 1 && b != j {
                        assert(before[j as int] != before[b]);
                    } else if b == j - 1 && a != j {
                        assert(before[a] != before[j as int]);
                    } else if a == j && b != j - 1 {
                        assert(before[j - 1] != before[b]);
                    } else if b == j && a != j - 1 {
                        assert(before[a] != before[j - 1]);
                    }
                }
                assert forall|a: int, b: int|
                    0 <= a < b <= i && b != j - 1 implies rot_lt(s@, #[trigger] o[a] as int, #[trigger] o[b] as int) by {
                    if b == j {
                        if a < j - 1 {
                            assert(rot_lt(s@, before[a] as int, before[j - 1] as int));
                        }
                    } else if a == j - 1 {
                        assert(rot_lt(s@, before[j as int] as int, before[b] as int));
                    } else if a == j {
                        assert(rot_lt(s@, before[j - 1] as int, before[b] as int));
                    } else {
                        assert(rot_lt(s@, before[a] as int, before[b] as int));
                    }
                }
            }
            j = j - 1;
        }
        proof {
            assert forall|a: int, b: int|
                0 <= a < b < i + 1 implies rot_lt(s@, #[trigger] o[a] as int, #[trigger] o[b] as int) by {
                if b == j {
                    assert(rot_lt(s@, o[a] as int, x as int));
                }
            }
        }
        i = i + 1;
    }
    proof {
        assert forall|x: int| 0 <= x < n implies #[trigger] as_ints(o@).contains(x) by {
            assert(o@.contains(x as usize));
            let k = choose|k: int| 0 <= k < n && o@[k] == x as usize;
            assert(as_ints(o@)[k] == x);
        }
    }
    o
}

} // verus!
