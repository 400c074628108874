//! The recursive odd-even (Batcher) merge sort: a pairing pass, then
//! merge levels of doubling size, each level merging two adjacent
//! sorted runs by the classical odd-even decomposition.  The merge is
//! proved correct by the counting argument: the number of values below
//! any threshold in the even and odd subsequences of a sorted run
//! differ by at most one.

use vstd::prelude::*;

use crate::net::{max_i32, min_i32};
use crate::sort_utils::{
    copy_range, sorted_asc, spec_is_pow_2, valid_sort_len, write_range,
};
use crate::sort_utils::{lemma_adjacent_sorted, lemma_pow2_divides, lemma_pow2_gap};
use vstd::arithmetic::div_mod::{lemma_fundamental_div_mod, lemma_fundamental_div_mod_converse};
use vstd::arithmetic::mul::lemma_mul_inequality;
use vstd::multiset::Multiset;
use vstd::seq_lib::lemma_multiset_commutative;

verus! {

/// The elements at even positions, in order.
pub open spec fn even_seq(s: Seq<i32>) -> Seq<i32> {
    Seq::new(((s.len() + 1) / 2) as nat, |i: int| s[2 * i])
}

/// The elements at odd positions, in order.
pub open spec fn odd_seq(s: Seq<i32>) -> Seq<i32> {
    Seq::new((s.len() / 2) as nat, |i: int| s[2 * i + 1])
}

/// The predicate "strictly below the threshold `v`".
spec fn below(v: i32) -> spec_fn(i32) -> bool {
    |x: i32| x < v
}

/// How many elements of `s` lie strictly below `v`.
spec fn cnt_below(s: Seq<i32>, v: i32) -> int
    decreases s.len(),
{
    if s.len() == 0 {
        0
    } else {
        cnt_below(s.drop_last(), v) + if s.last() < v {
            1int
        } else {
            0int
        }
    }
}

/// The count below a threshold is a function of the multiset of
/// values alone.
proof fn lemma_cnt_below_multiset(s: Seq<i32>, v: i32)
    ensures
        cnt_below(s, v) == s.to_multiset().filter(below(v)).len(),
    decreases s.len(),
{
    broadcast use vstd::multiset::group_multiset_axioms;
    broadcast use vstd::seq_lib::group_to_multiset_ensures;

    if s.len() == 0 {
        assert(s.to_multiset().filter(below(v)) =~= Multiset::<i32>::empty());
    } else {
        let t = s.drop_last();
        let x = s.last();
        lemma_cnt_below_multiset(t, v);
        assert(s =~= t.push(x));
        assert(s.to_multiset() == t.to_multiset().insert(x));
        if below(v)(x) {
            assert(s.to_multiset().filter(below(v)) =~= t.to_multiset().filter(below(v)).insert(
                x,
            ));
            assert(t.to_multiset().filter(below(v)).insert(x).len() == t.to_multiset().filter(
                below(v),
            ).len() + 1) by {
                vstd::multiset::lemma_insert_len(t.to_multiset().filter(below(v)), x);
            }
        } else {
            assert(s.to_multiset().filter(below(v)) =~= t.to_multiset().filter(below(v)));
        }
    }
}

/// Counts below a threshold add over multiset union.
proof fn lemma_cnt_add(m1: Multiset<i32>, m2: Multiset<i32>, v: i32)
    ensures
        m1.add(m2).filter(below(v)).len() == m1.filter(below(v)).len() + m2.filter(below(v)).len(),
{
    broadcast use vstd::multiset::group_multiset_axioms;

    assert(m1.add(m2).filter(below(v)) =~= m1.filter(below(v)).add(m2.filter(below(v))));
}

/// In a sorted sequence the elements below a threshold form exactly
/// the prefix of length `cnt_below`.
proof fn lemma_cnt_below_sorted(s: Seq<i32>, v: i32)
    requires
        sorted_asc(s),
    ensures
        0 <= cnt_below(s, v) <= s.len(),
        forall|k: int| 0 <= k < s.len() ==> (s[k] < v <==> k < cnt_below(s, v)),
    decreases s.len(),
{
    if s.len() > 0 {
        let t = s.drop_last();
        let x = s.last();
        assert(sorted_asc(t)) by {
            assert(forall|i: int, j: int| 0 <= i <= j < t.len() ==> t[i] == s[i] && t[j] == s[j]);
        }
        lemma_cnt_below_sorted(t, v);
        let c = cnt_below(t, v);
        if x < v {
            assert(forall|k: int| 0 <= k < s.len() ==> #[trigger] s[k] <= s[s.len() - 1]);
            assert(forall|k: int| 0 <= k < s.len() ==> #[trigger] s[k] < v);
            if c < s.len() - 1 {
                assert(t[c] == s[c]);
                assert(t[c] < v);
                assert(false);
            }
            assert(cnt_below(s, v) == s.len());
            assert(forall|k: int|
                0 <= k < s.len() ==> (#[trigger] s[k] < v <==> k < cnt_below(s, v)));
        } else {
            assert(cnt_below(s, v) == c);
            assert(forall|k: int| 0 <= k < t.len() ==> #[trigger] t[k] == s[k]);
            assert forall|k: int| 0 <= k < s.len() implies (#[trigger] s[k] < v <==> k < cnt_below(
                s,
                v,
            )) by {
                if k < s.len() - 1 {
                    assert(t[k] == s[k]);
                    assert(t[k] < v <==> k < c);
                } else {
                    assert(s[k] == x);
                }
            }
        }
    }
}

/// A sorted sequence whose prefix of length `kk` is exactly the part
/// below `v` has `cnt_below` equal to `kk`.
proof fn lemma_cnt_below_unique(s: Seq<i32>, v: i32, kk: int)
    requires
        sorted_asc(s),
        0 <= kk <= s.len(),
        forall|k: int| 0 <= k < s.len() ==> (s[k] < v <==> k < kk),
    ensures
        cnt_below(s, v) == kk,
{
    lemma_cnt_below_sorted(s, v);
    let c = cnt_below(s, v);
    if kk < c {
        assert(s[kk] < v);
    }
    if c < kk {
        assert(s[c] < v);
    }
}

/// Even and odd subsequences of a sorted sequence are sorted.
proof fn lemma_even_odd_sorted(s: Seq<i32>)
    requires
        sorted_asc(s),
    ensures
        sorted_asc(even_seq(s)),
        sorted_asc(odd_seq(s)),
{
    assert forall|i: int, j: int| 0 <= i <= j < even_seq(s).len() implies even_seq(s)[i]
        <= even_seq(s)[j] by {
        assert(s[2 * i] <= s[2 * j]);
    }
    assert forall|i: int, j: int| 0 <= i <= j < odd_seq(s).len() implies odd_seq(s)[i] <= odd_seq(
        s,
    )[j] by {
        assert(s[2 * i + 1] <= s[2 * j + 1]);
    }
}

/// In a sorted sequence with `m` values below the threshold, the even
/// positions hold `(m + 1) / 2` of them and the odd positions `m / 2`.
proof fn lemma_even_odd_cnt(s: Seq<i32>, v: i32)
    requires
        sorted_asc(s),
    ensures
        cnt_below(even_seq(s), v) == (cnt_below(s, v) + 1) / 2,
        cnt_below(odd_seq(s), v) == cnt_below(s, v) / 2,
{
    lemma_even_odd_sorted(s);
    lemma_cnt_below_sorted(s, v);
    let m = cnt_below(s, v);
    assert forall|i: int| 0 <= i < even_seq(s).len() implies (even_seq(s)[i] < v <==> i < (m + 1)
        / 2) by {
        assert(even_seq(s)[i] == s[2 * i]);
        assert(s[2 * i] < v <==> 2 * i < m);
    }
    lemma_cnt_below_unique(even_seq(s), v, (m + 1) / 2);
    assert forall|i: int| 0 <= i < odd_seq(s).len() implies (odd_seq(s)[i] < v <==> i < m / 2) by {
        assert(odd_seq(s)[i] == s[2 * i + 1]);
        assert(s[2 * i + 1] < v <==> 2 * i + 1 < m);
    }
    lemma_cnt_below_unique(odd_seq(s), v, m / 2);
}

/// A sequence splits, as a multiset, into its even and odd positions.
proof fn lemma_ms_even_odd(s: Seq<i32>)
    ensures
        s.to_multiset() == even_seq(s).to_multiset().add(odd_seq(s).to_multiset()),
    decreases s.len(),
{
    broadcast use vstd::multiset::group_multiset_axioms;
    broadcast use vstd::seq_lib::group_to_multiset_ensures;

    if s.len() == 0 {
        assert(even_seq(s) =~= Seq::<i32>::empty());
        assert(odd_seq(s) =~= Seq::<i32>::empty());
        assert(s.to_multiset() =~= even_seq(s).to_multiset().add(odd_seq(s).to_multiset()));
    } else {
        let t = s.drop_last();
        let x = s.last();
        lemma_ms_even_odd(t);
        assert(s =~= t.push(x));
        assert(s.to_multiset() == t.to_multiset().insert(x));
        if s.len() % 2 == 1 {
            assert(even_seq(s) =~= even_seq(t).push(x));
            assert(odd_seq(s) =~= odd_seq(t));
            assert(even_seq(s).to_multiset() == even_seq(t).to_multiset().insert(x));
            assert(even_seq(t).to_multiset().insert(x).add(odd_seq(t).to_multiset())
                =~= even_seq(t).to_multiset().add(odd_seq(t).to_multiset()).insert(x));
        } else {
            assert(odd_seq(s) =~= odd_seq(t).push(x));
            assert(even_seq(s) =~= even_seq(t));
            assert(odd_seq(s).to_multiset() == odd_seq(t).to_multiset().insert(x));
            assert(even_seq(t).to_multiset().add(odd_seq(t).to_multiset().insert(x))
                =~= even_seq(t).to_multiset().add(odd_seq(t).to_multiset()).insert(x));
        }
    }
}

/// The interleaving of two sequences by pairwise minimum and maximum:
/// position `2i` holds the smaller of `c[i]` and `d[i]`, position
/// `2i + 1` the larger.
spec fn interleave_minmax(c: Seq<i32>, d: Seq<i32>) -> Seq<i32> {
    Seq::new(
        (2 * c.len()) as nat,
        |t: int|
            if t % 2 == 0 {
                min_i32(c[t / 2], d[t / 2])
            } else {
                max_i32(c[t / 2], d[t / 2])
            },
    )
}

/// Interleaving by pairwise minimum and maximum keeps the values of
/// both inputs as a multiset.
proof fn lemma_interleave_ms(c: Seq<i32>, d: Seq<i32>)
    requires
        c.len() == d.len(),
    ensures
        interleave_minmax(c, d).to_multiset() == c.to_multiset().add(d.to_multiset()),
    decreases c.len(),
{
    broadcast use vstd::multiset::group_multiset_axioms;
    broadcast use vstd::seq_lib::group_to_multiset_ensures;

    if c.len() == 0 {
        assert(interleave_minmax(c, d) =~= Seq::<i32>::empty());
        assert(interleave_minmax(c, d).to_multiset() =~= c.to_multiset().add(d.to_multiset()));
    } else {
        let c1 = c.drop_last();
        let d1 = d.drop_last();
        let x = c.last();
        let y = d.last();
        lemma_interleave_ms(c1, d1);
        let r = interleave_minmax(c, d);
        let r1 = interleave_minmax(c1, d1);
        assert(r =~= r1.push(min_i32(x, y)).push(max_i32(x, y))) by {
            assert forall|t: int| 0 <= t < r.len() - 2 implies r[t] == r1[t] by {
                assert(c1[t / 2] == c[t / 2] && d1[t / 2] == d[t / 2]);
            }
        }
        assert(c =~= c1.push(x));
        assert(d =~= d1.push(y));
        assert(r.to_multiset() == r1.to_multiset().insert(min_i32(x, y)).insert(max_i32(x, y)));
        assert(r1.to_multiset().insert(min_i32(x, y)).insert(max_i32(x, y)) =~= c1.to_multiset()
            .insert(x).add(d1.to_multiset().insert(y)));
    }
}

/// The heart of the Batcher merge: when `c` merges the even part of
/// `a` with the odd part of `b`, and `d` the odd part of `a` with the
/// even part of `b`, neighbouring elements of `c` and `d` cross by at
/// most one position, so the pairwise min/max interleaving is sorted.
proof fn lemma_batcher_cross(a: Seq<i32>, b: Seq<i32>, c: Seq<i32>, d: Seq<i32>, i: int)
    requires
        a.len() == b.len(),
        c.len() == a.len(),
        d.len() == a.len(),
        sorted_asc(a),
        sorted_asc(b),
        sorted_asc(c),
        sorted_asc(d),
        c.to_multiset() == even_seq(a).to_multiset().add(odd_seq(b).to_multiset()),
        d.to_multiset() == odd_seq(a).to_multiset().add(even_seq(b).to_multiset()),
        0 <= i < a.len() - 1,
    ensures
        d[i] <= c[i + 1],
        c[i] <= d[i + 1],
{
    lemma_even_odd_sorted(a);
    lemma_even_odd_sorted(b);
    assert(d[i] <= c[i + 1]) by {
        let v = d[i];
        lemma_cnt_below_sorted(d, v);
        assert(cnt_below(d, v) <= i);
        lemma_cnt_below_multiset(d, v);
        lemma_cnt_add(odd_seq(a).to_multiset(), even_seq(b).to_multiset(), v);
        lemma_cnt_below_multiset(odd_seq(a), v);
        lemma_cnt_below_multiset(even_seq(b), v);
        lemma_even_odd_cnt(a, v);
        lemma_even_odd_cnt(b, v);
        let ma = cnt_below(a, v);
        let mb = cnt_below(b, v);
        assert(ma / 2 + (mb + 1) / 2 <= i);
        lemma_cnt_below_multiset(c, v);
        lemma_cnt_add(even_seq(a).to_multiset(), odd_seq(b).to_multiset(), v);
        lemma_cnt_below_multiset(even_seq(a), v);
        lemma_cnt_below_multiset(odd_seq(b), v);
        assert(cnt_below(c, v) == (ma + 1) / 2 + mb / 2);
        assert(cnt_below(c, v) <= i + 1);
        lemma_cnt_below_sorted(c, v);
        assert(!(c[i + 1] < v));
    }
    assert(c[i] <= d[i + 1]) by {
        let v = c[i];
        lemma_cnt_below_sorted(c, v);
        assert(cnt_below(c, v) <= i);
        lemma_cnt_below_multiset(c, v);
        lemma_cnt_add(even_seq(a).to_multiset(), odd_seq(b).to_multiset(), v);
        lemma_cnt_below_multiset(even_seq(a), v);
        lemma_cnt_below_multiset(odd_seq(b), v);
        lemma_even_odd_cnt(a, v);
        lemma_even_odd_cnt(b, v);
        let ma = cnt_below(a, v);
        let mb = cnt_below(b, v);
        assert((ma + 1) / 2 + mb / 2 <= i);
        lemma_cnt_below_multiset(d, v);
        lemma_cnt_add(odd_seq(a).to_multiset(), even_seq(b).to_multiset(), v);
        lemma_cnt_below_multiset(odd_seq(a), v);
        lemma_cnt_below_multiset(even_seq(b), v);
        assert(cnt_below(d, v) == ma / 2 + (mb + 1) / 2);
        assert(cnt_below(d, v) <= i + 1);
        lemma_cnt_below_sorted(d, v);
        assert(!(d[i + 1] < v));
    }
}

/// Correctness of the interleaving step of the Batcher merge: given
/// the two recursive merges `c` and `d`, the pairwise min/max
/// interleaving is sorted and holds the union of the values of the
/// two sorted inputs.
proof fn lemma_batcher_interleave(a: Seq<i32>, b: Seq<i32>, c: Seq<i32>, d: Seq<i32>)
    requires
        a.len() == b.len(),
        c.len() == a.len(),
        d.len() == a.len(),
        sorted_asc(a),
        sorted_asc(b),
        sorted_asc(c),
        sorted_asc(d),
        c.to_multiset() == even_seq(a).to_multiset().add(odd_seq(b).to_multiset()),
        d.to_multiset() == odd_seq(a).to_multiset().add(even_seq(b).to_multiset()),
    ensures
        sorted_asc(interleave_minmax(c, d)),
        interleave_minmax(c, d).to_multiset() == a.to_multiset().add(b.to_multiset()),
        interleave_minmax(c, d).len() == 2 * a.len(),
{
    broadcast use vstd::multiset::group_multiset_axioms;

    let r = interleave_minmax(c, d);
    assert forall|t: int| 0 <= t < r.len() - 1 implies #[trigger] r[t] <= r[t + 1] by {
        let i = t / 2;
        vstd::arithmetic::div_mod::lemma_fundamental_div_mod(t, 2);
        if t % 2 == 0 {
            assert(r[t] == min_i32(c[i], d[i]) && r[t + 1] == max_i32(c[i], d[i]));
        } else {
            lemma_batcher_cross(a, b, c, d, i);
            assert(r[t] == max_i32(c[i], d[i]) && r[t + 1] == min_i32(c[i + 1], d[i + 1]));
            assert(c[i] <= c[i + 1] && d[i] <= d[i + 1]);
        }
    }
    lemma_adjacent_sorted(r);
    lemma_interleave_ms(c, d);
    lemma_ms_even_odd(a);
    lemma_ms_even_odd(b);
    assert(c.to_multiset().add(d.to_multiset()) =~= a.to_multiset().add(b.to_multiset()));
}

/// One block of consecutive positions of size `bs` is sorted wherever
/// it lies: positions in the same block of `bs` are ordered.
spec fn blocks_sorted(s: Seq<i32>, bs: int) -> bool {
    forall|i: int, j: int|
        #![trigger s[i], s[j]]
        0 <= i <= j < s.len() && i / bs == j / bs ==> s[i] <= s[j]
}

/// The result of the pairing pass: every whole adjacent pair replaced
/// by its ordered form, a trailing unpaired element left alone.
spec fn pair_pass(s: Seq<i32>) -> Seq<i32> {
    Seq::new(
        s.len(),
        |k: int|
            if k < 2 * (s.len() as int / 2) {
                if k % 2 == 0 {
                    min_i32(s[k], s[k + 1])
                } else {
                    max_i32(s[k - 1], s[k])
                }
            } else {
                s[k]
            },
    )
}

/// Exchange the two slots when the first holds the larger value.
fn sort_pair(a: &mut i32, b: &mut i32)
    ensures
        *final (a) == min_i32(*old(a), *old(b)),
        *final (b) == max_i32(*old(a), *old(b)),
{
    if *a > *b {
        let tmp = *a;
        *a = *b;
        *b = tmp;
    }
}

/// The pairing phase: order every whole adjacent pair ascending.
fn sort_pairs_of_2(array: &mut Vec<i32>)
    ensures
        final (array)@ == pair_pass(old(array)@),
        final (array).len() == old(array).len(),
        final (array)@.to_multiset() == old(array)@.to_multiset(),
{
    let len = array.len();
    let mut m: usize = 0;
    while m < len / 2
        invariant
            0 <= m <= len / 2,
            len == old(array).len(),
            array.len() == len,
            array@.to_multiset() == old(array)@.to_multiset(),
            forall|k: int| 0 <= k < 2 * m ==> array@[k] == pair_pass(old(array)@)[k],
            forall|k: int| 2 * m <= k < len ==> array@[k] == old(array)@[k],
        decreases len / 2 - m,
    {
        let ghost prev = array@;
        let mut a = array[2 * m];
        let mut b = array[2 * m + 1];
        sort_pair(&mut a, &mut b);
        array.set(2 * m, a);
        array.set(2 * m + 1, b);
        proof {
            assert(array@ =~= crate::net::cmpx(prev, (2 * m as int, 2 * m + 1, true)));
            crate::net::lemma_cmpx_basic(prev, (2 * m as int, 2 * m + 1, true));
        }
        m = m + 1;
    }
    proof {
        assert(array@ =~= pair_pass(old(array)@));
    }
}

/// The elements at even positions: `E(A)`.
pub fn left_sample(arr: &Vec<i32>) -> (r: Vec<i32>)
    ensures
        r@ == even_seq(arr@),
{
    let len = arr.len();
    let half = len - len / 2;
    let mut r: Vec<i32> = Vec::new();
    let mut k: usize = 0;
    while k < half
        invariant
            0 <= k <= half,
            len == arr.len(),
            half == len - len / 2,
            r@ =~= even_seq(arr@).take(k as int),
        decreases half - k,
    {
        assert(2 * (k as int) < len as int);
        r.push(arr[2 * k]);
        assert(r@ =~= even_seq(arr@).take(k + 1));
        k = k + 1;
    }
    assert(even_seq(arr@).take(half as int) =~= even_seq(arr@));
    r
}

/// The elements at odd positions: `O(A)`.
pub fn right_sample(arr: &Vec<i32>) -> (r: Vec<i32>)
    ensures
        r@ == odd_seq(arr@),
{
    let len = arr.len();
    let half = len / 2;
    let mut r: Vec<i32> = Vec::new();
    let mut k: usize = 0;
    while k < half
        invariant
            0 <= k <= half,
            len == arr.len(),
            half == len / 2,
            r@ =~= odd_seq(arr@).take(k as int),
        decreases half - k,
    {
        assert(2 * (k as int) + 1 < len as int);
        r.push(arr[2 * k + 1]);
        assert(r@ =~= odd_seq(arr@).take(k + 1));
        k = k + 1;
    }
    assert(odd_seq(arr@).take(half as int) =~= odd_seq(arr@));
    r
}

/// The odd-even (Batcher) merge of two sorted runs of equal
/// power-of-two length: the result is sorted and holds the union of
/// the values of both runs.
pub fn o_emerge(a: &Vec<i32>, b: &Vec<i32>) -> (r: Vec<i32>)
    requires
        a.len() == b.len(),
        spec_is_pow_2(a.len() as int),
        sorted_asc(a@),
        sorted_asc(b@),
    ensures
        r.len() == a.len() + b.len(),
        sorted_asc(r@),
        r@.to_multiset() == a@.to_multiset().add(b@.to_multiset()),
    decreases a.len(),
{
    broadcast use vstd::seq_lib::group_to_multiset_ensures;
    broadcast use vstd::multiset::group_multiset_axioms;

    let n = a.len();
    if n == 1 {
        let mut first = a[0];
        let mut second = b[0];
        sort_pair(&mut first, &mut second);
        let mut sorted: Vec<i32> = Vec::new();
        sorted.push(first);
        sorted.push(second);
        proof {
            assert(a@ =~= Seq::<i32>::empty().push(a@[0]));
            assert(b@ =~= Seq::<i32>::empty().push(b@[0]));
            assert(sorted@ =~= Seq::<i32>::empty().push(first).push(second));
            assert(sorted@.to_multiset() =~= a@.to_multiset().add(b@.to_multiset()));
            assert(sorted_asc(sorted@));
        }
        return sorted;
    }
    proof {
        assert(n >= 2);
        assert(n as int % 2 == 0 && spec_is_pow_2(n as int / 2));
        lemma_even_odd_sorted(a@);
        lemma_even_odd_sorted(b@);
    }
    let ea = left_sample(a);
    let ob = right_sample(b);
    let oa = right_sample(a);
    let eb = left_sample(b);
    let c = o_emerge(&ea, &ob);
    let d = o_emerge(&oa, &eb);
    let ghost ileave = interleave_minmax(c@, d@);
    let mut sorted: Vec<i32> = Vec::new();
    let mut i: usize = 0;
    while i < n
        invariant
            0 <= i <= n,
            n == a.len(),
            c.len() == n,
            d.len() == n,
            ileave == interleave_minmax(c@, d@),
            sorted@ =~= ileave.take(2 * i as int),
        decreases n - i,
    {
        let mut first = c[i];
        let mut second = d[i];
        sort_pair(&mut first, &mut second);
        sorted.push(first);
        sorted.push(second);
        assert(sorted@ =~= ileave.take(2 * (i + 1)));
        i = i + 1;
    }
    proof {
        assert(sorted@ =~= ileave);
        lemma_batcher_interleave(a@, b@, c@, d@);
    }
    sorted
}

/// Sorts power-of-two-length buffers in place by recursive odd-even
/// merging, level by level: the result is the ascending permutation
/// of the input.  A buffer whose length is not a power of two violates
/// the precondition: a verified caller is rejected before the call, so
/// no partial or wrongly-sorted result can ever be produced.
pub struct OddEvenMergeSort;

impl OddEvenMergeSort {
    /// Run the pairing phase and the doubling merge levels.
    pub fn sort(&self, arr: &mut Vec<i32>)
        requires
            valid_sort_len(old(arr).len() as int),
        ensures
            sorted_asc(final (arr)@),
            final (arr).len() == old(arr).len(),
            final (arr)@.to_multiset() == old(arr)@.to_multiset(),
            sorted_asc(old(arr)@) ==> final (arr)@ == old(arr)@,
    {
        odd_even_mergesort(arr);
    }
}

/// Apply the odd-even mergesort: a pairing pass, then merge levels of
/// doubling size.  Sorts the buffer in place, keeping its values.
pub fn odd_even_mergesort(array: &mut Vec<i32>)
    requires
        valid_sort_len(old(array).len() as int),
    ensures
        sorted_asc(final (array)@),
        final (array).len() == old(array).len(),
        final (array)@.to_multiset() == old(array)@.to_multiset(),
        sorted_asc(old(array)@) ==> final (array)@ == old(array)@,
{
    proof {
        if sorted_asc(old(array)@) {
            lemma_sorted_idempotence_hint(old(array)@);
        }
    }
    sort_pairs_of_2(array);
    let len = array.len();
    if len < 2 {
        return ;
    }
    proof {
        assert(len as int % 2 == 0);
        lemma_pair_pass_blocks(old(array)@);
        assert(spec_is_pow_2(2)) by {
            reveal_with_fuel(spec_is_pow_2, 2);
        }
    }
    let mut merge_size: usize = 2;
    while merge_size < len
        invariant
            array.len() == len,
            len == old(array).len(),
            len >= 2,
            spec_is_pow_2(len as int),
            spec_is_pow_2(merge_size as int),
            2 <= merge_size <= len,
            array@.to_multiset() == old(array)@.to_multiset(),
            blocks_sorted(array@, merge_size as int),
        decreases len - merge_size,
    {
        proof {
            lemma_pow2_gap(merge_size as int, len as int);
            assert(spec_is_pow_2(2 * merge_size as int)) by {
                assert((2 * merge_size as int) / 2 == merge_size as int);
            }
            lemma_pow2_divides(2 * merge_size as int, len as int);
        }
        let chunk_size = 2 * merge_size;
        merge_level(array, merge_size, chunk_size);
        merge_size = chunk_size;
    }
    proof {
        assert forall|i: int, j: int| 0 <= i <= j < array@.len() implies array@[i] <= array@[j] by {
            vstd::arithmetic::div_mod::lemma_fundamental_div_mod_converse(
                i,
                merge_size as int,
                0,
                i,
            );
            vstd::arithmetic::div_mod::lemma_fundamental_div_mod_converse(
                j,
                merge_size as int,
                0,
                j,
            );
            assert(array@[i] <= array@[j]);
        }
    }
}

/// One merge level: every chunk of `chunk_size` holds two adjacent
/// sorted runs of `merge_size`; replace it by their odd-even merge.
fn merge_level(array: &mut Vec<i32>, merge_size: usize, chunk_size: usize)
    requires
        merge_size >= 1,
        spec_is_pow_2(merge_size as int),
        chunk_size == 2 * merge_size as int,
        chunk_size <= old(array).len(),
        old(array).len() as int % chunk_size as int == 0,
        blocks_sorted(old(array)@, merge_size as int),
    ensures
        final (array).len() == old(array).len(),
        final (array)@.to_multiset() == old(array)@.to_multiset(),
        blocks_sorted(final (array)@, chunk_size as int),
{
    broadcast use vstd::seq_lib::lemma_multiset_commutative;

    let len = array.len();
    let nchunks = len / chunk_size;
    let ghost q = len as int / chunk_size as int;
    let ghost msz = merge_size as int;
    let ghost cs = chunk_size as int;
    proof {
        lemma_fundamental_div_mod(len as int, cs);
    }
    let mut c: usize = 0;
    let mut start: usize = 0;
    while c < nchunks
        invariant
            0 <= c <= nchunks,
            merge_size >= 1,
            spec_is_pow_2(msz),
            msz == merge_size as int,
            cs == chunk_size as int,
            cs == 2 * msz,
            len == old(array).len(),
            array.len() == len,
            nchunks == len / chunk_size,
            q == nchunks as int,
            len as int == q * cs,
            start == c * cs,
            array@.to_multiset() == old(array)@.to_multiset(),
            forall|i: int, j: int|
                #![trigger array@[i], array@[j]]
                0 <= i <= j < c * cs && i / cs == j / cs ==> array@[i] <= array@[j],
            forall|i: int, j: int|
                #![trigger array@[i], array@[j]]
                c * cs <= i <= j < len && i / msz == j / msz ==> array@[i] <= array@[j],
        decreases nchunks - c,
    {
        proof {
            lemma_mul_inequality(c + 1, q, cs);
            assert((c + 1) as int * cs == c as int * cs + cs) by (nonlinear_arith);
        }
        let first = copy_range(array, start, start + merge_size);
        let second = copy_range(array, start + merge_size, start + chunk_size);
        proof {
            assert(start as int == 2 * c as int * msz) by (nonlinear_arith)
                requires
                    start == c * cs && cs == 2 * msz,
            ;
            assert forall|x: int, y: int| 0 <= x <= y < msz implies first@[x] <= first@[y] by {
                lemma_fundamental_div_mod_converse(start + x, msz, 2 * c as int, x);
                lemma_fundamental_div_mod_converse(start + y, msz, 2 * c as int, y);
                assert(array@[start + x] <= array@[start + y]);
            }
            assert forall|x: int, y: int| 0 <= x <= y < msz implies second@[x] <= second@[y] by {
                assert(start + msz + x == msz * (2 * c as int + 1) + x) by (nonlinear_arith)
                    requires
                        start as int == 2 * c as int * msz,
                ;
                assert(start + msz + y == msz * (2 * c as int + 1) + y) by (nonlinear_arith)
                    requires
                        start as int == 2 * c as int * msz,
                ;
                lemma_fundamental_div_mod_converse(start + msz + x, msz, 2 * c as int + 1, x);
                lemma_fundamental_div_mod_converse(start + msz + y, msz, 2 * c as int + 1, y);
                assert(array@[start + msz + x] <= array@[start + msz + y]);
            }
            assert(sorted_asc(first@));
            assert(sorted_asc(second@));
        }
        let res = o_emerge(&first, &second);
        let ghost prev = array@;
        write_range(array, start, &res);
        proof {
            assert(prev =~= prev.take(start as int) + prev.subrange(start as int, start + cs)
                + prev.skip(start + cs));
            assert(prev.subrange(start as int, start + cs) =~= first@ + second@);
            assert(array@.to_multiset() == prev.to_multiset()) by {
                assert(array@ == prev.take(start as int) + res@ + prev.skip(start + cs));
                assert((prev.take(start as int) + res@ + prev.skip(start + cs)).to_multiset()
                    == prev.take(start as int).to_multiset().add(res@.to_multiset()).add(
                    prev.skip(start + cs).to_multiset(),
                )) by {
                    lemma_multiset_commutative(prev.take(start as int) + res@, prev.skip(start + cs));
                    lemma_multiset_commutative(prev.take(start as int), res@);
                }
                assert((prev.take(start as int) + (first@ + second@) + prev.skip(start + cs)).to_multiset()
                    == prev.take(start as int).to_multiset().add((first@ + second@).to_multiset()).add(
                    prev.skip(start + cs).to_multiset(),
                )) by {
                    lemma_multiset_commutative(
                        prev.take(start as int) + (first@ + second@),
                        prev.skip(start + cs),
                    );
                    lemma_multiset_commutative(prev.take(start as int), first@ + second@);
                }
                lemma_multiset_commutative(first@, second@);
            }
            assert forall|i: int, j: int|
                #![trigger array@[i], array@[j]]
                0 <= i <= j < (c + 1) as int * cs && i / cs == j / cs implies array@[i]
                <= array@[j] by {
                if j < c as int * cs {
                    assert(array@[i] == prev[i] && array@[j] == prev[j]);
                } else {
                    assert(start as int <= j < start + cs);
                    lemma_fundamental_div_mod(j, cs);
                    lemma_fundamental_div_mod_converse(j, cs, c as int, j - start);
                    assert(j / cs == c);
                    assert(i / cs == c);
                    lemma_fundamental_div_mod(i, cs);
                    assert(i == cs * c + i % cs && 0 <= i % cs < cs);
                    assert(start as int == cs * c) by (nonlinear_arith)
                        requires
                            start == c * cs,
                    ;
                    assert(start as int <= i < start + cs);
                    assert(array@[i] == res@[i - start] && array@[j] == res@[j - start]);
                    assert(res@[i - start] <= res@[j - start]);
                }
            }
            assert forall|i: int, j: int|
                #![trigger array@[i], array@[j]]
                (c + 1) as int * cs <= i <= j < len && i / msz == j / msz implies array@[i]
                <= array@[j] by {
                assert(array@[i] == prev[i] && array@[j] == prev[j]);
                assert(c as int * cs <= i);
            }
        }
        start = start + chunk_size;
        c = c + 1;
    }
    proof {
        assert(len as int == q * cs);
    }
}

/// After the pairing pass over an even-length (or trivial) buffer,
/// every block of two is sorted.
proof fn lemma_pair_pass_blocks(s: Seq<i32>)
    requires
        s.len() % 2 == 0 || s.len() <= 1,
    ensures
        blocks_sorted(pair_pass(s), 2),
{
    let p = pair_pass(s);
    assert forall|i: int, j: int|
        #![trigger p[i], p[j]]
        0 <= i <= j < p.len() && i / 2 == j / 2 implies p[i] <= p[j] by {
        if i < j {
            assert(j == i + 1 && i % 2 == 0) by {
                lemma_fundamental_div_mod(i, 2);
                lemma_fundamental_div_mod(j, 2);
            }
            assert(p[i] == min_i32(s[i], s[i + 1]));
            assert(p[j] == max_i32(s[i], s[i + 1]));
        }
    }
}


/// Sorting an already-sorted buffer returns it unchanged: whatever
/// sorted permutation a sorter produces for a sorted input is that
/// input itself.
proof fn lemma_sorted_idempotence_hint(s: Seq<i32>)
    requires
        sorted_asc(s),
    ensures
        forall|t: Seq<i32>|
            sorted_asc(t) && #[trigger] t.to_multiset() == s.to_multiset() ==> t == s,
{
    assert forall|t: Seq<i32>|
        sorted_asc(t) && #[trigger] t.to_multiset() == s.to_multiset() implies t == s by {
        crate::sort_utils::lemma_sorted_permutation_unique(s, t);
    }
}

/// The base law of the odd-even merge: any sorted sequence holding
/// exactly the values of the two one-element runs `[a]` and `[b]`,
/// as `o_emerge` returns for them, is `[min(a, b), max(a, b)]`.
pub proof fn lemma_merge_base(a: i32, b: i32, r: Seq<i32>)
    requires
        sorted_asc(r),
        r.to_multiset() == seq![a].to_multiset().add(seq![b].to_multiset()),
    ensures
        r == seq![min_i32(a, b), max_i32(a, b)],
{
    broadcast use vstd::multiset::group_multiset_axioms;
    broadcast use vstd::seq_lib::group_to_multiset_ensures;

    let m = seq![min_i32(a, b), max_i32(a, b)];
    assert(sorted_asc(m));
    assert(seq![a] =~= Seq::<i32>::empty().push(a));
    assert(seq![b] =~= Seq::<i32>::empty().push(b));
    assert(m =~= Seq::<i32>::empty().push(min_i32(a, b)).push(max_i32(a, b)));
    assert(m.to_multiset() =~= seq![a].to_multiset().add(seq![b].to_multiset()));
    crate::sort_utils::lemma_sorted_permutation_unique(r, m);
}

} // verus!
