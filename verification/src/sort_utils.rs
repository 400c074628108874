//! The pair-exchange primitive, the ordering tag, the chunk splitters,
//! and the sortedness / power-of-two validators shared by every
//! algorithm.

use vstd::prelude::*;

use crate::net::{apply_ops, cmpx, max_i32, min_i32, ops_in_range, CmpOp};
use crate::net::{lemma_apply_ops_basic, lemma_apply_ops_push};

verus! {

/// Ordering direction for one compare-exchange: `Greater` requests an
/// ascending pair (swap when the left value is greater), `Less` a
/// descending pair (swap when the left value is less).
#[derive(Copy, Clone)]
pub enum SortType {
    Greater,
    Less,
}

/// True when the tag requests an ascending pair.
pub open spec fn is_ascending(t: SortType) -> bool {
    t is Greater
}

impl SortType {
    /// The opposite direction tag.
    pub fn neg(&self) -> (r: SortType)
        ensures
            is_ascending(r) == !is_ascending(*self),
    {
        match self {
            SortType::Greater => SortType::Less,
            SortType::Less => SortType::Greater,
        }
    }
}

/// Compare two slots and exchange their contents when they violate the
/// requested order; the atomic building block of every network stage.
pub fn sort_pair(a: &mut i32, sort_type: SortType, b: &mut i32)
    ensures
        is_ascending(sort_type) ==> *final(a) == min_i32(*old(a), *old(b)) && *final(b) == max_i32(
            *old(a),
            *old(b),
        ),
        !is_ascending(sort_type) ==> *final(a) == max_i32(*old(a), *old(b)) && *final(b) == min_i32(
            *old(a),
            *old(b),
        ),
{
    let swap = match sort_type {
        SortType::Greater => *a > *b,
        SortType::Less => *a < *b,
    };
    if swap {
        let tmp = *a;
        *a = *b;
        *b = tmp;
    }
}

/// Ascending sortedness of a sequence of values.
pub open spec fn sorted_asc(s: Seq<i32>) -> bool {
    forall|i: int, j: int| 0 <= i <= j < s.len() ==> s[i] <= s[j]
}

/// True exactly when no element is smaller than the one before it.
pub fn is_sorted(elems: &Vec<i32>) -> (r: bool)
    ensures
        r == sorted_asc(elems@),
{
    let mut previous = i32::MIN;
    let mut i: usize = 0;
    while i < elems.len()
        invariant
            0 <= i <= elems.len(),
            forall|p: int, q: int| 0 <= p <= q < i ==> elems@[p] <= elems@[q],
            previous == if i == 0 {
                i32::MIN
            } else {
                elems@[i - 1]
            },
        decreases elems.len() - i,
    {
        if elems[i] < previous {
            assert(!sorted_asc(elems@)) by {
                assert(elems@[i - 1] > elems@[i as int]);
            }
            return false;
        }
        assert(forall|p: int| 0 <= p < i ==> #[trigger] elems@[p] <= elems@[i as int]) by {
            assert(forall|p: int| 0 <= p < i ==> #[trigger] elems@[p] <= elems@[i - 1]);
        }
        previous = elems[i];
        i = i + 1;
    }
    true
}

/// Mathematical power-of-two test: true exactly on 1, 2, 4, 8, ...
pub open spec fn spec_is_pow_2(n: int) -> bool
    decreases n,
{
    if n < 1 {
        false
    } else if n == 1 {
        true
    } else {
        n % 2 == 0 && spec_is_pow_2(n / 2)
    }
}

/// The bit trick `n & (n - 1) == 0` detects powers of two (and zero).
proof fn lemma_pow2_bit(n: usize, m: usize)
    requires
        n >= 1,
        m == n - 1,
    ensures
        ((n & m) == 0) <==> spec_is_pow_2(n as int),
    decreases n,
{
    if n == 1 {
        assert((n & m) == 0) by (bit_vector)
            requires
                n == 1 && m == 0,
        ;
    } else {
        let h = (n / 2) as usize;
        let hm = (h - 1) as usize;
        assert(((n & m) == 0) <==> (n % 2 == 0 && (h & hm) == 0)) by (bit_vector)
            requires
                n >= 2 && m == n - 1 && h == n / 2 && hm == h - 1,
        ;
        lemma_pow2_bit(h, hm);
    }
}

/// The length classes the sorting networks accept: zero or an exact
/// power of two.
pub open spec fn valid_sort_len(n: int) -> bool {
    n == 0 || spec_is_pow_2(n)
}

/// Between a power of two and a strictly larger one lies a factor of
/// two.
pub proof fn lemma_pow2_gap(x: int, y: int)
    requires
        spec_is_pow_2(x),
        spec_is_pow_2(y),
        x < y,
    ensures
        2 * x <= y,
        x <= y / 2,
    decreases x,
{
    if x == 1 {
        assert(y % 2 == 0 && y >= 2);
    } else {
        lemma_pow2_gap(x / 2, y / 2);
    }
}

/// A smaller power of two divides a larger one.
pub proof fn lemma_pow2_divides(a: int, b: int)
    requires
        spec_is_pow_2(a),
        spec_is_pow_2(b),
        a <= b,
    ensures
        b % a == 0,
    decreases b,
{
    if a == b {
        vstd::arithmetic::div_mod::lemma_mod_multiples_basic(1, a);
        assert(1 * a == a) by (nonlinear_arith);
    } else {
        lemma_pow2_gap(a, b);
        lemma_pow2_divides(a, b / 2);
        let q = (b / 2) / a;
        vstd::arithmetic::div_mod::lemma_fundamental_div_mod(b / 2, a);
        vstd::arithmetic::div_mod::lemma_fundamental_div_mod(b, 2);
        assert(b == (2 * q) * a) by (nonlinear_arith)
            requires
                b / 2 == a * q + 0 && b == 2 * (b / 2),
        ;
        vstd::arithmetic::div_mod::lemma_mod_multiples_basic(2 * q, a);
    }
}

/// Reports whether the length class is acceptable to the sorting
/// networks: zero or an exact power of two.
pub fn is_pow_2(elem: usize) -> (r: bool)
    ensures
        r == (elem == 0 || spec_is_pow_2(elem as int)),
{
    let mut on = elem;
    if on > 0 {
        let m = on - 1;
        proof {
            lemma_pow2_bit(elem, m);
        }
        on = on & m;
    }
    on == 0
}

/// Copy of the elements of `v` at positions `s..e`, in order.
pub(crate) fn copy_range(v: &Vec<i32>, s: usize, e: usize) -> (r: Vec<i32>)
    requires
        s <= e <= v.len(),
    ensures
        r@ == v@.subrange(s as int, e as int),
{
    let mut r: Vec<i32> = Vec::new();
    let mut i: usize = s;
    while i < e
        invariant
            s <= i <= e <= v.len(),
            r@ =~= v@.subrange(s as int, i as int),
        decreases e - i,
    {
        r.push(v[i]);
        assert(r@ =~= v@.subrange(s as int, i + 1));
        i = i + 1;
    }
    r
}

/// Overwrite the elements of `v` at positions `s..s + vals.len()` with
/// the elements of `vals`, leaving the rest of `v` unchanged.
pub(crate) fn write_range(v: &mut Vec<i32>, s: usize, vals: &Vec<i32>)
    requires
        s + vals.len() <= old(v).len(),
    ensures
        final (v)@ =~= old(v)@.take(s as int) + vals@ + old(v)@.skip(s + vals.len()),
        final (v).len() == old(v).len(),
{
    let mut i: usize = 0;
    while i < vals.len()
        invariant
            0 <= i <= vals.len(),
            s + vals.len() <= v.len(),
            v.len() == old(v).len(),
            forall|k: int| 0 <= k < s ==> v@[k] == old(v)@[k],
            forall|k: int| 0 <= k < i ==> v@[s + k] == vals@[k],
            forall|k: int| s + vals.len() <= k < v.len() ==> v@[k] == old(v)@[k],
            forall|k: int| s + i <= k < v.len() ==> v@[k] == old(v)@[k],
        decreases vals.len() - i,
    {
        v.set(s + i, vals[i]);
        i = i + 1;
    }
}

/// Copies of the two halves of the input, which must split evenly.
pub fn split(input: &Vec<i32>) -> (r: (Vec<i32>, Vec<i32>))
    requires
        input.len() % 2 == 0,
    ensures
        r.0@ == input@.take(input.len() as int / 2),
        r.1@ == input@.skip(input.len() as int / 2),
        input@ == r.0@ + r.1@,
{
    let half_len = input.len() / 2;
    let first = copy_range(input, 0, half_len);
    let second = copy_range(input, half_len, input.len());
    assert(first@ =~= input@.take(half_len as int));
    assert(second@ =~= input@.skip(half_len as int));
    assert(input@ =~= first@ + second@);
    (first, second)
}

/// Split the buffer in half in place: the first half stays, the second
/// half is moved out and returned.  The buffer must split evenly.
pub fn split_mut(input: &mut Vec<i32>) -> (r: Vec<i32>)
    requires
        old(input).len() % 2 == 0,
    ensures
        final (input)@ == old(input)@.take(old(input).len() as int / 2),
        r@ == old(input)@.skip(old(input).len() as int / 2),
{
    let half_len = input.len() / 2;
    input.split_off(half_len)
}

/// A sequence whose neighbours are ordered is sorted.
pub proof fn lemma_adjacent_sorted(s: Seq<i32>)
    requires
        forall|t: int| 0 <= t < s.len() - 1 ==> #[trigger] s[t] <= s[t + 1],
    ensures
        sorted_asc(s),
{
    assert forall|i: int, j: int| 0 <= i <= j < s.len() implies s[i] <= s[j] by {
        lemma_le_chain(s, i, j);
    }
}

/// Transitive chain of neighbour inequalities.
proof fn lemma_le_chain(s: Seq<i32>, i: int, j: int)
    requires
        forall|t: int| 0 <= t < s.len() - 1 ==> #[trigger] s[t] <= s[t + 1],
        0 <= i <= j < s.len(),
    ensures
        s[i] <= s[j],
    decreases j - i,
{
    if i < j {
        lemma_le_chain(s, i, j - 1);
        assert(s[j - 1] <= s[j]);
    }
}

/// A sorted permutation is unique: two ascending-sorted sequences
/// that hold the same values are the same sequence.  In particular a
/// sorter whose result is a sorted permutation of its input, as the
/// sorters of this crate ensure, returns an already-sorted buffer
/// unchanged.
pub proof fn lemma_sorted_permutation_unique(s: Seq<i32>, t: Seq<i32>)
    requires
        sorted_asc(s),
        sorted_asc(t),
        s.to_multiset() == t.to_multiset(),
    ensures
        s == t,
{
    let leq = |x: i32, y: i32| x <= y;
    assert(vstd::relations::sorted_by(s, leq));
    assert(vstd::relations::sorted_by(t, leq));
    assert(vstd::relations::total_ordering(leq)) by {
        assert(vstd::relations::reflexive(leq)) by {
            assert(forall|x: i32| #[trigger] leq(x, x));
        }
        assert(vstd::relations::antisymmetric(leq)) by {
            assert(forall|x: i32, y: i32| #[trigger] leq(x, y) && #[trigger] leq(y, x) ==> x == y);
        }
        assert(vstd::relations::transitive(leq)) by {
            assert(forall|x: i32, y: i32, z: i32|
                #[trigger] leq(x, y) && #[trigger] leq(y, z) ==> leq(x, z));
        }
        assert(vstd::relations::connected(leq)) by {
            assert(forall|x: i32, y: i32| #[trigger] leq(x, y) || #[trigger] leq(y, x));
        }
    }
    vstd::seq_lib::lemma_sorted_unique(s, t, leq);
    assert(s =~= t);
}

/// The network of one pairing pass: position `2k` against `2k + 1`
/// for every adjacent pair, all in the same direction.
pub open spec fn pairs_net(len: int, asc: bool) -> Seq<CmpOp> {
    Seq::new((len / 2) as nat, |k: int| (2 * k, 2 * k + 1, asc))
}

/// Order every adjacent pair of the buffer in the requested direction,
/// one independent compare-exchange per pair.  The buffer must consist
/// of whole pairs.
pub fn sort_pairs_of_2(array: &mut Vec<i32>, sort_type: SortType)
    requires
        old(array).len() % 2 == 0,
    ensures
        final (array)@ == apply_ops(old(array)@, pairs_net(old(array).len() as int, is_ascending(sort_type))),
        final (array).len() == old(array).len(),
        final (array)@.to_multiset() == old(array)@.to_multiset(),
{
    let ghost net = pairs_net(old(array).len() as int, is_ascending(sort_type));
    let len = array.len();
    let mut k: usize = 0;
    while k < len / 2
        invariant
            0 <= k <= len / 2,
            len == old(array).len(),
            len % 2 == 0,
            array.len() == len,
            net == pairs_net(len as int, is_ascending(sort_type)),
            array@ == apply_ops(old(array)@, net.take(k as int)),
        decreases len / 2 - k,
    {
        let ghost prev = array@;
        let mut a = array[2 * k];
        let mut b = array[2 * k + 1];
        sort_pair(&mut a, sort_type, &mut b);
        array.set(2 * k, a);
        array.set(2 * k + 1, b);
        proof {
            assert(array@ =~= cmpx(prev, net[k as int]));
            lemma_apply_ops_push(old(array)@, net.take(k as int), net[k as int]);
            assert(net.take(k as int).push(net[k as int]) =~= net.take(k + 1));
        }
        k = k + 1;
    }
    proof {
        assert(net.take((len / 2) as int) =~= net);
        assert(ops_in_range(net, len as int));
        lemma_apply_ops_basic(old(array)@, net);
    }
}

} // verus!
