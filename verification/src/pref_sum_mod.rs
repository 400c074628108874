//! The two-phase parallel prefix sum: local per-chunk totals, a serial
//! scan over the chunk totals, and a per-chunk re-scan seeded with the
//! exclusive prefix of its chunk.  After the last phase, index `i`
//! holds the sum of the original elements up to and including `i`.

use vstd::prelude::*;

use crate::sort_utils::{copy_range, write_range};
use vstd::arithmetic::div_mod::lemma_fundamental_div_mod;
use vstd::arithmetic::mul::lemma_mul_inequality;

verus! {

/// The mathematical sum of a sequence of values.
pub open spec fn sum_int(s: Seq<i32>) -> int
    decreases s.len(),
{
    if s.len() == 0 {
        0
    } else {
        sum_int(s.drop_last()) + s.last()
    }
}

/// Sums add over concatenation.
pub proof fn lemma_sum_concat(a: Seq<i32>, b: Seq<i32>)
    ensures
        sum_int(a + b) == sum_int(a) + sum_int(b),
    decreases b.len(),
{
    if b.len() == 0 {
        assert(a + b =~= a);
    } else {
        assert((a + b).drop_last() =~= a + b.drop_last());
        assert((a + b).last() == b.last());
        lemma_sum_concat(a, b.drop_last());
    }
}

/// Exactly the running totals the chunked algorithm forms fit the
/// scalar type: every prefix of the whole buffer, and every partial
/// sum within one chunk, taken from the chunk's start.  With one chunk
/// this says no more than that every prefix sum fits.
pub open spec fn chunk_sums_fit(s: Seq<i32>, cs: int) -> bool {
    forall|a: int, b: int|
        0 <= a <= b <= s.len() && a % cs == 0 && (a == 0 || b <= a + cs) ==> i32::MIN
            <= #[trigger] sum_int(s.subrange(a, b)) <= i32::MAX
}

/// A take is a subrange from zero.
proof fn lemma_take_is_subrange(s: Seq<i32>, m: int)
    requires
        0 <= m <= s.len(),
    ensures
        s.take(m) == s.subrange(0, m),
{
    assert(s.take(m) =~= s.subrange(0, m));
}

/// Extending a prefix by one element adds that element to its sum.
proof fn lemma_sum_take_step(s: Seq<i32>, m: int)
    requires
        0 <= m < s.len(),
    ensures
        sum_int(s.take(m + 1)) == sum_int(s.take(m)) + s[m],
{
    assert(s.take(m + 1).drop_last() =~= s.take(m));
    assert(s.take(m + 1).last() == s[m]);
}

/// Replace every element by the running total, starting from
/// `init_on`: index `i` ends up holding `init_on` plus the sum of the
/// original elements up to and including `i`.  The caller guarantees
/// that every running total fits the scalar type.
pub fn pref_sum_seq(vec: &mut Vec<i32>, init_on: i32)
    requires
        forall|j: int|
            1 <= j <= old(vec).len() ==> i32::MIN <= init_on + #[trigger] sum_int(
                old(vec)@.take(j),
            ) <= i32::MAX,
    ensures
        final (vec).len() == old(vec).len(),
        forall|i: int|
            0 <= i < old(vec).len() ==> final (vec)@[i] == init_on + sum_int(
                old(vec)@.take(i + 1),
            ),
{
    let mut on = init_on;
    let len = vec.len();
    let mut i: usize = 0;
    while i < len
        invariant
            0 <= i <= len,
            len == old(vec).len(),
            vec.len() == len,
            on == init_on + sum_int(old(vec)@.take(i as int)),
            forall|j: int|
                1 <= j <= len ==> i32::MIN <= init_on + #[trigger] sum_int(old(vec)@.take(j))
                    <= i32::MAX,
            forall|k: int| 0 <= k < i ==> vec@[k] == init_on + sum_int(old(vec)@.take(k + 1)),
            forall|k: int| i <= k < len ==> vec@[k] == old(vec)@[k],
        decreases len - i,
    {
        proof {
            lemma_sum_take_step(old(vec)@, i as int);
            assert(old(vec)@.take(0int) =~= Seq::<i32>::empty());
        }
        on = on + vec[i];
        vec.set(i, on);
        i = i + 1;
    }
}

/// The first `j` chunk totals sum to the prefix of the original up to
/// the end of chunk `j`.
proof fn lemma_chunk_sums_prefix(orig: Seq<i32>, sums: Seq<i32>, cs: int, j: int)
    requires
        cs >= 1,
        0 <= j <= sums.len(),
        sums.len() * cs <= orig.len(),
        forall|k: int|
            0 <= k < sums.len() ==> #[trigger] sums[k] == sum_int(
                orig.subrange(k * cs, k * cs + cs),
            ),
    ensures
        sum_int(sums.take(j)) == sum_int(orig.take(j * cs)),
    decreases j,
{
    if j == 0 {
        assert(sums.take(0int) =~= Seq::<i32>::empty());
        assert(orig.take(0int) =~= Seq::<i32>::empty());
    } else {
        lemma_chunk_sums_prefix(orig, sums, cs, j - 1);
        assert((j - 1) * cs == j * cs - cs) by (nonlinear_arith);
        assert(j * cs <= sums.len() * cs) by {
            lemma_mul_inequality(j, sums.len() as int, cs);
        }
        assert((j - 1) * cs >= 0) by (nonlinear_arith)
            requires
                j >= 1 && cs >= 1,
        ;
        assert(sums.take(j).drop_last() =~= sums.take(j - 1));
        assert(sums.take(j).last() == sums[j - 1]);
        assert(sums[j - 1] == sum_int(orig.subrange((j - 1) * cs, (j - 1) * cs + cs)));
        assert((j - 1) * cs + cs == j * cs);
        assert(orig.take(j * cs) =~= orig.take(j * cs - cs) + orig.subrange(
            j * cs - cs,
            j * cs,
        ));
        lemma_sum_concat(orig.take(j * cs - cs), orig.subrange(j * cs - cs, j * cs));
        assert(sum_int(sums.take(j)) == sum_int(sums.take(j - 1)) + sums[j - 1]);
    }
}

/// The two-phase chunked prefix sum: `thread_count` chunks of equal
/// length are reduced to local totals, the totals are scanned
/// serially, and each chunk is re-scanned seeded with the exclusive
/// prefix of its chunk.  Index `i` ends up holding the sum of the
/// original elements up to and including `i`.
pub fn pref_sum(vec: &mut Vec<i32>, threads: usize)
    requires
        1 <= threads <= old(vec).len(),
        old(vec).len() % threads == 0,
        chunk_sums_fit(old(vec)@, old(vec).len() as int / threads as int),
    ensures
        final (vec).len() == old(vec).len(),
        forall|i: int|
            0 <= i < old(vec).len() ==> final (vec)@[i] == sum_int(old(vec)@.take(i + 1)),
{
    let ghost orig = old(vec)@;
    let len = vec.len();
    let chunk_size = len / threads;
    proof {
        lemma_fundamental_div_mod(len as int, threads as int);
        assert(len as int == threads as int * chunk_size as int);
        assert(chunk_size >= 1) by {
            if chunk_size == 0 {
                assert(threads as int * 0 == 0) by (nonlinear_arith);
            }
        }
    }
    // Phase 1: local totals, one per chunk.
    let mut sums: Vec<i32> = Vec::new();
    let mut t: usize = 0;
    let mut start: usize = 0;
    while t < threads
        invariant
            0 <= t <= threads,
            chunk_size == len / threads,
            chunk_size >= 1,
            len == old(vec).len(),
            vec.len() == len,
            vec@ == orig,
            orig == old(vec)@,
            len as int == threads as int * chunk_size as int,
            start == t * chunk_size,
            sums.len() == t,
            chunk_sums_fit(orig, chunk_size as int),
            forall|k: int|
                0 <= k < t ==> #[trigger] sums@[k] == sum_int(
                    orig.subrange(k * chunk_size as int, k * chunk_size as int + chunk_size as int),
                ),
        decreases threads - t,
    {
        proof {
            lemma_mul_inequality(t + 1, threads as int, chunk_size as int);
            assert((t + 1) as int * chunk_size as int == t as int * chunk_size as int
                + chunk_size as int) by (nonlinear_arith);
            vstd::arithmetic::div_mod::lemma_mod_multiples_basic(t as int, chunk_size as int);
            assert(t as int * chunk_size as int == chunk_size as int * t as int)
                by (nonlinear_arith);
        }
        let mut acc: i32 = 0;
        let mut j: usize = 0;
        while j < chunk_size
            invariant
                0 <= j <= chunk_size,
                vec.len() == len,
                vec@ == orig,
                start as int + chunk_size as int <= len as int,
                start as int % chunk_size as int == 0,
                chunk_sums_fit(orig, chunk_size as int),
                acc == sum_int(orig.subrange(start as int, start as int + j as int)),
            decreases chunk_size - j,
        {
            proof {
                assert(orig.subrange(start as int, start + j + 1).drop_last() =~= orig.subrange(
                    start as int,
                    start as int + j as int,
                ));
                assert(i32::MIN <= sum_int(orig.subrange(start as int, start + j + 1))
                    <= i32::MAX);
            }
            acc = acc + vec[start + j];
            j = j + 1;
        }
        sums.push(acc);
        start = start + chunk_size;
        t = t + 1;
    }
    // Phase 2: serial scan of the chunk totals.
    let ghost sums0 = sums@;
    proof {
        assert forall|j: int| 1 <= j <= sums.len() implies i32::MIN <= 0 + #[trigger] sum_int(
            sums@.take(j),
        ) <= i32::MAX by {
            lemma_chunk_sums_prefix(orig, sums@, chunk_size as int, j);
            lemma_mul_inequality(j, threads as int, chunk_size as int);
            assert(j * chunk_size as int >= 0) by (nonlinear_arith)
                requires
                    j >= 1 && chunk_size >= 1,
            ;
            lemma_take_is_subrange(orig, j * chunk_size as int);
        }
    }
    pref_sum_seq(&mut sums, 0);
    proof {
        assert forall|k: int| 0 <= k < threads implies #[trigger] sums@[k] == sum_int(
            orig.take((k + 1) * chunk_size as int),
        ) by {
            lemma_chunk_sums_prefix(orig, sums0, chunk_size as int, k + 1);
        }
    }
    // Phase 3: re-scan each chunk, seeded with its exclusive prefix.
    let mut t: usize = 0;
    let mut start: usize = 0;
    while t < threads
        invariant
            0 <= t <= threads,
            chunk_size == len / threads,
            chunk_size >= 1,
            len == old(vec).len(),
            vec.len() == len,
            orig == old(vec)@,
            len as int == threads as int * chunk_size as int,
            start == t * chunk_size,
            sums.len() == threads,
            forall|k: int|
                0 <= k < threads ==> #[trigger] sums@[k] == sum_int(
                    orig.take((k + 1) * chunk_size as int),
                ),
            chunk_sums_fit(orig, chunk_size as int),
            forall|i: int| 0 <= i < start ==> #[trigger] vec@[i] == sum_int(orig.take(i + 1)),
            forall|i: int| start <= i < len ==> #[trigger] vec@[i] == orig[i],
        decreases threads - t,
    {
        proof {
            lemma_mul_inequality(t + 1, threads as int, chunk_size as int);
            assert((t + 1) as int * chunk_size as int == t as int * chunk_size as int
                + chunk_size as int) by (nonlinear_arith);
            assert(t as int * chunk_size as int >= 0) by (nonlinear_arith)
                requires
                    t >= 0 && chunk_size >= 1,
            ;
        }
        let pref_sum_before = if t == 0 {
            0
        } else {
            sums[t - 1]
        };
        proof {
            if t > 0 {
                assert((t - 1 + 1) as int * chunk_size as int == t as int * chunk_size as int);
            }
            assert(pref_sum_before as int == sum_int(orig.take(start as int))) by {
                if t == 0 {
                    assert(orig.take(0int) =~= Seq::<i32>::empty());
                }
            }
        }
        let mut chunk = copy_range(vec, start, start + chunk_size);
        proof {
            assert(chunk@ =~= orig.subrange(start as int, start as int + chunk_size as int));
            assert forall|j: int| 1 <= j <= chunk.len() implies i32::MIN <= pref_sum_before
                + #[trigger] sum_int(chunk@.take(j)) <= i32::MAX by {
                assert(chunk@.take(j) =~= orig.subrange(start as int, start + j));
                assert(orig.take(start + j) =~= orig.take(start as int) + orig.subrange(
                    start as int,
                    start + j,
                ));
                lemma_sum_concat(orig.take(start as int), orig.subrange(start as int, start + j));
                lemma_take_is_subrange(orig, start + j);
                assert(0int % chunk_size as int == 0);
            }
        }
        let ghost chunk0 = chunk@;
        pref_sum_seq(&mut chunk, pref_sum_before);
        write_range(vec, start, &chunk);
        proof {
            assert forall|i: int| 0 <= i < start + chunk_size as int implies #[trigger] vec@[i]
                == sum_int(orig.take(i + 1)) by {
                if i >= start {
                    let j = i - start;
                    assert(vec@[i] == chunk@[j]);
                    assert(chunk@[j] == pref_sum_before + sum_int(chunk0.take(j + 1)));
                    assert(chunk0.take(j + 1) =~= orig.subrange(start as int, i + 1));
                    assert(orig.take(i + 1) =~= orig.take(start as int) + orig.subrange(
                        start as int,
                        i + 1,
                    ));
                    lemma_sum_concat(orig.take(start as int), orig.subrange(start as int, i + 1));
                }
            }
        }
        start = start + chunk_size;
        t = t + 1;
    }
}

} // verus!
