//! Proof that the bitonic network sorts every power-of-two-length
//! buffer.  The argument is the classical zero-one reduction: every
//! compare-exchange commutes with thresholding the values to zeroes
//! and ones, and a buffer is sorted exactly when all its thresholded
//! images are.  On zero-one buffers, each merge level turns runs
//! sorted alternately ascending and descending into such runs of
//! twice the length, because one half-merge pass over a zero-one
//! bitonic chunk leaves two bitonic halves with every element of one
//! half on the right side of the other (the half-cleaner property).

use vstd::prelude::*;

use crate::bitonic::{
    bitonic4_net, bitonic_net, chunked_half_net, cmp_exchange_net, exchange_phase, level_phase,
    middle_phases,
};
use crate::bitonic::{lemma_bitonic_net_in_range, lemma_chunk_slice, lemma_chunked_net_in_range};
use crate::net::{apply_ops, cmpx, half_net, max_i32, min_i32, op_in_range, ops_in_range, CmpOp};
use crate::net::{
    lemma_apply_ops_concat, lemma_apply_ops_push, lemma_apply_ops_shift, lemma_cmpx_basic,
};
use crate::sort_utils::{sorted_asc, spec_is_pow_2, valid_sort_len};
use crate::sort_utils::{lemma_pow2_divides, lemma_pow2_gap};
use vstd::arithmetic::div_mod::{lemma_fundamental_div_mod, lemma_fundamental_div_mod_converse};
use vstd::arithmetic::mul::lemma_mul_inequality;

verus! {

/// The zero-one image of a buffer under a threshold: zero below `v`,
/// one from `v` on.
spec fn bin(s: Seq<i32>, v: i32) -> Seq<i32> {
    Seq::new(s.len(), |i: int| if s[i] < v { 0i32 } else { 1i32 })
}

/// Every value is zero or one.
spec fn zero_one(s: Seq<i32>) -> bool {
    forall|i: int| 0 <= i < s.len() ==> s[i] == 0 || s[i] == 1
}

/// One compare-exchange commutes with thresholding.
proof fn lemma_bin_cmpx(s: Seq<i32>, op: CmpOp, v: i32)
    requires
        op_in_range(op, s.len() as int),
    ensures
        bin(cmpx(s, op), v) == cmpx(bin(s, v), op),
{
    assert(bin(cmpx(s, op), v) =~= cmpx(bin(s, v), op));
}

/// A whole network commutes with thresholding.
proof fn lemma_bin_apply(s: Seq<i32>, ops: Seq<CmpOp>, v: i32)
    requires
        ops_in_range(ops, s.len() as int),
    ensures
        bin(apply_ops(s, ops), v) == apply_ops(bin(s, v), ops),
    decreases ops.len(),
{
    if ops.len() > 0 {
        lemma_bin_cmpx(s, ops[0], v);
        lemma_cmpx_basic(s, ops[0]);
        assert(ops_in_range(ops.drop_first(), s.len() as int)) by {
            assert(forall|k: int|
                0 <= k < ops.drop_first().len() ==> ops.drop_first()[k] == ops[k + 1]);
        }
        lemma_bin_apply(cmpx(s, ops[0]), ops.drop_first(), v);
    }
}

/// A buffer all of whose zero-one images are sorted is sorted.
proof fn lemma_sorted_from_bins(s: Seq<i32>)
    requires
        forall|v: i32| sorted_asc(#[trigger] bin(s, v)),
    ensures
        sorted_asc(s),
{
    assert forall|i: int, j: int| 0 <= i <= j < s.len() implies s[i] <= s[j] by {
        if s[i] > s[j] {
            let v = s[i];
            assert(bin(s, v)[i] == 1 && bin(s, v)[j] == 0);
            assert(sorted_asc(bin(s, v)));
        }
    }
}

/// The buffer after one half-merge pass, element by element: position
/// `x` of the first half holds the smaller (ascending) or larger
/// (descending) of the old pair `(x, x + m)`, its partner the other.
spec fn half_merged(u: Seq<i32>, asc: bool) -> Seq<i32> {
    Seq::new(
        u.len(),
        |x: int|
            {
                let m = u.len() as int / 2;
                if x < m {
                    if asc {
                        min_i32(u[x], u[x + m])
                    } else {
                        max_i32(u[x], u[x + m])
                    }
                } else {
                    if asc {
                        max_i32(u[x - m], u[x])
                    } else {
                        min_i32(u[x - m], u[x])
                    }
                }
            },
    )
}

/// A prefix of the half-merge network transforms exactly the pairs it
/// has visited.
proof fn lemma_half_net_prefix(u: Seq<i32>, asc: bool, k: int)
    requires
        u.len() % 2 == 0,
        0 <= k <= u.len() as int / 2,
    ensures
        ({
            let m = u.len() as int / 2;
            let r = apply_ops(u, half_net(u.len() as int, asc).take(k));
            r.len() == u.len() && forall|x: int|
                0 <= x < u.len() ==> r[x] == (if x < k || (m <= x < m + k) {
                    half_merged(u, asc)[x]
                } else {
                    u[x]
                })
        }),
    decreases k,
{
    let m = u.len() as int / 2;
    let hp = half_net(u.len() as int, asc);
    if k == 0 {
        assert(hp.take(0int) =~= Seq::<CmpOp>::empty());
    } else {
        lemma_half_net_prefix(u, asc, k - 1);
        let r0 = apply_ops(u, hp.take(k - 1));
        assert(hp.take(k) =~= hp.take(k - 1).push(hp[k - 1]));
        lemma_apply_ops_push(u, hp.take(k - 1), hp[k - 1]);
        assert(hp[k - 1] == (k - 1, m + k - 1, asc));
        lemma_cmpx_basic(r0, (k - 1, m + k - 1, asc));
        assert(r0[k - 1] == u[k - 1] && r0[m + k - 1] == u[m + k - 1]);
    }
}

/// One half-merge pass computes the pairwise minima and maxima.
proof fn lemma_half_net_semantics(u: Seq<i32>, asc: bool)
    requires
        u.len() % 2 == 0,
    ensures
        apply_ops(u, half_net(u.len() as int, asc)) == half_merged(u, asc),
{
    let m = u.len() as int / 2;
    lemma_half_net_prefix(u, asc, m);
    assert(half_net(u.len() as int, asc).take(m) =~= half_net(u.len() as int, asc));
    assert(apply_ops(u, half_net(u.len() as int, asc)) =~= half_merged(u, asc));
}

/// The chunk of `s` of size `cs` at index `c`.
spec fn chunk_of(s: Seq<i32>, cs: int, c: int) -> Seq<i32> {
    s.subrange(c * cs, c * cs + cs)
}

/// A prefix of a chunked pass transforms exactly the chunks it has
/// visited, each into its half-merged form, and leaves the rest.
proof fn lemma_chunked_prefix(s: Seq<i32>, stride: int, block: int, c: int)
    requires
        stride >= 1,
        s.len() as int % (2 * stride) == 0,
        0 <= c <= s.len() as int / (2 * stride),
    ensures
        ({
            let net = chunked_half_net(s.len() as int, stride, block);
            let r = apply_ops(s, net.take(c * stride));
            r.len() == s.len() && (forall|d: int|
                0 <= d < c ==> #[trigger] chunk_of(r, 2 * stride, d) == half_merged(
                    chunk_of(s, 2 * stride, d),
                    ((2 * stride * d) / block) % 2 == 0,
                )) && (forall|x: int| c * (2 * stride) <= x < s.len() ==> r[x] == s[x])
        }),
    decreases c,
{
    let len = s.len() as int;
    let cs = 2 * stride;
    let q = len / cs;
    let net = chunked_half_net(len, stride, block);
    lemma_chunked_net_in_range(len, stride, block);
    lemma_fundamental_div_mod(len, cs);
    assert(len == q * cs);
    assert(len / 2 == q * stride) by {
        assert(q * cs == (q * stride) * 2) by (nonlinear_arith)
            requires
                cs == 2 * stride,
        ;
        lemma_fundamental_div_mod_converse(len, 2, q * stride, 0);
    }
    if c == 0 {
        assert(c * stride == 0) by (nonlinear_arith)
            requires
                c == 0,
        ;
        assert(net.take(c * stride) =~= Seq::<CmpOp>::empty());
        assert(apply_ops(s, net.take(c * stride)) == s);
    } else {
        lemma_chunked_prefix(s, stride, block, c - 1);
        let r0 = apply_ops(s, net.take((c - 1) * stride));
        assert((c - 1) * stride >= 0 && (c - 1) * stride + stride == c * stride && (c - 1) * cs
            + cs == c * cs && (c - 1) * cs == cs * (c - 1)) by (nonlinear_arith)
            requires
                c >= 1 && stride >= 1 && cs == 2 * stride,
        ;
        assert(c * stride <= q * stride) by {
            lemma_mul_inequality(c, q, stride);
        }
        assert(c * cs <= q * cs) by {
            lemma_mul_inequality(c, q, cs);
        }
        let off = (c - 1) * cs;
        let dir = ((2 * stride * (c - 1)) / block) % 2 == 0;
        assert(net.take(c * stride) =~= net.take((c - 1) * stride) + net.subrange(
            (c - 1) * stride,
            c * stride,
        ));
        lemma_apply_ops_concat(s, net.take((c - 1) * stride), net.subrange(
            (c - 1) * stride,
            c * stride,
        ));
        lemma_chunk_slice(len, stride, block, c - 1);
        assert(2 * stride * (c - 1) == off) by (nonlinear_arith)
            requires
                cs == 2 * stride && off == (c - 1) * cs,
        ;
        let cops = half_net(cs, dir);
        assert(ops_in_range(cops, cs));
        lemma_apply_ops_shift(r0, cops, off, cs);
        let u = r0.subrange(off, off + cs);
        assert(u =~= chunk_of(s, cs, c - 1)) by {
            assert(forall|x: int| off <= x < off + cs ==> r0[x] == s[x]);
        }
        lemma_half_net_semantics(u, dir);
        let r = apply_ops(s, net.take(c * stride));
        assert(r == r0.take(off) + half_merged(u, dir) + r0.skip(off + cs));
        assert(r.len() == len);
        assert(forall|x: int| 0 <= x < off ==> r[x] == r0[x]);
        assert(forall|x: int| off + cs <= x < len ==> r[x] == r0[x]);
        assert(chunk_of(r, cs, c - 1) =~= half_merged(u, dir));
        assert forall|d: int| 0 <= d < c implies #[trigger] chunk_of(r, 2 * stride, d)
            == half_merged(
            chunk_of(s, 2 * stride, d),
            ((2 * stride * d) / block) % 2 == 0,
        ) by {
            if d < c - 1 {
                assert(0 <= d * cs && d * cs + cs <= off) by (nonlinear_arith)
                    requires
                        0 <= d && d + 1 <= c - 1 && cs >= 2 && off == (c - 1) * cs,
                ;
                assert(chunk_of(r0, 2 * stride, d) == half_merged(
                    chunk_of(s, 2 * stride, d),
                    ((2 * stride * d) / block) % 2 == 0,
                ));
                assert(chunk_of(r, 2 * stride, d) =~= chunk_of(r0, 2 * stride, d)) by {
                    assert forall|x: int| 0 <= x < cs implies #[trigger] chunk_of(
                        r,
                        2 * stride,
                        d,
                    )[x] == chunk_of(r0, 2 * stride, d)[x] by {
                        assert(chunk_of(r, 2 * stride, d)[x] == r[d * cs + x]);
                        assert(chunk_of(r0, 2 * stride, d)[x] == r0[d * cs + x]);
                        assert(r[d * cs + x] == r0[d * cs + x]);
                    }
                }
            } else {
                assert(u == chunk_of(s, 2 * stride, c - 1));
                assert(chunk_of(r, 2 * stride, c - 1) == half_merged(u, dir));
            }
        }
        assert forall|x: int| c * cs <= x < len implies r[x] == s[x] by {
            assert(r[x] == r0[x]);
        }
    }
}

/// One chunked pass half-merges every chunk, in the direction of the
/// aligned run of `block` the chunk lies in.
proof fn lemma_chunked_pass_chunks(s: Seq<i32>, stride: int, block: int)
    requires
        stride >= 1,
        s.len() as int % (2 * stride) == 0,
    ensures
        ({
            let r = apply_ops(s, chunked_half_net(s.len() as int, stride, block));
            r.len() == s.len() && forall|d: int|
                0 <= d < s.len() as int / (2 * stride) ==> #[trigger] chunk_of(r, 2 * stride, d)
                    == half_merged(
                    chunk_of(s, 2 * stride, d),
                    ((2 * stride * d) / block) % 2 == 0,
                )
        }),
{
    let len = s.len() as int;
    let q = len / (2 * stride);
    lemma_chunked_prefix(s, stride, block, q);
    lemma_chunked_net_in_range(len, stride, block);
    assert(len / 2 == q * stride) by {
        lemma_fundamental_div_mod(len, 2 * stride);
        assert(q * (2 * stride) == (q * stride) * 2) by (nonlinear_arith);
        lemma_fundamental_div_mod_converse(len, 2, q * stride, 0);
    }
    assert(chunked_half_net(len, stride, block).take(q * stride) =~= chunked_half_net(
        len,
        stride,
        block,
    ));
}


/// The values are zero and one, with the ones exactly on `[x, y)`.
spec fn one_block(u: Seq<i32>, x: int, y: int) -> bool {
    &&& 0 <= x <= y <= u.len()
    &&& forall|i: int|
        0 <= i < u.len() ==> u[i] == (if x <= i < y {
            1i32
        } else {
            0i32
        })
}

/// The values are zero and one, with the zeroes exactly on `[x, y)`.
spec fn zero_block(u: Seq<i32>, x: int, y: int) -> bool {
    &&& 0 <= x <= y <= u.len()
    &&& forall|i: int|
        0 <= i < u.len() ==> u[i] == (if x <= i < y {
            0i32
        } else {
            1i32
        })
}

/// A zero-one sequence with at most one maximal run of ones or of
/// zeroes in its interior: the zero-one form of a bitonic sequence.
spec fn zo_bitonic(u: Seq<i32>) -> bool {
    ||| exists|x: int, y: int| one_block(u, x, y)
    ||| exists|x: int, y: int| zero_block(u, x, y)
}

/// The half-cleaner property on zero-one bitonic chunks: after one
/// half-merge pass both halves are zero-one bitonic again, and every
/// element of the first half sits on the requested side of every
/// element of the second half.
proof fn lemma_half_cleaner(u: Seq<i32>, asc: bool)
    requires
        u.len() % 2 == 0,
        u.len() >= 2,
        zo_bitonic(u),
    ensures
        ({
            let m = u.len() as int / 2;
            let w = half_merged(u, asc);
            &&& zo_bitonic(w.subrange(0, m))
            &&& zo_bitonic(w.subrange(m, u.len() as int))
            &&& forall|i: int, j: int|
                0 <= i < m <= j < u.len() ==> (if asc {
                    w[i] <= w[j]
                } else {
                    w[i] >= w[j]
                })
        }),
{
    let n = u.len() as int;
    let m = n / 2;
    let w = half_merged(u, asc);
    let lo = Seq::new(m as nat, |i: int| min_i32(u[i], u[i + m]));
    let hi = Seq::new(m as nat, |i: int| max_i32(u[i], u[i + m]));
    assert(m + m == n);
    if asc {
        assert(w.subrange(0, m) =~= lo);
        assert(w.subrange(m, n) =~= hi);
    } else {
        assert(w.subrange(0, m) =~= hi);
        assert(w.subrange(m, n) =~= lo);
    }
    if exists|x: int, y: int| one_block(u, x, y) {
        let (x, y) = choose|x: int, y: int| one_block(u, x, y);
        // the ones of the minima are the overlap of the block with its
        // own image shifted down by half
        lemma_lo_of_one_block(u, lo, x, y, m);
        // the ones of the maxima are the union of the block with its
        // shifted image
        if y <= m {
            assert(one_block(hi, x, y));
            assert(zo_bitonic(hi));
        } else if x >= m {
            assert(one_block(hi, x - m, y - m));
            assert(zo_bitonic(hi));
        } else if x <= y - m {
            assert(one_block(hi, 0, m));
            assert(zo_bitonic(hi));
        } else {
            assert(zero_block(hi, y - m, x));
            assert(zo_bitonic(hi));
        }
        // one minimum equal to one forces both source blocks to span
        // everything, so every maximum is one as well
        assert forall|i: int, j: int| 0 <= i < m && 0 <= j < m implies lo[i] <= hi[j] by {
            if lo[i] == 1 {
                assert(u[i] == 1 && u[i + m] == 1);
                assert(x <= i && i + m < y);
                if x <= j {
                    assert(u[j] == 1);
                } else {
                    assert(x <= j + m && j + m < y);
                    assert(u[j + m] == 1);
                }
                assert(hi[j] == 1);
            } else {
                assert(lo[i] == 0 && hi[j] >= 0);
            }
        }
    } else {
        let (x, y) = choose|x: int, y: int| zero_block(u, x, y);
        // the zeroes of the maxima are the overlap of the block with
        // its shifted image
        lemma_hi_of_zero_block(u, hi, x, y, m);
        // the zeroes of the minima are the union of the block with its
        // shifted image
        if y <= m {
            assert(zero_block(lo, x, y));
            assert(zo_bitonic(lo));
        } else if x >= m {
            assert(zero_block(lo, x - m, y - m));
            assert(zo_bitonic(lo));
        } else if x <= y - m {
            assert(zero_block(lo, 0, m));
            assert(zo_bitonic(lo));
        } else {
            assert(one_block(lo, y - m, x));
            assert(zo_bitonic(lo));
        }
        // one maximum equal to zero forces both source blocks to span
        // everything, so every minimum is zero as well
        assert forall|i: int, j: int| 0 <= i < m && 0 <= j < m implies lo[i] <= hi[j] by {
            if hi[j] == 0 {
                assert(u[j] == 0 && u[j + m] == 0);
                assert(x <= j && j + m < y);
                if x <= i {
                    assert(u[i] == 0);
                } else {
                    assert(x <= i + m && i + m < y);
                    assert(u[i + m] == 0);
                }
                assert(lo[i] == 0);
            } else {
                assert(hi[j] == 1 && lo[i] <= 1);
            }
        }
    }
    assert forall|i: int, j: int| 0 <= i < m <= j < n implies (if asc {
        w[i] <= w[j]
    } else {
        w[i] >= w[j]
    }) by {
        if asc {
            assert(w[i] == lo[i] && w[j] == hi[j - m]);
        } else {
            assert(w[i] == hi[i] && w[j] == lo[j - m]);
        }
    }
}

/// The minima of a one-block: ones exactly where both the position
/// and its shifted partner lie in the block.
proof fn lemma_lo_of_one_block(u: Seq<i32>, lo: Seq<i32>, x: int, y: int, m: int)
    requires
        u.len() as int == 2 * m,
        m >= 1,
        one_block(u, x, y),
        lo == Seq::new(m as nat, |i: int| min_i32(u[i], u[i + m])),
    ensures
        zo_bitonic(lo),
{
    let a = if x <= m {
        x
    } else {
        m
    };
    let b0 = y - m;
    let b = if b0 <= a {
        a
    } else if b0 <= m {
        b0
    } else {
        m
    };
    assert(one_block(lo, a, b));
}

/// The maxima of a zero-block: zeroes exactly where both the position
/// and its shifted partner lie in the block.
proof fn lemma_hi_of_zero_block(u: Seq<i32>, hi: Seq<i32>, x: int, y: int, m: int)
    requires
        u.len() as int == 2 * m,
        m >= 1,
        zero_block(u, x, y),
        hi == Seq::new(m as nat, |i: int| max_i32(u[i], u[i + m])),
    ensures
        zo_bitonic(hi),
{
    let a = if x <= m {
        x
    } else {
        m
    };
    let b0 = y - m;
    let b = if b0 <= a {
        a
    } else if b0 <= m {
        b0
    } else {
        m
    };
    assert(zero_block(hi, a, b));
}


/// Inside one aligned piece of size `ct` every position shares the
/// `k`-run of the piece's base, when `ct` divides `k`.
proof fn lemma_same_run(base: int, off: int, k: int, ct: int)
    requires
        ct >= 1,
        k >= ct,
        k % ct == 0,
        base % ct == 0,
        base >= 0,
        0 <= off < ct,
    ensures
        (base + off) / k == base / k,
{
    let bq = base / k;
    let br = base % k;
    lemma_fundamental_div_mod(base, k);
    let kk = k / ct;
    lemma_fundamental_div_mod(k, ct);
    assert(k == ct * kk);
    lemma_fundamental_div_mod(base, ct);
    let bc = base / ct;
    assert(base == ct * bc);
    let z = bc - kk * bq;
    assert(br == ct * z) by (nonlinear_arith)
        requires
            base == k * bq + br && k == ct * kk && base == ct * bc && z == bc - kk * bq,
    ;
    assert(br <= k - ct) by (nonlinear_arith)
        requires
            br == ct * z && 0 <= br < k && k == ct * kk && ct >= 1,
    ;
    lemma_fundamental_div_mod_converse(base + off, k, bq, br + off);
}

/// A position shares its `k`-run with the base of its chunk of `cs`,
/// when `cs` divides `k`.
proof fn lemma_chunk_run(x: int, cs: int, k: int)
    requires
        cs >= 1,
        k >= cs,
        k % cs == 0,
        x >= 0,
    ensures
        ((x / cs) * cs) / k == x / k,
        (x / cs) * cs >= 0,
        (x / cs) * cs % cs == 0,
{
    let d = x / cs;
    let lx = x % cs;
    lemma_fundamental_div_mod(x, cs);
    assert(d >= 0 && d * cs >= 0 && d * cs == cs * d) by (nonlinear_arith)
        requires
            x == cs * d + lx && 0 <= lx < cs && x >= 0 && cs >= 1,
    ;
    vstd::arithmetic::div_mod::lemma_mod_multiples_basic(d, cs);
    lemma_same_run(d * cs, lx, k, cs);
}


/// A position, its chunk and its offset: the chunk is in range and
/// holds the position's value at the offset.
proof fn lemma_pos_in_chunk(z: Seq<i32>, cs: int, x: int)
    requires
        cs >= 1,
        z.len() as int % cs == 0,
        0 <= x < z.len(),
    ensures
        ({
            let d = x / cs;
            let lx = x % cs;
            &&& 0 <= lx < cs
            &&& 0 <= d
            &&& d * cs + lx == x
            &&& 0 <= d * cs
            &&& (d + 1) * cs == d * cs + cs
            &&& (d + 1) * cs <= z.len()
            &&& chunk_of(z, cs, d)[lx] == z[x]
            &&& chunk_of(z, cs, d).len() == cs
            &&& forall|i: int| 0 <= i < cs ==> #[trigger] chunk_of(z, cs, d)[i] == z[d * cs + i]
        }),
{
    let len = z.len() as int;
    let qq = len / cs;
    lemma_fundamental_div_mod(len, cs);
    assert(len == qq * cs) by (nonlinear_arith)
        requires
            len == cs * qq + 0,
    ;
    let d = x / cs;
    let lx = x % cs;
    lemma_fundamental_div_mod(x, cs);
    assert(0 <= d < qq && d * cs + lx == x && d * cs >= 0 && (d + 1) * cs == d * cs + cs)
        by (nonlinear_arith)
        requires
            x == cs * d + lx && 0 <= lx < cs && 0 <= x < qq * cs && cs >= 1,
    ;
    assert((d + 1) * cs <= qq * cs) by {
        lemma_mul_inequality(d + 1, qq, cs);
    }
    assert(chunk_of(z, cs, d)[lx] == z[d * cs + lx]);
}


/// The two half-chunks of a transformed chunk, read back at the finer
/// granularity.
proof fn lemma_chunk_halves(r: Seq<i32>, w: Seq<i32>, t: int, c: int, d: int, side: int)
    requires
        t >= 1,
        0 <= side < 2,
        d >= 0,
        c == 2 * d + side,
        w.len() == 2 * t,
        (d + 1) * (2 * t) <= r.len(),
        chunk_of(r, 2 * t, d) == w,
    ensures
        chunk_of(r, t, c) == (if side == 0 {
            w.subrange(0, t)
        } else {
            w.subrange(t, 2 * t)
        }),
{
    assert(c * t == d * (2 * t) + side * t && (c + 1) * t == c * t + t && d * (2 * t) >= 0 && (d
        + 1) * (2 * t) == d * (2 * t) + 2 * t && side * t + t <= 2 * t && side * t >= 0)
        by (nonlinear_arith)
        requires
            c == 2 * d + side && 0 <= side < 2 && t >= 1 && d >= 0,
    ;
    assert forall|i: int| 0 <= i < t implies #[trigger] chunk_of(r, t, c)[i] == w[side * t
        + i] by {
        assert(chunk_of(r, t, c)[i] == r[c * t + i]);
        assert(chunk_of(r, 2 * t, d)[side * t + i] == r[d * (2 * t) + side * t + i]);
    }
    if side == 0 {
        assert(chunk_of(r, t, c) =~= w.subrange(0, t));
    } else {
        assert(chunk_of(r, t, c) =~= w.subrange(t, 2 * t));
    }
}

/// The invariant of one merge level: the values are zeroes and ones,
/// chunks of `cs` inside one `k`-run dominate each other in the run's
/// direction, and every chunk is zero-one bitonic.
spec fn level_inv(s: Seq<i32>, k: int, cs: int) -> bool {
    &&& zero_one(s)
    &&& forall|x: int, y: int|
        #![trigger s[x], s[y]]
        0 <= x < s.len() && 0 <= y < s.len() && x / k == y / k && x / cs < y / cs ==> (if (x / k)
            % 2 == 0 {
            s[x] <= s[y]
        } else {
            s[x] >= s[y]
        })
    &&& forall|c: int|
        0 <= c && (c + 1) * cs <= s.len() ==> zo_bitonic(#[trigger] chunk_of(s, cs, c))
}

/// One pass of a merge level refines the invariant from chunks of
/// `2 * stride` to chunks of `stride`.
#[verifier::rlimit(60)]
proof fn lemma_level_pass(s: Seq<i32>, k: int, t: int)
    requires
        t >= 1,
        k >= 2 * t,
        k % (2 * t) == 0,
        s.len() as int % (2 * t) == 0,
        level_inv(s, k, 2 * t),
    ensures
        ({
            let r = apply_ops(s, chunked_half_net(s.len() as int, t, k));
            r.len() == s.len() && level_inv(r, k, t)
        }),
{
    let len = s.len() as int;
    let cs = 2 * t;
    let q = len / cs;
    let r = apply_ops(s, chunked_half_net(len, t, k));
    lemma_chunked_pass_chunks(s, t, k);
    lemma_fundamental_div_mod(len, cs);
    assert(len == q * cs) by (nonlinear_arith)
        requires
            len == cs * q + 0,
    ;
    assert(zero_one(r)) by {
        assert forall|x: int| 0 <= x < len implies r[x] == 0 || r[x] == 1 by {
            let d = x / cs;
            lemma_pos_in_chunk(r, cs, x);
            lemma_pos_in_chunk(s, cs, x);
            assert(0 <= d < q) by (nonlinear_arith)
                requires
                    (d + 1) * cs <= q * cs && d >= 0 && cs >= 2,
            ;
            let u = chunk_of(s, cs, d);
            let w = half_merged(u, ((2 * t * d) / k) % 2 == 0);
            assert(chunk_of(r, cs, d) == w);
            assert(r[x] == w[x % cs]);
            assert(forall|i: int| 0 <= i < cs ==> #[trigger] u[i] == s[d * cs + i]);
        }
    }
    // chunks of the finer granularity are zero-one bitonic
    assert forall|c: int| 0 <= c && (c + 1) * t <= len implies zo_bitonic(
        #[trigger] chunk_of(r, t, c),
    ) by {
        let d = c / 2;
        let side = c % 2;
        lemma_fundamental_div_mod(c, 2);
        assert(c == 2 * d + side && 0 <= side < 2);
        assert(c * t == d * cs + side * t && (c + 1) * t == d * cs + side * t + t && d * cs >= 0
            && (d + 1) * cs == d * cs + cs && side * t + t <= cs && d >= 0) by (nonlinear_arith)
            requires
                c == 2 * d + side && 0 <= side < 2 && cs == 2 * t && t >= 1 && 0 <= c,
        ;
        assert(0 <= d < q && (d + 1) * cs <= len) by (nonlinear_arith)
            requires
                (c + 1) * t <= len && (c + 1) * t == d * cs + side * t + t && (d + 1) * cs == d
                    * cs + cs && cs == 2 * t && t >= 1 && 0 <= side && d >= 0 && len == q * cs,
        ;
        let u = chunk_of(s, cs, d);
        let dir = ((2 * t * d) / k) % 2 == 0;
        let w = half_merged(u, dir);
        assert(q == s.len() as int / (2 * t));
        assert(chunk_of(r, 2 * t, d) == half_merged(chunk_of(s, 2 * t, d), dir));
        assert(chunk_of(r, cs, d) == w);
        assert(w.len() == 2 * t) by {
            assert(u.len() == cs);
        }
        lemma_half_cleaner(u, dir);
        lemma_chunk_halves(r, w, t, c, d, side);
        if side == 0 {
            assert(chunk_of(r, t, c) == w.subrange(0, t));
        } else {
            assert(chunk_of(r, t, c) == w.subrange(t, cs));
        }
    }
    // dominance at the finer granularity
    assert forall|x: int, y: int|
        #![trigger r[x], r[y]]
        0 <= x < len && 0 <= y < len && x / k == y / k && x / t < y / t implies (if (x / k) % 2
        == 0 {
        r[x] <= r[y]
    } else {
        r[x] >= r[y]
    }) by {
        let dx = x / cs;
        let dy = y / cs;
        let lx = x % cs;
        let ly = y % cs;
        lemma_pos_in_chunk(r, cs, x);
        lemma_pos_in_chunk(r, cs, y);
        lemma_pos_in_chunk(s, cs, x);
        lemma_pos_in_chunk(s, cs, y);
        assert(0 <= dx < q && 0 <= dy < q) by (nonlinear_arith)
            requires
                (dx + 1) * cs <= q * cs && (dy + 1) * cs <= q * cs && dx >= 0 && dy >= 0 && cs
                    >= 2,
        ;
        let ux = chunk_of(s, cs, dx);
        let uy = chunk_of(s, cs, dy);
        let dirx = ((2 * t * dx) / k) % 2 == 0;
        let diry = ((2 * t * dy) / k) % 2 == 0;
        assert(chunk_of(r, cs, dx) == half_merged(ux, dirx));
        assert(chunk_of(r, cs, dy) == half_merged(uy, diry));
        lemma_chunk_run(x, cs, k);
        lemma_chunk_run(y, cs, k);
        assert(2 * t * dx == dx * cs && 2 * t * dy == dy * cs) by (nonlinear_arith)
            requires
                cs == 2 * t,
        ;
        assert((dx * cs) / k == x / k && (dy * cs) / k == y / k);
        assert(dirx == ((x / k) % 2 == 0) && diry == ((y / k) % 2 == 0));
        // the two sources of a merged value lie in the value's chunk
        let sx = if lx < t {
            lx
        } else {
            lx - t
        };
        let sy = if ly < t {
            ly
        } else {
            ly - t
        };
        assert(r[x] == half_merged(ux, dirx)[lx] && r[y] == half_merged(uy, diry)[ly]);
        assert(r[x] == s[dx * cs + sx] || r[x] == s[dx * cs + sx + t]) by {
            assert(ux[sx] == s[dx * cs + sx] && ux[sx + t] == s[dx * cs + sx + t]);
        }
        assert(r[y] == s[dy * cs + sy] || r[y] == s[dy * cs + sy + t]) by {
            assert(uy[sy] == s[dy * cs + sy] && uy[sy + t] == s[dy * cs + sy + t]);
        }
        if dx < dy {
            // sources inherit the chunk order, so the old dominance applies
            assert forall|p: int, qq: int|
                dx * cs <= p < dx * cs + cs && dy * cs <= qq < dy * cs + cs implies (if (x / k)
                % 2 == 0 {
                s[p] <= s[qq]
            } else {
                s[p] >= s[qq]
            }) by {
                lemma_fundamental_div_mod_converse(p, cs, dx, p - dx * cs);
                lemma_fundamental_div_mod_converse(qq, cs, dy, qq - dy * cs);
                lemma_chunk_run(p, cs, k);
                lemma_chunk_run(qq, cs, k);
                assert(p / k == x / k && qq / k == y / k);
                // mention the two values so the invariant fires on them
                assert(s[p] == s[p] && s[qq] == s[qq]);
            }
        } else {
            // same chunk: the half-cleaner's cross property decides
            assert(dx == dy) by (nonlinear_arith)
                requires
                    x / t < y / t && x == dx * cs + lx && y == dy * cs + ly && 0 <= lx < cs && 0
                        <= ly < cs && cs == 2 * t && t >= 1 && dx >= dy,
            ;
            assert(lx < t && t <= ly) by {
                assert(x == (2 * dx) * t + lx && y == (2 * dx) * t + ly && 0 <= lx < 2 * t && 0
                    <= ly < 2 * t) by (nonlinear_arith)
                    requires
                        x == dx * cs + lx && y == dy * cs + ly && dx == dy && cs == 2 * t && 0
                            <= lx < cs && 0 <= ly < cs,
                ;
                assert((2 * dx + 1) * t == (2 * dx) * t + t) by (nonlinear_arith);
                if lx < t {
                    lemma_fundamental_div_mod_converse(x, t, 2 * dx, lx);
                } else {
                    lemma_fundamental_div_mod_converse(x, t, 2 * dx + 1, lx - t);
                }
                if ly < t {
                    lemma_fundamental_div_mod_converse(y, t, 2 * dx, ly);
                } else {
                    lemma_fundamental_div_mod_converse(y, t, 2 * dx + 1, ly - t);
                }
            }
            lemma_half_cleaner(ux, dirx);
            assert(half_merged(ux, dirx)[lx] == chunk_of(r, cs, dx)[lx]);
            assert(half_merged(ux, dirx)[ly] == chunk_of(r, cs, dx)[ly]);
        }
    }
}

/// Aligned runs of `k` are each sorted, ascending in even runs and
/// descending in odd ones.
spec fn runs_alt_sorted(s: Seq<i32>, k: int) -> bool {
    forall|x: int, y: int|
        #![trigger s[x], s[y]]
        0 <= x <= y < s.len() && x / k == y / k ==> (if (x / k) % 2 == 0 {
            s[x] <= s[y]
        } else {
            s[x] >= s[y]
        })
}

/// At chunk granularity one, the level invariant is alternately
/// sorted runs.
proof fn lemma_level_done(s: Seq<i32>, k: int)
    requires
        k >= 1,
        level_inv(s, k, 1),
    ensures
        runs_alt_sorted(s, k),
{
    assert forall|x: int, y: int|
        #![trigger s[x], s[y]]
        0 <= x <= y < s.len() && x / k == y / k implies (if (x / k) % 2 == 0 {
        s[x] <= s[y]
    } else {
        s[x] >= s[y]
    }) by {
        if x < y {
            lemma_fundamental_div_mod_converse(x, 1, x, 0);
            lemma_fundamental_div_mod_converse(y, 1, y, 0);
            assert(s[x] == s[x] && s[y] == s[y]);
        }
    }
}

/// All passes of one level, strides halving to one, refine the
/// invariant down to single positions.
proof fn lemma_level_strides(s: Seq<i32>, k: int, t: int)
    requires
        k >= 2,
        t >= 0,
        t >= 1 ==> spec_is_pow_2(t) && 2 * t <= k && k % (2 * t) == 0 && s.len() as int % (2 * t)
            == 0 && level_inv(s, k, 2 * t),
        t == 0 ==> level_inv(s, k, 1),
    ensures
        ({
            let r = apply_ops(s, level_phase(s.len() as int, k, t));
            r.len() == s.len() && level_inv(r, k, 1)
        }),
    decreases t,
{
    let len = s.len() as int;
    if t == 0 {
        assert(level_phase(len, k, 0) =~= Seq::<CmpOp>::empty());
    } else {
        assert(level_phase(len, k, t) == chunked_half_net(len, t, k) + level_phase(len, k, t
            / 2));
        lemma_apply_ops_concat(s, chunked_half_net(len, t, k), level_phase(len, k, t / 2));
        lemma_level_pass(s, k, t);
        let r1 = apply_ops(s, chunked_half_net(len, t, k));
        if t >= 2 {
            assert(spec_is_pow_2(t / 2) && 2 * (t / 2) == t);
            assert(k % t == 0 && len % t == 0) by {
                let ka = k / (2 * t);
                let la = len / (2 * t);
                lemma_fundamental_div_mod(k, 2 * t);
                lemma_fundamental_div_mod(len, 2 * t);
                assert(k == (2 * ka) * t && len == (2 * la) * t) by (nonlinear_arith)
                    requires
                        k == (2 * t) * ka + 0 && len == (2 * t) * la + 0,
                ;
                vstd::arithmetic::div_mod::lemma_mod_multiples_basic(2 * ka, t);
                vstd::arithmetic::div_mod::lemma_mod_multiples_basic(2 * la, t);
            }
        }
        lemma_level_strides(r1, k, t / 2);
    }
}

/// The ones sit exactly on the suffix from `p`.
spec fn ones_from(u: Seq<i32>, p: int) -> bool {
    0 <= p <= u.len() && forall|i: int|
        0 <= i < u.len() ==> u[i] == (if p <= i {
            1i32
        } else {
            0i32
        })
}

/// The ones sit exactly on the prefix up to `p`.
spec fn ones_until(u: Seq<i32>, p: int) -> bool {
    0 <= p <= u.len() && forall|i: int|
        0 <= i < u.len() ==> u[i] == (if i < p {
            1i32
        } else {
            0i32
        })
}

/// A sorted ascending zero-one run has its ones exactly on a suffix.
proof fn lemma_01_asc_split(u: Seq<i32>)
    requires
        zero_one(u),
        forall|x: int, y: int| #![trigger u[x], u[y]] 0 <= x <= y < u.len() ==> u[x] <= u[y],
    ensures
        exists|p: int| #[trigger] ones_from(u, p),
    decreases u.len(),
{
    let n = u.len() as int;
    if n == 0 {
        assert(ones_from(u, 0));
    } else if u[n - 1] == 0 {
        assert(forall|i: int| 0 <= i < n ==> #[trigger] u[i] == 0);
        assert(ones_from(u, n));
    } else {
        let v = u.drop_last();
        assert(zero_one(v) && forall|x: int, y: int|
            #![trigger v[x], v[y]]
            0 <= x <= y < v.len() ==> v[x] <= v[y]) by {
            assert(forall|x: int| 0 <= x < v.len() ==> #[trigger] v[x] == u[x]);
        }
        lemma_01_asc_split(v);
        let p = choose|p: int| #[trigger] ones_from(v, p);
        assert(forall|i: int| 0 <= i < n - 1 ==> #[trigger] u[i] == v[i]);
        assert(ones_from(u, p));
    }
}

/// A sorted descending zero-one run has its ones exactly on a prefix.
proof fn lemma_01_desc_split(u: Seq<i32>)
    requires
        zero_one(u),
        forall|x: int, y: int| #![trigger u[x], u[y]] 0 <= x <= y < u.len() ==> u[x] >= u[y],
    ensures
        exists|p: int| #[trigger] ones_until(u, p),
    decreases u.len(),
{
    let n = u.len() as int;
    if n == 0 {
        assert(ones_until(u, 0));
    } else if u[n - 1] == 1 {
        assert(forall|i: int| 0 <= i < n ==> #[trigger] u[i] == 1);
        assert(ones_until(u, n));
    } else {
        let v = u.drop_last();
        assert(zero_one(v) && forall|x: int, y: int|
            #![trigger v[x], v[y]]
            0 <= x <= y < v.len() ==> v[x] >= v[y]) by {
            assert(forall|x: int| 0 <= x < v.len() ==> #[trigger] v[x] == u[x]);
        }
        lemma_01_desc_split(v);
        let p = choose|p: int| #[trigger] ones_until(v, p);
        assert(forall|i: int| 0 <= i < n - 1 ==> #[trigger] u[i] == v[i]);
        assert(ones_until(u, p));
    }
}

/// Two adjacent runs of `h`, sorted ascending then descending, make a
/// zero-one bitonic chunk of `2 * h`: entry into the next level.
proof fn lemma_level_entry(s: Seq<i32>, h: int)
    requires
        h >= 1,
        zero_one(s),
        s.len() as int % (2 * h) == 0,
        runs_alt_sorted(s, h),
    ensures
        level_inv(s, 2 * h, 2 * h),
{
    let len = s.len() as int;
    let cs = 2 * h;
    assert forall|c: int| 0 <= c && (c + 1) * cs <= len implies zo_bitonic(
        #[trigger] chunk_of(s, cs, c),
    ) by {
        assert((c + 1) * cs == c * cs + cs && c * cs >= 0 && c * cs == (2 * c) * h && c * cs + h
            == (2 * c + 1) * h && (2 * c) % 2 == 0 && (2 * c + 1) % 2 == 1) by (nonlinear_arith)
            requires
                c >= 0 && cs == 2 * h && h >= 1,
        ;
        let u = chunk_of(s, cs, c);
        let a = u.subrange(0, h);
        let b = u.subrange(h, cs);
        assert(forall|i: int| 0 <= i < cs ==> #[trigger] u[i] == s[c * cs + i]);
        assert forall|x: int, y: int|
            #![trigger a[x], a[y]]
            0 <= x <= y < a.len() implies a[x] <= a[y] by {
            lemma_fundamental_div_mod_converse(c * cs + x, h, 2 * c, x);
            lemma_fundamental_div_mod_converse(c * cs + y, h, 2 * c, y);
            assert(s[c * cs + x] <= s[c * cs + y]);
        }
        assert forall|x: int, y: int|
            #![trigger b[x], b[y]]
            0 <= x <= y < b.len() implies b[x] >= b[y] by {
            lemma_fundamental_div_mod_converse(c * cs + h + x, h, 2 * c + 1, x);
            lemma_fundamental_div_mod_converse(c * cs + h + y, h, 2 * c + 1, y);
            assert(s[c * cs + h + x] >= s[c * cs + h + y]);
        }
        assert(zero_one(a) && zero_one(b));
        lemma_01_asc_split(a);
        lemma_01_desc_split(b);
        let p = choose|p: int| #[trigger] ones_from(a, p);
        let p2 = choose|p2: int| #[trigger] ones_until(b, p2);
        assert(one_block(u, p, h + p2)) by {
            assert(forall|i: int| 0 <= i < h ==> #[trigger] u[i] == a[i]);
            assert(forall|i: int| h <= i < cs ==> #[trigger] u[i] == b[i - h]);
        }
    }
}



/// Applying a one-operation network is one compare-exchange.
proof fn lemma_apply_net1(s: Seq<i32>, ops: Seq<CmpOp>)
    requires
        ops.len() == 1,
    ensures
        apply_ops(s, ops) == cmpx(s, ops[0]),
{
    reveal_with_fuel(apply_ops, 2);
    assert(ops.drop_first() =~= Seq::<CmpOp>::empty());
    assert(apply_ops(s, ops) == apply_ops(cmpx(s, ops[0]), ops.drop_first()));
}

/// The bitonic network of two elements is the single ascending
/// compare-exchange.
proof fn lemma_net_two(s: Seq<i32>)
    requires
        s.len() == 2,
    ensures
        apply_ops(s, bitonic_net(2)) == cmpx(s, (0, 1, true)),
{
    let e1 = cmp_exchange_net(2, 1);
    assert(bitonic4_net(2).len() == 0);
    assert(middle_phases(2, 4) =~= Seq::<CmpOp>::empty());
    assert(exchange_phase(2, 1) == e1 + exchange_phase(2, 0));
    assert(exchange_phase(2, 0) =~= Seq::<CmpOp>::empty());
    assert(e1.len() == 1);
    assert(e1[0] == (0int, 1int, true));
    assert(bitonic_net(2) =~= e1);
    lemma_apply_net1(s, e1);
}

/// All middle levels together: from alternately sorted runs of two up
/// to alternately sorted halves of the buffer.
proof fn lemma_middle_01(s: Seq<i32>, block: int)
    requires
        zero_one(s),
        spec_is_pow_2(s.len() as int),
        s.len() >= 4,
        spec_is_pow_2(block),
        4 <= block <= s.len(),
        runs_alt_sorted(s, block / 2),
    ensures
        ({
            let r = apply_ops(s, middle_phases(s.len() as int, block));
            r.len() == s.len() && zero_one(r) && runs_alt_sorted(r, s.len() as int / 2)
        }),
    decreases s.len() - block,
{
    let len = s.len() as int;
    if 2 * block <= len {
        assert(middle_phases(len, block) == level_phase(len, block, block / 2) + middle_phases(
            len,
            2 * block,
        ));
        lemma_apply_ops_concat(s, level_phase(len, block, block / 2), middle_phases(
            len,
            2 * block,
        ));
        assert(len % block == 0) by {
            lemma_pow2_divides(block, len);
        }
        assert(spec_is_pow_2(block / 2) && 2 * (block / 2) == block && block / 2 >= 2);
        lemma_level_entry(s, block / 2);
        lemma_level_strides(s, block, block / 2);
        let r1 = apply_ops(s, level_phase(len, block, block / 2));
        lemma_level_done(r1, block);
        assert(spec_is_pow_2(2 * block)) by {
            assert((2 * block) / 2 == block);
        }
        assert((2 * block) / 2 == block);
        lemma_middle_01(r1, 2 * block);
    } else {
        assert(block == len) by {
            if block < len {
                lemma_pow2_gap(block, len);
            }
        }
        assert(middle_phases(len, block) =~= Seq::<CmpOp>::empty());
    }
}

/// The final ascending phase is the merge level of the whole buffer.
proof fn lemma_exchange_is_level(len: int, t: int)
    ensures
        exchange_phase(len, t) == level_phase(len, len, t),
    decreases t,
{
    if t >= 1 {
        lemma_exchange_is_level(len, t / 2);
    }
}

/// The seeding pass is the merge level of runs of two, for lengths
/// divisible by four.
proof fn lemma_seed_is_level(len: int)
    requires
        len % 4 == 0,
        len >= 0,
    ensures
        bitonic4_net(len) == level_phase(len, 2, 1),
{
    assert(level_phase(len, 2, 1) == chunked_half_net(len, 1, 2) + level_phase(len, 2, 0));
    assert(level_phase(len, 2, 0) =~= Seq::<CmpOp>::empty());
    assert(chunked_half_net(len, 1, 2) + level_phase(len, 2, 0) =~= chunked_half_net(len, 1, 2));
    assert(bitonic4_net(len) =~= chunked_half_net(len, 1, 2)) by {
        assert(2 * (len / 4) == len / 2) by {
            lemma_fundamental_div_mod(len, 4);
            assert(len == 2 * (2 * (len / 4))) by (nonlinear_arith)
                requires
                    len == 4 * (len / 4) + 0,
            ;
            lemma_fundamental_div_mod_converse(len, 2, 2 * (len / 4), 0);
        }
        assert forall|kk: int| 0 <= kk < len / 2 implies bitonic4_net(len)[kk]
            == chunked_half_net(len, 1, 2)[kk] by {
            lemma_fundamental_div_mod_converse(kk, 1, kk, 0);
            lemma_fundamental_div_mod_converse(2 * kk, 2, kk, 0);
        }
    }
}

/// The bitonic network sorts every zero-one buffer of power-of-two
/// length at least four.
proof fn lemma_net_01(w: Seq<i32>)
    requires
        zero_one(w),
        spec_is_pow_2(w.len() as int),
        w.len() >= 4,
    ensures
        sorted_asc(apply_ops(w, bitonic_net(w.len() as int))),
{
    let len = w.len() as int;
    assert(len % 4 == 0) by {
        assert(spec_is_pow_2(4)) by {
            reveal_with_fuel(spec_is_pow_2, 4);
        }
        lemma_pow2_divides(4, len);
    }
    // the seeding pass is the level of runs of two
    lemma_seed_is_level(len);
    lemma_apply_ops_concat(w, bitonic4_net(len), middle_phases(len, 4));
    lemma_apply_ops_concat(
        w,
        bitonic4_net(len) + middle_phases(len, 4),
        exchange_phase(len, len / 2),
    );
    assert(bitonic_net(len) == (bitonic4_net(len) + middle_phases(len, 4)) + exchange_phase(
        len,
        len / 2,
    ));
    assert(runs_alt_sorted(w, 1)) by {
        assert forall|x: int, y: int|
            #![trigger w[x], w[y]]
            0 <= x <= y < len && x / 1 == y / 1 implies (if (x / 1) % 2 == 0 {
            w[x] <= w[y]
        } else {
            w[x] >= w[y]
        }) by {
            lemma_fundamental_div_mod_converse(x, 1, x, 0);
            lemma_fundamental_div_mod_converse(y, 1, y, 0);
        }
    }
    lemma_level_entry(w, 1);
    assert(spec_is_pow_2(1)) by {
        reveal_with_fuel(spec_is_pow_2, 1);
    }
    lemma_level_strides(w, 2, 1);
    let s1 = apply_ops(w, level_phase(len, 2, 1));
    lemma_level_done(s1, 2);
    assert(s1 == apply_ops(w, bitonic4_net(len)));
    // the middle levels double the sorted runs up to half the buffer
    assert(spec_is_pow_2(4)) by {
        reveal_with_fuel(spec_is_pow_2, 4);
    }
    assert(4int / 2 == 2);
    lemma_middle_01(s1, 4);
    let s2 = apply_ops(s1, middle_phases(len, 4));
    // the final phase is the level of the whole buffer
    lemma_exchange_is_level(len, len / 2);
    assert(len % (2 * (len / 2)) == 0 && 2 * (len / 2) == len) by {
        lemma_fundamental_div_mod(len, 2);
        assert(len % 2 == 0);
        vstd::arithmetic::div_mod::lemma_mod_multiples_basic(1, len);
        assert(1 * len == len) by (nonlinear_arith);
    }
    lemma_level_entry(s2, len / 2);
    assert(spec_is_pow_2(len / 2));
    lemma_level_strides(s2, len, len / 2);
    let s3 = apply_ops(s2, level_phase(len, len, len / 2));
    lemma_level_done(s3, len);
    assert(s3 == apply_ops(w, bitonic_net(len)));
    assert forall|x: int, y: int| 0 <= x <= y < len implies s3[x] <= s3[y] by {
        lemma_fundamental_div_mod_converse(x, len, 0, x);
        lemma_fundamental_div_mod_converse(y, len, 0, y);
        // mention the two values so the invariant fires on them
        assert(s3[x] == s3[x] && s3[y] == s3[y]);
    }
}

/// The bitonic network sorts every buffer of valid length: the
/// zero-one reduction carries `lemma_net_01` to arbitrary values.
pub proof fn lemma_bitonic_net_sorts(s: Seq<i32>)
    requires
        valid_sort_len(s.len() as int),
    ensures
        sorted_asc(apply_ops(s, bitonic_net(s.len() as int))),
{
    let len = s.len() as int;
    if s.len() <= 2 {
        if s.len() == 2 {
            lemma_net_two(s);
            let r = apply_ops(s, bitonic_net(2));
            assert(r.len() == 2 && r[0] <= r[1]);
            assert(sorted_asc(r));
        } else {
            assert(bitonic4_net(len).len() == 0);
            assert(middle_phases(len, 4) =~= Seq::<CmpOp>::empty());
            assert(exchange_phase(len, 0) =~= Seq::<CmpOp>::empty());
            assert(bitonic_net(len) =~= Seq::<CmpOp>::empty());
            assert(apply_ops(s, bitonic_net(len)) == s);
        }
    } else {
        let r = apply_ops(s, bitonic_net(len));
        lemma_bitonic_net_in_range(len);
        assert forall|v: i32| sorted_asc(#[trigger] bin(r, v)) by {
            lemma_bin_apply(s, bitonic_net(len), v);
            assert(zero_one(bin(s, v)));
            lemma_net_01(bin(s, v));
        }
        lemma_sorted_from_bins(r);
    }
}


} // verus!
