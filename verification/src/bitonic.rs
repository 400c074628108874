//! The bitonic sorting network: a seeding pass over chunks of four,
//! one direction-alternating merge level for every run length from
//! four up to half the buffer, and a final ascending merge phase.
//! Each pass is specified as the application of a compare-exchange
//! network that depends only on the buffer length, so the comparison
//! pattern is data-independent and the chunks of one pass touch
//! disjoint index ranges.

use vstd::prelude::*;

use crate::net::{apply_ops, cmpx, half_net, max_i32, min_i32, op_in_range, ops_in_range, shift_ops, CmpOp};
use crate::net::{
    lemma_apply_ops_basic, lemma_apply_ops_concat, lemma_apply_ops_push, lemma_apply_ops_shift,
};
use crate::sort_utils::{copy_range, is_ascending, sort_pair, sorted_asc, spec_is_pow_2, valid_sort_len,
    write_range, SortType};
use crate::sort_utils::lemma_pow2_divides;
use vstd::arithmetic::div_mod::{
    lemma_fundamental_div_mod, lemma_fundamental_div_mod_converse, lemma_mod_multiples_basic,
};
use vstd::arithmetic::mul::lemma_mul_inequality;

verus! {

/// The seeding network: in every whole chunk of four, the first pair
/// ascending and the second pair descending, which leaves each chunk
/// bitonic.
pub open spec fn bitonic4_net(len: int) -> Seq<CmpOp> {
    Seq::new((2 * (len / 4)) as nat, |k: int| (2 * k, 2 * k + 1, k % 2 == 0))
}

/// One merge pass at a given stride: the buffer is cut into chunks of
/// `2 * stride`, and inside chunk `c` position `i` of the first half
/// meets position `i` of the second half; the direction of a chunk is
/// given by the aligned run of length `block` it lies in — ascending
/// in even runs, descending in odd ones.
pub open spec fn chunked_half_net(len: int, stride: int, block: int) -> Seq<CmpOp> {
    Seq::new(
        (len / 2) as nat,
        |k: int|
            (
                2 * stride * (k / stride) + k % stride,
                2 * stride * (k / stride) + stride + k % stride,
                ((2 * stride * (k / stride)) / block) % 2 == 0,
            ),
    )
}

/// The network of one exchange pass: every chunk ascending.
pub open spec fn cmp_exchange_net(len: int, stride: int) -> Seq<CmpOp> {
    chunked_half_net(len, stride, len)
}

/// One merge pass whose direction splits once over the chunk list:
/// chunks with index below `flip_at` are merged ascending, all later
/// chunks descending.
pub open spec fn split_half_net(len: int, stride: int, flip_at: int) -> Seq<CmpOp> {
    Seq::new(
        (len / 2) as nat,
        |k: int|
            (
                2 * stride * (k / stride) + k % stride,
                2 * stride * (k / stride) + stride + k % stride,
                k / stride < flip_at,
            ),
    )
}

/// The network of one direction-alternating merge pass: the first half
/// of the chunks (by index) ascending, the rest descending.
pub open spec fn bitonic_merge_net(len: int, stride: int) -> Seq<CmpOp> {
    split_half_net(len, stride, len / (4 * stride))
}

/// One whole merge level at run length `block`: strides halving from
/// `stride` down to one, directions alternating by run of `block`.
pub open spec fn level_phase(len: int, block: int, stride: int) -> Seq<CmpOp>
    decreases stride,
{
    if stride < 1 {
        Seq::empty()
    } else {
        chunked_half_net(len, stride, block) + level_phase(len, block, stride / 2)
    }
}

/// All middle merge levels, run lengths doubling from `block` while a
/// level still fits twice into the buffer.
pub open spec fn middle_phases(len: int, block: int) -> Seq<CmpOp>
    decreases len - block,
{
    if 4 <= block && 2 * block <= len {
        level_phase(len, block, block / 2) + middle_phases(len, 2 * block)
    } else {
        Seq::empty()
    }
}

/// The whole final ascending phase, strides halving from `stride` down
/// to one.
pub open spec fn exchange_phase(len: int, stride: int) -> Seq<CmpOp>
    decreases stride,
{
    if stride < 1 {
        Seq::empty()
    } else {
        cmp_exchange_net(len, stride) + exchange_phase(len, stride / 2)
    }
}

/// The full bitonic network for a buffer of length `len`: it depends
/// on the length alone, never on the values.
pub open spec fn bitonic_net(len: int) -> Seq<CmpOp> {
    bitonic4_net(len) + middle_phases(len, 4) + exchange_phase(len, len / 2)
}

/// Every operation of a chunked merge pass stays inside the buffer.
pub(crate) proof fn lemma_chunked_net_in_range(len: int, stride: int, block: int)
    requires
        stride >= 1,
        len >= 0,
        len % (2 * stride) == 0,
    ensures
        ops_in_range(chunked_half_net(len, stride, block), len),
        chunked_half_net(len, stride, block).len() == len / 2,
{
    let net = chunked_half_net(len, stride, block);
    let q = len / (2 * stride);
    lemma_fundamental_div_mod(len, 2 * stride);
    assert(len == q * (2 * stride));
    assert(len / 2 == q * stride) by {
        assert(q * (2 * stride) == (q * stride) * 2) by (nonlinear_arith);
        lemma_fundamental_div_mod_converse(len, 2, q * stride, 0);
    }
    assert forall|k: int| 0 <= k < net.len() implies op_in_range(#[trigger] net[k], len) by {
        let c = k / stride;
        let i = k % stride;
        lemma_fundamental_div_mod(k, stride);
        assert(0 <= i < stride && k == stride * c + i);
        assert(c >= 0 && c < q) by (nonlinear_arith)
            requires
                k == stride * c + i && 0 <= i < stride && 0 <= k < q * stride && stride >= 1,
        ;
        assert(2 * stride * c + 2 * stride <= len) by (nonlinear_arith)
            requires
                c < q && stride >= 1 && len == q * (2 * stride),
        ;
    }
}

/// The slice of a chunked pass that belongs to chunk `c` is the plain
/// half-merge network of one chunk, shifted to the chunk's offset.
pub(crate) proof fn lemma_chunk_slice(len: int, stride: int, block: int, c: int)
    requires
        stride >= 1,
        0 <= c,
        (c + 1) * stride <= len / 2,
    ensures
        chunked_half_net(len, stride, block).subrange(c * stride, (c + 1) * stride)
            =~= shift_ops(half_net(2 * stride, ((2 * stride * c) / block) % 2 == 0), 2 * stride * c),
{
    let net = chunked_half_net(len, stride, block);
    let lhs = net.subrange(c * stride, (c + 1) * stride);
    let rhs = shift_ops(half_net(2 * stride, ((2 * stride * c) / block) % 2 == 0), 2 * stride * c);
    assert(c * stride >= 0) by (nonlinear_arith)
        requires
            c >= 0 && stride >= 1,
    ;
    assert((c + 1) * stride == c * stride + stride) by (nonlinear_arith);
    assert(lhs.len() == stride);
    assert(rhs.len() == stride);
    assert forall|j: int| 0 <= j < stride implies lhs[j] == rhs[j] by {
        let k = c * stride + j;
        assert(c * stride + j == stride * c + j) by (nonlinear_arith);
        lemma_fundamental_div_mod_converse(k, stride, c, j);
        assert(net[k] == (
            2 * stride * c + j,
            2 * stride * c + stride + j,
            ((2 * stride * c) / block) % 2 == 0,
        ));
        assert(rhs[j] == (
            j + 2 * stride * c,
            stride + j + 2 * stride * c,
            ((2 * stride * c) / block) % 2 == 0,
        ));
    }
}

/// Every operation of a split-direction merge pass stays inside the
/// buffer.
proof fn lemma_split_net_in_range(len: int, stride: int, flip_at: int)
    requires
        stride >= 1,
        len >= 0,
        len % (2 * stride) == 0,
    ensures
        ops_in_range(split_half_net(len, stride, flip_at), len),
        split_half_net(len, stride, flip_at).len() == len / 2,
{
    let net = split_half_net(len, stride, flip_at);
    let q = len / (2 * stride);
    lemma_fundamental_div_mod(len, 2 * stride);
    assert(len == q * (2 * stride));
    assert(len / 2 == q * stride) by {
        assert(q * (2 * stride) == (q * stride) * 2) by (nonlinear_arith);
        lemma_fundamental_div_mod_converse(len, 2, q * stride, 0);
    }
    assert forall|k: int| 0 <= k < net.len() implies op_in_range(#[trigger] net[k], len) by {
        let c = k / stride;
        let i = k % stride;
        lemma_fundamental_div_mod(k, stride);
        assert(0 <= i < stride && k == stride * c + i);
        assert(c >= 0 && c < q) by (nonlinear_arith)
            requires
                k == stride * c + i && 0 <= i < stride && 0 <= k < q * stride && stride >= 1,
        ;
        assert(2 * stride * c + 2 * stride <= len) by (nonlinear_arith)
            requires
                c < q && stride >= 1 && len == q * (2 * stride),
        ;
    }
}

/// The slice of a split-direction pass that belongs to chunk `c` is
/// the plain half-merge network of one chunk, shifted to the chunk's
/// offset.
proof fn lemma_split_chunk_slice(len: int, stride: int, flip_at: int, c: int)
    requires
        stride >= 1,
        0 <= c,
        (c + 1) * stride <= len / 2,
    ensures
        split_half_net(len, stride, flip_at).subrange(c * stride, (c + 1) * stride)
            =~= shift_ops(half_net(2 * stride, c < flip_at), 2 * stride * c),
{
    let net = split_half_net(len, stride, flip_at);
    let lhs = net.subrange(c * stride, (c + 1) * stride);
    let rhs = shift_ops(half_net(2 * stride, c < flip_at), 2 * stride * c);
    assert(c * stride >= 0) by (nonlinear_arith)
        requires
            c >= 0 && stride >= 1,
    ;
    assert((c + 1) * stride == c * stride + stride) by (nonlinear_arith);
    assert(lhs.len() == stride);
    assert(rhs.len() == stride);
    assert forall|j: int| 0 <= j < stride implies lhs[j] == rhs[j] by {
        let k = c * stride + j;
        assert(c * stride + j == stride * c + j) by (nonlinear_arith);
        lemma_fundamental_div_mod_converse(k, stride, c, j);
        assert(net[k] == (2 * stride * c + j, 2 * stride * c + stride + j, c < flip_at));
        assert(rhs[j] == (j + 2 * stride * c, stride + j + 2 * stride * c, c < flip_at));
    }
}

/// Order `a` against `b` ascending and `c` against `d` descending: the
/// seed of one chunk of four.
pub fn bitonic_4(a: &mut i32, b: &mut i32, c: &mut i32, d: &mut i32)
    ensures
        *final (a) == min_i32(*old(a), *old(b)),
        *final (b) == max_i32(*old(a), *old(b)),
        *final (c) == max_i32(*old(c), *old(d)),
        *final (d) == min_i32(*old(c), *old(d)),
{
    sort_pair(a, SortType::Greater, b);
    sort_pair(c, SortType::Less, d);
}

/// The seeding pass: apply `bitonic_4` to every whole chunk of four.
pub fn bitonic_4_seq(arr: &mut Vec<i32>)
    ensures
        final (arr)@ == apply_ops(old(arr)@, bitonic4_net(old(arr).len() as int)),
        final (arr).len() == old(arr).len(),
        final (arr)@.to_multiset() == old(arr)@.to_multiset(),
{
    let ghost net = bitonic4_net(old(arr).len() as int);
    let len = arr.len();
    let mut m: usize = 0;
    while m < len / 4
        invariant
            0 <= m <= len / 4,
            len == old(arr).len(),
            arr.len() == len,
            net == bitonic4_net(len as int),
            arr@ == apply_ops(old(arr)@, net.take(2 * m)),
        decreases len / 4 - m,
    {
        assert(4 * m + 4 <= 4 * (len / 4) <= len) by {
            lemma_mul_inequality(m + 1, (len / 4) as int, 4);
            lemma_fundamental_div_mod(len as int, 4);
        }
        let ghost prev = arr@;
        let mut a = arr[4 * m];
        let mut b = arr[4 * m + 1];
        let mut c = arr[4 * m + 2];
        let mut d = arr[4 * m + 3];
        bitonic_4(&mut a, &mut b, &mut c, &mut d);
        arr.set(4 * m, a);
        arr.set(4 * m + 1, b);
        arr.set(4 * m + 2, c);
        arr.set(4 * m + 3, d);
        proof {
            let op1 = net[2 * m];
            let op2 = net[2 * m + 1];
            assert(op1 == (4 * m as int, 4 * m + 1, true));
            assert(op2 == (4 * m + 2, 4 * m + 3, false));
            assert(arr@ =~= cmpx(cmpx(prev, op1), op2));
            lemma_apply_ops_push(old(arr)@, net.take(2 * m), op1);
            assert(net.take(2 * m).push(op1) =~= net.take(2 * m + 1));
            lemma_apply_ops_push(old(arr)@, net.take(2 * m + 1), op2);
            assert(net.take(2 * m + 1).push(op2) =~= net.take(2 * m + 2));
        }
        m = m + 1;
    }
    proof {
        assert(net.take(2 * ((len / 4) as int)) =~= net);
        assert forall|k: int| 0 <= k < net.len() implies op_in_range(#[trigger] net[k], len as int) by {
            lemma_mul_inequality((len / 4) as int, (len / 4) as int, 4);
            lemma_fundamental_div_mod(len as int, 4);
        }
        lemma_apply_ops_basic(old(arr)@, net);
    }
}

/// Compare position `i` of the first half against position `i` of the
/// second half, for every `i`, in the requested direction.  The buffer
/// must split evenly.
pub fn merge_helper(arr: &mut Vec<i32>, order: SortType)
    requires
        old(arr).len() % 2 == 0,
    ensures
        final (arr)@ == apply_ops(old(arr)@, half_net(old(arr).len() as int, is_ascending(order))),
        final (arr).len() == old(arr).len(),
        final (arr)@.to_multiset() == old(arr)@.to_multiset(),
{
    let ghost net = half_net(old(arr).len() as int, is_ascending(order));
    let len = arr.len();
    let n = len / 2;
    let mut i: usize = 0;
    while i < n
        invariant
            0 <= i <= n,
            len == old(arr).len(),
            len % 2 == 0,
            n == len / 2,
            arr.len() == len,
            net == half_net(len as int, is_ascending(order)),
            arr@ == apply_ops(old(arr)@, net.take(i as int)),
        decreases n - i,
    {
        let ghost prev = arr@;
        let mut a = arr[i];
        let mut b = arr[n + i];
        sort_pair(&mut a, order, &mut b);
        arr.set(i, a);
        arr.set(n + i, b);
        proof {
            let op = net[i as int];
            assert(arr@ =~= cmpx(prev, op));
            lemma_apply_ops_push(old(arr)@, net.take(i as int), op);
            assert(net.take(i as int).push(op) =~= net.take(i + 1));
        }
        i = i + 1;
    }
    proof {
        assert(net.take(n as int) =~= net);
        assert(ops_in_range(net, len as int));
        lemma_apply_ops_basic(old(arr)@, net);
    }
}

/// One chunked merge pass: cut the buffer into chunks of `2 * stride`
/// and run `merge_helper` over each, ascending in even runs of
/// `block`, descending in odd ones.
fn chunk_merge_pass(arr: &mut Vec<i32>, stride: usize, block: usize)
    requires
        stride >= 1,
        block >= 1,
        old(arr).len() as int % (2 * stride as int) == 0,
    ensures
        final (arr)@ == apply_ops(
            old(arr)@,
            chunked_half_net(old(arr).len() as int, stride as int, block as int),
        ),
        final (arr).len() == old(arr).len(),
        final (arr)@.to_multiset() == old(arr)@.to_multiset(),
{
    let ghost net = chunked_half_net(old(arr).len() as int, stride as int, block as int);
    proof {
        lemma_chunked_net_in_range(old(arr).len() as int, stride as int, block as int);
    }
    if arr.len() == 0 {
        proof {
            assert(net =~= Seq::<CmpOp>::empty());
            assert(arr@ =~= old(arr)@);
        }
        return ;
    }
    let len = arr.len();
    assert(2 * stride as int <= len as int) by {
        if 2 * stride as int > len as int {
            vstd::arithmetic::div_mod::lemma_small_mod(len as nat, (2 * stride) as nat);
        }
    }
    let cs = 2 * stride;
    let nchunks = len / cs;
    let ghost q = len as int / (2 * stride as int);
    proof {
        lemma_fundamental_div_mod(len as int, 2 * stride as int);
        assert(len as int == q * (2 * stride as int));
        assert(len as int / 2 == q * stride as int) by {
            assert(q * (2 * stride as int) == (q * stride as int) * 2) by (nonlinear_arith);
            lemma_fundamental_div_mod_converse(len as int, 2, q * stride as int, 0);
        }
    }
    let mut c: usize = 0;
    let mut start: usize = 0;
    while c < nchunks
        invariant
            0 <= c <= nchunks,
            stride >= 1,
            block >= 1,
            cs == 2 * stride,
            len == old(arr).len(),
            len % cs == 0,
            nchunks == len / cs,
            q == nchunks,
            len == q * cs,
            len as int / 2 == q * stride as int,
            start == c * cs,
            arr.len() == len,
            net == chunked_half_net(len as int, stride as int, block as int),
            net.len() == len as int / 2,
            arr@ == apply_ops(old(arr)@, net.take(c as int * stride as int)),
        decreases nchunks - c,
    {
        proof {
            lemma_mul_inequality(c + 1, q, cs as int);
            assert((c + 1) as int * cs as int == c as int * cs as int + cs as int)
                by (nonlinear_arith);
            assert((c + 1) as int * stride as int <= q * stride as int) by {
                lemma_mul_inequality(c + 1, q, stride as int);
            }
            assert(c as int * stride as int >= 0 && (c + 1) as int * stride as int == c as int
                * stride as int + stride as int) by (nonlinear_arith)
                requires
                    c >= 0 && stride >= 1,
            ;
        }
        let ghost prev = arr@;
        let ghost asc = ((2 * stride as int * c as int) / block as int) % 2 == 0;
        let mut chunk = copy_range(arr, start, start + cs);
        proof {
            assert(2 * stride as int * c as int == start as int) by (nonlinear_arith)
                requires
                    start == c * cs && cs == 2 * stride,
            ;
        }
        let order = if (start / block) % 2 == 0 {
            SortType::Greater
        } else {
            SortType::Less
        };
        merge_helper(&mut chunk, order);
        write_range(arr, start, &chunk);
        proof {
            let cops = half_net(cs as int, asc);
            assert(ops_in_range(cops, cs as int));
            lemma_apply_ops_shift(prev, cops, start as int, cs as int);
            assert(shift_ops(cops, start as int).len() == stride as int);
            assert(arr@ =~= apply_ops(prev, shift_ops(cops, start as int)));
            lemma_chunk_slice(len as int, stride as int, block as int, c as int);
            let done = net.take(c as int * stride as int);
            let slice = net.subrange(c as int * stride as int, (c + 1) as int * stride as int);
            assert(net.take((c + 1) as int * stride as int) =~= done + slice);
            lemma_apply_ops_concat(old(arr)@, done, slice);
        }
        start = start + cs;
        c = c + 1;
    }
    proof {
        assert(net.take(q * stride as int) =~= net);
        lemma_apply_ops_basic(old(arr)@, net);
    }
}

/// One exchange pass: every chunk of `2 * stride` merged ascending.
pub fn cmp_exchange(arr: &mut Vec<i32>, stride: usize)
    requires
        stride >= 1,
        old(arr).len() as int % (2 * stride as int) == 0,
    ensures
        final (arr)@ == apply_ops(old(arr)@, cmp_exchange_net(old(arr).len() as int, stride as int)),
        final (arr).len() == old(arr).len(),
        final (arr)@.to_multiset() == old(arr)@.to_multiset(),
{
    if arr.len() == 0 {
        proof {
            assert(cmp_exchange_net(0, stride as int) =~= Seq::<CmpOp>::empty());
            assert(arr@ =~= old(arr)@);
        }
        return ;
    }
    let block = arr.len();
    chunk_merge_pass(arr, stride, block);
}

/// One direction-alternating merge pass: the first half of the chunks
/// of `2 * stride` (by chunk index) merged ascending, the rest
/// descending.
pub fn bitonic_merge(arr: &mut Vec<i32>, stride: usize)
    requires
        stride >= 1,
        old(arr).len() as int % (2 * stride as int) == 0,
    ensures
        final (arr)@ == apply_ops(old(arr)@, bitonic_merge_net(old(arr).len() as int, stride as int)),
        final (arr).len() == old(arr).len(),
        final (arr)@.to_multiset() == old(arr)@.to_multiset(),
{
    let ghost net = bitonic_merge_net(old(arr).len() as int, stride as int);
    proof {
        lemma_split_net_in_range(
            old(arr).len() as int,
            stride as int,
            old(arr).len() as int / (4 * stride as int),
        );
    }
    if arr.len() == 0 {
        proof {
            assert(net =~= Seq::<CmpOp>::empty());
            assert(arr@ =~= old(arr)@);
        }
        return ;
    }
    let len = arr.len();
    assert(2 * stride as int <= len as int) by {
        if 2 * stride as int > len as int {
            vstd::arithmetic::div_mod::lemma_small_mod(len as nat, (2 * stride) as nat);
        }
    }
    let chunk_size = 2 * stride;
    let half_idx = (len / 2) / chunk_size;
    proof {
        vstd::arithmetic::div_mod::lemma_div_denominator(len as int, 2, chunk_size as int);
        assert(2 * chunk_size as int == 4 * stride as int);
        assert(half_idx as int == len as int / (4 * stride as int));
    }
    let nchunks = len / chunk_size;
    let ghost q = len as int / (2 * stride as int);
    proof {
        lemma_fundamental_div_mod(len as int, 2 * stride as int);
        assert(len as int == q * (2 * stride as int));
        assert(len as int / 2 == q * stride as int) by {
            assert(q * (2 * stride as int) == (q * stride as int) * 2) by (nonlinear_arith);
            lemma_fundamental_div_mod_converse(len as int, 2, q * stride as int, 0);
        }
    }
    let mut c: usize = 0;
    let mut start: usize = 0;
    while c < nchunks
        invariant
            0 <= c <= nchunks,
            stride >= 1,
            chunk_size == 2 * stride,
            len == old(arr).len(),
            len % chunk_size == 0,
            nchunks == len / chunk_size,
            q == nchunks,
            len == q * chunk_size,
            len as int / 2 == q * stride as int,
            start == c * chunk_size,
            arr.len() == len,
            net == split_half_net(len as int, stride as int, half_idx as int),
            net.len() == len as int / 2,
            arr@ == apply_ops(old(arr)@, net.take(c as int * stride as int)),
        decreases nchunks - c,
    {
        proof {
            lemma_mul_inequality(c + 1, q, chunk_size as int);
            assert((c + 1) as int * chunk_size as int == c as int * chunk_size as int
                + chunk_size as int) by (nonlinear_arith);
            assert((c + 1) as int * stride as int <= q * stride as int) by {
                lemma_mul_inequality(c + 1, q, stride as int);
            }
            assert(c as int * stride as int >= 0 && (c + 1) as int * stride as int == c as int
                * stride as int + stride as int) by (nonlinear_arith)
                requires
                    c >= 0 && stride >= 1,
            ;
        }
        let ghost prev = arr@;
        let ghost asc = (c as int) < half_idx as int;
        let mut chunk = copy_range(arr, start, start + chunk_size);
        let order = if c < half_idx {
            SortType::Greater
        } else {
            SortType::Less
        };
        merge_helper(&mut chunk, order);
        write_range(arr, start, &chunk);
        proof {
            let cops = half_net(chunk_size as int, asc);
            assert(ops_in_range(cops, chunk_size as int));
            lemma_apply_ops_shift(prev, cops, start as int, chunk_size as int);
            assert(shift_ops(cops, start as int).len() == stride as int);
            assert(arr@ =~= apply_ops(prev, shift_ops(cops, start as int)));
            lemma_split_chunk_slice(len as int, stride as int, half_idx as int, c as int);
            assert(2 * stride as int * c as int == start as int) by (nonlinear_arith)
                requires
                    start == c * chunk_size && chunk_size == 2 * stride,
            ;
            let done = net.take(c as int * stride as int);
            let slice = net.subrange(c as int * stride as int, (c + 1) as int * stride as int);
            assert(net.take((c + 1) as int * stride as int) =~= done + slice);
            lemma_apply_ops_concat(old(arr)@, done, slice);
        }
        start = start + chunk_size;
        c = c + 1;
    }
    proof {
        assert(net.take(q * stride as int) =~= net);
        lemma_apply_ops_basic(old(arr)@, net);
    }
}

/// Sorts power-of-two-length buffers in place by the fixed bitonic
/// network.  The result is exactly the application of `bitonic_net`,
/// a network that depends only on the length, and the values are kept
/// as a multiset.  A buffer whose length is not a power of two
/// violates the precondition: a verified caller is rejected before the
/// call, so no partial or wrongly-sorted result can ever be produced.
pub struct BitonicSorter;

impl BitonicSorter {
    /// Run the seeding pass, one merge level per run length from four
    /// to half the buffer, and the final ascending phase.
    pub fn sort(&self, arr: &mut Vec<i32>)
        requires
            valid_sort_len(old(arr).len() as int),
        ensures
            final (arr)@ == apply_ops(old(arr)@, bitonic_net(old(arr).len() as int)),
            final (arr).len() == old(arr).len(),
            final (arr)@.to_multiset() == old(arr)@.to_multiset(),
            sorted_asc(final (arr)@),
            sorted_asc(old(arr)@) ==> final (arr)@ == old(arr)@,
    {
        let ghost len = old(arr).len() as int;
        let ghost target1 = bitonic4_net(len) + middle_phases(len, 4);
        bitonic_4_seq(arr);
        proof {
            lemma_apply_ops_concat(old(arr)@, bitonic4_net(len), middle_phases(len, 4));
            assert(spec_is_pow_2(4)) by {
                reveal_with_fuel(spec_is_pow_2, 4);
            }
        }
        let mut block: usize = 4;
        while block <= arr.len() / 2
            invariant
                arr.len() == old(arr).len(),
                len == old(arr).len() as int,
                valid_sort_len(len),
                block >= 4,
                spec_is_pow_2(block as int),
                apply_ops(arr@, middle_phases(len, block as int)) == apply_ops(
                    old(arr)@,
                    target1,
                ),
                target1 == bitonic4_net(len) + middle_phases(len, 4),
            decreases len - block,
        {
            proof {
                assert(2 * block as int <= len) by {
                    lemma_fundamental_div_mod(len, 2);
                    assert(len % 2 == 0);
                }
                lemma_block_start(len, block as int);
                assert(middle_phases(len, block as int) == level_phase(
                    len,
                    block as int,
                    block as int / 2,
                ) + middle_phases(len, 2 * block as int));
            }
            let ghost entry = arr@;
            let ghost level_target = apply_ops(entry, level_phase(len, block as int, block as int / 2));
            let mut stride = block / 2;
            while stride >= 1
                invariant
                    arr.len() == old(arr).len(),
                    len == old(arr).len() as int,
                    block >= 4,
                    stride as int == 0 || (spec_is_pow_2(stride as int) && len % (2
                        * stride as int) == 0 && 2 * stride as int <= len),
                    apply_ops(arr@, level_phase(len, block as int, stride as int))
                        == level_target,
                decreases stride,
            {
                let ghost prev = arr@;
                chunk_merge_pass(arr, stride, block);
                proof {
                    assert(level_phase(len, block as int, stride as int) == chunked_half_net(
                        len,
                        stride as int,
                        block as int,
                    ) + level_phase(len, block as int, stride as int / 2));
                    lemma_apply_ops_concat(
                        prev,
                        chunked_half_net(len, stride as int, block as int),
                        level_phase(len, block as int, stride as int / 2),
                    );
                    lemma_stride_halves(len, stride as int);
                }
                stride = stride / 2;
            }
            proof {
                assert(level_phase(len, block as int, 0) =~= Seq::<CmpOp>::empty());
                assert(arr@ == level_target);
                lemma_apply_ops_concat(
                    entry,
                    level_phase(len, block as int, block as int / 2),
                    middle_phases(len, 2 * block as int),
                );
                assert(spec_is_pow_2(2 * block as int)) by {
                    assert((2 * block as int) / 2 == block as int);
                }
            }
            block = 2 * block;
        }
        proof {
            assert(2 * block as int > len) by {
                if len >= 2 {
                    lemma_fundamental_div_mod(len, 2);
                    assert(len % 2 == 0);
                }
            }
            assert(middle_phases(len, block as int) =~= Seq::<CmpOp>::empty());
            assert(arr@ == apply_ops(old(arr)@, target1));
            lemma_apply_ops_concat(old(arr)@, target1, exchange_phase(len, len / 2));
            assert(target1 + exchange_phase(len, len / 2) =~= bitonic_net(len));
            lemma_half_start(len);
        }
        let mut stride = arr.len() / 2;
        while stride >= 1
            invariant
                arr.len() == old(arr).len(),
                len == old(arr).len() as int,
                stride as int == 0 || (spec_is_pow_2(stride as int) && len % (2 * stride as int)
                    == 0 && 2 * stride as int <= len),
                apply_ops(arr@, exchange_phase(len, stride as int)) == apply_ops(
                    old(arr)@,
                    bitonic_net(len),
                ),
            decreases stride,
        {
            let ghost prev = arr@;
            cmp_exchange(arr, stride);
            proof {
                assert(exchange_phase(len, stride as int) == cmp_exchange_net(len, stride as int)
                    + exchange_phase(len, stride as int / 2));
                lemma_apply_ops_concat(
                    prev,
                    cmp_exchange_net(len, stride as int),
                    exchange_phase(len, stride as int / 2),
                );
                lemma_stride_halves(len, stride as int);
            }
            stride = stride / 2;
        }
        proof {
            assert(exchange_phase(len, 0) =~= Seq::<CmpOp>::empty());
            lemma_bitonic_net_in_range(len);
            lemma_apply_ops_basic(old(arr)@, bitonic_net(len));
            crate::bitonic_sorted::lemma_bitonic_net_sorts(old(arr)@);
            if sorted_asc(old(arr)@) {
                crate::sort_utils::lemma_sorted_permutation_unique(
                    old(arr)@,
                    apply_ops(old(arr)@, bitonic_net(len)),
                );
            }
        }
    }
}

/// At a middle level that fits twice into a valid length, half the run
/// length is a valid starting stride.
proof fn lemma_block_start(len: int, block: int)
    requires
        valid_sort_len(len),
        spec_is_pow_2(block),
        block >= 4,
        2 * block <= len,
    ensures
        spec_is_pow_2(block / 2),
        len % block == 0,
        block <= len,
        2 * (block / 2) == block,
        spec_is_pow_2(len),
{
    assert(spec_is_pow_2(block / 2) && block % 2 == 0);
    assert(len >= 8);
    lemma_pow2_divides(block, len);
}

/// Half of a valid length is a valid stride for the first exchange
/// pass.
proof fn lemma_half_start(len: int)
    requires
        valid_sort_len(len),
    ensures
        len / 2 == 0 || (spec_is_pow_2(len / 2) && len % (2 * (len / 2)) == 0 && 2 * (len / 2)
            <= len),
{
    if len >= 2 {
        lemma_fundamental_div_mod(len, 2);
        assert(len == 2 * (len / 2));
        assert(len % (2 * (len / 2)) == 0) by {
            assert(len == 1 * (2 * (len / 2))) by (nonlinear_arith)
                requires
                    len == 2 * (len / 2),
            ;
            lemma_mod_multiples_basic(1, 2 * (len / 2));
        }
    } else {
        assert(len / 2 == 0);
    }
}

/// Halving a valid stride keeps it valid.
proof fn lemma_stride_halves(len: int, stride: int)
    requires
        stride >= 1,
        spec_is_pow_2(stride),
        len % (2 * stride) == 0,
        2 * stride <= len,
    ensures
        stride / 2 == 0 || (spec_is_pow_2(stride / 2) && len % (2 * (stride / 2)) == 0 && 2
            * (stride / 2) <= len),
{
    if stride >= 2 {
        assert(spec_is_pow_2(stride / 2));
        assert(2 * (stride / 2) == stride);
        assert(len % stride == 0) by {
            let q = len / (2 * stride);
            lemma_fundamental_div_mod(len, 2 * stride);
            assert(len == (2 * q) * stride) by (nonlinear_arith)
                requires
                    len == (2 * stride) * q + 0,
            ;
            lemma_mod_multiples_basic(2 * q, stride);
        }
    }
}

/// Every operation of the full bitonic network stays inside the
/// buffer.
pub(crate) proof fn lemma_bitonic_net_in_range(len: int)
    requires
        valid_sort_len(len),
    ensures
        ops_in_range(bitonic_net(len), len),
{
    assert forall|k: int| 0 <= k < bitonic4_net(len).len() implies op_in_range(
        #[trigger] bitonic4_net(len)[k],
        len,
    ) by {
        lemma_mul_inequality(len / 4, len / 4, 4);
        lemma_fundamental_div_mod(len, 4);
    }
    assert(spec_is_pow_2(4)) by {
        reveal_with_fuel(spec_is_pow_2, 4);
    }
    lemma_middle_phases_in_range(len, 4);
    lemma_half_start(len);
    lemma_exchange_phase_in_range(len, len / 2);
    let a = bitonic4_net(len);
    let b = middle_phases(len, 4);
    let c = exchange_phase(len, len / 2);
    assert forall|k: int| 0 <= k < bitonic_net(len).len() implies op_in_range(
        #[trigger] bitonic_net(len)[k],
        len,
    ) by {
        if k < a.len() {
            assert(bitonic_net(len)[k] == a[k]);
            assert(op_in_range(a[k], len));
        } else if k < a.len() + b.len() {
            assert(bitonic_net(len)[k] == b[k - a.len()]);
            assert(op_in_range(b[k - a.len()], len));
        } else {
            assert(bitonic_net(len)[k] == c[k - a.len() - b.len()]);
            assert(op_in_range(c[k - a.len() - b.len()], len));
        }
    }
}

/// Every operation of one merge level stays inside the buffer.
proof fn lemma_level_phase_in_range(len: int, block: int, stride: int)
    requires
        len >= 0,
        stride == 0 || (spec_is_pow_2(stride) && len % (2 * stride) == 0 && 2 * stride <= len),
    ensures
        ops_in_range(level_phase(len, block, stride), len),
    decreases stride,
{
    if stride >= 1 {
        lemma_chunked_net_in_range(len, stride, block);
        lemma_stride_halves(len, stride);
        lemma_level_phase_in_range(len, block, stride / 2);
        let a = chunked_half_net(len, stride, block);
        let b = level_phase(len, block, stride / 2);
        assert forall|k: int| 0 <= k < level_phase(len, block, stride).len() implies op_in_range(
            #[trigger] level_phase(len, block, stride)[k],
            len,
        ) by {
            if k < a.len() {
                assert(level_phase(len, block, stride)[k] == a[k]);
                assert(op_in_range(a[k], len));
            } else {
                assert(level_phase(len, block, stride)[k] == b[k - a.len()]);
                assert(op_in_range(b[k - a.len()], len));
            }
        }
    }
}

/// Every operation of the middle levels stays inside the buffer.
proof fn lemma_middle_phases_in_range(len: int, block: int)
    requires
        valid_sort_len(len),
        spec_is_pow_2(block),
        block >= 4,
    ensures
        ops_in_range(middle_phases(len, block), len),
    decreases len - block,
{
    if 2 * block <= len {
        lemma_block_start(len, block);
        lemma_level_phase_in_range(len, block, block / 2);
        assert(spec_is_pow_2(2 * block)) by {
            assert((2 * block) / 2 == block);
        }
        lemma_middle_phases_in_range(len, 2 * block);
        let a = level_phase(len, block, block / 2);
        let b = middle_phases(len, 2 * block);
        assert forall|k: int| 0 <= k < middle_phases(len, block).len() implies op_in_range(
            #[trigger] middle_phases(len, block)[k],
            len,
        ) by {
            if k < a.len() {
                assert(middle_phases(len, block)[k] == a[k]);
                assert(op_in_range(a[k], len));
            } else {
                assert(middle_phases(len, block)[k] == b[k - a.len()]);
                assert(op_in_range(b[k - a.len()], len));
            }
        }
    }
}

/// Every operation of the final ascending phase stays inside the
/// buffer.
proof fn lemma_exchange_phase_in_range(len: int, stride: int)
    requires
        len >= 0,
        stride == 0 || (spec_is_pow_2(stride) && len % (2 * stride) == 0 && 2 * stride <= len),
    ensures
        ops_in_range(exchange_phase(len, stride), len),
    decreases stride,
{
    if stride >= 1 {
        lemma_chunked_net_in_range(len, stride, len);
        lemma_stride_halves(len, stride);
        lemma_exchange_phase_in_range(len, stride / 2);
        let a = cmp_exchange_net(len, stride);
        let b = exchange_phase(len, stride / 2);
        assert forall|k: int| 0 <= k < exchange_phase(len, stride).len() implies op_in_range(
            #[trigger] exchange_phase(len, stride)[k],
            len,
        ) by {
            if k < a.len() {
                assert(exchange_phase(len, stride)[k] == a[k]);
                assert(op_in_range(a[k], len));
            } else {
                assert(exchange_phase(len, stride)[k] == b[k - a.len()]);
                assert(op_in_range(b[k - a.len()], len));
            }
        }
    }
}

/// Network determinism: the compare-exchange operations that the
/// bitonic sorter applies are a function of the buffer length alone,
/// never of the values; two buffers of one length go through the
/// identical operation sequence.
pub proof fn lemma_network_depends_on_length_alone(s: Seq<i32>, t: Seq<i32>)
    requires
        s.len() == t.len(),
    ensures
        bitonic_net(s.len() as int) == bitonic_net(t.len() as int),
{
}

} // verus!
