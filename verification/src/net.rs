//! Compare-exchange networks as mathematical objects: a network is a
//! sequence of operations, each naming two positions and a direction,
//! and `apply_ops` folds a network over a sequence of values.  Every
//! pass of the sorting algorithms is specified as the application of a
//! network that depends only on the buffer length, which is what makes
//! the passes data-independent.

use vstd::prelude::*;

verus! {

/// One compare-exchange operation: compare the values at positions
/// `.0` and `.1` (with `.0 < .1`) and order them ascending when `.2`
/// is true, descending otherwise.
pub type CmpOp = (int, int, bool);

/// The smaller of two values.
pub open spec fn min_i32(x: i32, y: i32) -> i32 {
    if x <= y {
        x
    } else {
        y
    }
}

/// The larger of two values.
pub open spec fn max_i32(x: i32, y: i32) -> i32 {
    if x <= y {
        y
    } else {
        x
    }
}

/// The sequence after one compare-exchange.
pub open spec fn cmpx(s: Seq<i32>, op: CmpOp) -> Seq<i32> {
    if op.2 {
        s.update(op.0, min_i32(s[op.0], s[op.1])).update(op.1, max_i32(s[op.0], s[op.1]))
    } else {
        s.update(op.0, max_i32(s[op.0], s[op.1])).update(op.1, min_i32(s[op.0], s[op.1]))
    }
}

/// The operation touches two distinct positions inside a buffer of
/// length `len`, the lower one named first.
pub open spec fn op_in_range(op: CmpOp, len: int) -> bool {
    0 <= op.0 < op.1 < len
}

/// All operations of a network fit a buffer of length `len`.
pub open spec fn ops_in_range(ops: Seq<CmpOp>, len: int) -> bool {
    forall|k: int| 0 <= k < ops.len() ==> op_in_range(#[trigger] ops[k], len)
}

/// The sequence after a whole network, first operation first.
pub open spec fn apply_ops(s: Seq<i32>, ops: Seq<CmpOp>) -> Seq<i32>
    decreases ops.len(),
{
    if ops.len() == 0 {
        s
    } else {
        apply_ops(cmpx(s, ops[0]), ops.drop_first())
    }
}

/// The network of one half-merge pass over a buffer of length `m`:
/// position `i` of the first half against position `i` of the second
/// half, all in one direction.
pub open spec fn half_net(m: int, asc: bool) -> Seq<CmpOp> {
    Seq::new((m / 2) as nat, |i: int| (i, m / 2 + i, asc))
}

/// One compare-exchange keeps the length and the multiset of values,
/// and touches no position other than the two named ones.
pub proof fn lemma_cmpx_basic(s: Seq<i32>, op: CmpOp)
    requires
        op_in_range(op, s.len() as int),
    ensures
        cmpx(s, op).len() == s.len(),
        cmpx(s, op).to_multiset() == s.to_multiset(),
        forall|k: int| 0 <= k < s.len() && k != op.0 && k != op.1 ==> cmpx(s, op)[k] == s[k],
        cmpx(s, op)[op.0] == (if op.2 { min_i32(s[op.0], s[op.1]) } else { max_i32(s[op.0], s[op.1]) }),
        cmpx(s, op)[op.1] == (if op.2 { max_i32(s[op.0], s[op.1]) } else { min_i32(s[op.0], s[op.1]) }),
{
    broadcast use vstd::seq_lib::to_multiset_update;
    broadcast use vstd::seq_lib::group_to_multiset_ensures;

    let t = cmpx(s, op);
    let x = s[op.0];
    let y = s[op.1];
    if op.2 {
        assert(t.to_multiset() =~= s.to_multiset());
    } else {
        assert(t.to_multiset() =~= s.to_multiset());
    }
}

/// Appending one operation to a network applies it last.
pub proof fn lemma_apply_ops_push(s: Seq<i32>, ops: Seq<CmpOp>, op: CmpOp)
    ensures
        apply_ops(s, ops.push(op)) == cmpx(apply_ops(s, ops), op),
    decreases ops.len(),
{
    if ops.len() == 0 {
        assert(ops.push(op).drop_first() =~= Seq::<CmpOp>::empty());
        assert(apply_ops(s, ops.push(op)) == apply_ops(cmpx(s, op), Seq::<CmpOp>::empty()));
    } else {
        assert(ops.push(op).drop_first() =~= ops.drop_first().push(op));
        lemma_apply_ops_push(cmpx(s, ops[0]), ops.drop_first(), op);
    }
}

/// A network in range keeps the length and the multiset of values.
pub proof fn lemma_apply_ops_basic(s: Seq<i32>, ops: Seq<CmpOp>)
    requires
        ops_in_range(ops, s.len() as int),
    ensures
        apply_ops(s, ops).len() == s.len(),
        apply_ops(s, ops).to_multiset() == s.to_multiset(),
    decreases ops.len(),
{
    if ops.len() > 0 {
        lemma_cmpx_basic(s, ops[0]);
        assert(ops_in_range(ops.drop_first(), s.len() as int)) by {
            assert(forall|k: int|
                0 <= k < ops.drop_first().len() ==> ops.drop_first()[k] == ops[k + 1]);
        }
        lemma_apply_ops_basic(cmpx(s, ops[0]), ops.drop_first());
    }
}

/// Applying a concatenation applies the two parts in order.
pub proof fn lemma_apply_ops_concat(s: Seq<i32>, a: Seq<CmpOp>, b: Seq<CmpOp>)
    ensures
        apply_ops(s, a + b) == apply_ops(apply_ops(s, a), b),
    decreases a.len(),
{
    if a.len() == 0 {
        assert(a + b =~= b);
    } else {
        assert((a + b).drop_first() =~= a.drop_first() + b);
        lemma_apply_ops_concat(cmpx(s, a[0]), a.drop_first(), b);
    }
}

/// The same network with both positions of every operation moved up
/// by `off`.
pub open spec fn shift_ops(ops: Seq<CmpOp>, off: int) -> Seq<CmpOp> {
    ops.map_values(|op: CmpOp| (op.0 + off, op.1 + off, op.2))
}

/// A network that fits a chunk, shifted to the chunk's offset, acts on
/// the enclosing buffer exactly as it acts on the chunk: the rest of
/// the buffer is untouched.
pub proof fn lemma_apply_ops_shift(s: Seq<i32>, ops: Seq<CmpOp>, off: int, m: int)
    requires
        0 <= off,
        0 <= m,
        off + m <= s.len(),
        ops_in_range(ops, m),
    ensures
        apply_ops(s, shift_ops(ops, off))
            == s.take(off) + apply_ops(s.subrange(off, off + m), ops) + s.skip(off + m),
    decreases ops.len(),
{
    let sub = s.subrange(off, off + m);
    if ops.len() == 0 {
        assert(s =~= s.take(off) + sub + s.skip(off + m));
    } else {
        let op = ops[0];
        let sop = (op.0 + off, op.1 + off, op.2);
        assert(shift_ops(ops, off)[0] == sop);
        assert(shift_ops(ops, off).drop_first() =~= shift_ops(ops.drop_first(), off));
        let s1 = cmpx(s, sop);
        assert(s1.len() == s.len()) by {
            lemma_cmpx_basic(s, sop);
        }
        assert(s1.subrange(off, off + m) =~= cmpx(sub, op));
        assert(ops_in_range(ops.drop_first(), m)) by {
            assert(forall|k: int|
                0 <= k < ops.drop_first().len() ==> ops.drop_first()[k] == ops[k + 1]);
        }
        lemma_apply_ops_shift(s1, ops.drop_first(), off, m);
        assert(s1.take(off) =~= s.take(off));
        assert(s1.skip(off + m) =~= s.skip(off + m));
    }
}

} // verus!
