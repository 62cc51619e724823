//! What the token mixers depend on: a chunk's input, the layer's weights and what
//! the layer keeps, and nothing that scratch held before.

use crate::engine::hazard::{is_weight, reads, writes};
use crate::engine::ops::{Buf, GdnBuf, Op, Part, Q38, St};
use crate::engine::qwen38::blocks::{
    attention, attn_core, attn_kv, attn_out, attn_query, gdn, gdn_input,
    gdn_out, gdn_project, gdn_recurrence, quant_rows,
};
use crate::engine::qwen38::GdnState;
use crate::engine::shape::{either, MatKind, Qwen38Attn, Qwen38Gdn, Shape};
use vstd::prelude::*;

verus! {

/// Whether an operation changes a buffer in place, so that what it held matters.
pub open spec fn updates(op: Op, at: Buf) -> bool {
    match op {
        Op::KdaCoeffs { g, beta, .. } => at == g || at == beta,
        Op::ConvStep { state, .. } => at == state,
        Op::L2Norm { buf, .. } => at == buf,
        Op::KdaStep { state, .. } => at == state,
        Op::HeadRmsNorm { buf, .. } => at == buf,
        Op::SigmoidGate { buf, .. } => at == buf,
        Op::RowSigmoidScale { buf, .. } => at == buf,
        Op::MlaRopeTail { buf, .. } => at == buf,
        Op::MlaStoreKv { k, v, .. } => at == k || at == v,
        Op::Softcap { .. } => at == Buf::State(St::Logits),
        Op::Scale { buf, .. } => at == buf,
        Op::FillRowTail { .. } => at == Buf::State(St::Logits),
        Op::HcNormInplace { buf, .. } => at == buf,
        Op::HcCombine { res, .. } => at == res,
        Op::GdnCoeffs { g, beta, .. } => at == g || at == beta,
        Op::ConvBatch { state, .. } => at == state,
        Op::GdnBatch { state, .. } => at == state,
        Op::GqaRope { buf, .. } => at == buf,
        Op::GqaKvAppend { cache, .. } => at == cache,
        Op::ResidualAdd { res, .. } => at == res,
        _ => false,
    }
}

/// What a buffer held matters to an operation.
pub open spec fn uses(op: Op, at: Buf) -> bool {
    reads(op, at) || updates(op, at)
}

/// One of the first `n` operations writes a buffer.
pub open spec fn written(ops: Seq<Op>, n: int, at: Buf) -> bool {
    exists|j: int| 0 <= j < n && #[trigger] writes(ops[j], at)
}

/// Whatever an operation of the list uses was given, or the list wrote it before.
pub open spec fn grounded(ops: Seq<Op>, given: spec_fn(Buf) -> bool) -> bool {
    forall|i: int, b: Buf|
        0 <= i < ops.len() && #[trigger] uses(ops[i], b) ==> given(b) || written(ops, i, b)
}

proof fn lemma_grounded_add(
    a: Seq<Op>,
    c: Seq<Op>,
    given: spec_fn(Buf) -> bool,
    known: spec_fn(Buf) -> bool,
)
    requires
        grounded(a, given),
        grounded(c, known),
        forall|b: Buf| #[trigger] known(b) ==> given(b) || written(a, a.len() as int, b),
    ensures
        grounded(a + c, given),
{
    let ops = a + c;
    let n = a.len() as int;
    assert forall|i: int, b: Buf| 0 <= i < ops.len() && #[trigger] uses(ops[i], b) implies given(b)
        || written(ops, i, b) by {
        if i < n {
            assert(uses(a[i], b));
            if written(a, i, b) {
                let j = choose|j: int| 0 <= j < i && #[trigger] writes(a[j], b);
                assert(writes(ops[j], b));
            }
        } else {
            assert(ops[i] == c[i - n]);
            assert(uses(c[i - n], b));
            if written(c, i - n, b) {
                let m = i - n;
                let j = choose|j: int| 0 <= j < m && #[trigger] writes(c[j], b);
                assert(ops[j + n] == c[j]);
                assert(writes(ops[j + n], b));
            } else {
                assert(known(b));
                if written(a, n, b) {
                    let j = choose|j: int| 0 <= j < n && #[trigger] writes(a[j], b);
                    assert(writes(ops[j], b));
                }
            }
        }
    }
}

proof fn lemma_written_first(a: Seq<Op>, c: Seq<Op>, n: int, at: Buf)
    requires
        0 <= n <= a.len(),
        written(a, n, at),
    ensures
        written(a + c, (a + c).len() as int, at),
{
    let j = choose|j: int| 0 <= j < n && #[trigger] writes(a[j], at);
    assert((a + c)[j] == a[j]);
    assert(writes((a + c)[j], at));
}

proof fn lemma_written_second(a: Seq<Op>, c: Seq<Op>, n: int, at: Buf)
    requires
        0 <= n <= c.len(),
        written(c, n, at),
    ensures
        written(a + c, (a + c).len() as int, at),
{
    let j = choose|j: int| 0 <= j < n && #[trigger] writes(c[j], at);
    assert((a + c)[a.len() + j] == c[j]);
    assert(writes((a + c)[a.len() + j], at));
}

/// What a gated DeltaNet may depend on: its input, the model's weights, and the
/// recurrent state of its own layer.
pub open spec fn gdn_given(il: usize) -> spec_fn(Buf) -> bool {
    |b: Buf| b == Buf::Rt(Q38::Cur) || is_weight(b) || (b matches Buf::Gdn(l, _) && l == il)
}

/// Its input and what its projections leave.
spec fn gdn_projected(il: usize) -> spec_fn(Buf) -> bool {
    |b: Buf|
        gdn_given(il)(b) || b == Buf::Rt(Q38::GdnQkv) || b == Buf::Rt(Q38::GdnZ) || b == Buf::Rt(
            Q38::GdnG,
        ) || b == Buf::Rt(Q38::GdnBeta)
}

proof fn lemma_gdn_project(s: Shape, part: Part, il: usize, w: Qwen38Gdn, t: u32)
    ensures
        grounded(gdn_input(s, w, t) + gdn_project(s, part, w, t), gdn_given(il)),
        ({
            let ops = gdn_input(s, w, t) + gdn_project(s, part, w, t);
            let n = ops.len() as int;
            &&& written(ops, n, Buf::Rt(Q38::GdnQkv))
            &&& written(ops, n, Buf::Rt(Q38::GdnZ))
            &&& written(ops, n, Buf::Rt(Q38::GdnG))
            &&& written(ops, n, Buf::Rt(Q38::GdnBeta))
        }),
{
    let q = gdn_input(s, w, t);
    let a = gdn_project(s, part, w, t);
    let ops = q + a;
    let k = q.len() as int;
    assert(ops[k] == a[0] && ops[k + 1] == a[1] && ops[k + 2] == a[2] && ops[k + 3] == a[3]);
    assert(ops[k + 4] == a[4]);
    assert(writes(ops[k], Buf::Rt(Q38::GdnQkv)));
    assert(writes(ops[k + 1], Buf::Rt(Q38::GdnZ)));
    assert(writes(ops[k + 2], Buf::Rt(Q38::GdnG)));
    assert(writes(ops[k + 3], Buf::Rt(Q38::GdnBeta)));
    if either(w.wqkv, w.wz) == MatKind::Kq {
        assert(ops[0] == q[0]);
        assert(writes(ops[0], Buf::Rt(Q38::Xq2)));
    }
}

proof fn lemma_gdn_recurrence(s: Shape, part: Part, il: usize, t: u32)
    ensures
        grounded(gdn_recurrence(s, part, il, t), gdn_projected(il)),
        written(gdn_recurrence(s, part, il, t), 7, Buf::Rt(Q38::GdnO)),
{
    let ops = gdn_recurrence(s, part, il, t);
    assert(writes(ops[0], Buf::Rt(Q38::GdnConvOut)));
    assert(writes(ops[1], Buf::Rt(Q38::GdnGq)));
    assert(writes(ops[1], Buf::Rt(Q38::GdnGk)));
    assert(writes(ops[1], Buf::Rt(Q38::GdnGv)));
    assert(writes(ops[4], Buf::Rt(Q38::GdnO)));
}

/// A gated DeltaNet depends on the chunk's input, the weights and its layer's
/// recurrent state alone, whatever the scratch held, and of all recurrent states it
/// changes only its own.
pub proof fn gdn_depends_on_its_input(
    s: Shape,
    part: Part,
    il: usize,
    w: Qwen38Gdn,
    state: Option<GdnState>,
    t: u32,
)
    ensures
        grounded(gdn(s, part, il, w, state, t).ops, gdn_given(il)),
        forall|i: int, l: usize, b: GdnBuf|
            0 <= i < gdn(s, part, il, w, state, t).ops.len() && #[trigger] writes(
                gdn(s, part, il, w, state, t).ops[i],
                Buf::Gdn(l, b),
            ) ==> l == il,
{
    reveal(gdn);
    let g = gdn_given(il);
    let a = gdn_input(s, w, t) + gdn_project(s, part, w, t);
    lemma_gdn_project(s, part, il, w, t);
    if state is Some {
        let b = gdn_recurrence(s, part, il, t);
        lemma_gdn_recurrence(s, part, il, t);
        lemma_grounded_add(a, b, g, gdn_projected(il));
        let c = quant_rows(
            w.ssm_out,
            Buf::Rt(Q38::Midq),
            Buf::Rt(Q38::GdnO),
            s.value_dim(),
            t,
        );
        let d = gdn_out(s, part, w, t);
        let known = |x: Buf| g(x) || x == Buf::Rt(Q38::GdnO);
        let e = c + d;
        if w.ssm_out == MatKind::Kq {
            assert(e[0] == c[0]);
            assert(writes(e[0], Buf::Rt(Q38::Midq)));
            assert(e[1] == d[0]);
        } else {
            assert(e[0] == d[0]);
        }
        assert(grounded(e, known));
        lemma_written_second(a, b, 7, Buf::Rt(Q38::GdnO));
        lemma_grounded_add(a + b, e, g, known);
        assert(gdn(s, part, il, w, state, t).ops =~= a + b + e);
    }
}

/// What gated attention may depend on: its input, the model's weights, and the
/// cache of its own layer.
pub open spec fn attn_given(il: usize) -> spec_fn(Buf) -> bool {
    |b: Buf|
        b == Buf::Rt(Q38::Cur) || is_weight(b) || b == Buf::KCache(il) || b == Buf::VCache(il)
}

spec fn attn_projected(il: usize) -> spec_fn(Buf) -> bool {
    |b: Buf|
        attn_given(il)(b) || b == Buf::Rt(Q38::Q) || b == Buf::Rt(Q38::GateA) || b == Buf::Rt(
            Q38::K,
        ) || b == Buf::Rt(Q38::V)
}

proof fn lemma_attn_project(s: Shape, part: Part, il: usize, w: Qwen38Attn, t: u32)
    requires
        w.wq == MatKind::Q8,
    ensures
        grounded(attn_query(s, part, w, t), attn_given(il)),
        written(attn_query(s, part, w, t), 2, Buf::Rt(Q38::Q)),
        written(attn_query(s, part, w, t), 2, Buf::Rt(Q38::GateA)),
{
    let ops = attn_query(s, part, w, t);
    assert(writes(ops[0], Buf::Rt(Q38::Qfull)));
    assert(writes(ops[1], Buf::Rt(Q38::Q)));
    assert(writes(ops[1], Buf::Rt(Q38::GateA)));
}

proof fn lemma_attn_kv(s: Shape, part: Part, il: usize, t: u32)
    ensures
        grounded(attn_kv(s, part, t), attn_given(il)),
        written(attn_kv(s, part, t), 2, Buf::Rt(Q38::K)),
        written(attn_kv(s, part, t), 2, Buf::Rt(Q38::V)),
{
    let ops = attn_kv(s, part, t);
    assert(writes(ops[0], Buf::Rt(Q38::K)));
    assert(writes(ops[1], Buf::Rt(Q38::V)));
}

proof fn lemma_attn_core(s: Shape, part: Part, il: usize, pos0: u32, t: u32, ctx: u32)
    ensures
        grounded(attn_core(s, part, il, pos0, t, ctx), attn_projected(il)),
        written(attn_core(s, part, il, pos0, t, ctx), 8, Buf::Rt(Q38::Heads)),
{
    let ops = attn_core(s, part, il, pos0, t, ctx);
    assert(writes(ops[6], Buf::Rt(Q38::Heads)));
}

/// Gated attention whose queries multiply the values themselves depends on the
/// chunk's input, the weights and its layer's cache alone, whatever the scratch
/// held.
pub proof fn attention_depends_on_its_input(
    s: Shape,
    part: Part,
    il: usize,
    w: Qwen38Attn,
    pos0: u32,
    t: u32,
    ctx: u32,
)
    requires
        w.wq == MatKind::Q8,
    ensures
        grounded(attention(s, part, il, w, pos0, t, ctx).ops, attn_given(il)),
{
    reveal(attention);
    let g = attn_given(il);
    let a = attn_query(s, part, w, t);
    lemma_attn_project(s, part, il, w, t);
    let b = attn_kv(s, part, t);
    lemma_attn_kv(s, part, il, t);
    lemma_grounded_add(a, b, g, g);
    lemma_written_first(a, b, a.len() as int, Buf::Rt(Q38::Q));
    lemma_written_first(a, b, a.len() as int, Buf::Rt(Q38::GateA));
    lemma_written_second(a, b, 2, Buf::Rt(Q38::K));
    lemma_written_second(a, b, 2, Buf::Rt(Q38::V));
    let c = attn_core(s, part, il, pos0, t, ctx);
    lemma_attn_core(s, part, il, pos0, t, ctx);
    lemma_grounded_add(a + b, c, g, attn_projected(il));
    lemma_written_second(a + b, c, 8, Buf::Rt(Q38::Heads));
    let e = attn_out(s, part, w, t);
    let known = |x: Buf| g(x) || x == Buf::Rt(Q38::Heads);
    assert(grounded(e, known));
    lemma_grounded_add(a + b + c, e, g, known);
}

} // verus!
