//! Which bytes of which buffers an operation touches, and on which card a list of
//! operations runs.

use crate::engine::ops::{Buf, Op, Q38, St};
use crate::engine::shape::q8k_bytes;
use vstd::prelude::*;

verus! {

/// Bytes of `t` rows of `n` values.
pub open spec fn f32s(t: u32, n: int) -> int {
    if t == 1 {
        4 * n
    } else {
        4 * (t * n)
    }
}

pub proof fn lemma_f32s(t: u32, n: int)
    ensures
        f32s(t, n) == 4 * (t * n),
{
    assert(1 * n == n) by (nonlinear_arith);
}

/// Bytes of the q8_K quantization of `t` rows of `n` values.
pub open spec fn q8ks(t: u32, n: u32) -> int {
    if t == 1 {
        q8k_bytes(n) as int
    } else {
        t * q8k_bytes(n)
    }
}

/// A condition holds of every buffer that an operation touches and of the end of
/// the bytes it touches there.  The end is 0 where the layout of the buffer is not
/// the plan's to say: weights, caches and the logits.
pub open spec fn touches(op: Op, p: spec_fn(Buf, int) -> bool) -> bool {
    match op {
        Op::SetDevice(_) => true,
        Op::Sync => true,
        Op::Alloc { .. } => true,
        Op::HostStage { .. } => true,
        Op::PleRow { .. } => true,
        Op::Zero { buf, bytes } => p(buf, bytes as int),
        Op::CopyD2d { dst, dst_off, src, src_off, bytes } => {
            &&& p(dst, dst_off + bytes)
            &&& p(src, src_off + bytes)
        },
        Op::CopyAcross { dst, src, bytes } => {
            &&& p(dst, bytes as int)
            &&& p(src, bytes as int)
        },
        Op::WriteToken(_) => p(Buf::State(St::Tok), 4),
        Op::WriteTokens { n, .. } => p(Buf::State(St::Tok), 4 * n),
        Op::Embed { out, table, n_embd, t, .. } => {
            &&& p(out, f32s(t, n_embd as int))
            &&& p(table, 0)
            &&& p(Buf::State(St::Tok), 4 * t)
        },
        Op::RmsNorm { out, x, w, n, rows } => {
            &&& p(out, f32s(rows, n as int))
            &&& p(x, f32s(rows, n as int))
            &&& p(w, 0)
        },
        Op::MatmulQ8 { out, w, x, in_dim, out_dim, t } => {
            &&& p(out, f32s(t, out_dim as int))
            &&& p(w, 0)
            &&& p(x, f32s(t, in_dim as int))
        },
        Op::MatmulKq { out, w, xq, in_dim, out_dim, t, .. } => {
            &&& p(out, f32s(t, out_dim as int))
            &&& p(w, 0)
            &&& p(xq, q8ks(t, in_dim))
        },
        Op::MatmulF32 { out, w, x, in_dim, out_dim, t } => {
            &&& p(out, f32s(t, out_dim as int))
            &&& p(w, 0)
            &&& p(x, f32s(t, in_dim as int))
        },
        Op::QuantizeQ8K { out, x, n, rows } => {
            &&& p(out, q8ks(rows, n))
            &&& p(x, f32s(rows, n as int))
        },
        Op::Add { out, a, b, n } => {
            &&& p(out, 4 * n)
            &&& p(a, 4 * n)
            &&& p(b, 4 * n)
        },
        Op::Swiglu { out, gate, up, n, .. } => {
            &&& p(out, 4 * n)
            &&& p(gate, 4 * n)
            &&& p(up, 4 * n)
        },
        Op::AttnRes { out, x, bank, w, n_embd, n_ckpt } => {
            &&& p(out, 4 * n_embd)
            &&& p(x, 4 * n_embd)
            &&& p(w, 0)
            &&& bank matches Some(b) ==> p(b, f32s(n_ckpt, n_embd as int))
        },
        Op::KdaCoeffs { g, beta, a, dt_bias, t, n_head, head_dim } => {
            &&& p(g, f32s(t, n_head * head_dim))
            &&& p(beta, f32s(t, n_head as int))
            &&& p(a, 0)
            &&& p(dt_bias, 0)
        },
        Op::ConvStep { out, x, w, state, dim, k } => {
            &&& p(out, 4 * dim)
            &&& p(x, 4 * dim)
            &&& p(w, 0)
            &&& p(state, (k - 1) * dim * 4)
        },
        Op::L2Norm { buf, rows, dim } => p(buf, 4 * (rows * dim)),
        Op::KdaStep { out, state, q, k, v, g, beta, n_head, head_dim } => {
            &&& p(out, 4 * (n_head * head_dim))
            &&& p(state, n_head * head_dim * head_dim * 4)
            &&& p(q, 4 * (n_head * head_dim))
            &&& p(k, 4 * (n_head * head_dim))
            &&& p(v, 4 * (n_head * head_dim))
            &&& p(g, 4 * (n_head * head_dim))
            &&& p(beta, 4 * n_head)
        },
        Op::HeadRmsNorm { buf, w, rows, dim } => {
            &&& p(buf, 4 * (rows * dim))
            &&& p(w, 0)
        },
        Op::SigmoidGate { buf, gate, n } => {
            &&& p(buf, 4 * n)
            &&& p(gate, 4 * n)
        },
        Op::RowSigmoidScale { buf, gate, rows, dim } => {
            &&& p(buf, 4 * (rows * dim))
            &&& p(gate, 4 * rows)
        },
        Op::MlaRopeTail { buf, t, n_head, qk_dim, .. } => p(buf, f32s(t, n_head * qk_dim)),
        Op::MlaKvNorm { out, x, w, t, row, lora } => {
            &&& p(out, f32s(t, lora as int))
            &&& p(x, f32s(t, row as int))
            &&& p(w, 0)
        },
        Op::MlaStoreKv { k, v, norm, raw, t, row, lora, .. } => {
            &&& p(k, 0)
            &&& p(v, 0)
            &&& p(norm, f32s(t, lora as int))
            &&& p(raw, f32s(t, row as int))
        },
        Op::MlaSelectRange { out, t, visible, .. } => p(out, f32s(t, visible as int)),
        Op::MlaQkLow { out, q, w, t, n_head, lora, qk_dim, .. } => {
            &&& p(out, f32s(t, n_head * lora))
            &&& p(q, f32s(t, n_head * qk_dim))
            &&& p(w, 0)
        },
        Op::MlaAttention {
            out,
            q,
            qk_low,
            k,
            v,
            w,
            selected,
            t,
            visible,
            n_head,
            lora,
            nope,
            rope_dim,
            value,
            ..
        } => {
            &&& p(out, f32s(t, n_head * value))
            &&& p(q, f32s(t, n_head * (nope + rope_dim)))
            &&& p(qk_low, f32s(t, n_head * lora))
            &&& p(k, 0)
            &&& p(v, 0)
            &&& p(w, 0)
            &&& p(selected, f32s(t, visible as int))
        },
        Op::RouterSelect { selected, weights, logits, bias, n_expert, n_used, t, .. } => {
            &&& p(selected, f32s(t, n_used as int))
            &&& p(weights, f32s(t, n_used as int))
            &&& p(logits, f32s(t, n_expert as int))
            &&& p(bias, 0)
        },
        Op::GroupRouterSelect { selected, weights, logits, bias, n_expert, n_used, t, .. } => {
            &&& p(selected, f32s(t, n_used as int))
            &&& p(weights, f32s(t, n_used as int))
            &&& p(logits, f32s(t, n_expert as int))
            &&& p(bias, 0)
        },
        Op::Moe { n_sel, t, width, .. } => {
            &&& p(Buf::State(St::RouterSelected), 4 * n_sel)
            &&& p(Buf::State(St::RouterWeights), 4 * n_sel)
            &&& p(Buf::State(St::Xq), q8ks(t, width))
            &&& p(Buf::State(St::Normed), f32s(t, width as int))
            &&& p(Buf::State(St::MoeOut), f32s(t, width as int))
        },
        Op::HeadLogits { .. } => {
            &&& p(Buf::State(St::Normed), 0)
            &&& p(Buf::State(St::Logits), 0)
        },
        Op::Softcap { n } => p(Buf::State(St::Logits), 4 * n),
        Op::Scale { buf, n, .. } => p(buf, 4 * n),
        Op::FillRowTail { rows, n, .. } => p(Buf::State(St::Logits), f32s(rows, n as int)),
        Op::BroadcastHc { out, x, t, n_embd, hc } => {
            &&& p(out, f32s(t, hc * n_embd))
            &&& p(x, f32s(t, n_embd as int))
        },
        Op::HcNorm { out, x, w, t, n_embd, hc } => {
            &&& p(out, f32s(t, hc * n_embd))
            &&& p(x, f32s(t, hc * n_embd))
            &&& w matches Some(w) ==> p(w, 0)
        },
        Op::HcNormInplace { buf, w, t, n_embd, hc } => {
            &&& p(buf, f32s(t, hc * n_embd))
            &&& p(w, 0)
        },
        Op::HcMean { out, x, t, n_embd, hc } => {
            &&& p(out, f32s(t, n_embd as int))
            &&& p(x, f32s(t, hc * n_embd))
        },
        Op::HcCombine { res, x, inj, t, n_embd, hc } => {
            &&& p(res, f32s(t, hc * n_embd))
            &&& p(x, f32s(t, n_embd as int))
            &&& p(inj, f32s(t, hc as int))
        },
        Op::GdnCoeffs { g, beta, a, dt_bias, t, heads } => {
            &&& p(g, f32s(t, heads as int))
            &&& p(beta, f32s(t, heads as int))
            &&& p(a, 0)
            &&& p(dt_bias, 0)
        },
        Op::ConvBatch { out, x, w, state, dim, k, t } => {
            &&& p(out, f32s(t, dim as int))
            &&& p(x, f32s(t, dim as int))
            &&& p(w, 0)
            &&& p(state, (k - 1) * dim * 4)
        },
        Op::SplitQkv { q, k, v, x, t, key_dim, value_dim } => {
            &&& p(q, f32s(t, key_dim as int))
            &&& p(k, f32s(t, key_dim as int))
            &&& p(v, f32s(t, value_dim as int))
            &&& p(x, f32s(t, 2 * key_dim + value_dim))
        },
        Op::GdnBatch { out, state, q, k, v, g, beta, v_heads, k_heads, dim, t } => {
            &&& p(out, f32s(t, v_heads * dim))
            &&& p(state, v_heads * dim * dim * 4)
            &&& p(q, f32s(t, k_heads * dim))
            &&& p(k, f32s(t, k_heads * dim))
            &&& p(v, f32s(t, v_heads * dim))
            &&& p(g, f32s(t, v_heads as int))
            &&& p(beta, f32s(t, v_heads as int))
        },
        Op::SplitGate { q, gate, x, rows, dim } => {
            &&& p(q, 4 * (rows * dim))
            &&& p(gate, 4 * (rows * dim))
            &&& p(x, 8 * (rows * dim))
        },
        Op::GqaRope { buf, t, heads, dim, .. } => p(buf, f32s(t, heads * dim)),
        Op::GqaKvAppend { cache, x, t, heads, dim, .. } => {
            &&& p(cache, 0)
            &&& p(x, f32s(t, heads * dim))
        },
        Op::GqaAttention { out, q, k, v, t, heads, dim, .. } => {
            &&& p(out, f32s(t, heads * dim))
            &&& p(q, f32s(t, heads * dim))
            &&& p(k, 0)
            &&& p(v, 0)
        },
        Op::PleStage { n } => p(Buf::Rt(Q38::PleEmbDev), 4 * n),
        Op::PleScore { out, key, query, t, n_embd, hc } => {
            &&& p(out, f32s(t, hc as int))
            &&& p(key, f32s(t, hc * n_embd))
            &&& p(query, f32s(t, hc * n_embd))
        },
        Op::PleApply { out, value, gate, t, n_embd, hc } => {
            &&& p(out, f32s(t, hc * n_embd))
            &&& p(value, f32s(t, n_embd as int))
            &&& p(gate, f32s(t, hc as int))
        },
        Op::PleConv { out, x, w, t, dim, rows, .. } => {
            &&& p(out, f32s(t, dim as int))
            &&& p(x, f32s(rows, dim as int))
            &&& p(w, 0)
        },
        Op::ResidualAdd { res, x, t, n_embd, hc } => {
            &&& p(res, f32s(t, hc * n_embd))
            &&& p(x, f32s(t, hc * n_embd))
        },
        Op::ReadLogits { .. } => p(Buf::State(St::Logits), 0),
    }
}

/// The condition holds of what every operation of a list touches.
pub open spec fn all_touch(ops: Seq<Op>, p: spec_fn(Buf, int) -> bool) -> bool {
    forall|i: int| 0 <= i < ops.len() ==> touches(#[trigger] ops[i], p)
}

pub proof fn lemma_all_touch_add(a: Seq<Op>, b: Seq<Op>, p: spec_fn(Buf, int) -> bool)
    requires
        all_touch(a, p),
        all_touch(b, p),
    ensures
        all_touch(a + b, p),
{
    assert forall|i: int| 0 <= i < (a + b).len() implies touches(#[trigger] (a + b)[i], p) by {
        if i < a.len() {
            assert((a + b)[i] == a[i]);
        } else {
            assert((a + b)[i] == b[i - a.len()]);
        }
    }
}

/// The card that is current before operation `i`, where `start` was so at first.
pub open spec fn card_at(ops: Seq<Op>, i: int, start: i32) -> i32
    decreases i,
{
    if i <= 0 {
        start
    } else {
        match ops[i - 1] {
            Op::SetDevice(d) => d,
            _ => card_at(ops, i - 1, start),
        }
    }
}

/// The card that is current after a list of operations.
pub open spec fn card_after(ops: Seq<Op>, start: i32) -> i32 {
    card_at(ops, ops.len() as int, start)
}

/// What an operation touches stands on a card; of a copy between cards, what it
/// reads.
pub open spec fn op_on(op: Op, home: spec_fn(Buf) -> i32, card: i32) -> bool {
    match op {
        Op::CopyAcross { src, .. } => home(src) == card,
        _ => touches(op, |b: Buf, n: int| home(b) == card),
    }
}

/// Every operation runs while the card is current on which its buffers stand.
pub open spec fn local(ops: Seq<Op>, home: spec_fn(Buf) -> i32, start: i32) -> bool {
    forall|i: int|
        0 <= i < ops.len() ==> op_on(#[trigger] ops[i], home, card_at(ops, i, start))
}

/// No operation changes the current card, and all run on one.
pub open spec fn stays(ops: Seq<Op>, home: spec_fn(Buf) -> i32, card: i32) -> bool {
    forall|i: int|
        0 <= i < ops.len() ==> !(#[trigger] ops[i] is SetDevice) && op_on(ops[i], home, card)
}

proof fn lemma_card_stays(ops: Seq<Op>, i: int, start: i32)
    requires
        0 <= i <= ops.len(),
        forall|k: int| 0 <= k < ops.len() ==> !(#[trigger] ops[k] is SetDevice),
    ensures
        card_at(ops, i, start) == start,
    decreases i,
{
    if i > 0 {
        lemma_card_stays(ops, i - 1, start);
        assert(!(ops[i - 1] is SetDevice));
    }
}

pub proof fn lemma_stays_local(ops: Seq<Op>, home: spec_fn(Buf) -> i32, card: i32)
    requires
        stays(ops, home, card),
    ensures
        local(ops, home, card),
        card_after(ops, card) == card,
{
    assert forall|i: int| 0 <= i < ops.len() implies op_on(
        #[trigger] ops[i],
        home,
        card_at(ops, i, card),
    ) by {
        lemma_card_stays(ops, i, card);
    }
    lemma_card_stays(ops, ops.len() as int, card);
}

pub proof fn lemma_stays_add(a: Seq<Op>, b: Seq<Op>, home: spec_fn(Buf) -> i32, card: i32)
    requires
        stays(a, home, card),
        stays(b, home, card),
    ensures
        stays(a + b, home, card),
{
    assert forall|i: int| 0 <= i < (a + b).len() implies !(#[trigger] (a + b)[i] is SetDevice)
        && op_on((a + b)[i], home, card) by {
        if i < a.len() {
            assert((a + b)[i] == a[i]);
        } else {
            assert((a + b)[i] == b[i - a.len()]);
        }
    }
}

proof fn lemma_card_first(a: Seq<Op>, b: Seq<Op>, i: int, start: i32)
    requires
        0 <= i <= a.len(),
    ensures
        card_at(a + b, i, start) == card_at(a, i, start),
    decreases i,
{
    if i > 0 {
        lemma_card_first(a, b, i - 1, start);
        assert((a + b)[i - 1] == a[i - 1]);
    }
}

proof fn lemma_card_second(a: Seq<Op>, b: Seq<Op>, i: int, start: i32)
    requires
        0 <= i <= b.len(),
    ensures
        card_at(a + b, a.len() + i, start) == card_at(b, i, card_after(a, start)),
    decreases i,
{
    if i > 0 {
        lemma_card_second(a, b, i - 1, start);
        assert((a + b)[a.len() + i - 1] == b[i - 1]);
    } else {
        lemma_card_first(a, b, a.len() as int, start);
    }
}

pub proof fn lemma_local_add(a: Seq<Op>, b: Seq<Op>, home: spec_fn(Buf) -> i32, start: i32)
    requires
        local(a, home, start),
        local(b, home, card_after(a, start)),
    ensures
        local(a + b, home, start),
        card_after(a + b, start) == card_after(b, card_after(a, start)),
{
    assert forall|i: int| 0 <= i < (a + b).len() implies op_on(
        #[trigger] (a + b)[i],
        home,
        card_at(a + b, i, start),
    ) by {
        if i < a.len() {
            lemma_card_first(a, b, i, start);
            assert((a + b)[i] == a[i]);
        } else {
            lemma_card_second(a, b, i - a.len(), start);
            assert((a + b)[i] == b[i - a.len()]);
        }
    }
    lemma_card_second(a, b, b.len() as int, start);
}

/// A copy between cards comes right after a wait for the card that wrote what it
/// copies.
pub open spec fn drained(ops: Seq<Op>) -> bool {
    forall|i: int|
        0 <= i < ops.len() && #[trigger] ops[i] is CopyAcross ==> i > 0 && ops[i - 1] == Op::Sync
}

pub proof fn lemma_drained_add(a: Seq<Op>, b: Seq<Op>)
    requires
        drained(a),
        drained(b),
    ensures
        drained(a + b),
{
    assert forall|i: int| 0 <= i < (a + b).len() && #[trigger] (a + b)[i] is CopyAcross implies i
        > 0 && (a + b)[i - 1] == Op::Sync by {
        if i < a.len() {
            assert(a[i] is CopyAcross);
        } else {
            assert(b[i - a.len()] is CopyAcross);
        }
    }
}

} // verus!
