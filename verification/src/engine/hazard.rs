//! What operations write and read, and which of them may follow each other.

use crate::engine::blocks::{
    dense_ffn, kda_recurrence, last_row_head, mla_core, project_out, quant_for, reset_states,
    zero_kda, KdaState, Place,
};
use crate::engine::ops::{ops_if, Buf, Op, Plan, Rope, Sc, St, Wt, Q38};
use crate::engine::shape::{KdaW, MatKind, Shape};
use vstd::prelude::*;

verus! {

/// Whether an operation writes a buffer.  The experts of a layer write the
/// state's expert output, the output head its logits.
pub open spec fn writes(op: Op, at: Buf) -> bool {
    match op {
        Op::SetDevice(_) => false,
        Op::Sync => false,
        Op::Alloc { buf, .. } => at == buf,
        Op::Zero { buf, .. } => at == buf,
        Op::CopyD2d { dst, .. } => at == dst,
        Op::CopyAcross { dst, .. } => at == dst,
        Op::WriteToken(_) => at == Buf::State(St::Tok),
        Op::WriteTokens { .. } => at == Buf::State(St::Tok),
        Op::Embed { out, .. } => at == out,
        Op::RmsNorm { out, .. } => at == out,
        Op::MatmulQ8 { out, .. } => at == out,
        Op::MatmulKq { out, .. } => at == out,
        Op::MatmulF32 { out, .. } => at == out,
        Op::QuantizeQ8K { out, .. } => at == out,
        Op::Add { out, .. } => at == out,
        Op::Swiglu { out, .. } => at == out,
        Op::AttnRes { out, .. } => at == out,
        Op::KdaCoeffs { g, beta, .. } => at == g || at == beta,
        Op::ConvStep { out, state, .. } => at == out || at == state,
        Op::L2Norm { buf, .. } => at == buf,
        Op::KdaStep { out, state, .. } => at == out || at == state,
        Op::HeadRmsNorm { buf, .. } => at == buf,
        Op::SigmoidGate { buf, .. } => at == buf,
        Op::RowSigmoidScale { buf, .. } => at == buf,
        Op::MlaRopeTail { buf, .. } => at == buf,
        Op::MlaKvNorm { out, .. } => at == out,
        Op::MlaStoreKv { k, v, .. } => at == k || at == v,
        Op::MlaSelectRange { out, .. } => at == out,
        Op::MlaQkLow { out, .. } => at == out,
        Op::MlaAttention { out, .. } => at == out,
        Op::RouterSelect { selected, weights, .. } => at == selected || at == weights,
        Op::GroupRouterSelect { selected, weights, .. } => at == selected || at == weights,
        Op::Moe { .. } => at == Buf::State(St::MoeOut),
        Op::HeadLogits { .. } => at == Buf::State(St::Logits),
        Op::Softcap { .. } => at == Buf::State(St::Logits),
        Op::Scale { buf, .. } => at == buf,
        Op::FillRowTail { .. } => at == Buf::State(St::Logits),
        Op::BroadcastHc { out, .. } => at == out,
        Op::HcNorm { out, .. } => at == out,
        Op::HcNormInplace { buf, .. } => at == buf,
        Op::HcMean { out, .. } => at == out,
        Op::HcCombine { res, .. } => at == res,
        Op::GdnCoeffs { g, beta, .. } => at == g || at == beta,
        Op::ConvBatch { out, state, .. } => at == out || at == state,
        Op::SplitQkv { q, k, v, .. } => at == q || at == k || at == v,
        Op::GdnBatch { out, state, .. } => at == out || at == state,
        Op::SplitGate { q, gate, .. } => at == q || at == gate,
        Op::GqaRope { buf, .. } => at == buf,
        Op::GqaKvAppend { cache, .. } => at == cache,
        Op::GqaAttention { out, .. } => at == out,
        Op::PleRow { .. } => false,
        Op::HostStage { .. } => false,
        Op::PleStage { .. } => at == Buf::Rt(Q38::PleEmbDev),
        Op::PleScore { out, .. } => at == out,
        Op::PleApply { out, .. } => at == out,
        Op::PleConv { out, .. } => at == out,
        Op::ResidualAdd { res, .. } => at == res,
        Op::ReadLogits { .. } => false,
    }
}

/// Whether an operation reads a buffer that it does not also update in place.
/// The experts of a layer read the selection with its weights, and the input as
/// it is and quantized.
pub open spec fn reads(op: Op, at: Buf) -> bool {
    match op {
        Op::SetDevice(_) => false,
        Op::Sync => false,
        Op::Alloc { .. } => false,
        Op::Zero { .. } => false,
        Op::CopyD2d { src, .. } => at == src,
        Op::CopyAcross { src, .. } => at == src,
        Op::WriteToken(_) => false,
        Op::WriteTokens { .. } => false,
        Op::Embed { table, .. } => at == table || at == Buf::State(St::Tok),
        Op::RmsNorm { x, w, .. } => at == x || at == w,
        Op::MatmulQ8 { w, x, .. } => at == w || at == x,
        Op::MatmulKq { w, xq, .. } => at == w || at == xq,
        Op::MatmulF32 { w, x, .. } => at == w || at == x,
        Op::QuantizeQ8K { x, .. } => at == x,
        Op::Add { a, b: c, .. } => at == a || at == c,
        Op::Swiglu { gate, up, .. } => at == gate || at == up,
        Op::AttnRes { x, bank, w, .. } => at == x || at == w || bank == Some(at),
        Op::KdaCoeffs { a, dt_bias, .. } => at == a || at == dt_bias,
        Op::ConvStep { x, w, .. } => at == x || at == w,
        Op::L2Norm { .. } => false,
        Op::KdaStep { q, k, v, g, beta, .. } => {
            at == q || at == k || at == v || at == g || at == beta
        },
        Op::HeadRmsNorm { w, .. } => at == w,
        Op::SigmoidGate { gate, .. } => at == gate,
        Op::RowSigmoidScale { gate, .. } => at == gate,
        Op::MlaRopeTail { .. } => false,
        Op::MlaKvNorm { x, w, .. } => at == x || at == w,
        Op::MlaStoreKv { norm, raw, .. } => at == norm || at == raw,
        Op::MlaSelectRange { .. } => false,
        Op::MlaQkLow { q, w, .. } => at == q || at == w,
        Op::MlaAttention { q, qk_low, k, v, w, selected, .. } => {
            at == q || at == qk_low || at == k || at == v || at == w || at == selected
        },
        Op::RouterSelect { logits, bias, .. } => at == logits || at == bias,
        Op::GroupRouterSelect { logits, bias, .. } => at == logits || at == bias,
        Op::Moe { .. } => {
            ||| at == Buf::State(St::RouterSelected)
            ||| at == Buf::State(St::RouterWeights)
            ||| at == Buf::State(St::Xq)
            ||| at == Buf::State(St::Normed)
        },
        Op::HeadLogits { .. } => at == Buf::State(St::Normed),
        Op::Softcap { .. } => false,
        Op::Scale { .. } => false,
        Op::FillRowTail { .. } => false,
        Op::BroadcastHc { x, .. } => at == x,
        Op::HcNorm { x, w, .. } => at == x || w == Some(at),
        Op::HcNormInplace { w, .. } => at == w,
        Op::HcMean { x, .. } => at == x,
        Op::HcCombine { x, inj, .. } => at == x || at == inj,
        Op::GdnCoeffs { a, dt_bias, .. } => at == a || at == dt_bias,
        Op::ConvBatch { x, w, .. } => at == x || at == w,
        Op::SplitQkv { x, .. } => at == x,
        Op::GdnBatch { q, k, v, g, beta, .. } => {
            at == q || at == k || at == v || at == g || at == beta
        },
        Op::SplitGate { x, .. } => at == x,
        Op::GqaRope { .. } => false,
        Op::GqaKvAppend { x, .. } => at == x,
        Op::GqaAttention { q, k, v, .. } => at == q || at == k || at == v,
        Op::PleRow { .. } => false,
        Op::HostStage { .. } => false,
        Op::PleStage { .. } => false,
        Op::PleScore { key, query, .. } => at == key || at == query,
        Op::PleApply { value, gate, .. } => at == value || at == gate,
        Op::PleConv { x, w, .. } => at == x || at == w,
        Op::ResidualAdd { x, .. } => at == x,
        Op::ReadLogits { .. } => at == Buf::State(St::Logits),
    }
}

/// The buffers that an operation writes are different ones.
pub open spec fn writes_apart(op: Op) -> bool {
    match op {
        Op::KdaCoeffs { g, beta, .. } => g != beta,
        Op::ConvStep { out, state, .. } => out != state,
        Op::KdaStep { out, state, .. } => out != state,
        Op::MlaStoreKv { k, v, .. } => k != v,
        Op::RouterSelect { selected, weights, .. } => selected != weights,
        Op::GroupRouterSelect { selected, weights, .. } => selected != weights,
        Op::GdnCoeffs { g, beta, .. } => g != beta,
        Op::ConvBatch { out, state, .. } => out != state,
        Op::SplitQkv { q, k, v, .. } => q != k && q != v && k != v,
        Op::GdnBatch { out, state, .. } => out != state,
        Op::SplitGate { q, gate, .. } => q != gate,
        _ => true,
    }
}

/// A weight of the model.
pub open spec fn is_weight(b: Buf) -> bool {
    b is Layer || b is Mtp || b is Global
}

/// An operation writes no weight, nothing that it reads, and nothing twice.
pub open spec fn clean(op: Op) -> bool {
    &&& writes_apart(op)
    &&& forall|b: Buf| #[trigger] writes(op, b) ==> !is_weight(b) && !reads(op, b)
}

/// An operation before which the host has to wait: it reads back what the device
/// wrote, or fills the token buffer that the chunk before may still read.
pub open spec fn needs_wait(op: Op) -> bool {
    op is Moe || op is ReadLogits || op is WriteTokens
}

/// Every operation is clean, and the host waits where it has to.
pub open spec fn tidy(ops: Seq<Op>) -> bool {
    forall|i: int|
        0 <= i < ops.len() ==> clean(#[trigger] ops[i]) && (needs_wait(ops[i]) ==> i > 0 && ops[i
            - 1] == Op::Sync)
}

/// Operation `j` quantizes `rows` rows of `n` values of `x` into `xq`, and nothing
/// writes either before operation `i`.
pub open spec fn quantized_by(
    ops: Seq<Op>,
    j: int,
    i: int,
    x: Buf,
    xq: Buf,
    n: u32,
    rows: u32,
) -> bool {
    &&& 0 <= j < i
    &&& ops[j] == (Op::QuantizeQ8K { out: xq, x, n, rows })
    &&& forall|k: int| j < k < i ==> !writes(#[trigger] ops[k], x) && !writes(ops[k], xq)
}

/// Where operation `i` multiplies quantized rows, they are the quantization of its
/// input, made earlier in the list.
pub open spec fn fed(ops: Seq<Op>, i: int) -> bool {
    ops[i] matches Op::MatmulKq { x, xq, in_dim, t, .. } ==> exists|j: int| #[trigger]
        quantized_by(ops, j, i, x, xq, in_dim, t)
}

/// Every matmul over quantized rows finds its own input there.
pub open spec fn all_fed(ops: Seq<Op>) -> bool {
    forall|i: int| #![trigger ops[i]] 0 <= i < ops.len() ==> fed(ops, i)
}

/// Every operation is clean, the host waits where it has to, and, where the
/// encodings of the weights match, every matmul over quantized rows finds its own
/// input there.
pub open spec fn sound(ops: Seq<Op>, matched: bool) -> bool {
    tidy(ops) && (matched ==> all_fed(ops))
}

/// The input of a KDA mixer is quantized by the encoding of the query projection:
/// that one is quantized where any projection of the same input is.
pub open spec fn kda_matches(w: KdaW) -> bool {
    w.wq == MatKind::Kq || {
        &&& w.wk == MatKind::Q8
        &&& w.wv == MatKind::Q8
        &&& w.wg == MatKind::Q8
        &&& w.f_a == MatKind::Q8
        &&& w.beta_w == MatKind::Q8
    }
}

pub proof fn lemma_tidy_add(a: Seq<Op>, b: Seq<Op>)
    requires
        tidy(a),
        tidy(b),
    ensures
        tidy(a + b),
{
    let ops = a + b;
    assert forall|i: int| 0 <= i < ops.len() implies clean(#[trigger] ops[i]) && (needs_wait(ops[i])
        ==> i > 0 && ops[i - 1] == Op::Sync) by {
        if i < a.len() {
            assert(ops[i] == a[i]);
        } else {
            assert(ops[i] == b[i - a.len()]);
            if i > a.len() {
                assert(ops[i - 1] == b[i - a.len() - 1]);
            }
        }
    }
}

pub proof fn lemma_sound_add(a: Seq<Op>, b: Seq<Op>, matched: bool)
    requires
        sound(a, matched),
        sound(b, matched),
    ensures
        sound(a + b, matched),
{
    let ops = a + b;
    lemma_tidy_add(a, b);
    assert forall|i: int| #![trigger ops[i]] matched && 0 <= i < ops.len() implies fed(ops, i) by {
        let n = a.len() as int;
        if i < n {
            assert(ops[i] == a[i]);
            assert(fed(a, i));
            if let Op::MatmulKq { x, xq, in_dim, t, .. } = a[i] {
                let j = choose|j: int| #[trigger] quantized_by(a, j, i, x, xq, in_dim, t);
                assert forall|k: int| j < k < i implies !writes(#[trigger] ops[k], x) && !writes(
                    ops[k],
                    xq,
                ) by {
                    assert(ops[k] == a[k]);
                }
                assert(quantized_by(ops, j, i, x, xq, in_dim, t));
            }
        } else {
            assert(ops[i] == b[i - n]);
            assert(fed(b, i - n));
            if let Op::MatmulKq { x, xq, in_dim, t, .. } = b[i - n] {
                let bi = i - n;
                let j = choose|j: int| #[trigger] quantized_by(b, j, bi, x, xq, in_dim, t);
                assert forall|k: int| j + n < k < i implies !writes(#[trigger] ops[k], x)
                    && !writes(ops[k], xq) by {
                    assert(ops[k] == b[k - n]);
                }
                assert(quantized_by(ops, j + n, i, x, xq, in_dim, t));
            }
        }
    }
}

/// Every matmul over quantized rows in a list reads the same ones.
pub open spec fn all_from(
    ops: Seq<Op>,
    kind: MatKind,
    input: Buf,
    quant: Buf,
    n: u32,
    rows: u32,
) -> bool {
    forall|i: int|
        0 <= i < ops.len() ==> ((#[trigger] ops[i]) matches Op::MatmulKq { x, xq, in_dim, t, .. }
            ==> kind == MatKind::Kq && x == input && xq == quant && in_dim == n && t == rows)
}

/// A quantization where it is asked for, and a list that multiplies nothing else
/// and overwrites neither side of it.
pub proof fn lemma_fed(
    rest: Seq<Op>,
    kind: MatKind,
    input: Buf,
    quant: Buf,
    n: u32,
    rows: u32,
    matched: bool,
)
    requires
        input != quant,
        !is_weight(quant),
        tidy(rest),
        matched ==> all_from(rest, kind, input, quant, n, rows),
        keeps(rest, input),
        keeps(rest, quant),
    ensures
        sound(
            ops_if(
                kind == MatKind::Kq,
                seq![Op::QuantizeQ8K { out: quant, x: input, n, rows }],
            ) + rest,
            matched,
        ),
{
    let q = ops_if(
        kind == MatKind::Kq,
        seq![Op::QuantizeQ8K { out: quant, x: input, n, rows }],
    );
    let ops = q + rest;
    assert(tidy(q));
    lemma_tidy_add(q, rest);
    assert forall|i: int| #![trigger ops[i]] matched && 0 <= i < ops.len() implies fed(ops, i) by {
        if i >= q.len() {
            assert(ops[i] == rest[i - q.len()]);
            if rest[i - q.len()] is MatmulKq {
                assert forall|k: int| 0 < k < i implies !writes(#[trigger] ops[k], input)
                    && !writes(ops[k], quant) by {
                    assert(ops[k] == rest[k - q.len()]);
                }
                assert(quantized_by(ops, 0, i, input, quant, n, rows));
            }
        }
    }
}

pub proof fn lemma_sound_and(a: Plan, b: Plan, matched: bool)
    requires
        sound(a.ops, matched),
        sound(b.ops, matched),
    ensures
        sound(a.and(b).ops, matched),
{
    lemma_sound_add(a.ops, b.ops, matched);
}

/// No operation of a list writes a buffer.
pub open spec fn keeps(ops: Seq<Op>, b: Buf) -> bool {
    forall|i: int| 0 <= i < ops.len() ==> !writes(#[trigger] ops[i], b)
}

pub proof fn lemma_keeps_add(a: Seq<Op>, c: Seq<Op>, b: Buf)
    requires
        keeps(a, b),
        keeps(c, b),
    ensures
        keeps(a + c, b),
{
    assert forall|i: int| 0 <= i < (a + c).len() implies !writes(#[trigger] (a + c)[i], b) by {
        if i < a.len() {
            assert((a + c)[i] == a[i]);
        } else {
            assert((a + c)[i] == c[i - a.len()]);
        }
    }
}

/// A list is sound and does not write a buffer.
pub open spec fn quiet(ops: Seq<Op>, b: Buf, matched: bool) -> bool {
    sound(ops, matched) && keeps(ops, b)
}

pub proof fn lemma_quiet_add(a: Seq<Op>, c: Seq<Op>, b: Buf, matched: bool)
    requires
        quiet(a, b, matched),
        quiet(c, b, matched),
    ensures
        quiet(a + c, b, matched),
{
    lemma_sound_add(a, c, matched);
    lemma_keeps_add(a, c, b);
}

pub proof fn lemma_quiet_and(a: Plan, c: Plan, b: Buf, matched: bool)
    requires
        quiet(a.ops, b, matched),
        quiet(c.ops, b, matched),
    ensures
        quiet(a.and(c).ops, b, matched),
{
    lemma_quiet_add(a.ops, c.ops, b, matched);
}

pub proof fn lemma_recurrence_quiet(s: Shape, at: Place, matched: bool)
    ensures
        quiet(kda_recurrence(s, at), Buf::State(St::Cur), matched),
{
}

pub proof fn lemma_mla_core_quiet(
    s: Shape,
    at: Place,
    pos: u32,
    ctx: u32,
    rope: Rope,
    matched: bool,
)
    ensures
        quiet(mla_core(s, at, pos, ctx, rope), Buf::State(St::Cur), matched),
{
}

pub proof fn lemma_project_out_quiet(
    s: Shape,
    at: Place,
    kind: MatKind,
    w: Wt,
    x: Sc,
    in_dim: u32,
    matched: bool,
)
    requires
        x != Sc::Xq,
        x != Sc::AttnOutA,
    ensures
        quiet(project_out(s, at, kind, w, x, in_dim), Buf::State(St::Cur), matched),
{
    let cur = Buf::State(St::Cur);
    let q = quant_for(kind, at.sc(Sc::Xq), at.sc(x), in_dim);
    let ops = project_out(s, at, kind, w, x, in_dim);
    let rest = ops.skip(q.len() as int);
    lemma_fed(rest, kind, at.sc(x), at.sc(Sc::Xq), in_dim, 1, matched);
    lemma_keeps_add(q, rest, cur);
    assert(ops =~= q + rest);
}

pub proof fn lemma_dense_quiet(s: Shape, il: usize, matched: bool)
    ensures
        quiet(dense_ffn(s, il), Buf::State(St::Cur), matched),
{
}

pub proof fn lemma_head_sound(s: Shape, matched: bool)
    ensures
        sound(last_row_head(s), matched),
{
}

pub proof fn lemma_reset_sound(states: Seq<Option<KdaState>>, n: int, matched: bool)
    ensures
        sound(reset_states(states, n), matched),
    decreases n,
{
    if n > 0 {
        lemma_reset_sound(states, n - 1, matched);
        let mine = match states[n - 1] {
            Some(k) => seq![Op::SetDevice(k.dev)] + zero_kda((n - 1) as usize, k),
            None => Seq::empty(),
        };
        assert(sound(mine, matched));
        lemma_sound_add(reset_states(states, n - 1), mine, matched);
    }
}

} // verus!
