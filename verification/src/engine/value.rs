//! What a plan computes: every buffer as a term over the kernels that made it.

use crate::engine::hazard::{keeps, writes};
use crate::engine::ops::{Buf, Factor, Op, Part, Plan, Rope, St, Q38};
use vstd::prelude::*;

verus! {

/// What a buffer holds.  Weights are named by their buffers; widths, counts and
/// positions are whole numbers.
#[allow(inconsistent_fields)]
pub enum Val {
    /// fresh memory
    Fresh { bytes: int },
    Zeros { bytes: int },
    Token { id: int },
    /// ids of the call, from a position on
    Tokens { pos: int, n: int },
    /// bytes of a value, from an offset on
    Cut { of: Box<Val>, off: int, bytes: int },
    /// a value with bytes of another put over it at an offset
    Patch { old: Box<Val>, at: int, from: Box<Val>, off: int, bytes: int },
    Embedding { ids: Box<Val>, table: Buf, n: int, vocab: int, rows: int },
    Norm { x: Box<Val>, w: Buf, n: int, rows: int },
    /// a weight matrix of 8-bit blocks times rows
    Mul { w: Buf, x: Box<Val>, n_in: int, n_out: int, rows: int },
    /// a weight matrix times quantized rows
    MulQuant { w: Buf, x: Box<Val>, n_in: int, n_out: int, rows: int },
    /// a weight matrix of floats times rows
    MulFloat { w: Buf, x: Box<Val>, n_in: int, n_out: int, rows: int },
    Quant { x: Box<Val>, n: int, rows: int },
    Sum { a: Box<Val>, b: Box<Val>, n: int },
    Glu { gate: Box<Val>, up: Box<Val>, n: int, clamp: Option<usize>, act: int },
    /// the mix over the depth
    Depth { x: Box<Val>, bank: Option<Box<Val>>, w: Buf, n: int, banked: int },
    KdaDecay { g: Box<Val>, beta: Box<Val>, a: Buf, dt: Buf, rows: int, heads: int, dim: int },
    KdaStrength { g: Box<Val>, beta: Box<Val>, a: Buf, dt: Buf, rows: int, heads: int, dim: int },
    Conv { x: Box<Val>, w: Buf, window: Box<Val>, dim: int, k: int, rows: int },
    ConvWindow { x: Box<Val>, window: Box<Val>, dim: int, k: int, rows: int },
    UnitRows { x: Box<Val>, rows: int, dim: int },
    KdaOut {
        state: Box<Val>,
        q: Box<Val>,
        k: Box<Val>,
        v: Box<Val>,
        g: Box<Val>,
        beta: Box<Val>,
        heads: int,
        dim: int,
    },
    KdaNext {
        state: Box<Val>,
        q: Box<Val>,
        k: Box<Val>,
        v: Box<Val>,
        g: Box<Val>,
        beta: Box<Val>,
        heads: int,
        dim: int,
    },
    HeadNorm { x: Box<Val>, w: Buf, rows: int, dim: int },
    Gated { x: Box<Val>, gate: Box<Val>, n: int },
    RowGated { x: Box<Val>, gate: Box<Val>, rows: int, dim: int },
    RopeTail { x: Box<Val>, rows: int, heads: int, dim: int, rot: int, pos: int },
    LatentNorm { x: Box<Val>, w: Buf, rows: int, row: int, lora: int },
    /// a latent cache with a row more; `key`: the one of the keys
    LatentCache {
        key: bool,
        old: Box<Val>,
        norm: Box<Val>,
        raw: Box<Val>,
        pos: int,
        rows: int,
        ctx: int,
        row: int,
        lora: int,
        rope: int,
    },
    Range { rows: int, pos: int, visible: int, ctx: int },
    LatentQuery {
        q: Box<Val>,
        w: Buf,
        rows: int,
        heads: int,
        lora: int,
        nope: int,
        dim: int,
    },
    LatentAttention {
        q: Box<Val>,
        low: Box<Val>,
        k: Box<Val>,
        v: Box<Val>,
        w: Buf,
        selected: Box<Val>,
        rows: int,
        visible: int,
        ctx: int,
        heads: int,
        lora: int,
        nope: int,
        rope: int,
        value: int,
        turn: Rope,
    },
    /// the best experts; `weights`: how much each counts
    Best {
        weights: bool,
        logits: Box<Val>,
        bias: Buf,
        of: int,
        used: int,
        rows: int,
        softmax: bool,
    },
    /// the best experts of the best groups
    GroupBest {
        weights: bool,
        logits: Box<Val>,
        bias: Buf,
        of: int,
        used: int,
        groups: int,
        group_used: int,
        rows: int,
    },
    Experts {
        part: Part,
        il: int,
        picks: int,
        act: int,
        rows: int,
        width: int,
        selected: Box<Val>,
        weights: Box<Val>,
        x: Box<Val>,
        xq: Box<Val>,
    },
    Head { x: Box<Val>, rows: int },
    Capped { x: Box<Val>, n: int },
    Scaled { x: Box<Val>, n: int, factor: Factor },
    TailFilled { x: Box<Val>, rows: int, n: int, n_out: int },
    Streams { x: Box<Val>, rows: int, n: int, hc: int },
    StreamNorm { x: Box<Val>, w: Option<Buf>, rows: int, n: int, hc: int },
    StreamMean { x: Box<Val>, rows: int, n: int, hc: int },
    Combined { res: Box<Val>, x: Box<Val>, inj: Box<Val>, rows: int, n: int, hc: int },
    GdnDecay { g: Box<Val>, beta: Box<Val>, a: Buf, dt: Buf, rows: int, heads: int },
    GdnStrength { g: Box<Val>, beta: Box<Val>, a: Buf, dt: Buf, rows: int, heads: int },
    /// part `nth` of rows of two keys' widths and a value's
    Third { nth: int, x: Box<Val>, rows: int, key: int, value: int },
    GdnOut {
        state: Box<Val>,
        q: Box<Val>,
        k: Box<Val>,
        v: Box<Val>,
        g: Box<Val>,
        beta: Box<Val>,
        v_heads: int,
        k_heads: int,
        dim: int,
        rows: int,
    },
    GdnNext {
        state: Box<Val>,
        q: Box<Val>,
        k: Box<Val>,
        v: Box<Val>,
        g: Box<Val>,
        beta: Box<Val>,
        v_heads: int,
        k_heads: int,
        dim: int,
        rows: int,
    },
    /// the queries, or the gates, of fused rows
    Half { gate: bool, x: Box<Val>, rows: int, dim: int },
    Turned { x: Box<Val>, rows: int, heads: int, dim: int, rot: int, pos: int },
    Cache { old: Box<Val>, x: Box<Val>, rows: int, heads: int, dim: int, ctx: int, pos: int },
    Attention {
        q: Box<Val>,
        k: Box<Val>,
        v: Box<Val>,
        rows: int,
        heads: int,
        kv_heads: int,
        dim: int,
        ctx: int,
        pos: int,
    },
    /// rows on the host, with one read from a place of the model file
    Staged { old: Box<Val>, slot: int, off: int },
    Score { key: Box<Val>, query: Box<Val>, rows: int, n: int, hc: int },
    Applied { value: Box<Val>, gate: Box<Val>, rows: int, n: int, hc: int },
    Dilated { x: Box<Val>, w: Buf, t: int, dim: int, rows: int, k: int, dilation: int },
    Joined { res: Box<Val>, x: Box<Val>, rows: int, n: int, hc: int },
}

/// What every buffer holds, what is staged on the host, and the logits that the
/// host has read.
pub struct World {
    pub at: Map<Buf, Val>,
    pub stage: Val,
    pub logits: Option<Val>,
}

impl World {
    pub open spec fn get(self, b: Buf) -> Box<Val> {
        Box::new(self.at[b])
    }

    pub open spec fn put(self, b: Buf, v: Val) -> World {
        World { at: self.at.insert(b, v), ..self }
    }
}

/// Bytes of one value over another.
pub open spec fn patched(old: Val, at: int, from: Val, off: int, bytes: int) -> Val {
    if at == 0 {
        Val::Cut { of: Box::new(from), off, bytes }
    } else {
        Val::Patch { old: Box::new(old), at, from: Box::new(from), off, bytes }
    }
}

/// What an operation leaves.
pub open spec fn step(op: Op, w: World) -> World {
    match op {
        Op::SetDevice(_) => w,
        Op::Sync => w,
        Op::Alloc { buf, bytes } => w.put(buf, Val::Fresh { bytes: bytes as int }),
        Op::Zero { buf, bytes } => w.put(buf, Val::Zeros { bytes: bytes as int }),
        Op::CopyD2d { dst, dst_off, src, src_off, bytes } => w.put(
            dst,
            patched(w.at[dst], dst_off as int, w.at[src], src_off as int, bytes as int),
        ),
        Op::CopyAcross { dst, src, bytes } => w.put(
            dst,
            patched(w.at[dst], 0, w.at[src], 0, bytes as int),
        ),
        Op::WriteToken(id) => w.put(Buf::State(St::Tok), Val::Token { id: id as int }),
        Op::WriteTokens { pos, n } => w.put(
            Buf::State(St::Tok),
            Val::Tokens { pos: pos as int, n: n as int },
        ),
        Op::Embed { out, table, n_embd, n_vocab, t } => w.put(
            out,
            Val::Embedding {
                ids: w.get(Buf::State(St::Tok)),
                table,
                n: n_embd as int,
                vocab: n_vocab as int,
                rows: t as int,
            },
        ),
        Op::RmsNorm { out, x, w: g, n, rows } => w.put(
            out,
            Val::Norm { x: w.get(x), w: g, n: n as int, rows: rows as int },
        ),
        Op::MatmulQ8 { out, w: m, x, in_dim, out_dim, t } => w.put(
            out,
            Val::Mul {
                w: m,
                x: w.get(x),
                n_in: in_dim as int,
                n_out: out_dim as int,
                rows: t as int,
            },
        ),
        Op::MatmulKq { out, w: m, xq, in_dim, out_dim, t, .. } => w.put(
            out,
            Val::MulQuant {
                w: m,
                x: w.get(xq),
                n_in: in_dim as int,
                n_out: out_dim as int,
                rows: t as int,
            },
        ),
        Op::MatmulF32 { out, w: m, x, in_dim, out_dim, t } => w.put(
            out,
            Val::MulFloat {
                w: m,
                x: w.get(x),
                n_in: in_dim as int,
                n_out: out_dim as int,
                rows: t as int,
            },
        ),
        Op::QuantizeQ8K { out, x, n, rows } => w.put(
            out,
            Val::Quant { x: w.get(x), n: n as int, rows: rows as int },
        ),
        Op::Add { out, a, b, n } => w.put(out, Val::Sum { a: w.get(a), b: w.get(b), n: n as int }),
        Op::Swiglu { out, gate, up, n, clamp, act } => w.put(
            out,
            Val::Glu { gate: w.get(gate), up: w.get(up), n: n as int, clamp, act: act as int },
        ),
        Op::AttnRes { out, x, bank, w: g, n_embd, n_ckpt } => w.put(
            out,
            Val::Depth {
                x: w.get(x),
                bank: match bank {
                    Some(b) => Some(w.get(b)),
                    None => None,
                },
                w: g,
                n: n_embd as int,
                banked: n_ckpt as int,
            },
        ),
        Op::KdaCoeffs { g, beta, a, dt_bias, t, n_head, head_dim } => w.put(
            g,
            Val::KdaDecay {
                g: w.get(g),
                beta: w.get(beta),
                a,
                dt: dt_bias,
                rows: t as int,
                heads: n_head as int,
                dim: head_dim as int,
            },
        ).put(
            beta,
            Val::KdaStrength {
                g: w.get(g),
                beta: w.get(beta),
                a,
                dt: dt_bias,
                rows: t as int,
                heads: n_head as int,
                dim: head_dim as int,
            },
        ),
        Op::ConvStep { out, x, w: c, state, dim, k } => w.put(
            out,
            Val::Conv {
                x: w.get(x),
                w: c,
                window: w.get(state),
                dim: dim as int,
                k: k as int,
                rows: 1,
            },
        ).put(
            state,
            Val::ConvWindow {
                x: w.get(x),
                window: w.get(state),
                dim: dim as int,
                k: k as int,
                rows: 1,
            },
        ),
        Op::L2Norm { buf, rows, dim } => w.put(
            buf,
            Val::UnitRows { x: w.get(buf), rows: rows as int, dim: dim as int },
        ),
        Op::KdaStep { out, state, q, k, v, g, beta, n_head, head_dim } => w.put(
            out,
            Val::KdaOut {
                state: w.get(state),
                q: w.get(q),
                k: w.get(k),
                v: w.get(v),
                g: w.get(g),
                beta: w.get(beta),
                heads: n_head as int,
                dim: head_dim as int,
            },
        ).put(
            state,
            Val::KdaNext {
                state: w.get(state),
                q: w.get(q),
                k: w.get(k),
                v: w.get(v),
                g: w.get(g),
                beta: w.get(beta),
                heads: n_head as int,
                dim: head_dim as int,
            },
        ),
        Op::HeadRmsNorm { buf, w: g, rows, dim } => w.put(
            buf,
            Val::HeadNorm { x: w.get(buf), w: g, rows: rows as int, dim: dim as int },
        ),
        Op::SigmoidGate { buf, gate, n } => w.put(
            buf,
            Val::Gated { x: w.get(buf), gate: w.get(gate), n: n as int },
        ),
        Op::RowSigmoidScale { buf, gate, rows, dim } => w.put(
            buf,
            Val::RowGated {
                x: w.get(buf),
                gate: w.get(gate),
                rows: rows as int,
                dim: dim as int,
            },
        ),
        Op::MlaRopeTail { buf, t, n_head, qk_dim, rope_dim, pos } => w.put(
            buf,
            Val::RopeTail {
                x: w.get(buf),
                rows: t as int,
                heads: n_head as int,
                dim: qk_dim as int,
                rot: rope_dim as int,
                pos: pos as int,
            },
        ),
        Op::MlaKvNorm { out, x, w: g, t, row, lora } => w.put(
            out,
            Val::LatentNorm {
                x: w.get(x),
                w: g,
                rows: t as int,
                row: row as int,
                lora: lora as int,
            },
        ),
        Op::MlaStoreKv { k, v, norm, raw, pos, t, ctx, row, lora, rope_dim } => w.put(
            k,
            Val::LatentCache {
                key: true,
                old: w.get(k),
                norm: w.get(norm),
                raw: w.get(raw),
                pos: pos as int,
                rows: t as int,
                ctx: ctx as int,
                row: row as int,
                lora: lora as int,
                rope: rope_dim as int,
            },
        ).put(
            v,
            Val::LatentCache {
                key: false,
                old: w.get(v),
                norm: w.get(norm),
                raw: w.get(raw),
                pos: pos as int,
                rows: t as int,
                ctx: ctx as int,
                row: row as int,
                lora: lora as int,
                rope: rope_dim as int,
            },
        ),
        Op::MlaSelectRange { out, t, pos, visible, ctx } => w.put(
            out,
            Val::Range {
                rows: t as int,
                pos: pos as int,
                visible: visible as int,
                ctx: ctx as int,
            },
        ),
        Op::MlaQkLow { out, q, w: m, t, n_head, lora, nope, qk_dim } => w.put(
            out,
            Val::LatentQuery {
                q: w.get(q),
                w: m,
                rows: t as int,
                heads: n_head as int,
                lora: lora as int,
                nope: nope as int,
                dim: qk_dim as int,
            },
        ),
        Op::MlaAttention {
            out,
            q,
            qk_low,
            k,
            v,
            w: m,
            selected,
            t,
            visible,
            ctx,
            n_head,
            lora,
            nope,
            rope_dim,
            value,
            rope,
        } => w.put(
            out,
            Val::LatentAttention {
                q: w.get(q),
                low: w.get(qk_low),
                k: w.get(k),
                v: w.get(v),
                w: m,
                selected: w.get(selected),
                rows: t as int,
                visible: visible as int,
                ctx: ctx as int,
                heads: n_head as int,
                lora: lora as int,
                nope: nope as int,
                rope: rope_dim as int,
                value: value as int,
                turn: rope,
            },
        ),
        Op::RouterSelect { selected, weights, logits, bias, n_expert, n_used, t, softmax } => w.put(
            selected,
            Val::Best {
                weights: false,
                logits: w.get(logits),
                bias,
                of: n_expert as int,
                used: n_used as int,
                rows: t as int,
                softmax,
            },
        ).put(
            weights,
            Val::Best {
                weights: true,
                logits: w.get(logits),
                bias,
                of: n_expert as int,
                used: n_used as int,
                rows: t as int,
                softmax,
            },
        ),
        Op::GroupRouterSelect {
            selected,
            weights,
            logits,
            bias,
            n_expert,
            n_used,
            groups,
            group_used,
            t,
        } => w.put(
            selected,
            Val::GroupBest {
                weights: false,
                logits: w.get(logits),
                bias,
                of: n_expert as int,
                used: n_used as int,
                groups: groups as int,
                group_used: group_used as int,
                rows: t as int,
            },
        ).put(
            weights,
            Val::GroupBest {
                weights: true,
                logits: w.get(logits),
                bias,
                of: n_expert as int,
                used: n_used as int,
                groups: groups as int,
                group_used: group_used as int,
                rows: t as int,
            },
        ),
        Op::Moe { part, il, n_sel, act, t, width } => w.put(
            Buf::State(St::MoeOut),
            Val::Experts {
                part,
                il: il as int,
                picks: n_sel as int,
                act: act as int,
                rows: t as int,
                width: width as int,
                selected: w.get(Buf::State(St::RouterSelected)),
                weights: w.get(Buf::State(St::RouterWeights)),
                x: w.get(Buf::State(St::Normed)),
                xq: w.get(Buf::State(St::Xq)),
            },
        ),
        Op::HeadLogits { rows } => w.put(
            Buf::State(St::Logits),
            Val::Head { x: w.get(Buf::State(St::Normed)), rows: rows as int },
        ),
        Op::Softcap { n } => w.put(
            Buf::State(St::Logits),
            Val::Capped { x: w.get(Buf::State(St::Logits)), n: n as int },
        ),
        Op::Scale { buf, n, factor } => w.put(
            buf,
            Val::Scaled { x: w.get(buf), n: n as int, factor },
        ),
        Op::FillRowTail { rows, n, n_out } => w.put(
            Buf::State(St::Logits),
            Val::TailFilled {
                x: w.get(Buf::State(St::Logits)),
                rows: rows as int,
                n: n as int,
                n_out: n_out as int,
            },
        ),
        Op::BroadcastHc { out, x, t, n_embd, hc } => w.put(
            out,
            Val::Streams { x: w.get(x), rows: t as int, n: n_embd as int, hc: hc as int },
        ),
        Op::HcNorm { out, x, w: g, t, n_embd, hc } => w.put(
            out,
            Val::StreamNorm {
                x: w.get(x),
                w: g,
                rows: t as int,
                n: n_embd as int,
                hc: hc as int,
            },
        ),
        Op::HcNormInplace { buf, w: g, t, n_embd, hc } => w.put(
            buf,
            Val::StreamNorm {
                x: w.get(buf),
                w: Some(g),
                rows: t as int,
                n: n_embd as int,
                hc: hc as int,
            },
        ),
        Op::HcMean { out, x, t, n_embd, hc } => w.put(
            out,
            Val::StreamMean { x: w.get(x), rows: t as int, n: n_embd as int, hc: hc as int },
        ),
        Op::HcCombine { res, x, inj, t, n_embd, hc } => w.put(
            res,
            Val::Combined {
                res: w.get(res),
                x: w.get(x),
                inj: w.get(inj),
                rows: t as int,
                n: n_embd as int,
                hc: hc as int,
            },
        ),
        Op::GdnCoeffs { g, beta, a, dt_bias, t, heads } => w.put(
            g,
            Val::GdnDecay {
                g: w.get(g),
                beta: w.get(beta),
                a,
                dt: dt_bias,
                rows: t as int,
                heads: heads as int,
            },
        ).put(
            beta,
            Val::GdnStrength {
                g: w.get(g),
                beta: w.get(beta),
                a,
                dt: dt_bias,
                rows: t as int,
                heads: heads as int,
            },
        ),
        Op::ConvBatch { out, x, w: c, state, dim, k, t } => w.put(
            out,
            Val::Conv {
                x: w.get(x),
                w: c,
                window: w.get(state),
                dim: dim as int,
                k: k as int,
                rows: t as int,
            },
        ).put(
            state,
            Val::ConvWindow {
                x: w.get(x),
                window: w.get(state),
                dim: dim as int,
                k: k as int,
                rows: t as int,
            },
        ),
        Op::SplitQkv { q, k, v, x, t, key_dim, value_dim } => w.put(
            q,
            third(0, w.at[x], t, key_dim, value_dim),
        ).put(k, third(1, w.at[x], t, key_dim, value_dim)).put(
            v,
            third(2, w.at[x], t, key_dim, value_dim),
        ),
        Op::GdnBatch { out, state, q, k, v, g, beta, v_heads, k_heads, dim, t } => w.put(
            out,
            Val::GdnOut {
                state: w.get(state),
                q: w.get(q),
                k: w.get(k),
                v: w.get(v),
                g: w.get(g),
                beta: w.get(beta),
                v_heads: v_heads as int,
                k_heads: k_heads as int,
                dim: dim as int,
                rows: t as int,
            },
        ).put(
            state,
            Val::GdnNext {
                state: w.get(state),
                q: w.get(q),
                k: w.get(k),
                v: w.get(v),
                g: w.get(g),
                beta: w.get(beta),
                v_heads: v_heads as int,
                k_heads: k_heads as int,
                dim: dim as int,
                rows: t as int,
            },
        ),
        Op::SplitGate { q, gate, x, rows, dim } => w.put(
            q,
            Val::Half { gate: false, x: w.get(x), rows: rows as int, dim: dim as int },
        ).put(gate, Val::Half { gate: true, x: w.get(x), rows: rows as int, dim: dim as int }),
        Op::GqaRope { buf, t, heads, dim, rot, pos } => w.put(
            buf,
            Val::Turned {
                x: w.get(buf),
                rows: t as int,
                heads: heads as int,
                dim: dim as int,
                rot: rot as int,
                pos: pos as int,
            },
        ),
        Op::GqaKvAppend { cache, x, t, heads, dim, ctx, pos } => w.put(
            cache,
            Val::Cache {
                old: w.get(cache),
                x: w.get(x),
                rows: t as int,
                heads: heads as int,
                dim: dim as int,
                ctx: ctx as int,
                pos: pos as int,
            },
        ),
        Op::GqaAttention { out, q, k, v, t, heads, kv_heads, dim, ctx, pos } => w.put(
            out,
            Val::Attention {
                q: w.get(q),
                k: w.get(k),
                v: w.get(v),
                rows: t as int,
                heads: heads as int,
                kv_heads: kv_heads as int,
                dim: dim as int,
                ctx: ctx as int,
                pos: pos as int,
            },
        ),
        Op::PleRow { slot, off } => World {
            stage: Val::Staged { old: Box::new(w.stage), slot: slot as int, off: off as int },
            ..w
        },
        Op::HostStage { n } => World { stage: Val::Zeros { bytes: n * 4 }, ..w },
        Op::PleStage { n } => w.put(
            Buf::Rt(Q38::PleEmbDev),
            Val::Cut { of: Box::new(w.stage), off: 0, bytes: n * 4 },
        ),
        Op::PleScore { out, key, query, t, n_embd, hc } => w.put(
            out,
            Val::Score {
                key: w.get(key),
                query: w.get(query),
                rows: t as int,
                n: n_embd as int,
                hc: hc as int,
            },
        ),
        Op::PleApply { out, value, gate, t, n_embd, hc } => w.put(
            out,
            Val::Applied {
                value: w.get(value),
                gate: w.get(gate),
                rows: t as int,
                n: n_embd as int,
                hc: hc as int,
            },
        ),
        Op::PleConv { out, x, w: c, t, dim, rows, k, dilation } => w.put(
            out,
            Val::Dilated {
                x: w.get(x),
                w: c,
                t: t as int,
                dim: dim as int,
                rows: rows as int,
                k: k as int,
                dilation: dilation as int,
            },
        ),
        Op::ResidualAdd { res, x, t, n_embd, hc } => w.put(
            res,
            Val::Joined {
                res: w.get(res),
                x: w.get(x),
                rows: t as int,
                n: n_embd as int,
                hc: hc as int,
            },
        ),
        Op::ReadLogits { n } => World {
            logits: Some(Val::Cut { of: w.get(Buf::State(St::Logits)), off: 0, bytes: n * 4 }),
            ..w
        },
    }
}

pub open spec fn third(nth: int, x: Val, t: u32, key: u32, value: u32) -> Val {
    Val::Third { nth, x: Box::new(x), rows: t as int, key: key as int, value: value as int }
}

/// What the first `n` operations of a list leave.
pub open spec fn after(ops: Seq<Op>, n: int, w: World) -> World
    decreases n,
{
    if n <= 0 {
        w
    } else {
        step(ops[n - 1], after(ops, n - 1, w))
    }
}

/// What a list of operations leaves.
pub open spec fn run(ops: Seq<Op>, w: World) -> World {
    after(ops, ops.len() as int, w)
}

pub proof fn lemma_next(ops: Seq<Op>, n: int, w: World)
    requires
        0 <= n,
    ensures
        after(ops, n + 1, w) == step(ops[n], after(ops, n, w)),
{
}

pub proof fn lemma_prefix(a: Seq<Op>, b: Seq<Op>, n: int, w: World)
    requires
        n <= a.len(),
        n <= b.len(),
        forall|i: int| 0 <= i < n ==> a[i] == b[i],
    ensures
        after(a, n, w) == after(b, n, w),
    decreases n,
{
    if n > 0 {
        lemma_prefix(a, b, n - 1, w);
    }
}

/// One list after the other.
pub proof fn lemma_run_add(a: Seq<Op>, b: Seq<Op>, w: World)
    ensures
        run(a + b, w) == run(b, run(a, w)),
    decreases b.len(),
{
    if b.len() == 0 {
        assert(a + b =~= a);
    } else {
        let c = b.drop_last();
        lemma_run_add(a, c, w);
        lemma_prefix(a + b, a + c, (a + c).len() as int, w);
        lemma_prefix(b, c, c.len() as int, run(a, w));
        assert((a + b).last() == b.last());
    }
}

pub proof fn lemma_run_and(a: Plan, b: Plan, w: World)
    requires
        a.end is Ok,
    ensures
        run(a.and(b).ops, w) == run(b.ops, run(a.ops, w)),
{
    lemma_run_add(a.ops, b.ops, w);
}

proof fn lemma_step_keeps(op: Op, b: Buf, w: World)
    requires
        !writes(op, b),
    ensures
        step(op, w).at[b] == w.at[b],
{
}

/// What a list does not write stays.
pub proof fn lemma_run_keeps(ops: Seq<Op>, n: int, b: Buf, w: World)
    requires
        keeps(ops, b),
        n <= ops.len(),
    ensures
        after(ops, n, w).at[b] == w.at[b],
    decreases n,
{
    if n > 0 {
        lemma_run_keeps(ops, n - 1, b, w);
        lemma_step_keeps(ops[n - 1], b, after(ops, n - 1, w));
    }
}

} // verus!
