//! What the parts that several families share compute, as formulas over their
//! inputs.

use crate::engine::blocks::{
    dense_ffn, kda_recurrence, last_row_head, matw, mla_core, project_out, quant_for, Place,
};
use crate::engine::hazard::{keeps, lemma_keeps_add};
use crate::engine::ops::{Buf, Gw, KdaBuf, Op, Part, Rope, Sc, St, Wt};
use crate::engine::shape::{MatKind, Shape};
use crate::engine::value::{after, lemma_next, lemma_run_add, run, Val, World};
use vstd::prelude::*;

verus! {

pub open spec fn bx(v: Val) -> Box<Val> {
    Box::new(v)
}

/// A weight of a layer, or of the drafting block.
pub open spec fn weight(part: Part, w: Wt) -> Buf {
    match part {
        Part::Layer(il) => Buf::Layer(il, w),
        Part::Mtp => Buf::Mtp(w),
    }
}

/// The products of the widths of the mixers, as whole numbers.
pub proof fn lemma_widths(s: Shape)
    requires
        s.mixers_fit(),
    ensures
        s.d_inner() as int == s.n_head * s.kda_head_dim,
        s.mla_out() as int == s.n_head * s.value_mla,
        s.mla_q() as int == s.n_head * s.qk_dim,
        s.kv_raw() as int == s.n_kv_lora + s.qk_rope,
        s.mla_low() as int == s.n_head * s.n_kv_lora,
{
    assert(0 <= s.n_head * s.kda_head_dim) by (nonlinear_arith);
    assert(0 <= s.n_head * s.value_mla) by (nonlinear_arith);
    assert(0 <= s.n_head * s.qk_dim) by (nonlinear_arith);
    assert(0 <= s.n_head * s.n_kv_lora) by (nonlinear_arith);
}

/// A weight matrix times rows: quantized weights multiply the quantized rows.
pub open spec fn times_w(
    kind: MatKind,
    w: Buf,
    x: Val,
    xq: Val,
    n_in: int,
    n_out: int,
    rows: int,
) -> Val {
    match kind {
        MatKind::Q8 => Val::Mul { w, x: bx(x), n_in, n_out, rows },
        MatKind::Kq => Val::MulQuant { w, x: bx(xq), n_in, n_out, rows },
    }
}

/// Operation `n` of a list is such a product.
pub proof fn lemma_times(
    ops: Seq<Op>,
    n: int,
    out: Buf,
    m: Buf,
    kind: MatKind,
    x: Buf,
    xq: Buf,
    n_in: u32,
    n_out: u32,
    rows: u32,
    w: World,
)
    requires
        0 <= n,
        ops[n] == matw(out, m, kind, x, xq, n_in, n_out, rows),
    ensures
        after(ops, n + 1, w) == after(ops, n, w).put(
            out,
            times_w(
                kind,
                m,
                after(ops, n, w).at[x],
                after(ops, n, w).at[xq],
                n_in as int,
                n_out as int,
                rows as int,
            ),
        ),
{
    lemma_next(ops, n, w);
}

/// What a scratch of quantized rows holds, where an encoding asks for them.
pub open spec fn quant_if(kind: MatKind, x: Val, n: int, rows: int, held: Val) -> Val {
    match kind {
        MatKind::Q8 => held,
        MatKind::Kq => Val::Quant { x: bx(x), n, rows },
    }
}

/// A weight matrix times rows, quantized first where the weights are.
pub open spec fn times_own(
    kind: MatKind,
    w: Buf,
    x: Val,
    n_in: int,
    n_out: int,
    rows: int,
) -> Val {
    times_w(kind, w, x, Val::Quant { x: bx(x), n: n_in, rows }, n_in, n_out, rows)
}

pub open spec fn norm(x: Val, w: Buf, n: int, rows: int) -> Val {
    Val::Norm { x: bx(x), w, n, rows }
}

pub open spec fn sum(a: Val, b: Val, n: int) -> Val {
    Val::Sum { a: bx(a), b: bx(b), n }
}

/// A row of `n` values as it arrives on another card.
pub open spec fn moved(far: bool, x: Val, n: int) -> Val {
    if far {
        row_of(x, n)
    } else {
        x
    }
}

/// A copied row of `n` values.
pub open spec fn row_of(x: Val, n: int) -> Val {
    Val::Cut { of: bx(x), off: 0, bytes: n * 4 }
}

/// A query, key or value behind its convolution.
pub open spec fn convolved(s: Shape, x: Val, w: Buf, window: Val) -> Val {
    Val::Conv {
        x: bx(x),
        w,
        window: bx(window),
        dim: s.n_head * s.kda_head_dim,
        k: s.ssm_conv_k as int,
        rows: 1,
    }
}

/// A convolution's window with a row more.
pub open spec fn window(s: Shape, x: Val, old: Val) -> Val {
    Val::ConvWindow {
        x: bx(x),
        window: bx(old),
        dim: s.n_head * s.kda_head_dim,
        k: s.ssm_conv_k as int,
        rows: 1,
    }
}

/// Every head of a row to unit length.
pub open spec fn unit(s: Shape, x: Val) -> Val {
    Val::UnitRows { x: bx(x), rows: s.n_head as int, dim: s.kda_head_dim as int }
}

/// What the delta rule of a KDA layer takes.
pub struct KdaRow {
    pub q: Val,
    pub k: Val,
    pub v: Val,
    pub g: Val,
    pub beta: Val,
}

/// The row behind the convolutions, queries and keys of unit length.
pub open spec fn kda_row(s: Shape, il: usize, r: KdaRow, w: World) -> KdaRow {
    KdaRow {
        q: unit(
            s,
            convolved(s, r.q, Buf::Layer(il, Wt::KdaConvQ), w.at[Buf::Kda(il, KdaBuf::ConvQ)]),
        ),
        k: unit(
            s,
            convolved(s, r.k, Buf::Layer(il, Wt::KdaConvK), w.at[Buf::Kda(il, KdaBuf::ConvK)]),
        ),
        v: convolved(s, r.v, Buf::Layer(il, Wt::KdaConvV), w.at[Buf::Kda(il, KdaBuf::ConvV)]),
        ..r
    }
}

/// The heads that the delta rule gives, each normed.
pub open spec fn kda_heads(s: Shape, il: usize, r: KdaRow, w: World) -> Val {
    let c = kda_row(s, il, r, w);
    Val::HeadNorm {
        x: bx(
            Val::KdaOut {
                state: w.get(Buf::Kda(il, KdaBuf::S)),
                q: bx(c.q),
                k: bx(c.k),
                v: bx(c.v),
                g: bx(c.g),
                beta: bx(c.beta),
                heads: s.n_head as int,
                dim: s.kda_head_dim as int,
            },
        ),
        w: Buf::Layer(il, Wt::KdaNorm),
        rows: s.n_head as int,
        dim: s.kda_head_dim as int,
    }
}

/// The state that the delta rule leaves.
pub open spec fn kda_next(s: Shape, il: usize, r: KdaRow, w: World) -> Val {
    let c = kda_row(s, il, r, w);
    Val::KdaNext {
        state: w.get(Buf::Kda(il, KdaBuf::S)),
        q: bx(c.q),
        k: bx(c.k),
        v: bx(c.v),
        g: bx(c.g),
        beta: bx(c.beta),
        heads: s.n_head as int,
        dim: s.kda_head_dim as int,
    }
}

/// Decay of a KDA layer from its raw projections.
pub open spec fn kda_decay(s: Shape, il: usize, g: Val, beta: Val) -> Val {
    Val::KdaDecay {
        g: bx(g),
        beta: bx(beta),
        a: Buf::Layer(il, Wt::KdaA),
        dt: Buf::Layer(il, Wt::KdaDtBias),
        rows: 1,
        heads: s.n_head as int,
        dim: s.kda_head_dim as int,
    }
}

/// Step size of a KDA layer from its raw projections.
pub open spec fn kda_strength(s: Shape, il: usize, g: Val, beta: Val) -> Val {
    Val::KdaStrength {
        g: bx(g),
        beta: bx(beta),
        a: Buf::Layer(il, Wt::KdaA),
        dt: Buf::Layer(il, Wt::KdaDtBias),
        rows: 1,
        heads: s.n_head as int,
        dim: s.kda_head_dim as int,
    }
}

/// The recurrent state of a KDA layer moves on by a row.
pub open spec fn kda_moves(s: Shape, il: usize, r: KdaRow, w: World, z: World) -> bool {
    &&& z.at[Buf::Kda(il, KdaBuf::S)] == kda_next(s, il, r, w)
    &&& z.at[Buf::Kda(il, KdaBuf::ConvQ)] == window(s, r.q, w.at[Buf::Kda(il, KdaBuf::ConvQ)])
    &&& z.at[Buf::Kda(il, KdaBuf::ConvK)] == window(s, r.k, w.at[Buf::Kda(il, KdaBuf::ConvK)])
    &&& z.at[Buf::Kda(il, KdaBuf::ConvV)] == window(s, r.v, w.at[Buf::Kda(il, KdaBuf::ConvV)])
}

pub proof fn lemma_recurrence(s: Shape, at: Place, w: World)
    requires
        s.mixers_fit(),
    ensures
        ({
            let z = run(kda_recurrence(s, at), w);
            let r = KdaRow {
                q: w.at[at.sc(Sc::Q)],
                k: w.at[at.sc(Sc::K)],
                v: w.at[at.sc(Sc::V)],
                g: w.at[at.sc(Sc::G)],
                beta: w.at[at.sc(Sc::Beta)],
            };
            &&& z.at[at.sc(Sc::O)] == kda_heads(s, at.il, r, w)
            &&& kda_moves(s, at.il, r, w, z)
        }),
{
    lemma_widths(s);
    let ops = kda_recurrence(s, at);
    lemma_next(ops, 0, w);
    lemma_next(ops, 1, w);
    lemma_next(ops, 2, w);
    lemma_next(ops, 3, w);
    lemma_next(ops, 4, w);
    lemma_next(ops, 5, w);
    lemma_next(ops, 6, w);
}

/// A latent row with its position, as the two caches keep it.
pub open spec fn latent_cache(
    s: Shape,
    key: bool,
    il: usize,
    x: Val,
    old: Val,
    pos: int,
    ctx: int,
) -> Val {
    Val::LatentCache {
        key,
        old: bx(old),
        norm: bx(latent_norm(s, il, x)),
        raw: bx(latent_raw(s, il, x)),
        pos,
        rows: 1,
        ctx,
        row: s.n_kv_lora + s.qk_rope,
        lora: s.n_kv_lora as int,
        rope: s.qk_rope as int,
    }
}

pub open spec fn latent_raw(s: Shape, il: usize, x: Val) -> Val {
    Val::Mul {
        w: Buf::Layer(il, Wt::MlaKvA),
        x: bx(x),
        n_in: s.n_embd as int,
        n_out: s.n_kv_lora + s.qk_rope,
        rows: 1,
    }
}

pub open spec fn latent_norm(s: Shape, il: usize, x: Val) -> Val {
    Val::LatentNorm {
        x: bx(latent_raw(s, il, x)),
        w: Buf::Layer(il, Wt::MlaKvANorm),
        rows: 1,
        row: s.n_kv_lora + s.qk_rope,
        lora: s.n_kv_lora as int,
    }
}

/// A query attends to every latent row up to its own.
pub open spec fn latent_heads(
    s: Shape,
    il: usize,
    x: Val,
    q: Val,
    w: World,
    pos: int,
    ctx: int,
    turn: Rope,
) -> Val {
    Val::LatentAttention {
        q: bx(q),
        low: bx(
            Val::LatentQuery {
                q: bx(q),
                w: Buf::Layer(il, Wt::MlaKb),
                rows: 1,
                heads: s.n_head as int,
                lora: s.n_kv_lora as int,
                nope: s.qk_nope as int,
                dim: s.qk_dim as int,
            },
        ),
        k: bx(latent_cache(s, true, il, x, w.at[Buf::KCache(il)], pos, ctx)),
        v: bx(latent_cache(s, false, il, x, w.at[Buf::VCache(il)], pos, ctx)),
        w: Buf::Layer(il, Wt::MlaVb),
        selected: bx(Val::Range { rows: 1, pos, visible: pos + 1, ctx }),
        rows: 1,
        visible: pos + 1,
        ctx,
        heads: s.n_head as int,
        lora: s.n_kv_lora as int,
        nope: s.qk_nope as int,
        rope: s.qk_rope as int,
        value: s.value_mla as int,
        turn,
    }
}

/// The latent caches of a layer get the row of a position.
pub open spec fn latent_moves(
    s: Shape,
    il: usize,
    x: Val,
    w: World,
    pos: int,
    ctx: int,
    z: World,
) -> bool {
    &&& z.at[Buf::KCache(il)] == latent_cache(s, true, il, x, w.at[Buf::KCache(il)], pos, ctx)
    &&& z.at[Buf::VCache(il)] == latent_cache(s, false, il, x, w.at[Buf::VCache(il)], pos, ctx)
}

pub proof fn lemma_mla_core(s: Shape, at: Place, pos: u32, ctx: u32, rope: Rope, w: World)
    requires
        s.mixers_fit(),
        pos < u32::MAX,
    ensures
        ({
            let z = run(mla_core(s, at, pos, ctx, rope), w);
            let x = w.at[at.xin()];
            &&& z.at[at.sc(Sc::Heads)] == latent_heads(
                s,
                at.il,
                x,
                w.at[at.sc(Sc::Mq)],
                w,
                pos as int,
                ctx as int,
                rope,
            )
            &&& latent_moves(s, at.il, x, w, pos as int, ctx as int, z)
        }),
{
    lemma_widths(s);
    let ops = mla_core(s, at, pos, ctx, rope);
    lemma_next(ops, 0, w);
    lemma_next(ops, 1, w);
    lemma_next(ops, 2, w);
    lemma_next(ops, 3, w);
    lemma_next(ops, 4, w);
    lemma_next(ops, 5, w);
}

pub proof fn lemma_quant_for(kind: MatKind, out: Buf, x: Buf, n: u32, w: World)
    ensures
        run(quant_for(kind, out, x, n), w) == match kind {
            MatKind::Q8 => w,
            MatKind::Kq => w.put(out, Val::Quant { x: w.get(x), n: n as int, rows: 1 }),
        },
        run(quant_for(kind, out, x, n), w).at[out] == quant_if(
            kind,
            w.at[x],
            n as int,
            1,
            w.at[out],
        ),
{
    reveal_with_fuel(after, 2);
}

/// The output projection of a mixer, and its way to the primary card.
#[verifier::rlimit(40)]
pub proof fn lemma_project_out(
    s: Shape,
    at: Place,
    kind: MatKind,
    wt: Wt,
    x: Sc,
    in_dim: u32,
    w: World,
)
    requires
        x != Sc::Xq,
    ensures
        run(project_out(s, at, kind, wt, x, in_dim), w).at[Buf::State(St::AttnOut)] == moved(
            at.dev != at.primary,
            times_own(
                kind,
                Buf::Layer(at.il, wt),
                w.at[at.sc(x)],
                in_dim as int,
                s.n_embd as int,
                1,
            ),
            s.n_embd as int,
        ),
{
    let q = quant_for(kind, at.sc(Sc::Xq), at.sc(x), in_dim);
    let ops = project_out(s, at, kind, wt, x, in_dim);
    let rest = ops.skip(q.len() as int);
    assert(ops =~= q + rest);
    lemma_run_add(q, rest, w);
    lemma_quant_for(kind, at.sc(Sc::Xq), at.sc(x), in_dim, w);
    let v = run(q, w);
    let far = at.dev != at.primary;
    let out = if far {
        at.sc(Sc::AttnOutA)
    } else {
        Buf::State(St::AttnOut)
    };
    lemma_times(
        rest,
        0,
        out,
        at.wt(wt),
        kind,
        at.sc(x),
        at.sc(Sc::Xq),
        in_dim,
        s.n_embd,
        1,
        v,
    );
    if far {
        lemma_next(rest, 1, v);
        lemma_next(rest, 2, v);
        lemma_next(rest, 3, v);
    }
}

/// The projection writes scratch, and its way back the mixer's output.
pub proof fn lemma_out_keeps(
    s: Shape,
    at: Place,
    kind: MatKind,
    wt: Wt,
    x: Sc,
    in_dim: u32,
    b: Buf,
)
    requires
        !(b is Scratch),
        b != Buf::State(St::AttnOut),
    ensures
        keeps(project_out(s, at, kind, wt, x, in_dim), b),
{
    let q = quant_for(kind, at.sc(Sc::Xq), at.sc(x), in_dim);
    let ops = project_out(s, at, kind, wt, x, in_dim);
    let rest = ops.skip(q.len() as int);
    assert(ops =~= q + rest);
    assert(keeps(rest, b));
    lemma_keeps_add(q, rest, b);
}

/// A dense feed-forward half.
pub open spec fn dense(s: Shape, il: usize, x: Val) -> Val {
    Val::Mul {
        w: Buf::Layer(il, Wt::FfnDown),
        x: bx(
            Val::Glu {
                gate: bx(
                    Val::Mul {
                        w: Buf::Layer(il, Wt::FfnGate),
                        x: bx(x),
                        n_in: s.n_embd as int,
                        n_out: s.n_ff_dense as int,
                        rows: 1,
                    },
                ),
                up: bx(
                    Val::Mul {
                        w: Buf::Layer(il, Wt::FfnUp),
                        x: bx(x),
                        n_in: s.n_embd as int,
                        n_out: s.n_ff_dense as int,
                        rows: 1,
                    },
                ),
                n: s.n_ff_dense as int,
                clamp: None,
                act: s.moe_act_op as int,
            },
        ),
        n_in: s.n_ff_dense as int,
        n_out: s.n_embd as int,
        rows: 1,
    }
}

pub proof fn lemma_dense(s: Shape, il: usize, w: World)
    ensures
        run(dense_ffn(s, il), w).at[Buf::State(St::FfnOut)] == dense(
            s,
            il,
            w.at[Buf::State(St::Normed)],
        ),
{
    let ops = dense_ffn(s, il);
    lemma_next(ops, 0, w);
    lemma_next(ops, 1, w);
    lemma_next(ops, 2, w);
    lemma_next(ops, 3, w);
}

/// The host reads the logits of the normed residual.
pub proof fn lemma_head(s: Shape, w: World)
    ensures
        run(last_row_head(s), w).logits == Some(
            Val::Cut {
                of: bx(
                    Val::Head {
                        x: bx(
                            norm(
                                w.at[Buf::State(St::Cur)],
                                Buf::Global(Gw::OutputNorm),
                                s.n_embd as int,
                                1,
                            ),
                        ),
                        rows: 1,
                    },
                ),
                off: 0,
                bytes: s.n_vocab * 4,
            },
        ),
{
    let ops = last_row_head(s);
    lemma_next(ops, 0, w);
    lemma_next(ops, 1, w);
    lemma_next(ops, 2, w);
    lemma_next(ops, 3, w);
}

} // verus!
