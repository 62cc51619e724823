//! What the parts of a qwen38 layer compute, as formulas over their inputs.

use crate::engine::formula::{bx, lemma_times, quant_if, sum, times_own, times_w, weight};
use crate::engine::hazard::{keeps, lemma_keeps_add};
use crate::engine::ops::{ops_if, Buf, Factor, GdnBuf, Op, Part, St, Wt, Q38};
use crate::engine::qwen38::GdnState;
use crate::engine::qwen38::blocks::{
    attention, attn_core, attn_kv, attn_out, attn_query, combine, gdn, gdn_input, gdn_out,
    gdn_project, gdn_recurrence, hc_collapse, hc_down, hc_full, hc_gate, hc_inject, hc_mix, hc_norm,
    hc_up, moe, moe_route, moe_routed, moe_shared, quant_rows, HcAt,
};
use crate::engine::shape::{
    either, f32_bytes, times, Ffn, LayerW, MatKind, Qwen38Attn, Qwen38Gdn, Qwen38Hc, Shape,
};
use crate::engine::value::{after, lemma_next, lemma_run_add, lemma_run_keeps, run, Val, World};
use vstd::prelude::*;

verus! {

/// The widths and counts of a chunk of `t` rows, as whole numbers.
#[verifier::rlimit(40)]
pub proof fn lemma_chunk_widths(s: Shape, t: u32)
    requires
        s.rows_fit(t),
    ensures
        s.hc_dim() as int == s.n_hc * s.n_embd,
        times(t, s.hc_dim()) as int == t * (s.n_hc * s.n_embd),
        times(t, s.n_embd) as int == t * s.n_embd,
        times(t, s.hc_low_rank) as int == t * s.hc_low_rank,
        s.key_dim() as int == s.ssm_k_heads * s.ssm_state,
        s.value_dim() as int == s.ssm_v_heads * s.ssm_state,
        s.conv_dim() as int == 2 * (s.ssm_k_heads * s.ssm_state) + s.ssm_v_heads * s.ssm_state,
        times(t, s.ssm_k_heads) as int == t * s.ssm_k_heads,
        times(t, s.ssm_v_heads) as int == t * s.ssm_v_heads,
        times(t, s.value_dim()) as int == t * (s.ssm_v_heads * s.ssm_state),
        s.attn_dim() as int == s.n_head * s.head_dim,
        times(2, s.attn_dim()) as int == 2 * (s.n_head * s.head_dim),
        times(t, s.attn_dim()) as int == t * (s.n_head * s.head_dim),
        times(t, s.n_head) as int == t * s.n_head,
        s.kv_dim() as int == s.n_head_kv * s.head_dim,
        times(t, s.n_head_kv) as int == t * s.n_head_kv,
        times(t, s.n_ff_exp) as int == t * s.n_ff_exp,
        times(t, s.n_expert_used) as int == t * s.n_expert_used,
{
    assert(0 <= s.n_hc * s.n_embd) by (nonlinear_arith);
    assert(0 <= s.ssm_k_heads * s.ssm_state) by (nonlinear_arith);
    assert(0 <= s.ssm_v_heads * s.ssm_state) by (nonlinear_arith);
    assert(0 <= s.n_head * s.head_dim) by (nonlinear_arith);
    assert(0 <= s.n_head_kv * s.head_dim) by (nonlinear_arith);
    assert(0 <= t * (s.n_hc * s.n_embd)) by (nonlinear_arith)
        requires
            0 <= s.n_hc * s.n_embd,
    ;
    assert(0 <= t * (s.ssm_v_heads * s.ssm_state)) by (nonlinear_arith)
        requires
            0 <= s.ssm_v_heads * s.ssm_state,
    ;
    assert(0 <= t * (s.n_head * s.head_dim)) by (nonlinear_arith)
        requires
            0 <= s.n_head * s.head_dim,
    ;
    assert(0 <= t * s.n_embd) by (nonlinear_arith);
    assert(0 <= t * s.hc_low_rank) by (nonlinear_arith);
    assert(0 <= t * s.ssm_k_heads) by (nonlinear_arith);
    assert(0 <= t * s.ssm_v_heads) by (nonlinear_arith);
    assert(0 <= t * s.n_head) by (nonlinear_arith);
    assert(0 <= t * s.n_head_kv) by (nonlinear_arith);
    assert(0 <= t * s.n_ff_exp) by (nonlinear_arith);
    assert(0 <= t * s.n_expert_used) by (nonlinear_arith);
}

pub proof fn lemma_quant_rows(kind: MatKind, out: Buf, x: Buf, n: u32, rows: u32, w: World)
    ensures
        run(quant_rows(kind, out, x, n, rows), w) == match kind {
            MatKind::Q8 => w,
            MatKind::Kq => w.put(out, Val::Quant { x: w.get(x), n: n as int, rows: rows as int }),
        },
        run(quant_rows(kind, out, x, n, rows), w).at[out] == quant_if(
            kind,
            w.at[x],
            n as int,
            rows as int,
            w.at[out],
        ),
{
    reveal_with_fuel(after, 2);
}

/// The normed streams of `t` rows.
pub open spec fn normed_streams(s: Shape, res: Val, gain: Buf, t: int) -> Val {
    Val::StreamNorm {
        x: bx(res),
        w: Some(gain),
        rows: t,
        n: s.n_embd as int,
        hc: s.n_hc as int,
    }
}

/// The low-rank code of normed streams, gated by itself.
pub open spec fn low_code(s: Shape, down: Buf, kind: MatKind, xn: Val, t: int) -> Val {
    let r = s.hc_low_rank as int;
    let lo = Val::Scaled {
        x: bx(times_own(kind, down, xn, s.n_hc * s.n_embd, r, t)),
        n: t * r,
        factor: Factor::InvHc,
    };
    Val::Gated {
        x: bx(lo),
        gate: bx(Val::Cut { of: bx(lo), off: 0, bytes: t * r * 4 }),
        n: t * r,
    }
}

/// The input of a block: the mean of the normed streams, gated through a low rank.
pub open spec fn collapsed(s: Shape, at: HcAt, w: Qwen38Hc, res: Val, t: int) -> Val {
    let d = s.n_hc * s.n_embd;
    let xn = normed_streams(s, res, at.norm, t);
    let gate = times_own(
        w.up,
        at.up,
        low_code(s, at.down, w.down, xn, t),
        s.hc_low_rank as int,
        d,
        t,
    );
    Val::StreamMean {
        x: bx(Val::Gated { x: bx(xn), gate: bx(gate), n: t * d }),
        rows: t,
        n: s.n_embd as int,
        hc: s.n_hc as int,
    }
}

/// How much of a block's output each stream takes; what was there stays where the
/// mixer has no such weights.
pub open spec fn scatter(
    s: Shape,
    at: HcAt,
    w: Qwen38Hc,
    res: Val,
    t: int,
    inject: bool,
    held: Val,
) -> Val {
    if inject && w.inject_bytes > 4 {
        Val::MulFloat {
            w: at.inject,
            x: bx(normed_streams(s, res, at.norm, t)),
            n_in: s.n_hc * s.n_embd,
            n_out: s.n_hc as int,
            rows: t,
        }
    } else {
        held
    }
}

/// What the second scratch for quantized rows holds behind a stream mixer.
pub open spec fn left_quant(s: Shape, at: HcAt, w: Qwen38Hc, res: Val, t: int, held: Val) -> Val {
    quant_if(
        w.up,
        low_code(s, at.down, w.down, normed_streams(s, res, at.norm, t), t),
        s.hc_low_rank as int,
        t,
        held,
    )
}

#[verifier::rlimit(40)]
proof fn lemma_gate(s: Shape, at: HcAt, w: Qwen38Hc, t: u32, v: World)
    requires
        s.rows_fit(t),
    ensures
        ({
            let z = run(hc_gate(s, at, w, t), v);
            let xn = v.at[Buf::Rt(Q38::Xn)];
            let lo = low_code(s, at.down, w.down, xn, t as int);
            let r = s.hc_low_rank as int;
            &&& z.at[Buf::Rt(Q38::Gated)] == times_own(
                w.up,
                at.up,
                lo,
                r,
                s.n_hc * s.n_embd,
                t as int,
            )
            &&& z.at[Buf::Rt(Q38::Xq2)] == quant_if(
                w.up,
                lo,
                r,
                t as int,
                v.at[Buf::Rt(Q38::Xq2)],
            )
            &&& z.at[Buf::Rt(Q38::Xn)] == xn
        }),
{
    lemma_chunk_widths(s, t);
    let xn = Buf::Rt(Q38::Xn);
    let lo = Buf::Rt(Q38::Lo);
    let xq = Buf::Rt(Q38::Xq);
    let xq2 = Buf::Rt(Q38::Xq2);
    let a = quant_rows(w.down, xq, xn, s.hc_dim(), t);
    let b = hc_down(s, at, w, t);
    let c = quant_rows(w.up, xq2, lo, s.hc_low_rank, t);
    let d = hc_up(s, at, w, t);
    lemma_run_add(a, b, v);
    lemma_run_add(a + b, c, v);
    lemma_run_add(a + b + c, d, v);
    let v1 = run(a, v);
    let v2 = run(b, v1);
    let v3 = run(c, v2);
    lemma_quant_rows(w.down, xq, xn, s.hc_dim(), t, v);
    lemma_times(b, 0, lo, at.down, w.down, xn, xq, s.hc_dim(), s.hc_low_rank, t, v1);
    lemma_next(b, 1, v1);
    lemma_next(b, 2, v1);
    lemma_next(b, 3, v1);
    lemma_quant_rows(w.up, xq2, lo, s.hc_low_rank, t, v2);
    lemma_times(
        d,
        0,
        Buf::Rt(Q38::Gated),
        at.up,
        w.up,
        lo,
        xq2,
        s.hc_low_rank,
        s.hc_dim(),
        t,
        v3,
    );
}

/// What a stream mixer does not write.
pub open spec fn past_mix(b: Buf) -> bool {
    match b {
        Buf::Rt(x) => x != Q38::Xn && x != Q38::Xq && x != Q38::Xq2 && x != Q38::Lo && x
            != Q38::GateFull && x != Q38::Gated && x != Q38::Inj && x != Q38::Cur,
        _ => true,
    }
}

#[verifier::rlimit(40)]
pub proof fn lemma_mix_keeps(s: Shape, at: HcAt, w: Qwen38Hc, t: u32, inject: bool, b: Buf)
    requires
        past_mix(b),
    ensures
        keeps(hc_full(s, at, w, t, inject), b),
{
    let a = hc_norm(s, at.norm, t, true);
    let q1 = quant_rows(w.down, Buf::Rt(Q38::Xq), Buf::Rt(Q38::Xn), s.hc_dim(), t);
    let d = hc_down(s, at, w, t);
    let q2 = quant_rows(w.up, Buf::Rt(Q38::Xq2), Buf::Rt(Q38::Lo), s.hc_low_rank, t);
    let u = hc_up(s, at, w, t);
    let i = ops_if(inject && w.inject_bytes > 4, hc_inject(s, at, t));
    let c = hc_collapse(s, t);
    assert(keeps(a, b));
    assert(keeps(q1, b));
    assert(keeps(d, b));
    assert(keeps(q2, b));
    assert(keeps(u, b));
    assert(keeps(i, b));
    assert(keeps(c, b));
    lemma_keeps_add(q1, d, b);
    lemma_keeps_add(q1 + d, q2, b);
    lemma_keeps_add(q1 + d + q2, u, b);
    lemma_keeps_add(hc_gate(s, at, w, t), i, b);
    lemma_keeps_add(hc_gate(s, at, w, t) + i, c, b);
    lemma_keeps_add(a, hc_mix(s, at, w, t, inject), b);
}

/// A stream mixer collapses the streams, and gives the scatter weights.
#[verifier::rlimit(40)]
pub proof fn lemma_mix(s: Shape, at: HcAt, w: Qwen38Hc, t: u32, inject: bool, v: World)
    requires
        s.rows_fit(t),
    ensures
        ({
            let z = run(hc_full(s, at, w, t, inject), v);
            let res = v.at[Buf::Rt(Q38::ResHc)];
            &&& z.at[Buf::Rt(Q38::Cur)] == collapsed(s, at, w, res, t as int)
            &&& z.at[Buf::Rt(Q38::Inj)] == scatter(
                s,
                at,
                w,
                res,
                t as int,
                inject,
                v.at[Buf::Rt(Q38::Inj)],
            )
            &&& z.at[Buf::Rt(Q38::Xq2)] == left_quant(
                s,
                at,
                w,
                res,
                t as int,
                v.at[Buf::Rt(Q38::Xq2)],
            )
            &&& z.at[Buf::Rt(Q38::ResHc)] == res
        }),
{
    lemma_chunk_widths(s, t);
    let a = hc_norm(s, at.norm, t, true);
    let g = hc_gate(s, at, w, t);
    let i = ops_if(inject && w.inject_bytes > 4, hc_inject(s, at, t));
    let c = hc_collapse(s, t);
    lemma_run_add(a, hc_mix(s, at, w, t, inject), v);
    let v1 = run(a, v);
    lemma_run_add(g, i, v1);
    lemma_run_add(g + i, c, v1);
    let v2 = run(g, v1);
    let v3 = run(i, v2);
    lemma_next(a, 0, v);
    lemma_gate(s, at, w, t, v1);
    lemma_gate_keeps(s, at, w, t, Buf::Rt(Q38::Inj));
    lemma_run_keeps(g, g.len() as int, Buf::Rt(Q38::Inj), v1);
    assert(v3.at[Buf::Rt(Q38::Inj)] == scatter(
        s,
        at,
        w,
        v.at[Buf::Rt(Q38::ResHc)],
        t as int,
        inject,
        v.at[Buf::Rt(Q38::Inj)],
    )) by {
        reveal_with_fuel(after, 2);
    }
    lemma_run_keeps(i, i.len() as int, Buf::Rt(Q38::Xn), v2);
    lemma_run_keeps(i, i.len() as int, Buf::Rt(Q38::Gated), v2);
    lemma_run_keeps(i, i.len() as int, Buf::Rt(Q38::Xq2), v2);
    lemma_next(c, 0, v3);
    lemma_next(c, 1, v3);
    lemma_mix_keeps(s, at, w, t, inject, Buf::Rt(Q38::ResHc));
    let all = hc_full(s, at, w, t, inject);
    lemma_run_keeps(all, all.len() as int, Buf::Rt(Q38::ResHc), v);
}

proof fn lemma_gate_keeps(s: Shape, at: HcAt, w: Qwen38Hc, t: u32, b: Buf)
    requires
        b == Buf::Rt(Q38::Inj),
    ensures
        keeps(hc_gate(s, at, w, t), b),
{
    let q1 = quant_rows(w.down, Buf::Rt(Q38::Xq), Buf::Rt(Q38::Xn), s.hc_dim(), t);
    let d = hc_down(s, at, w, t);
    let q2 = quant_rows(w.up, Buf::Rt(Q38::Xq2), Buf::Rt(Q38::Lo), s.hc_low_rank, t);
    let u = hc_up(s, at, w, t);
    assert(keeps(q1, b));
    assert(keeps(d, b));
    assert(keeps(q2, b));
    assert(keeps(u, b));
    lemma_keeps_add(q1, d, b);
    lemma_keeps_add(q1 + d, q2, b);
    lemma_keeps_add(q1 + d + q2, u, b);
}

/// What the delta rule of a DeltaNet layer takes.
pub struct GdnRows {
    pub qkv: Val,
    pub g: Val,
    pub beta: Val,
}

pub open spec fn gdn_rows(s: Shape, part: Part, w: Qwen38Gdn, x: Val, t: int) -> GdnRows {
    let n = s.n_embd as int;
    let h = s.ssm_v_heads as int;
    let g = Val::MulFloat { w: weight(part, Wt::GdnAlpha), x: bx(x), n_in: n, n_out: h, rows: t };
    let beta = Val::MulFloat { w: weight(part, Wt::GdnBeta), x: bx(x), n_in: n, n_out: h, rows: t };
    let a = weight(part, Wt::GdnA);
    let dt = weight(part, Wt::GdnDtBias);
    GdnRows {
        qkv: times_own(
            w.wqkv,
            weight(part, Wt::GdnWqkv),
            x,
            n,
            2 * (s.ssm_k_heads * s.ssm_state) + s.ssm_v_heads * s.ssm_state,
            t,
        ),
        g: Val::GdnDecay { g: bx(g), beta: bx(beta), a, dt, rows: t, heads: h },
        beta: Val::GdnStrength { g: bx(g), beta: bx(beta), a, dt, rows: t, heads: h },
    }
}

/// Part `nth` of the rows behind their convolution.
pub open spec fn gdn_third(
    s: Shape,
    part: Part,
    r: GdnRows,
    window: Val,
    nth: int,
    t: int,
) -> Val {
    Val::Third {
        nth,
        x: bx(
            Val::Conv {
                x: bx(r.qkv),
                w: weight(part, Wt::GdnConv),
                window: bx(window),
                dim: 2 * (s.ssm_k_heads * s.ssm_state) + s.ssm_v_heads * s.ssm_state,
                k: s.ssm_conv_k as int,
                rows: t,
            },
        ),
        rows: t,
        key: s.ssm_k_heads * s.ssm_state,
        value: s.ssm_v_heads * s.ssm_state,
    }
}

pub open spec fn gdn_unit(s: Shape, x: Val, t: int) -> Val {
    Val::UnitRows { x: bx(x), rows: t * s.ssm_k_heads, dim: s.ssm_state as int }
}

/// What the delta rule gives.
pub open spec fn gdn_heads(
    s: Shape,
    part: Part,
    r: GdnRows,
    window: Val,
    state: Val,
    t: int,
) -> Val {
    Val::GdnOut {
        state: bx(state),
        q: bx(gdn_unit(s, gdn_third(s, part, r, window, 0, t), t)),
        k: bx(gdn_unit(s, gdn_third(s, part, r, window, 1, t), t)),
        v: bx(gdn_third(s, part, r, window, 2, t)),
        g: bx(r.g),
        beta: bx(r.beta),
        v_heads: s.ssm_v_heads as int,
        k_heads: s.ssm_k_heads as int,
        dim: s.ssm_state as int,
        rows: t,
    }
}

/// The state and the window that the delta rule leaves.
pub open spec fn gdn_moves(
    s: Shape,
    part: Part,
    il: usize,
    r: GdnRows,
    t: int,
    w: World,
    z: World,
) -> bool {
    let win = w.at[Buf::Gdn(il, GdnBuf::Conv)];
    &&& z.at[Buf::Gdn(il, GdnBuf::Conv)] == Val::ConvWindow {
        x: bx(r.qkv),
        window: bx(win),
        dim: 2 * (s.ssm_k_heads * s.ssm_state) + s.ssm_v_heads * s.ssm_state,
        k: s.ssm_conv_k as int,
        rows: t,
    }
    &&& z.at[Buf::Gdn(il, GdnBuf::S)] == Val::GdnNext {
        state: w.get(Buf::Gdn(il, GdnBuf::S)),
        q: bx(gdn_unit(s, gdn_third(s, part, r, win, 0, t), t)),
        k: bx(gdn_unit(s, gdn_third(s, part, r, win, 1, t), t)),
        v: bx(gdn_third(s, part, r, win, 2, t)),
        g: bx(r.g),
        beta: bx(r.beta),
        v_heads: s.ssm_v_heads as int,
        k_heads: s.ssm_k_heads as int,
        dim: s.ssm_state as int,
        rows: t,
    }
}

/// What a gated DeltaNet gives of its input.
pub open spec fn gdn_gives(
    s: Shape,
    part: Part,
    il: usize,
    w: Qwen38Gdn,
    x: Val,
    t: int,
    v: World,
) -> Val {
    let n = s.n_embd as int;
    let d = s.ssm_v_heads * s.ssm_state;
    let heads = gdn_heads(
        s,
        part,
        gdn_rows(s, part, w, x, t),
        v.at[Buf::Gdn(il, GdnBuf::Conv)],
        v.at[Buf::Gdn(il, GdnBuf::S)],
        t,
    );
    let normed = Val::HeadNorm {
        x: bx(heads),
        w: weight(part, Wt::GdnNorm),
        rows: t * s.ssm_v_heads,
        dim: s.ssm_state as int,
    };
    let o = Val::Gated {
        x: bx(normed),
        gate: bx(times_own(w.wz, weight(part, Wt::GdnWz), x, n, d, t)),
        n: t * d,
    };
    times_own(w.ssm_out, weight(part, Wt::GdnOut), o, d, n, t)
}

#[verifier::rlimit(40)]
proof fn lemma_gdn_project(s: Shape, part: Part, w: Qwen38Gdn, t: u32, v: World)
    requires
        s.rows_fit(t),
    ensures
        ({
            let z = run(gdn_input(s, w, t) + gdn_project(s, part, w, t), v);
            let x = v.at[Buf::Rt(Q38::Cur)];
            let r = gdn_rows(s, part, w, x, t as int);
            &&& z.at[Buf::Rt(Q38::GdnQkv)] == r.qkv
            &&& z.at[Buf::Rt(Q38::GdnG)] == r.g
            &&& z.at[Buf::Rt(Q38::GdnBeta)] == r.beta
            &&& z.at[Buf::Rt(Q38::GdnZ)] == times_own(
                w.wz,
                weight(part, Wt::GdnWz),
                x,
                s.n_embd as int,
                s.ssm_v_heads * s.ssm_state,
                t as int,
            )
        }),
{
    lemma_chunk_widths(s, t);
    let cur = Buf::Rt(Q38::Cur);
    let xq2 = Buf::Rt(Q38::Xq2);
    let a = gdn_input(s, w, t);
    let b = gdn_project(s, part, w, t);
    lemma_run_add(a, b, v);
    lemma_quant_rows(either(w.wqkv, w.wz), xq2, cur, s.n_embd, t, v);
    let v1 = run(a, v);
    lemma_times(
        b,
        0,
        Buf::Rt(Q38::GdnQkv),
        weight(part, Wt::GdnWqkv),
        w.wqkv,
        cur,
        xq2,
        s.n_embd,
        s.conv_dim(),
        t,
        v1,
    );
    lemma_times(
        b,
        1,
        Buf::Rt(Q38::GdnZ),
        weight(part, Wt::GdnWz),
        w.wz,
        cur,
        xq2,
        s.n_embd,
        s.value_dim(),
        t,
        v1,
    );
    lemma_next(b, 2, v1);
    lemma_next(b, 3, v1);
    lemma_next(b, 4, v1);
}

proof fn lemma_gdn_recurrence(s: Shape, part: Part, il: usize, r: GdnRows, t: u32, v: World)
    requires
        s.rows_fit(t),
        v.at[Buf::Rt(Q38::GdnQkv)] == r.qkv,
        v.at[Buf::Rt(Q38::GdnG)] == r.g,
        v.at[Buf::Rt(Q38::GdnBeta)] == r.beta,
    ensures
        ({
            let z = run(gdn_recurrence(s, part, il, t), v);
            let d = s.ssm_v_heads * s.ssm_state;
            &&& z.at[Buf::Rt(Q38::GdnO)] == Val::Gated {
                x: bx(
                    Val::HeadNorm {
                        x: bx(
                            gdn_heads(
                                s,
                                part,
                                r,
                                v.at[Buf::Gdn(il, GdnBuf::Conv)],
                                v.at[Buf::Gdn(il, GdnBuf::S)],
                                t as int,
                            ),
                        ),
                        w: weight(part, Wt::GdnNorm),
                        rows: t * s.ssm_v_heads,
                        dim: s.ssm_state as int,
                    },
                ),
                gate: v.get(Buf::Rt(Q38::GdnZ)),
                n: t * d,
            }
            &&& gdn_moves(s, part, il, r, t as int, v, z)
        }),
{
    lemma_chunk_widths(s, t);
    let ops = gdn_recurrence(s, part, il, t);
    lemma_next(ops, 0, v);
    lemma_next(ops, 1, v);
    lemma_next(ops, 2, v);
    lemma_next(ops, 3, v);
    lemma_next(ops, 4, v);
    lemma_next(ops, 5, v);
    lemma_next(ops, 6, v);
}

/// What a mixer's front leaves.
pub open spec fn past_mixer(il: usize, b: Buf) -> bool {
    match b {
        Buf::Rt(x) => x == Q38::ResHc || x == Q38::Inj,
        Buf::Gdn(j, _) => j != il,
        Buf::KCache(j) => j != il,
        Buf::VCache(j) => j != il,
        _ => true,
    }
}

#[verifier::rlimit(40)]
pub proof fn lemma_gdn_keeps(
    s: Shape,
    part: Part,
    il: usize,
    w: Qwen38Gdn,
    state: Option<GdnState>,
    t: u32,
    b: Buf,
)
    requires
        past_mixer(il, b) || b is KCache || b is VCache || b == Buf::Gdn(il, GdnBuf::PleHist),
    ensures
        keeps(gdn(s, part, il, w, state, t).ops, b),
{
    reveal(gdn);
    let q = gdn_input(s, w, t);
    let a = gdn_project(s, part, w, t);
    let r = gdn_recurrence(s, part, il, t);
    let c = quant_rows(w.ssm_out, Buf::Rt(Q38::Midq), Buf::Rt(Q38::GdnO), s.value_dim(), t);
    let o = gdn_out(s, part, w, t);
    assert(keeps(q, b));
    assert(keeps(a, b));
    assert(keeps(r, b));
    assert(keeps(c, b));
    assert(keeps(o, b));
    lemma_keeps_add(q, a, b);
    lemma_keeps_add(q + a, r, b);
    lemma_keeps_add(q + a + r, c, b);
    lemma_keeps_add(q + a + r + c, o, b);
}

#[verifier::rlimit(40)]
pub proof fn lemma_gdn(
    s: Shape,
    part: Part,
    il: usize,
    w: Qwen38Gdn,
    state: Option<GdnState>,
    t: u32,
    v: World,
)
    requires
        s.rows_fit(t),
        gdn(s, part, il, w, state, t).end is Ok,
    ensures
        ({
            let z = run(gdn(s, part, il, w, state, t).ops, v);
            let x = v.at[Buf::Rt(Q38::Cur)];
            &&& z.at[Buf::Rt(Q38::AttnOut)] == gdn_gives(s, part, il, w, x, t as int, v)
            &&& gdn_moves(s, part, il, gdn_rows(s, part, w, x, t as int), t as int, v, z)
        }),
{
    reveal(gdn);
    lemma_chunk_widths(s, t);
    let q = gdn_input(s, w, t);
    let a = gdn_project(s, part, w, t);
    let r = gdn_recurrence(s, part, il, t);
    let c = quant_rows(w.ssm_out, Buf::Rt(Q38::Midq), Buf::Rt(Q38::GdnO), s.value_dim(), t);
    let o = gdn_out(s, part, w, t);
    lemma_run_add(q + a, r, v);
    lemma_run_add(q + a + r, c, v);
    lemma_run_add(q + a + r + c, o, v);
    let v1 = run(q + a, v);
    let v2 = run(r, v1);
    let v3 = run(c, v2);
    let x = v.at[Buf::Rt(Q38::Cur)];
    let rows = gdn_rows(s, part, w, x, t as int);
    let gs = Buf::Gdn(il, GdnBuf::S);
    let gc = Buf::Gdn(il, GdnBuf::Conv);
    lemma_gdn_project(s, part, w, t, v);
    assert(keeps(q, gs) && keeps(a, gs) && keeps(q, gc) && keeps(a, gc));
    lemma_keeps_add(q, a, gs);
    lemma_keeps_add(q, a, gc);
    lemma_run_keeps(q + a, (q + a).len() as int, gs, v);
    lemma_run_keeps(q + a, (q + a).len() as int, gc, v);
    lemma_gdn_recurrence(s, part, il, rows, t, v1);
    lemma_quant_rows(
        w.ssm_out,
        Buf::Rt(Q38::Midq),
        Buf::Rt(Q38::GdnO),
        s.value_dim(),
        t,
        v2,
    );
    lemma_times(
        o,
        0,
        Buf::Rt(Q38::AttnOut),
        weight(part, Wt::GdnOut),
        w.ssm_out,
        Buf::Rt(Q38::GdnO),
        Buf::Rt(Q38::Midq),
        s.value_dim(),
        s.n_embd,
        t,
        v3,
    );
}

/// The fused projection of queries and output gates.
pub open spec fn fused(s: Shape, part: Part, w: Qwen38Attn, x: Val, held: Val, t: int) -> Val {
    times_w(
        w.wq,
        weight(part, Wt::AttnWq),
        x,
        held,
        s.n_embd as int,
        2 * (s.n_head * s.head_dim),
        t,
    )
}

/// Rows of heads, each normed and turned to its position.
pub open spec fn placed(s: Shape, x: Val, gain: Buf, heads: int, t: int, pos: int) -> Val {
    Val::Turned {
        x: bx(Val::HeadNorm { x: bx(x), w: gain, rows: t * heads, dim: s.head_dim as int }),
        rows: t,
        heads,
        dim: s.head_dim as int,
        rot: s.rot_dim as int,
        pos,
    }
}

/// Keys or values of rows: `n_head_kv` heads each.
pub open spec fn kv_rows(s: Shape, w: Buf, x: Val, t: int) -> Val {
    Val::Mul {
        w,
        x: bx(x),
        n_in: s.n_embd as int,
        n_out: s.n_head_kv * s.head_dim,
        rows: t,
    }
}

/// A cache with rows more, `n_head_kv` heads each, from a position on.
pub open spec fn grown(s: Shape, old: Val, x: Val, t: int, pos: int, ctx: int) -> Val {
    Val::Cache {
        old: bx(old),
        x: bx(x),
        rows: t,
        heads: s.n_head_kv as int,
        dim: s.head_dim as int,
        ctx,
        pos,
    }
}

/// The key cache behind a chunk.
pub open spec fn keys(
    s: Shape,
    part: Part,
    x: Val,
    old: Val,
    t: int,
    pos: int,
    ctx: int,
) -> Val {
    let k = placed(
        s,
        kv_rows(s, weight(part, Wt::AttnWk), x, t),
        weight(part, Wt::AttnKNorm),
        s.n_head_kv as int,
        t,
        pos,
    );
    grown(s, old, k, t, pos, ctx)
}

/// The value cache behind a chunk.
pub open spec fn values(
    s: Shape,
    part: Part,
    x: Val,
    old: Val,
    t: int,
    pos: int,
    ctx: int,
) -> Val {
    grown(s, old, kv_rows(s, weight(part, Wt::AttnWv), x, t), t, pos, ctx)
}

/// What gated attention gives of its input: the queries attend, head by head, to
/// the caches as the chunk leaves them.  `held`: what the second scratch for
/// quantized rows held.
pub open spec fn attn_gives(
    s: Shape,
    part: Part,
    il: usize,
    w: Qwen38Attn,
    x: Val,
    held: Val,
    t: int,
    pos: int,
    ctx: int,
    v: World,
) -> Val {
    let h = s.n_head as int;
    let d = s.n_head * s.head_dim;
    let both = fused(s, part, w, x, held, t);
    let q = Val::Half { gate: false, x: bx(both), rows: t * h, dim: s.head_dim as int };
    let gate = Val::Half { gate: true, x: bx(both), rows: t * h, dim: s.head_dim as int };
    let seen = Val::Attention {
        q: bx(placed(s, q, weight(part, Wt::AttnQNorm), h, t, pos)),
        k: bx(keys(s, part, x, v.at[Buf::KCache(il)], t, pos, ctx)),
        v: bx(values(s, part, x, v.at[Buf::VCache(il)], t, pos, ctx)),
        rows: t,
        heads: h,
        kv_heads: s.n_head_kv as int,
        dim: s.head_dim as int,
        ctx,
        pos,
    };
    let o = Val::Gated { x: bx(seen), gate: bx(gate), n: t * d };
    times_w(w.out, weight(part, Wt::AttnOut), o, o, d, s.n_embd as int, t)
}

/// The caches of a layer behind a chunk.
pub open spec fn attn_moves(
    s: Shape,
    part: Part,
    il: usize,
    x: Val,
    t: int,
    pos: int,
    ctx: int,
    v: World,
    z: World,
) -> bool {
    &&& z.at[Buf::KCache(il)] == keys(s, part, x, v.at[Buf::KCache(il)], t, pos, ctx)
    &&& z.at[Buf::VCache(il)] == values(s, part, x, v.at[Buf::VCache(il)], t, pos, ctx)
}

pub proof fn lemma_attention_keeps(
    s: Shape,
    part: Part,
    il: usize,
    w: Qwen38Attn,
    pos0: u32,
    t: u32,
    ctx: u32,
    b: Buf,
)
    requires
        past_mixer(il, b) || b is Gdn,
    ensures
        keeps(attention(s, part, il, w, pos0, t, ctx).ops, b),
{
    reveal(attention);
    let a = attn_query(s, part, w, t);
    let k = attn_kv(s, part, t);
    let c = attn_core(s, part, il, pos0, t, ctx);
    let o = attn_out(s, part, w, t);
    assert(keeps(a, b));
    assert(keeps(k, b));
    assert(keeps(c, b));
    assert(keeps(o, b));
    lemma_keeps_add(a, k, b);
    lemma_keeps_add(a + k, c, b);
    lemma_keeps_add(a + k + c, o, b);
}

proof fn lemma_attn_core(s: Shape, part: Part, il: usize, pos0: u32, t: u32, ctx: u32, v: World)
    requires
        s.rows_fit(t),
    ensures
        ({
            let z = run(attn_core(s, part, il, pos0, t, ctx), v);
            let h = s.n_head as int;
            let rows = t as int;
            let pos = pos0 as int;
            let c = ctx as int;
            let k = grown(
                s,
                v.at[Buf::KCache(il)],
                placed(
                    s,
                    v.at[Buf::Rt(Q38::K)],
                    weight(part, Wt::AttnKNorm),
                    s.n_head_kv as int,
                    rows,
                    pos,
                ),
                rows,
                pos,
                c,
            );
            let vs = grown(s, v.at[Buf::VCache(il)], v.at[Buf::Rt(Q38::V)], rows, pos, c);
            &&& z.at[Buf::KCache(il)] == k
            &&& z.at[Buf::VCache(il)] == vs
            &&& z.at[Buf::Rt(Q38::Heads)] == Val::Gated {
                x: bx(
                    Val::Attention {
                        q: bx(
                            placed(
                                s,
                                v.at[Buf::Rt(Q38::Q)],
                                weight(part, Wt::AttnQNorm),
                                h,
                                rows,
                                pos,
                            ),
                        ),
                        k: bx(k),
                        v: bx(vs),
                        rows,
                        heads: h,
                        kv_heads: s.n_head_kv as int,
                        dim: s.head_dim as int,
                        ctx: c,
                        pos,
                    },
                ),
                gate: v.get(Buf::Rt(Q38::GateA)),
                n: t * (s.n_head * s.head_dim),
            }
        }),
{
    lemma_chunk_widths(s, t);
    let ops = attn_core(s, part, il, pos0, t, ctx);
    lemma_next(ops, 0, v);
    lemma_next(ops, 1, v);
    lemma_next(ops, 2, v);
    lemma_next(ops, 3, v);
    lemma_next(ops, 4, v);
    lemma_next(ops, 5, v);
    lemma_next(ops, 6, v);
    lemma_next(ops, 7, v);
}

#[verifier::rlimit(40)]
pub proof fn lemma_attention(
    s: Shape,
    part: Part,
    il: usize,
    w: Qwen38Attn,
    pos0: u32,
    t: u32,
    ctx: u32,
    v: World,
)
    requires
        s.rows_fit(t),
        attention(s, part, il, w, pos0, t, ctx).end is Ok,
    ensures
        ({
            let z = run(attention(s, part, il, w, pos0, t, ctx).ops, v);
            let x = v.at[Buf::Rt(Q38::Cur)];
            &&& z.at[Buf::Rt(Q38::AttnOut)] == attn_gives(
                s,
                part,
                il,
                w,
                x,
                v.at[Buf::Rt(Q38::Xq2)],
                t as int,
                pos0 as int,
                ctx as int,
                v,
            )
            &&& attn_moves(s, part, il, x, t as int, pos0 as int, ctx as int, v, z)
        }),
{
    reveal(attention);
    lemma_chunk_widths(s, t);
    let cur = Buf::Rt(Q38::Cur);
    let heads = Buf::Rt(Q38::Heads);
    let a = attn_query(s, part, w, t);
    let k = attn_kv(s, part, t);
    let c = attn_core(s, part, il, pos0, t, ctx);
    let o = attn_out(s, part, w, t);
    lemma_run_add(a, k, v);
    lemma_run_add(a + k, c, v);
    lemma_run_add(a + k + c, o, v);
    let v1 = run(a, v);
    let v2 = run(k, v1);
    let v3 = run(c, v2);
    lemma_times(
        a,
        0,
        Buf::Rt(Q38::Qfull),
        weight(part, Wt::AttnWq),
        w.wq,
        cur,
        Buf::Rt(Q38::Xq2),
        s.n_embd,
        times(2, s.attn_dim()),
        t,
        v,
    );
    lemma_next(a, 1, v);
    lemma_next(k, 0, v1);
    lemma_next(k, 1, v1);
    lemma_attn_core(s, part, il, pos0, t, ctx, v2);
    lemma_times(
        o,
        0,
        Buf::Rt(Q38::AttnOut),
        weight(part, Wt::AttnOut),
        w.out,
        heads,
        heads,
        s.attn_dim(),
        s.n_embd,
        t,
        v3,
    );
}

/// The router's choice for rows.
pub open spec fn chosen(s: Shape, part: Part, x: Val, weights: bool, t: int) -> Val {
    Val::Best {
        weights,
        logits: bx(
            Val::MulFloat {
                w: weight(part, Wt::GateInp),
                x: bx(x),
                n_in: s.n_embd as int,
                n_out: s.n_expert as int,
                rows: t,
            },
        ),
        bias: weight(part, Wt::ProbsB),
        of: s.n_expert as int,
        used: s.n_expert_used as int,
        rows: t,
        softmax: true,
    }
}

/// What the shared expert gives of rows, each scaled by its own gate.
pub open spec fn shared_gives(s: Shape, part: Part, x: Val, t: int) -> Val {
    let n = s.n_embd as int;
    let f = s.n_ff_exp as int;
    let mid = Val::Glu {
        gate: bx(
            Val::Mul { w: weight(part, Wt::ShexpGate), x: bx(x), n_in: n, n_out: f, rows: t },
        ),
        up: bx(Val::Mul { w: weight(part, Wt::ShexpUp), x: bx(x), n_in: n, n_out: f, rows: t }),
        n: t * f,
        clamp: None,
        act: 0,
    };
    Val::RowGated {
        x: bx(
            Val::Mul { w: weight(part, Wt::ShexpDown), x: bx(mid), n_in: f, n_out: n, rows: t },
        ),
        gate: bx(
            Val::MulFloat {
                w: weight(part, Wt::ShexpScalar),
                x: bx(x),
                n_in: n,
                n_out: 1,
                rows: t,
            },
        ),
        rows: t,
        dim: n,
    }
}

/// What the shared expert gives, zeros where there is none.
pub open spec fn shared_or_none(s: Shape, part: Part, shexp: bool, x: Val, t: int) -> Val {
    if shexp {
        shared_gives(s, part, x, t)
    } else {
        Val::Zeros { bytes: t * s.n_embd * 4 }
    }
}

/// What the experts give of rows.
pub open spec fn experts_give(
    s: Shape,
    part: Part,
    il: usize,
    shexp: bool,
    x: Val,
    t: int,
) -> Val {
    let n = s.n_embd as int;
    let routed = Val::Experts {
        part,
        il: il as int,
        picks: t * s.n_expert_used,
        act: 0,
        rows: t,
        width: n,
        selected: bx(chosen(s, part, x, false, t)),
        weights: bx(chosen(s, part, x, true, t)),
        x: bx(Val::Cut { of: bx(x), off: 0, bytes: t * n * 4 }),
        xq: bx(Val::Quant { x: bx(x), n, rows: t }),
    };
    let shared = shared_or_none(s, part, shexp, x, t);
    Val::Cut { of: bx(sum(routed, shared, t * n)), off: 0, bytes: t * n * 4 }
}

/// What the experts leave.
pub open spec fn past_experts(b: Buf) -> bool {
    match b {
        Buf::Rt(x) => x == Q38::ResHc || x == Q38::Inj,
        Buf::State(x) => x == St::MtpHidden,
        _ => true,
    }
}

/// The shared half: the expert's rows, or none.
spec fn shared_ops(s: Shape, part: Part, shexp: bool, t: u32) -> Seq<Op> {
    if shexp {
        moe_shared(s, part, t)
    } else {
        seq![Op::Zero { buf: Buf::Rt(Q38::SharedOut), bytes: f32_bytes(times(t, s.n_embd)) }]
    }
}

pub proof fn lemma_moe_keeps(s: Shape, part: Part, il: usize, l: LayerW, t: u32, b: Buf)
    requires
        past_experts(b),
    ensures
        keeps(moe(s, part, il, l, t).ops, b),
{
    if let Ffn::Moe { shexp } = l.ffn {
        let r = moe_route(s, part, t);
        let h = shared_ops(s, part, shexp, t);
        let o = moe_routed(s, part, il, t);
        assert(keeps(r, b));
        assert(keeps(h, b));
        assert(keeps(o, b));
        lemma_keeps_add(r, h, b);
        lemma_keeps_add(r + h, o, b);
        assert(moe(s, part, il, l, t).ops == r + h + o);
    }
}

proof fn lemma_route(s: Shape, part: Part, t: u32, v: World)
    requires
        s.rows_fit(t),
    ensures
        ({
            let z = run(moe_route(s, part, t), v);
            let x = v.at[Buf::Rt(Q38::Cur)];
            let rows = t as int;
            &&& z.at[Buf::State(St::RouterSelected)] == chosen(s, part, x, false, rows)
            &&& z.at[Buf::State(St::RouterWeights)] == chosen(s, part, x, true, rows)
            &&& z.at[Buf::State(St::Normed)] == Val::Cut {
                of: bx(x),
                off: 0,
                bytes: t * s.n_embd * 4,
            }
            &&& z.at[Buf::Rt(Q38::Cur)] == x
        }),
{
    lemma_chunk_widths(s, t);
    let r = moe_route(s, part, t);
    lemma_next(r, 0, v);
    lemma_next(r, 1, v);
    lemma_next(r, 2, v);
}

proof fn lemma_shared(s: Shape, part: Part, shexp: bool, t: u32, v: World)
    requires
        s.rows_fit(t),
    ensures
        run(shared_ops(s, part, shexp, t), v).at[Buf::Rt(Q38::SharedOut)] == shared_or_none(
            s,
            part,
            shexp,
            v.at[Buf::Rt(Q38::Cur)],
            t as int,
        ),
{
    lemma_chunk_widths(s, t);
    let h = shared_ops(s, part, shexp, t);
    lemma_next(h, 0, v);
    if shexp {
        lemma_next(h, 1, v);
        lemma_next(h, 2, v);
        lemma_next(h, 3, v);
        lemma_next(h, 4, v);
        lemma_next(h, 5, v);
    }
}

proof fn lemma_routed(s: Shape, part: Part, il: usize, t: u32, v: World)
    requires
        s.rows_fit(t),
    ensures
        (run(moe_routed(s, part, il, t), v).at[Buf::Rt(Q38::Cur)] == Val::Cut {
            of: bx(
                sum(
                    Val::Experts {
                        part,
                        il: il as int,
                        picks: t * s.n_expert_used,
                        act: 0,
                        rows: t as int,
                        width: s.n_embd as int,
                        selected: v.get(Buf::State(St::RouterSelected)),
                        weights: v.get(Buf::State(St::RouterWeights)),
                        x: v.get(Buf::State(St::Normed)),
                        xq: bx(
                            Val::Quant {
                                x: v.get(Buf::Rt(Q38::Cur)),
                                n: s.n_embd as int,
                                rows: t as int,
                            },
                        ),
                    },
                    v.at[Buf::Rt(Q38::SharedOut)],
                    t * s.n_embd,
                ),
            ),
            off: 0,
            bytes: t * s.n_embd * 4,
        }),
{
    lemma_chunk_widths(s, t);
    let o = moe_routed(s, part, il, t);
    lemma_next(o, 0, v);
    lemma_next(o, 1, v);
    lemma_next(o, 2, v);
    lemma_next(o, 3, v);
    lemma_next(o, 4, v);
}

#[verifier::rlimit(40)]
pub proof fn lemma_moe(s: Shape, part: Part, il: usize, l: LayerW, t: u32, v: World)
    requires
        s.rows_fit(t),
        moe(s, part, il, l, t).end is Ok,
    ensures
        l.ffn is Moe,
        run(moe(s, part, il, l, t).ops, v).at[Buf::Rt(Q38::Cur)] == experts_give(
            s,
            part,
            il,
            l.ffn->shexp,
            v.at[Buf::Rt(Q38::Cur)],
            t as int,
        ),
{
    let shexp = l.ffn->shexp;
    let r = moe_route(s, part, t);
    let h = shared_ops(s, part, shexp, t);
    let o = moe_routed(s, part, il, t);
    assert(moe(s, part, il, l, t).ops == r + h + o);
    lemma_run_add(r, h, v);
    lemma_run_add(r + h, o, v);
    let v1 = run(r, v);
    let v2 = run(h, v1);
    lemma_route(s, part, t, v);
    lemma_run_keeps(h, h.len() as int, Buf::Rt(Q38::Cur), v1);
    lemma_run_keeps(h, h.len() as int, Buf::State(St::RouterSelected), v1);
    lemma_run_keeps(h, h.len() as int, Buf::State(St::RouterWeights), v1);
    lemma_run_keeps(h, h.len() as int, Buf::State(St::Normed), v1);
    lemma_shared(s, part, shexp, t, v1);
    lemma_routed(s, part, il, t, v2);
}

/// A block's output comes back to the streams.
pub open spec fn combined(s: Shape, res: Val, x: Val, inj: Val, t: int) -> Val {
    Val::Combined {
        res: bx(res),
        x: bx(x),
        inj: bx(inj),
        rows: t,
        n: s.n_embd as int,
        hc: s.n_hc as int,
    }
}

pub proof fn lemma_combine(s: Shape, x: Buf, t: u32, v: World)
    ensures
        run(combine(s, x, t), v) == v.put(
            Buf::Rt(Q38::ResHc),
            combined(
                s,
                v.at[Buf::Rt(Q38::ResHc)],
                v.at[x],
                v.at[Buf::Rt(Q38::Inj)],
                t as int,
            ),
        ),
{
    lemma_next(combine(s, x, t), 0, v);
}

} // verus!
