//! Every qwen38 plan stays inside the runtime's buffers.

use crate::engine::access::{all_touch, f32s, lemma_all_touch_add, lemma_f32s, q8ks, touches};
use crate::engine::ops::{ops_if, Buf, GdnBuf, Op, Part, Plan, Wt, Q38};
use crate::engine::ple::{ple_heads, ple_hist_cols};
use crate::engine::qwen38::GdnState;
use crate::engine::qwen38::blocks::{
    attention, attn_core, attn_kv, attn_out, attn_query, combine, gdn,
    gdn_input, gdn_out, gdn_project, gdn_recurrence, hc_attn_at, hc_collapse, hc_down, hc_ffn_at,
    hc_full, hc_gate, hc_inject, hc_mix, hc_norm, hc_up, moe, moe_route, moe_routed, moe_shared,
    quant_rows, HcAt,
};
use crate::engine::qwen38::embed::{
    conv_rows, ple_conv, ple_device, ple_fits, ple_front, ple_residual, ple_roll, ple_width,
    wide_bytes,
};
use crate::engine::qwen38::pass::{expert_half, layer_body, token_mixer};
use crate::engine::qwen38::runtime::{
    buffers_fit, gdn_conv_bytes, gdn_state_bytes, gdn_states_fit, rt_bytes,
};
use crate::engine::room::within;
use crate::engine::shape::{
    either, f32_bytes, q8k_bytes, times, Ffn, LayerW, MatKind, Qwen38Attn, Qwen38Gdn, Qwen38Hc,
    Qwen38W, Shape,
};
use vstd::prelude::*;

verus! {

/// The buffers of a runtime with these recurrent states.
pub open spec fn qwen38_room(states: Seq<Option<GdnState>>, s: Shape) -> spec_fn(Buf) -> Option<
    int,
> {
    |b: Buf|
        match b {
            Buf::Rt(x) => Some(rt_bytes(s, x) as int),
            Buf::Gdn(il, x) => Some(
                if il < states.len() && states[il as int] is Some {
                    let g = states[il as int]->Some_0;
                    match x {
                        GdnBuf::S => g.s_bytes as int,
                        GdnBuf::Conv => g.conv_bytes as int,
                        GdnBuf::PleHist => match g.ple_hist {
                            Some(n) => n as int,
                            None => -1,
                        },
                    }
                } else {
                    -1
                },
            ),
            _ => None,
        }
}

/// The sizes of the runtime fit their type, there is a stream, and the low rank is
/// no wider than the gates of all streams.
pub open spec fn qwen38_sizes(s: Shape) -> bool {
    &&& s.rows_fit(16)
    &&& buffers_fit(s)
    &&& gdn_states_fit(s)
    &&& 1 <= s.n_hc
    &&& s.hc_low_rank <= s.n_hc * (s.n_hc * s.n_embd)
}

/// The states have the sizes that they are made with.
pub open spec fn states_sized(states: Seq<Option<GdnState>>, s: Shape) -> bool {
    forall|il: int| #![trigger states[il]]
        0 <= il < states.len() ==> (states[il] matches Some(g) ==> {
            &&& g.s_bytes == gdn_state_bytes(s)
            &&& g.conv_bytes == gdn_conv_bytes(s)
            &&& g.ple_hist matches Some(n) ==> n == wide_bytes(ple_hist_cols(&s), s.hc_dim())
        })
}

/// The quantized rows of a chunk fit a buffer.
pub open spec fn chunk_fits(s: Shape, kind: MatKind, n: u32, b: Q38) -> bool {
    kind == MatKind::Kq ==> 16 * q8k_bytes(n) <= rt_bytes(s, b)
}

/// The quantized rows of a stream mixer fit.
pub open spec fn hc_quants(s: Shape, w: Qwen38Hc) -> bool {
    &&& chunk_fits(s, w.down, s.hc_dim(), Q38::Xq)
    &&& chunk_fits(s, w.up, s.hc_low_rank, Q38::Xq2)
}

/// The quantized rows of a layer fit.
pub open spec fn layer_quants(s: Shape, w: Qwen38W) -> bool {
    &&& hc_quants(s, w.hc_attn)
    &&& hc_quants(s, w.hc_ffn)
    &&& match (w.gdn, w.attn) {
        (Some(g), _) => {
            &&& chunk_fits(s, g.wqkv, s.n_embd, Q38::Xq2)
            &&& chunk_fits(s, g.wz, s.n_embd, Q38::Xq2)
            &&& chunk_fits(s, g.ssm_out, s.value_dim(), Q38::Midq)
        },
        (None, Some(a)) => attn_quants(s, a),
        _ => true,
    }
}

/// The quantized rows of an attention block fit.
pub open spec fn attn_quants(s: Shape, a: Qwen38Attn) -> bool {
    &&& chunk_fits(s, a.wq, s.n_embd, Q38::Xq2)
    &&& chunk_fits(s, a.out, s.attn_dim(), Q38::Heads)
}

/// Rows of a chunk fit what is made for a whole one.
pub proof fn lemma_rows(t: u32)
    requires
        t <= 16,
    ensures
        forall|n: int| n >= 0 ==> #[trigger] f32s(t, n) <= 64 * n,
        forall|x: u32| t * x <= u32::MAX ==> 4 * (#[trigger] times(t, x)) <= 64 * x,
        forall|x: u32| t * x <= u32::MAX ==> #[trigger] times(t, x) == t * x,
        forall|n: u32| #[trigger] q8ks(t, n) <= 16 * q8k_bytes(n),
{
    assert forall|n: int| n >= 0 implies #[trigger] f32s(t, n) <= 64 * n by {
        assert(t * n <= 16 * n) by (nonlinear_arith)
            requires
                t <= 16,
                n >= 0,
        ;
    }
    assert forall|x: u32| t * x <= u32::MAX implies 4 * (#[trigger] times(t, x)) <= 64 * x by {
        assert(t * x <= 16 * x) by (nonlinear_arith)
            requires
                t <= 16,
                x >= 0,
        ;
    }
    assert forall|n: u32| #[trigger] q8ks(t, n) <= 16 * q8k_bytes(n) by {
        let q = q8k_bytes(n) as int;
        assert(t * q <= 16 * q) by (nonlinear_arith)
            requires
                t <= 16,
                q >= 0,
        ;
    }
}

proof fn lemma_rows_of_heads(t: u32, heads: u32, dim: u32)
    requires
        t <= 16,
        t * heads <= u32::MAX,
    ensures
        4 * (times(t, heads) * dim) <= 64 * (heads * dim),
        8 * (times(t, heads) * dim) <= 128 * (heads * dim),
{
    assert((t * heads) * dim == t * (heads * dim)) by (nonlinear_arith);
    let n = heads * dim;
    assert(n >= 0) by (nonlinear_arith)
        requires
            n == heads * dim,
    ;
    assert(t * n <= 16 * n) by (nonlinear_arith)
        requires
            t <= 16,
            n >= 0,
    ;
}

/// The weights of a layer are no buffers of the runtime.
pub open spec fn not_ours(states: Seq<Option<GdnState>>, s: Shape, part: Part) -> bool {
    forall|w: Wt| (#[trigger] qwen38_room(states, s)(part.wt(w))) is None
}

/// The weights of a mixer are no buffers of the runtime.
pub open spec fn weights(states: Seq<Option<GdnState>>, s: Shape, at: HcAt) -> bool {
    let room = qwen38_room(states, s);
    room(at.norm) is None && room(at.down) is None && room(at.up) is None && room(at.inject)
        is None
}

/// The low-rank rows fit the buffers that are made for all streams.
proof fn lemma_low_rank(s: Shape)
    requires
        qwen38_sizes(s),
    ensures
        s.hc_low_rank <= times(s.n_hc, s.hc_low_rank),
        64 * s.hc_low_rank <= rt_bytes(s, Q38::GateFull),
        s.n_embd <= s.hc_dim(),
{
    assert(s.hc_low_rank <= s.n_hc * s.hc_low_rank) by (nonlinear_arith)
        requires
            1 <= s.n_hc,
            0 <= s.hc_low_rank,
    ;
    assert(s.n_embd <= s.n_hc * s.n_embd) by (nonlinear_arith)
        requires
            1 <= s.n_hc,
            0 <= s.n_embd,
    ;
}

proof fn lemma_norm_within(states: Seq<Option<GdnState>>, s: Shape, w: Buf, gamma: bool, t: u32)
    requires
        t <= 16,
        qwen38_sizes(s),
        s.rows_fit(t),
        qwen38_room(states, s)(w) is None,
    ensures
        all_touch(hc_norm(s, w, t, gamma), within(qwen38_room(states, s))),
{
    let p = within(qwen38_room(states, s));
    lemma_rows(t);
    let ops = hc_norm(s, w, t, gamma);
    assert(touches(ops[0], p));
}

proof fn lemma_mix_within(
    states: Seq<Option<GdnState>>,
    s: Shape,
    at: HcAt,
    w: Qwen38Hc,
    inject: bool,
    t: u32,
)
    requires
        t <= 16,
        qwen38_sizes(s),
        s.rows_fit(t),
        hc_quants(s, w),
        weights(states, s, at),
    ensures
        all_touch(hc_mix(s, at, w, t, inject), within(qwen38_room(states, s))),
{
    let p = within(qwen38_room(states, s));
    lemma_rows(t);
    let dim = s.hc_dim();
    let lr = s.hc_low_rank;
    let d = quant_rows(w.down, Buf::Rt(Q38::Xq), Buf::Rt(Q38::Xn), dim, t);
    if w.down == MatKind::Kq {
        assert(touches(d[0], p));
    }
    assert(all_touch(d, p));
    let e = hc_down(s, at, w, t);
    lemma_low_rank(s);
    assert(touches(e[0], p));
    assert(touches(e[1], p));
    assert(touches(e[2], p));
    assert(touches(e[3], p));
    assert(all_touch(e, p));
    let f = quant_rows(w.up, Buf::Rt(Q38::Xq2), Buf::Rt(Q38::Lo), lr, t);
    if w.up == MatKind::Kq {
        assert(touches(f[0], p));
    }
    assert(all_touch(f, p));
    let g = hc_up(s, at, w, t);
    assert(touches(g[0], p));
    assert(all_touch(g, p));
    lemma_all_touch_add(d, e, p);
    lemma_all_touch_add(d + e, f, p);
    lemma_all_touch_add(d + e + f, g, p);
    let h = ops_if(inject && w.inject_bytes > 4, hc_inject(s, at, t));
    if inject && w.inject_bytes > 4 {
        assert(touches(h[0], p));
    }
    assert(all_touch(h, p));
    let i = hc_collapse(s, t);
    assert(touches(i[0], p));
    assert(touches(i[1], p));
    assert(all_touch(i, p));
    lemma_all_touch_add(hc_gate(s, at, w, t), h, p);
    lemma_all_touch_add(hc_gate(s, at, w, t) + h, i, p);
}

pub proof fn lemma_full_within(
    states: Seq<Option<GdnState>>,
    s: Shape,
    at: HcAt,
    w: Qwen38Hc,
    inject: bool,
    t: u32,
)
    requires
        t <= 16,
        qwen38_sizes(s),
        s.rows_fit(t),
        hc_quants(s, w),
        weights(states, s, at),
    ensures
        all_touch(hc_full(s, at, w, t, inject), within(qwen38_room(states, s))),
{
    let p = within(qwen38_room(states, s));
    lemma_rows(t);
    lemma_norm_within(states, s, at.norm, true, t);
    lemma_mix_within(states, s, at, w, inject, t);
    lemma_all_touch_add(hc_norm(s, at.norm, t, true), hc_mix(s, at, w, t, inject), p);
}

proof fn lemma_gdn_project_within(
    states: Seq<Option<GdnState>>,
    s: Shape,
    part: Part,
    w: Qwen38Gdn,
    t: u32,
)
    requires
        t <= 16,
        qwen38_sizes(s),
        s.rows_fit(t),
        not_ours(states, s, part),
        chunk_fits(s, w.wqkv, s.n_embd, Q38::Xq2),
        chunk_fits(s, w.wz, s.n_embd, Q38::Xq2),
    ensures
        all_touch(gdn_project(s, part, w, t), within(qwen38_room(states, s))),
{
    let p = within(qwen38_room(states, s));
    lemma_rows(t);
    lemma_low_rank(s);
    assert(s.ssm_k_heads * s.ssm_state >= 0) by (nonlinear_arith);
    assert(s.ssm_v_heads * s.ssm_state >= 0) by (nonlinear_arith);
    assert(s.n_head * s.head_dim >= 0) by (nonlinear_arith);
    assert(s.n_head_kv * s.head_dim >= 0) by (nonlinear_arith);
    assert(s.n_hc * s.n_embd >= 0) by (nonlinear_arith);
    let ops = gdn_project(s, part, w, t);
    assert(touches(ops[0], p));
    assert(touches(ops[1], p));
    assert(touches(ops[2], p));
    assert(touches(ops[3], p));
    assert(touches(ops[4], p));
}

proof fn lemma_gdn_recurrence_within(
    states: Seq<Option<GdnState>>,
    s: Shape,
    part: Part,
    il: usize,
    t: u32,
)
    requires
        t <= 16,
        qwen38_sizes(s),
        s.rows_fit(t),
        not_ours(states, s, part),
        il < states.len(),
        states[il as int] is Some,
        states_sized(states, s),
    ensures
        all_touch(gdn_recurrence(s, part, il, t), within(qwen38_room(states, s))),
{
    let p = within(qwen38_room(states, s));
    lemma_rows(t);
    lemma_low_rank(s);
    assert(s.ssm_k_heads * s.ssm_state >= 0) by (nonlinear_arith);
    assert(s.ssm_v_heads * s.ssm_state >= 0) by (nonlinear_arith);
    assert(s.n_head * s.head_dim >= 0) by (nonlinear_arith);
    assert(s.n_head_kv * s.head_dim >= 0) by (nonlinear_arith);
    assert(s.n_hc * s.n_embd >= 0) by (nonlinear_arith);
    lemma_rows_of_heads(t, s.ssm_k_heads, s.ssm_state);
    lemma_rows_of_heads(t, s.ssm_v_heads, s.ssm_state);
    let ops = gdn_recurrence(s, part, il, t);
    assert(touches(ops[0], p));
    assert(touches(ops[1], p));
    assert(touches(ops[2], p));
    assert(touches(ops[3], p));
    assert(touches(ops[4], p));
    assert(touches(ops[5], p));
    assert(touches(ops[6], p));
}

proof fn lemma_gdn_within(
    states: Seq<Option<GdnState>>,
    s: Shape,
    part: Part,
    il: usize,
    w: Qwen38Gdn,
    t: u32,
)
    requires
        t <= 16,
        qwen38_sizes(s),
        s.rows_fit(t),
        not_ours(states, s, part),
        il < states.len(),
        states_sized(states, s),
        chunk_fits(s, w.wqkv, s.n_embd, Q38::Xq2),
        chunk_fits(s, w.wz, s.n_embd, Q38::Xq2),
        chunk_fits(s, w.ssm_out, s.value_dim(), Q38::Midq),
    ensures
        all_touch(gdn(s, part, il, w, states[il as int], t).ops, within(qwen38_room(states, s))),
{
    let p = within(qwen38_room(states, s));
    lemma_rows(t);
    reveal(gdn);
    lemma_gdn_project_within(states, s, part, w, t);
    let q = gdn_input(s, w, t);
    if either(w.wqkv, w.wz) == MatKind::Kq {
        assert(touches(q[0], p));
    }
    assert(all_touch(q, p));
    lemma_all_touch_add(q, gdn_project(s, part, w, t), p);
    if states[il as int] is Some {
        lemma_gdn_recurrence_within(states, s, part, il, t);
        let a = gdn_input(s, w, t) + gdn_project(s, part, w, t);
        let b = gdn_recurrence(s, part, il, t);
        let c = quant_rows(
            w.ssm_out,
            Buf::Rt(Q38::Midq),
            Buf::Rt(Q38::GdnO),
            s.value_dim(),
            t,
        );
        assert(s.ssm_v_heads * s.ssm_state >= 0) by (nonlinear_arith);
        if w.ssm_out == MatKind::Kq {
            assert(touches(c[0], p));
        }
        assert(all_touch(c, p));
        let d = gdn_out(s, part, w, t);
        assert(touches(d[0], p));
        assert(all_touch(d, p));
        lemma_all_touch_add(a, b, p);
        lemma_all_touch_add(a + b, c, p);
        lemma_all_touch_add(a + b + c, d, p);
    }
}

proof fn lemma_attn_query_within(
    states: Seq<Option<GdnState>>,
    s: Shape,
    part: Part,
    w: Qwen38Attn,
    t: u32,
)
    requires
        t <= 16,
        qwen38_sizes(s),
        s.rows_fit(t),
        not_ours(states, s, part),
        attn_quants(s, w),
    ensures
        all_touch(attn_query(s, part, w, t), within(qwen38_room(states, s))),
{
    let p = within(qwen38_room(states, s));
    lemma_rows(t);
    lemma_low_rank(s);
    assert(s.ssm_k_heads * s.ssm_state >= 0) by (nonlinear_arith);
    assert(s.ssm_v_heads * s.ssm_state >= 0) by (nonlinear_arith);
    assert(s.n_head * s.head_dim >= 0) by (nonlinear_arith);
    assert(s.n_head_kv * s.head_dim >= 0) by (nonlinear_arith);
    assert(s.n_hc * s.n_embd >= 0) by (nonlinear_arith);
    lemma_rows_of_heads(t, s.n_head, s.head_dim);
    let ops = attn_query(s, part, w, t);
    assert(touches(ops[0], p));
    assert(touches(ops[1], p));
}

proof fn lemma_attn_kv_within(states: Seq<Option<GdnState>>, s: Shape, part: Part, t: u32)
    requires
        t <= 16,
        qwen38_sizes(s),
        s.rows_fit(t),
        not_ours(states, s, part),
    ensures
        all_touch(attn_kv(s, part, t), within(qwen38_room(states, s))),
{
    let p = within(qwen38_room(states, s));
    lemma_rows(t);
    lemma_low_rank(s);
    assert(s.ssm_k_heads * s.ssm_state >= 0) by (nonlinear_arith);
    assert(s.ssm_v_heads * s.ssm_state >= 0) by (nonlinear_arith);
    assert(s.n_head * s.head_dim >= 0) by (nonlinear_arith);
    assert(s.n_head_kv * s.head_dim >= 0) by (nonlinear_arith);
    assert(s.n_hc * s.n_embd >= 0) by (nonlinear_arith);
    let ops = attn_kv(s, part, t);
    assert(touches(ops[0], p));
    assert(touches(ops[1], p));
}

proof fn lemma_attn_core_within(
    states: Seq<Option<GdnState>>,
    s: Shape,
    part: Part,
    il: usize,
    pos0: u32,
    ctx: u32,
    t: u32,
)
    requires
        t <= 16,
        qwen38_sizes(s),
        s.rows_fit(t),
        not_ours(states, s, part),
    ensures
        all_touch(attn_core(s, part, il, pos0, t, ctx), within(qwen38_room(states, s))),
{
    let p = within(qwen38_room(states, s));
    lemma_rows(t);
    lemma_low_rank(s);
    assert(s.ssm_k_heads * s.ssm_state >= 0) by (nonlinear_arith);
    assert(s.ssm_v_heads * s.ssm_state >= 0) by (nonlinear_arith);
    assert(s.n_head * s.head_dim >= 0) by (nonlinear_arith);
    assert(s.n_head_kv * s.head_dim >= 0) by (nonlinear_arith);
    assert(s.n_hc * s.n_embd >= 0) by (nonlinear_arith);
    lemma_rows_of_heads(t, s.n_head, s.head_dim);
    lemma_rows_of_heads(t, s.n_head_kv, s.head_dim);
    let ops = attn_core(s, part, il, pos0, t, ctx);
    assert(touches(ops[0], p));
    assert(touches(ops[1], p));
    assert(touches(ops[2], p));
    assert(touches(ops[3], p));
    assert(touches(ops[4], p));
    assert(touches(ops[5], p));
    assert(touches(ops[6], p));
    assert(touches(ops[7], p));
}

pub proof fn lemma_attention_within(
    states: Seq<Option<GdnState>>,
    s: Shape,
    part: Part,
    il: usize,
    w: Qwen38Attn,
    pos0: u32,
    ctx: u32,
    t: u32,
)
    requires
        t <= 16,
        qwen38_sizes(s),
        s.rows_fit(t),
        not_ours(states, s, part),
        attn_quants(s, w),
    ensures
        all_touch(attention(s, part, il, w, pos0, t, ctx).ops, within(qwen38_room(states, s))),
{
    let p = within(qwen38_room(states, s));
    lemma_rows(t);
    reveal(attention);
    lemma_attn_query_within(states, s, part, w, t);
    lemma_attn_kv_within(states, s, part, t);
    lemma_attn_core_within(states, s, part, il, pos0, ctx, t);
    assert(s.n_head * s.head_dim >= 0) by (nonlinear_arith);
    let a = attn_query(s, part, w, t);
    let b = attn_kv(s, part, t);
    let c = attn_core(s, part, il, pos0, t, ctx);
    let e = attn_out(s, part, w, t);
    assert(touches(e[0], p));
    assert(all_touch(e, p));
    lemma_all_touch_add(a, b, p);
    lemma_all_touch_add(a + b, c, p);
    lemma_all_touch_add(a + b + c, e, p);
}

proof fn lemma_moe_within(
    states: Seq<Option<GdnState>>,
    s: Shape,
    part: Part,
    il: usize,
    l: LayerW,
    t: u32,
)
    requires
        t <= 16,
        qwen38_sizes(s),
        s.rows_fit(t),
        not_ours(states, s, part),
    ensures
        all_touch(moe(s, part, il, l, t).ops, within(qwen38_room(states, s))),
{
    let p = within(qwen38_room(states, s));
    lemma_rows(t);
    lemma_low_rank(s);
    assert(s.ssm_k_heads * s.ssm_state >= 0) by (nonlinear_arith);
    assert(s.ssm_v_heads * s.ssm_state >= 0) by (nonlinear_arith);
    assert(s.n_head * s.head_dim >= 0) by (nonlinear_arith);
    assert(s.n_head_kv * s.head_dim >= 0) by (nonlinear_arith);
    assert(s.n_hc * s.n_embd >= 0) by (nonlinear_arith);
    if let Ffn::Moe { shexp } = l.ffn {
        let a = moe_route(s, part, t);
        assert(touches(a[0], p));
        assert(touches(a[1], p));
        assert(touches(a[2], p));
        assert(all_touch(a, p));
        let b = if shexp {
            let b = moe_shared(s, part, t);
            assert(touches(b[0], p));
            assert(touches(b[1], p));
            assert(touches(b[2], p));
            assert(touches(b[3], p));
            assert(touches(b[4], p));
            assert(touches(b[5], p));
            b
        } else {
            let b = seq![
                Op::Zero {
                    buf: Buf::Rt(Q38::SharedOut),
                    bytes: f32_bytes(times(t, s.n_embd)),
                },
            ];
            assert(touches(b[0], p));
            b
        };
        assert(all_touch(b, p));
        let c = moe_routed(s, part, il, t);
        assert(touches(c[0], p));
        assert(touches(c[1], p));
        assert(touches(c[2], p));
        assert(touches(c[3], p));
        assert(touches(c[4], p));
        assert(all_touch(c, p));
        lemma_all_touch_add(a, b, p);
        lemma_all_touch_add(a + b, c, p);
    }
}

pub proof fn lemma_combine_within(states: Seq<Option<GdnState>>, s: Shape, x: Buf, t: u32)
    requires
        t <= 16,
        qwen38_sizes(s),
        s.rows_fit(t),
        qwen38_room(states, s)(x) matches Some(c) && 64 * s.n_embd <= c,
    ensures
        all_touch(combine(s, x, t), within(qwen38_room(states, s))),
{
    let p = within(qwen38_room(states, s));
    lemma_rows(t);
    lemma_low_rank(s);
    assert(s.ssm_k_heads * s.ssm_state >= 0) by (nonlinear_arith);
    assert(s.ssm_v_heads * s.ssm_state >= 0) by (nonlinear_arith);
    assert(s.n_head * s.head_dim >= 0) by (nonlinear_arith);
    assert(s.n_head_kv * s.head_dim >= 0) by (nonlinear_arith);
    assert(s.n_hc * s.n_embd >= 0) by (nonlinear_arith);
    let ops = combine(s, x, t);
    assert(touches(ops[0], p));
}

pub proof fn lemma_experts_within(
    states: Seq<Option<GdnState>>,
    s: Shape,
    part: Part,
    il: usize,
    l: LayerW,
    w: Qwen38W,
    t: u32,
)
    requires
        t <= 16,
        qwen38_sizes(s),
        s.rows_fit(t),
        not_ours(states, s, part),
        hc_quants(s, w.hc_ffn),
    ensures
        all_touch(expert_half(s, part, il, l, w, t).ops, within(qwen38_room(states, s))),
{
    let p = within(qwen38_room(states, s));
    lemma_rows(t);
    reveal(expert_half);
    let a = Plan::of(hc_full(s, hc_ffn_at(part), w.hc_ffn, t, true));
    lemma_full_within(states, s, hc_ffn_at(part), w.hc_ffn, true, t);
    let b = moe(s, part, il, l, t);
    lemma_moe_within(states, s, part, il, l, t);
    let c = Plan::of(combine(s, Buf::Rt(Q38::Cur), t));
    lemma_combine_within(states, s, Buf::Rt(Q38::Cur), t);
    lemma_and_within(a, b, p);
    lemma_and_within(a.and(b), c, p);
}

pub proof fn lemma_body_within(
    states: Seq<Option<GdnState>>,
    s: Shape,
    il: usize,
    l: LayerW,
    w: Qwen38W,
    pos0: u32,
    ctx: u32,
    t: u32,
)
    requires
        t <= 16,
        qwen38_sizes(s),
        s.rows_fit(t),
        layer_quants(s, w),
        w.gdn is Some ==> il < states.len(),
        states_sized(states, s),
    ensures
        all_touch(
            layer_body(s, il, l, w, states[il as int], pos0, t, ctx).ops,
            within(qwen38_room(states, s)),
        ),
{
    let p = within(qwen38_room(states, s));
    lemma_rows(t);
    reveal(layer_body);
    let part = Part::Layer(il);
    let a = Plan::of(hc_full(s, hc_attn_at(part), w.hc_attn, t, true));
    lemma_full_within(states, s, hc_attn_at(part), w.hc_attn, true, t);
    let b = token_mixer(s, il, w, states[il as int], pos0, t, ctx);
    match (w.gdn, w.attn) {
        (Some(g), _) => {
            lemma_gdn_within(states, s, part, il, g, t);
        },
        (None, Some(x)) => {
            lemma_attention_within(states, s, part, il, x, pos0, ctx, t);
        },
        _ => {},
    }
    let c = Plan::of(combine(s, Buf::Rt(Q38::AttnOut), t));
    lemma_combine_within(states, s, Buf::Rt(Q38::AttnOut), t);
    let d = expert_half(s, part, il, l, w, t);
    lemma_experts_within(states, s, part, il, l, w, t);
    lemma_and_within(a, b, p);
    lemma_and_within(a.and(b), c, p);
    lemma_and_within(a.and(b).and(c), d, p);
}

proof fn lemma_ple_front_within(states: Seq<Option<GdnState>>, s: Shape, part: Part, t: u32)
    requires
        t <= 16,
        qwen38_sizes(s),
        s.rows_fit(t),
        not_ours(states, s, part),
        ple_fits(s, t),
    ensures
        all_touch(ple_front(s, part, t), within(qwen38_room(states, s))),
{
    let p = within(qwen38_room(states, s));
    lemma_rows(t);
    lemma_low_rank(s);
    assert(s.ssm_k_heads * s.ssm_state >= 0) by (nonlinear_arith);
    assert(s.ssm_v_heads * s.ssm_state >= 0) by (nonlinear_arith);
    assert(s.n_head * s.head_dim >= 0) by (nonlinear_arith);
    assert(s.n_head_kv * s.head_dim >= 0) by (nonlinear_arith);
    assert(s.n_hc * s.n_embd >= 0) by (nonlinear_arith);
    let w = ple_width(s);
    assert(ple_heads(&s) * s.ple_head_dim >= 0) by (nonlinear_arith);
    assert(t * w <= 16 * w) by (nonlinear_arith)
        requires
            t <= 16,
            w >= 0,
    ;
    let ops = ple_front(s, part, t);
    assert(touches(ops[0], p));
    assert(touches(ops[1], p));
    assert(touches(ops[2], p));
    assert(touches(ops[3], p));
    assert(touches(ops[4], p));
    assert(touches(ops[5], p));
    assert(touches(ops[6], p));
    assert(touches(ops[7], p));
    assert(touches(ops[8], p));
    assert(touches(ops[9], p));
    assert(touches(ops[10], p));
}

proof fn lemma_ple_back_within(
    states: Seq<Option<GdnState>>,
    s: Shape,
    part: Part,
    il: usize,
    t: u32,
)
    requires
        t <= 16,
        qwen38_sizes(s),
        s.rows_fit(t),
        not_ours(states, s, part),
        ple_fits(s, t),
        il < states.len(),
        states_sized(states, s),
        states[il as int] matches Some(g) && g.ple_hist is Some,
    ensures
        all_touch(
            ple_conv(s, part, il, t) + ple_roll(s, il, t) + ple_residual(s, t),
            within(qwen38_room(states, s)),
        ),
{
    let p = within(qwen38_room(states, s));
    lemma_rows(t);
    lemma_low_rank(s);
    assert(s.ssm_k_heads * s.ssm_state >= 0) by (nonlinear_arith);
    assert(s.ssm_v_heads * s.ssm_state >= 0) by (nonlinear_arith);
    assert(s.n_head * s.head_dim >= 0) by (nonlinear_arith);
    assert(s.n_head_kv * s.head_dim >= 0) by (nonlinear_arith);
    assert(s.n_hc * s.n_embd >= 0) by (nonlinear_arith);
    let h = ple_hist_cols(&s) as int;
    let d = s.hc_dim() as int;
    assert((16 + h) * d == 16 * d + h * d) by (nonlinear_arith);
    assert(t * d <= 16 * d) by (nonlinear_arith)
        requires
            t <= 16,
            d >= 0,
    ;
    assert((h + t) * d == h * d + t * d) by (nonlinear_arith);
    assert(h * d >= 0) by (nonlinear_arith)
        requires
            h >= 0,
            d >= 0,
    ;
    lemma_f32s(conv_rows(s, t), d);
    let a = ple_conv(s, part, il, t);
    assert(touches(a[0], p));
    assert(touches(a[1], p));
    assert(touches(a[2], p));
    assert(all_touch(a, p));
    let b = ple_roll(s, il, t);
    assert(touches(b[0], p));
    assert(all_touch(b, p));
    let c = ple_residual(s, t);
    assert(touches(c[0], p));
    assert(touches(c[1], p));
    assert(all_touch(c, p));
    lemma_all_touch_add(a, b, p);
    lemma_all_touch_add(a + b, c, p);
}

pub proof fn lemma_ple_device_within(
    states: Seq<Option<GdnState>>,
    s: Shape,
    part: Part,
    il: usize,
    t: u32,
)
    requires
        t <= 16,
        qwen38_sizes(s),
        s.rows_fit(t),
        not_ours(states, s, part),
        ple_fits(s, t),
        il < states.len(),
        states_sized(states, s),
    ensures
        all_touch(
            ple_device(s, part, il, states[il as int], t).ops,
            within(qwen38_room(states, s)),
        ),
{
    let p = within(qwen38_room(states, s));
    lemma_rows(t);
    lemma_ple_front_within(states, s, part, t);
    let a = Plan::of(ple_front(s, part, t));
    let none = Seq::<Op>::empty();
    assert(a.ops + none =~= a.ops);
    if let Some(g) = states[il as int] {
        if g.ple_hist is Some {
            lemma_ple_back_within(states, s, part, il, t);
            let all = ple_conv(s, part, il, t) + ple_roll(s, il, t) + ple_residual(s, t);
            let some = ple_conv(s, part, il, t) + ops_if(
                ple_hist_cols(&s) > 0 && t > 0,
                ple_roll(s, il, t),
            ) + ple_residual(s, t);
            if !(ple_hist_cols(&s) > 0 && t > 0) {
                let x = ple_conv(s, part, il, t);
                let y = ple_residual(s, t);
                assert(all_touch(x, p)) by {
                    assert forall|i: int| 0 <= i < x.len() implies touches(#[trigger] x[i], p) by {
                        assert(all[i] == x[i]);
                    }
                }
                assert(all_touch(y, p)) by {
                    assert forall|i: int| 0 <= i < y.len() implies touches(#[trigger] y[i], p) by {
                        assert(all[x.len() + ple_roll(s, il, t).len() + i] == y[i]);
                    }
                }
                lemma_all_touch_add(x, y, p);
                assert(some =~= x + y);
            }
            lemma_all_touch_add(a.ops, some, p);
        }
    }
}

pub proof fn lemma_and_within(a: Plan, b: Plan, p: spec_fn(Buf, int) -> bool)
    requires
        all_touch(a.ops, p),
        all_touch(b.ops, p),
    ensures
        all_touch(a.and(b).ops, p),
{
    lemma_all_touch_add(a.ops, b.ops, p);
}

} // verus!
