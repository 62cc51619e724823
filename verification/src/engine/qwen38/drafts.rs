//! The drafting block stays inside the runtime's buffers.

use crate::engine::access::{all_touch, lemma_all_touch_add, touches};
use crate::engine::ops::{Buf, Op, Part, Plan, St, Q38};
use crate::engine::qwen38::GdnState;
use crate::engine::qwen38::blocks::{attention, combine, hc_attn_at, hc_full, hc_out_at};
use crate::engine::qwen38::laws::{
    attn_quants, hc_quants, lemma_and_within, lemma_attention_within, lemma_combine_within,
    lemma_experts_within, lemma_full_within, lemma_rows, qwen38_room, qwen38_sizes,
};
use crate::engine::qwen38::mtp::{
    draft_input, fill, fill_input, fill_norms, fill_project, hidden_rows, interleave, mtp_layer,
    mtp_layer_body, stream_bytes,
};
use crate::engine::qwen38::pass::{expert_half, lemma_rows_fit_shorter};
use crate::engine::room::within;
use crate::engine::shape::{f32_bytes, Attn, LayerW, Model, MtpW, Qwen38W, Shape};
use vstd::prelude::*;

verus! {

/// The quantized rows of a drafting block's layer fit.
pub open spec fn mtp_quants(s: Shape, l: LayerW) -> bool {
    l.attn matches Attn::Qwen38(w) ==> {
        &&& hc_quants(s, w.hc_attn)
        &&& hc_quants(s, w.hc_ffn)
        &&& w.attn matches Some(a) ==> attn_quants(s, a)
    }
}

proof fn lemma_mtp_body_within(
    states: Seq<Option<GdnState>>,
    s: Shape,
    l: LayerW,
    w: Qwen38W,
    pos0: u32,
    t: u32,
    ctx: u32,
)
    requires
        t <= 16,
        qwen38_sizes(s),
        l.attn == Attn::Qwen38(w),
        mtp_quants(s, l),
    ensures
        all_touch(mtp_layer_body(s, l, w, pos0, t, ctx).ops, within(qwen38_room(states, s))),
{
    let p = within(qwen38_room(states, s));
    lemma_rows_fit_shorter(s, 16, t);
    let il = s.n_exec_layer as usize;
    let a = Plan::of(hc_full(s, hc_attn_at(Part::Mtp), w.hc_attn, t, true));
    lemma_full_within(states, s, hc_attn_at(Part::Mtp), w.hc_attn, true, t);
    match w.attn {
        None => {
            let none = Seq::<Op>::empty();
            assert(a.ops + none =~= a.ops);
        },
        Some(x) => {
            let b = attention(s, Part::Mtp, il, x, pos0, t, ctx);
            lemma_attention_within(states, s, Part::Mtp, il, x, pos0, ctx, t);
            let c = Plan::of(combine(s, Buf::Rt(Q38::AttnOut), t));
            lemma_combine_within(states, s, Buf::Rt(Q38::AttnOut), t);
            let d = expert_half(s, Part::Mtp, il, l, w, t);
            lemma_experts_within(states, s, Part::Mtp, il, l, w, t);
            lemma_and_within(a, b, p);
            lemma_and_within(a.and(b), c, p);
            lemma_and_within(a.and(b).and(c), d, p);
        },
    }
}

/// Everything that a draft runs stays inside the runtime's buffers.
pub proof fn draft_stays_in_bounds(
    m: Model,
    states: Seq<Option<GdnState>>,
    mtp: MtpW,
    l: LayerW,
    token: u32,
    pos: u32,
    ctx: u32,
)
    requires
        qwen38_sizes(m.shape),
        mtp_quants(m.shape, l),
        m.output_hc matches Some(w) ==> hc_quants(m.shape, w),
    ensures
        all_touch(
            m.draft(mtp, l, token, pos, ctx).ops,
            within(qwen38_room(states, m.shape)),
        ),
{
    let s = m.shape;
    let p = within(qwen38_room(states, s));
    lemma_rows(1);
    lemma_rows_fit_shorter(s, 16, 1);
    assert(0 <= s.n_hc * s.n_embd) by (nonlinear_arith);
    let a = Plan::of(draft_input(s, mtp, token));
    assert(touches(a.ops[0], p));
    assert(touches(a.ops[1], p));
    assert(touches(a.ops[2], p));
    assert(touches(a.ops[3], p));
    assert(touches(a.ops[4], p));
    assert(touches(a.ops[5], p));
    assert(touches(a.ops[6], p));
    assert(touches(a.ops[7], p));
    assert(touches(a.ops[8], p));
    assert(all_touch(a.ops, p));
    let b = mtp_layer(s, l, pos, ctx);
    if let Attn::Qwen38(w) = l.attn {
        lemma_mtp_body_within(states, s, l, w, pos, 1, ctx);
    }
    let c = m.draft_tail(mtp);
    if let Some(w) = m.output_hc {
        let c0 = hc_full(s, hc_out_at(), w, 1, false);
        lemma_full_within(states, s, hc_out_at(), w, false, 1);
        let c1 = seq![
            Op::CopyD2d {
                dst: Buf::State(St::Normed),
                dst_off: 0,
                src: Buf::Rt(Q38::Cur),
                src_off: 0,
                bytes: f32_bytes(s.n_embd),
            },
        ];
        assert(touches(c1[0], p));
        assert(all_touch(c1, p));
        let c2 = m.draft_head(mtp);
        assert forall|i: int| 0 <= i < c2.len() implies touches(#[trigger] c2[i], p) by {}
        let c3 = seq![
            Op::Sync,
            Op::ReadLogits { n: s.n_vocab as u64 },
            Op::CopyD2d {
                dst: Buf::State(St::MtpHidden),
                dst_off: 0,
                src: Buf::Rt(Q38::ResHc),
                src_off: 0,
                bytes: f32_bytes(s.hc_dim()),
            },
        ];
        assert(touches(c3[0], p));
        assert(touches(c3[1], p));
        assert(touches(c3[2], p));
        assert(all_touch(c3, p));
        lemma_all_touch_add(c0, c1, p);
        lemma_all_touch_add(c0 + c1, c2, p);
        lemma_all_touch_add(c0 + c1 + c2, c3, p);
    }
    lemma_and_within(a, b, p);
    lemma_and_within(a.and(b), c, p);
}

proof fn lemma_interleave_within(states: Seq<Option<GdnState>>, s: Shape, n: int)
    ensures
        all_touch(interleave(s, n), within(qwen38_room(states, s))),
    decreases n,
{
    if n > 0 {
        let p = within(qwen38_room(states, s));
        lemma_interleave_within(states, s, n - 1);
        let ops = interleave(s, n);
        let front = interleave(s, n - 1);
        let pair = ops.skip(front.len() as int);
        assert(pair.len() == 2);
        assert(touches(pair[0], p));
        assert(touches(pair[1], p));
        assert(all_touch(pair, p));
        lemma_all_touch_add(front, pair, p);
        assert(ops =~= front + pair);
    }
}

/// Everything that the filling of the drafting block's cache runs over a chunk
/// stays inside the runtime's buffers.
pub proof fn fill_stays_in_bounds(
    s: Shape,
    states: Seq<Option<GdnState>>,
    mtp: MtpW,
    n: u32,
    pos0: u32,
    ctx: u32,
)
    requires
        1 <= n <= 16,
        qwen38_sizes(s),
        mtp_quants(s, mtp.layer),
    ensures
        all_touch(fill(s, mtp, n, pos0, ctx).ops, within(qwen38_room(states, s))),
{
    let p = within(qwen38_room(states, s));
    lemma_rows(n);
    lemma_rows_fit_shorter(s, 16, n);
    let d = s.n_hc * s.n_embd;
    assert(0 <= d) by (nonlinear_arith)
        requires
            d == s.n_hc * s.n_embd,
    ;
    assert(stream_bytes(s, 1) == 4 * d);
    assert((n - 1) * d * 4 + 4 * d == 4 * (n * d)) by (nonlinear_arith);
    assert(4 * (n * d) <= 64 * d) by (nonlinear_arith)
        requires
            n <= 16,
            0 <= d,
    ;
    assert(0 <= (n - 1) * d) by (nonlinear_arith)
        requires
            1 <= n,
            0 <= d,
    ;
    assert(stream_bytes(s, (n - 1) as u32) == (n - 1) * d * 4);
    let a0 = hidden_rows(s, n);
    assert(touches(a0[0], p));
    if n > 1 {
        assert(touches(a0[1], p));
    }
    assert(all_touch(a0, p));
    let a1 = fill_norms(s, mtp, n);
    assert(touches(a1[0], p));
    assert(touches(a1[1], p));
    assert(touches(a1[2], p));
    assert(touches(a1[3], p));
    assert(all_touch(a1, p));
    let a2 = interleave(s, n as int);
    lemma_interleave_within(states, s, n as int);
    let a3 = fill_project(s, n);
    assert(touches(a3[0], p));
    assert(touches(a3[1], p));
    assert(touches(a3[2], p));
    assert(touches(a3[3], p));
    assert(all_touch(a3, p));
    lemma_all_touch_add(a0, a1, p);
    lemma_all_touch_add(a0 + a1, a2, p);
    lemma_all_touch_add(a0 + a1 + a2, a3, p);
    let a = Plan::of(fill_input(s, mtp, n));
    match mtp.layer.attn {
        Attn::Qwen38(w) => {
            lemma_mtp_body_within(states, s, mtp.layer, w, pos0, n, ctx);
            lemma_and_within(a, mtp_layer_body(s, mtp.layer, w, pos0, n, ctx), p);
        },
        _ => {
            let none = Seq::<Op>::empty();
            assert(a.ops + none =~= a.ops);
        },
    }
}

} // verus!
