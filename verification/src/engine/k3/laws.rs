//! What holds of every K3 plan.

use crate::engine::access::{all_touch, lemma_all_touch_add, lemma_f32s, touches};
use crate::engine::blocks::{
    dense_ffn, kda_recurrence, matw, mla_core, project_out, quant_for, Place,
};
use crate::engine::k3::{
    bank_has_room, bank_rows, banked, k3_bytes, lemma_banked_small, scratch_bytes, widest, K3Rt,
};
use crate::engine::k3::blocks::{
    attn_res, banks, enter, entered, ffn, hop_in, kda_half, kda_project, layer, mixer, mla_half,
    mla_query, moe, rejoin, route, routed_half, row_norm, shared_half, shift,
};
use crate::engine::ops::{ops_if, Buf, K3Buf, KdaBuf, Op, Plan, Rope, Sc, St, Wt};
use crate::engine::room::{
    kda_room, lemma_mla_core_within, lemma_project_out_within, lemma_q8k_grows, lemma_quant_within,
    lemma_recurrence_within, mixer_room, within,
};
use crate::engine::shape::{
    f32_bytes, larger, Attn, Ffn, KdaW, LayerW, MlaW, Model, RoutedW, Shape, ShexpW, K3W,
};
use vstd::prelude::*;

verus! {

/// The buffers of a runtime: the cards with scratch, and which layers have a
/// recurrent state.
pub open spec fn k3_room(rt: K3Rt, s: Shape, ctx: u32) -> spec_fn(Buf) -> Option<int> {
    |b: Buf|
        match b {
            Buf::Scratch(d, x) => Some(
                if rt.scratch@.contains(d) {
                    scratch_bytes(s, ctx, x) as int
                } else {
                    -1
                },
            ),
            Buf::Kda(il, x) => Some(
                if il < rt.states@.len() && rt.states@[il as int] is Some {
                    if x == KdaBuf::S {
                        s.kda_state_bytes() as int
                    } else {
                        s.kda_conv_bytes() as int
                    }
                } else {
                    -1
                },
            ),
            Buf::K3(x) => Some(k3_bytes(s, x) as int),
            _ => None,
        }
}

/// The sizes of the runtime fit their type.
pub open spec fn k3_sizes(s: Shape) -> bool {
    &&& s.kda_states_fit()
    &&& bank_rows(s) * s.n_embd * 4 <= u64::MAX
}

/// The layer is a latent-attention layer.
pub open spec fn is_mla(l: LayerW) -> bool {
    l.attn matches Attn::K3(w) && w.kda is None && w.mla is Some
}

/// The attention heads are no wider than the scratch for output gates, and a query head
/// holds both of its parts.
pub open spec fn mla_sizes(s: Shape) -> bool {
    &&& s.n_head * s.value_mla <= s.n_head * s.kda_head_dim
    &&& s.qk_nope + s.qk_rope <= s.qk_dim
}

proof fn lemma_k3_mixer_room(rt: K3Rt, s: Shape, at: Place, ctx: u32)
    requires
        k3_sizes(s),
        rt.scratch@.contains(at.dev),
    ensures
        mixer_room(k3_room(rt, s, ctx), s, at, ctx),
        at.il < rt.states@.len() && rt.states@[at.il as int] is Some ==> kda_room(
            k3_room(rt, s, ctx),
            s,
            at.il,
        ),
{
    lemma_q8k_grows(s.n_embd, widest(s));
    lemma_q8k_grows(s.d_inner(), widest(s));
    lemma_q8k_grows(s.mla_out(), widest(s));
}

proof fn lemma_enter_within(rt: K3Rt, s: Shape, il: usize, ctx: u32)
    requires
        k3_sizes(s),
        il < s.n_exec_layer,
    ensures
        all_touch(enter(s, il, banked(s, il as int) as u32), within(k3_room(rt, s, ctx))),
{
    let p = within(k3_room(rt, s, ctx));
    let n = banked(s, il as int) as u32;
    bank_has_room(s, il as int);
    let b = bank_rows(s);
    assert(banked(s, il as int) * s.n_embd <= b * s.n_embd) by (nonlinear_arith)
        requires
            banked(s, il as int) <= b,
            0 <= s.n_embd,
    ;
    lemma_banked_small(s, il as int);
    lemma_f32s(n, s.n_embd as int);
    if s.attn_res_block > 0 {
        let one = seq![attn_res(s, Buf::State(St::Cur), Buf::Layer(il, Wt::AttnResScore), n)];
        let two = ops_if(
            banks(s, il as int),
            seq![
                Op::CopyD2d {
                    dst: Buf::K3(K3Buf::Ckpt),
                    dst_off: (n * s.n_embd * 4) as u64,
                    src: Buf::State(St::Cur),
                    src_off: 0,
                    bytes: f32_bytes(s.n_embd),
                },
            ],
        );
        let three = seq![row_norm(s, Buf::K3(K3Buf::Mixed), Buf::Layer(il, Wt::AttnNorm))];
        assert(touches(one[0], p));
        if banks(s, il as int) {
            assert((n + 1) * s.n_embd <= b * s.n_embd) by (nonlinear_arith)
                requires
                    n + 1 <= b,
                    0 <= s.n_embd,
            ;
            assert((n + 1) * s.n_embd == n * s.n_embd + s.n_embd) by (nonlinear_arith);
            assert(touches(two[0], p));
        }
        assert(touches(three[0], p));
        assert(all_touch(one, p));
        assert(all_touch(two, p));
        assert(all_touch(three, p));
        lemma_all_touch_add(one, two, p);
        lemma_all_touch_add(one + two, three, p);
    } else {
        let ops = enter(s, il, n);
        assert(touches(ops[0], p));
    }
}

proof fn lemma_kda_project_within(rt: K3Rt, s: Shape, at: Place, w: KdaW, ctx: u32)
    requires
        k3_sizes(s),
        rt.scratch@.contains(at.dev),
    ensures
        all_touch(kda_project(s, at, w), within(k3_room(rt, s, ctx))),
{
    let room = k3_room(rt, s, ctx);
    let p = within(room);
    lemma_k3_mixer_room(rt, s, at, ctx);
    let q = quant_for(w.wq, at.sc(Sc::Xq), at.xin(), s.n_embd);
    lemma_quant_within(room, w.wq, at.sc(Sc::Xq), at.xin(), s.n_embd);
    let ops = kda_project(s, at, w);
    let rest = ops.skip(q.len() as int);
    assert(rest.len() == 8);
    assert(touches(rest[0], p));
    assert(touches(rest[1], p));
    assert(touches(rest[2], p));
    assert(touches(rest[3], p));
    assert(touches(rest[4], p));
    assert(touches(rest[5], p));
    assert(touches(rest[6], p));
    assert(touches(rest[7], p));
    assert(all_touch(rest, p));
    lemma_all_touch_add(q, rest, p);
    assert(ops =~= q + rest);
}

proof fn lemma_kda_half_within(rt: K3Rt, s: Shape, at: Place, w: KdaW, ctx: u32)
    requires
        k3_sizes(s),
        at.il < rt.states@.len(),
    ensures
        all_touch(
            kda_half(s, at, w, rt.scratch@, rt.states@[at.il as int]).ops,
            within(k3_room(rt, s, ctx)),
        ),
{
    if rt.scratch@.contains(at.dev) {
        lemma_kda_project_within(rt, s, at, w, ctx);
        if rt.states@[at.il as int] is Some {
            lemma_kda_whole_within(rt, s, at, w, ctx);
        }
    }
}

proof fn lemma_kda_whole_within(rt: K3Rt, s: Shape, at: Place, w: KdaW, ctx: u32)
    requires
        k3_sizes(s),
        rt.scratch@.contains(at.dev),
        at.il < rt.states@.len(),
        rt.states@[at.il as int] is Some,
    ensures
        all_touch(
            kda_half(s, at, w, rt.scratch@, rt.states@[at.il as int]).ops,
            within(k3_room(rt, s, ctx)),
        ),
{
    let room = k3_room(rt, s, ctx);
    let p = within(room);
    lemma_k3_mixer_room(rt, s, at, ctx);
    lemma_kda_project_within(rt, s, at, w, ctx);
    lemma_recurrence_within(room, s, at, ctx);
    let gate = seq![
        Op::SigmoidGate { buf: at.sc(Sc::O), gate: at.sc(Sc::Gate), n: s.d_inner() },
    ];
    assert(touches(gate[0], p));
    assert(all_touch(gate, p));
    lemma_project_out_within(
        room,
        s,
        at,
        ctx,
        w.out,
        Wt::KdaOut,
        Sc::O,
        s.d_inner(),
    );
    let a = kda_project(s, at, w);
    let b = kda_recurrence(s, at);
    lemma_all_touch_add(a, b, p);
    lemma_all_touch_add(a + b, gate, p);
    lemma_all_touch_add(
        a + b + gate,
        project_out(s, at, w.out, Wt::KdaOut, Sc::O, s.d_inner()),
        p,
    );
}

proof fn lemma_mla_query_within(rt: K3Rt, s: Shape, at: Place, ctx: u32)
    requires
        k3_sizes(s),
        rt.scratch@.contains(at.dev),
    ensures
        all_touch(mla_query(s, at), within(k3_room(rt, s, ctx))),
{
    let p = within(k3_room(rt, s, ctx));
    let ops = mla_query(s, at);
    assert(touches(ops[0], p));
    assert(touches(ops[1], p));
    assert(touches(ops[2], p));
}

proof fn lemma_mla_half_within(rt: K3Rt, s: Shape, at: Place, w: MlaW, pos: u32, ctx: u32)
    requires
        k3_sizes(s),
        mla_sizes(s),
        rt.scratch@.contains(at.dev),
        pos < ctx,
    ensures
        all_touch(mla_half(s, at, w, rt.scratch@, pos, ctx).ops, within(k3_room(rt, s, ctx))),
{
    let room = k3_room(rt, s, ctx);
    let p = within(room);
    lemma_k3_mixer_room(rt, s, at, ctx);
    lemma_mla_query_within(rt, s, at, ctx);
    lemma_mla_core_within(room, s, at, pos, ctx, Rope::Identity);
    lemma_quant_within(room, w.gate, at.sc(Sc::Xq), at.xin(), s.n_embd);
    let gate = seq![
        matw(
            at.sc(Sc::Gate),
            at.wt(Wt::MlaGate),
            w.gate,
            at.xin(),
            at.sc(Sc::Xq),
            s.n_embd,
            s.mla_out(),
            1,
        ),
        Op::SigmoidGate { buf: at.sc(Sc::Heads), gate: at.sc(Sc::Gate), n: s.mla_out() },
    ];
    assert(touches(gate[0], p));
    assert(touches(gate[1], p));
    assert(all_touch(gate, p));
    lemma_project_out_within(
        room,
        s,
        at,
        ctx,
        w.out,
        Wt::MlaOut,
        Sc::Heads,
        s.mla_out(),
    );
    let a = mla_query(s, at);
    let b = mla_core(s, at, pos, ctx, Rope::Identity);
    let c = quant_for(w.gate, at.sc(Sc::Xq), at.xin(), s.n_embd);
    lemma_all_touch_add(a, b, p);
    lemma_all_touch_add(a + b, c, p);
    lemma_all_touch_add(a + b + c, gate, p);
    lemma_all_touch_add(
        a + b + c + gate,
        project_out(s, at, w.out, Wt::MlaOut, Sc::Heads, s.mla_out()),
        p,
    );
}

proof fn lemma_rejoin_within(rt: K3Rt, s: Shape, il: usize, ctx: u32)
    requires
        k3_sizes(s),
        il < s.n_exec_layer,
    ensures
        all_touch(
            rejoin(s, il, entered(s, il, banked(s, il as int) as u32)),
            within(k3_room(rt, s, ctx)),
        ),
{
    let p = within(k3_room(rt, s, ctx));
    bank_has_room(s, il as int);
    lemma_banked_small(s, il as int);
    let n = entered(s, il, banked(s, il as int) as u32);
    let b = bank_rows(s);
    assert(n <= b);
    assert(n * s.n_embd <= b * s.n_embd) by (nonlinear_arith)
        requires
            n <= b,
            0 <= s.n_embd,
    ;
    lemma_f32s(n, s.n_embd as int);
    let ops = rejoin(s, il, n);
    assert(touches(ops[0], p));
    assert(touches(ops[1], p));
    if s.attn_res_block > 0 {
        assert(touches(ops[2], p));
    }
}

proof fn lemma_shift_within(
    rt: K3Rt,
    s: Shape,
    at: Place,
    dst: Buf,
    src: Buf,
    to: i32,
    ctx: u32,
)
    requires
        k3_room(rt, s, ctx)(dst) matches Some(c) ==> 4 * s.n_embd <= c,
        k3_room(rt, s, ctx)(src) matches Some(c) ==> 4 * s.n_embd <= c,
    ensures
        all_touch(shift(s, at, dst, src, to), within(k3_room(rt, s, ctx))),
{
    let p = within(k3_room(rt, s, ctx));
    let ops = shift(s, at, dst, src, to);
    assert(touches(ops[0], p));
}

proof fn lemma_shared_within(rt: K3Rt, s: Shape, at: Place, w: ShexpW, ctx: u32)
    requires
        k3_sizes(s),
        rt.scratch@.contains(at.dev),
    ensures
        all_touch(shared_half(s, at, w), within(k3_room(rt, s, ctx))),
{
    let p = within(k3_room(rt, s, ctx));
    lemma_q8k_grows(s.n_ff_shexp, larger(s.n_ff_shexp, 1));
    let a = shift(s, at, at.sc(Sc::FfnNormedA), Buf::State(St::Normed), at.dev);
    let c = shift(s, at, Buf::State(St::SharedOut), at.sc(Sc::ShexpOut), at.primary);
    lemma_shift_within(rt, s, at, at.sc(Sc::FfnNormedA), Buf::State(St::Normed), at.dev, ctx);
    lemma_shift_within(rt, s, at, Buf::State(St::SharedOut), at.sc(Sc::ShexpOut), at.primary, ctx);
    let ops = shared_half(s, at, w);
    let b = ops.subrange(a.len() as int, (a.len() + 6) as int);
    assert(touches(b[0], p));
    assert(touches(b[1], p));
    assert(touches(b[2], p));
    assert(touches(b[3], p));
    assert(touches(b[4], p));
    assert(touches(b[5], p));
    assert(all_touch(b, p));
    lemma_all_touch_add(a, b, p);
    lemma_all_touch_add(a + b, c, p);
    assert(ops =~= a + b + c);
}

proof fn lemma_routed_within(rt: K3Rt, s: Shape, at: Place, w: RoutedW, ctx: u32)
    requires
        k3_sizes(s),
        rt.scratch@.contains(at.primary),
    ensures
        all_touch(routed_half(s, at, w), within(k3_room(rt, s, ctx))),
{
    let room = k3_room(rt, s, ctx);
    let p = within(room);
    let xq = Buf::Scratch(at.primary, Sc::Xq);
    let lat = s.n_expert_latent;
    lemma_q8k_grows(s.n_embd, widest(s));
    lemma_q8k_grows(lat, widest(s));
    let a = quant_for(w.down, xq, Buf::State(St::Normed), s.n_embd);
    lemma_quant_within(room, w.down, xq, Buf::State(St::Normed), s.n_embd);
    let c = quant_for(w.up, xq, Buf::K3(K3Buf::LatOut), lat);
    lemma_quant_within(room, w.up, xq, Buf::K3(K3Buf::LatOut), lat);
    let ops = routed_half(s, at, w);
    let b = ops.subrange(a.len() as int, (a.len() + 6) as int);
    let d = ops.skip((a.len() + 6 + c.len()) as int);
    assert(touches(b[0], p));
    assert(touches(b[1], p));
    assert(touches(b[2], p));
    assert(touches(b[3], p));
    assert(touches(b[4], p));
    assert(touches(b[5], p));
    assert(all_touch(b, p));
    assert(touches(d[0], p));
    assert(touches(d[1], p));
    assert(all_touch(d, p));
    lemma_all_touch_add(a, b, p);
    lemma_all_touch_add(a + b, c, p);
    lemma_all_touch_add(a + b + c, d, p);
    assert(ops =~= a + b + c + d);
}

proof fn lemma_ffn_within(rt: K3Rt, s: Shape, at: Place, l: LayerW, w: K3W, ctx: u32)
    requires
        k3_sizes(s),
    ensures
        all_touch(ffn(s, at, l, w, rt.scratch@).ops, within(k3_room(rt, s, ctx))),
{
    let p = within(k3_room(rt, s, ctx));
    match l.ffn {
        Ffn::Dense => {
            let ops = dense_ffn(s, at.il);
            assert(touches(ops[0], p));
            assert(touches(ops[1], p));
            assert(touches(ops[2], p));
            assert(touches(ops[3], p));
        },
        Ffn::Moe { .. } => {
            if let Some(routed) = w.routed {
                let a = route(s, at.il);
                assert(touches(a[0], p));
                assert(touches(a[1], p));
                assert(all_touch(a, p));
                let b = match w.shexp {
                    Some(sh) => if rt.scratch@.contains(at.dev) {
                        lemma_shared_within(rt, s, at, sh, ctx);
                        shared_half(s, at, sh)
                    } else {
                        Seq::<Op>::empty()
                    },
                    None => {
                        let z = seq![
                            Op::Zero {
                                buf: Buf::State(St::SharedOut),
                                bytes: f32_bytes(s.n_embd),
                            },
                        ];
                        assert(touches(z[0], p));
                        z
                    },
                };
                assert(all_touch(b, p));
                lemma_all_touch_add(a, b, p);
                if rt.scratch@.contains(at.primary) {
                    lemma_routed_within(rt, s, at, routed, ctx);
                    lemma_all_touch_add(a + b, routed_half(s, at, routed), p);
                }
                let got = moe(s, at, w, routed, rt.scratch@).ops;
                let none = Seq::<Op>::empty();
                assert(all_touch(none, p));
                assert(a + none =~= a);
                assert(a + b + none =~= a + b);
            }
        },
        Ffn::Other => {},
    }
}

/// Every kernel, copy and clear of a layer stays inside buffers that the runtime
/// has: the scratch of its card is there and is not overrun, the widest quantized
/// row included, and the checkpoint bank has the row that the layer writes.
pub proof fn layer_stays_in_bounds(m: Model, rt: K3Rt, il: usize, pos: u32, ctx: u32)
    requires
        m.k3_ready(rt),
        k3_sizes(m.shape),
        il < m.shape.n_exec_layer,
        is_mla(m.layers@[il as int]) ==> mla_sizes(m.shape),
        pos < ctx,
    ensures
        all_touch(
            m.k3_layer(rt, il, banked(m.shape, il as int) as u32, pos, ctx).ops,
            within(k3_room(rt, m.shape, ctx)),
        ),
{
    reveal(layer);
    let s = m.shape;
    let p = within(k3_room(rt, s, ctx));
    let l = m.layers@[il as int];
    let cards = rt.scratch@;
    let at = Place { il, dev: m.attn_dev(il, rt.primary), primary: rt.primary };
    let n = banked(s, il as int) as u32;
    match l.attn {
        Attn::K3(w) => {
            let a = Plan::of(enter(s, il, n));
            lemma_enter_within(rt, s, il, ctx);
            let b = hop_in(s, at, cards);
            assert(all_touch(b.ops, p)) by {
                if b.ops.len() > 0 {
                    assert(touches(b.ops[0], p));
                }
            }
            lemma_and_within(a, b, p);
            let c = mixer(s, at, w, cards, rt.states@[il as int], pos, ctx);
            match (w.kda, w.mla) {
                (Some(kda), _) => {
                    lemma_kda_half_within(rt, s, at, kda, ctx);
                },
                (None, Some(mla)) => {
                    if cards.contains(at.dev) {
                        lemma_mla_half_within(rt, s, at, mla, pos, ctx);
                    }
                },
                _ => {},
            }
            lemma_and_within(a.and(b), c, p);
            let d = Plan::of(rejoin(s, il, entered(s, il, n)));
            lemma_rejoin_within(rt, s, il, ctx);
            lemma_and_within(a.and(b).and(c), d, p);
            let e = ffn(s, at, l, w, cards);
            lemma_ffn_within(rt, s, at, l, w, ctx);
            lemma_and_within(a.and(b).and(c).and(d), e, p);
            let f = Plan::of(
                seq![
                    Op::Add {
                        out: Buf::State(St::Cur),
                        a: Buf::State(St::AfterAttn),
                        b: Buf::State(St::FfnOut),
                        n: s.n_embd,
                    },
                ],
            );
            assert(touches(f.ops[0], p));
            assert(all_touch(f.ops, p));
            lemma_and_within(a.and(b).and(c).and(d).and(e), f, p);
        },
        _ => {},
    }
}

pub proof fn lemma_and_within(a: Plan, b: Plan, p: spec_fn(Buf, int) -> bool)
    requires
        all_touch(a.ops, p),
        all_touch(b.ops, p),
    ensures
        all_touch(a.and(b).ops, p),
{
    lemma_all_touch_add(a.ops, b.ops, p);
}

} // verus!
