//! What holds of every Bailing plan.

use crate::engine::access::{all_touch, drained, lemma_all_touch_add, lemma_drained_add, touches};
use crate::engine::bailing::{scratch_bytes, widest, BailingRt};
use crate::engine::bailing::blocks::{
    enter, ffn, hop_in, kda_half, kda_project, layer, mixer, mla_half, mla_query, rejoin, route,
    routed_half, shared_half,
};
use crate::engine::blocks::{
    dense_ffn, kda_recurrence, matw, mla_core, project_out, quant_for, KdaState, Place,
};
use crate::engine::crossing::{lemma_and_drained, lemma_project_out_drained, no_crossing};
use crate::engine::ops::{Buf, KdaBuf, Op, Plan, Rope, Sc, St, Wt};
use crate::engine::room::{
    kda_room, lemma_mla_core_within, lemma_project_out_within, lemma_q8k_grows, lemma_quant_within,
    lemma_recurrence_within, mixer_room, within,
};
use crate::engine::shape::{Attn, BailingW, Ffn, KdaW, LayerW, MlaW, Model, Shape};
use vstd::prelude::*;

verus! {

/// The buffers of a runtime: the cards with scratch, and which layers have a
/// recurrent state.
pub open spec fn bailing_room(rt: BailingRt, s: Shape, ctx: u32) -> spec_fn(Buf) -> Option<int> {
    |b: Buf|
        match b {
            Buf::Scratch(d, x) => Some(
                if rt.scratch@.contains(d) && has_scratch(x) {
                    scratch_bytes(s, ctx, x) as int
                } else {
                    -1
                },
            ),
            Buf::Kda(il, x) => Some(
                if il < rt.states@.len() && rt.states@[il as int] is Some {
                    if x == KdaBuf::S {
                        s.kda_state_bytes() as int
                    } else {
                        s.kda_conv_bytes() as int
                    }
                } else {
                    -1
                },
            ),
            _ => None,
        }
}

/// The path has this scratch.
pub open spec fn has_scratch(x: Sc) -> bool {
    match x {
        Sc::FfnNormedA | Sc::ShexpOut | Sc::XqFfn | Sc::XqMid | Sc::GateSh | Sc::UpSh => false,
        Sc::MidSh | Sc::Fa | Sc::QRank | Sc::QRankNorm => false,
        _ => true,
    }
}

/// The layer is a latent-attention layer.
pub open spec fn is_mla(l: LayerW) -> bool {
    l.attn matches Attn::Bailing(w) && w.kda is None && w.mla is Some
}

/// The scratch for output gates holds a value for each head, and a query head holds both of
/// its parts.
pub open spec fn mla_sizes(s: Shape) -> bool {
    &&& s.n_head <= s.n_head * s.kda_head_dim
    &&& s.qk_nope + s.qk_rope <= s.qk_dim
}

proof fn lemma_bailing_mixer_room(rt: BailingRt, s: Shape, at: Place, ctx: u32)
    requires
        s.kda_states_fit(),
        rt.scratch@.contains(at.dev),
    ensures
        mixer_room(bailing_room(rt, s, ctx), s, at, ctx),
        at.il < rt.states@.len() && rt.states@[at.il as int] is Some ==> kda_room(
            bailing_room(rt, s, ctx),
            s,
            at.il,
        ),
{
    lemma_q8k_grows(s.n_embd, widest(s));
    lemma_q8k_grows(s.d_inner(), widest(s));
    lemma_q8k_grows(s.mla_out(), widest(s));
}

proof fn lemma_kda_project_within(rt: BailingRt, s: Shape, at: Place, w: KdaW, ctx: u32)
    requires
        s.kda_states_fit(),
        rt.scratch@.contains(at.dev),
    ensures
        all_touch(kda_project(s, at, w), within(bailing_room(rt, s, ctx))),
{
    let room = bailing_room(rt, s, ctx);
    let p = within(room);
    lemma_bailing_mixer_room(rt, s, at, ctx);
    let q = quant_for(w.wq, at.sc(Sc::Xq), at.xin(), s.n_embd);
    lemma_quant_within(room, w.wq, at.sc(Sc::Xq), at.xin(), s.n_embd);
    let ops = kda_project(s, at, w);
    let rest = ops.skip(q.len() as int);
    assert(rest.len() == 6);
    assert(touches(rest[0], p));
    assert(touches(rest[1], p));
    assert(touches(rest[2], p));
    assert(touches(rest[3], p));
    assert(touches(rest[4], p));
    assert(touches(rest[5], p));
    assert(all_touch(rest, p));
    lemma_all_touch_add(q, rest, p);
    assert(ops =~= q + rest);
}

proof fn lemma_kda_half_within(rt: BailingRt, s: Shape, at: Place, w: KdaW, ctx: u32)
    requires
        s.kda_states_fit(),
        at.il < rt.states@.len(),
    ensures
        all_touch(
            kda_half(s, at, w, rt.scratch@, rt.states@[at.il as int]).ops,
            within(bailing_room(rt, s, ctx)),
        ),
{
    if rt.scratch@.contains(at.dev) {
        lemma_kda_project_within(rt, s, at, w, ctx);
        if rt.states@[at.il as int] is Some {
            lemma_kda_whole_within(rt, s, at, w, ctx);
        }
    }
}

proof fn lemma_kda_whole_within(rt: BailingRt, s: Shape, at: Place, w: KdaW, ctx: u32)
    requires
        s.kda_states_fit(),
        rt.scratch@.contains(at.dev),
        at.il < rt.states@.len(),
        rt.states@[at.il as int] is Some,
    ensures
        all_touch(
            kda_half(s, at, w, rt.scratch@, rt.states@[at.il as int]).ops,
            within(bailing_room(rt, s, ctx)),
        ),
{
    let room = bailing_room(rt, s, ctx);
    let p = within(room);
    lemma_bailing_mixer_room(rt, s, at, ctx);
    lemma_kda_project_within(rt, s, at, w, ctx);
    lemma_recurrence_within(room, s, at, ctx);
    let gate = seq![
        matw(
            at.sc(Sc::Gate),
            at.wt(Wt::KdaWg),
            w.wg,
            at.xin(),
            at.sc(Sc::Xq),
            s.n_embd,
            s.d_inner(),
            1,
        ),
        Op::SigmoidGate { buf: at.sc(Sc::O), gate: at.sc(Sc::Gate), n: s.d_inner() },
    ];
    assert(touches(gate[0], p));
    assert(touches(gate[1], p));
    assert(all_touch(gate, p));
    lemma_project_out_within(
        room,
        s,
        at,
        ctx,
        w.out,
        Wt::KdaOut,
        Sc::O,
        s.d_inner(),
    );
    let a = kda_project(s, at, w);
    let b = kda_recurrence(s, at);
    lemma_all_touch_add(a, b, p);
    lemma_all_touch_add(a + b, gate, p);
    lemma_all_touch_add(
        a + b + gate,
        project_out(s, at, w.out, Wt::KdaOut, Sc::O, s.d_inner()),
        p,
    );
}

proof fn lemma_mla_query_within(rt: BailingRt, s: Shape, at: Place, pos: u32, ctx: u32)
    requires
        s.kda_states_fit(),
        rt.scratch@.contains(at.dev),
    ensures
        all_touch(mla_query(s, at, pos), within(bailing_room(rt, s, ctx))),
{
    let p = within(bailing_room(rt, s, ctx));
    let ops = mla_query(s, at, pos);
    assert(touches(ops[0], p));
    assert(touches(ops[1], p));
}

proof fn lemma_mla_half_within(rt: BailingRt, s: Shape, at: Place, w: MlaW, pos: u32, ctx: u32)
    requires
        s.kda_states_fit(),
        mla_sizes(s),
        rt.scratch@.contains(at.dev),
        pos < ctx,
    ensures
        all_touch(mla_half(s, at, w, rt.scratch@, pos, ctx).ops, within(bailing_room(rt, s, ctx))),
{
    let room = bailing_room(rt, s, ctx);
    let p = within(room);
    lemma_bailing_mixer_room(rt, s, at, ctx);
    lemma_mla_query_within(rt, s, at, pos, ctx);
    lemma_mla_core_within(room, s, at, pos, ctx, Rope::Model);
    lemma_quant_within(room, w.gate, at.sc(Sc::Xq), at.xin(), s.n_embd);
    let gate = seq![
        matw(
            at.sc(Sc::Gate),
            at.wt(Wt::MlaGate),
            w.gate,
            at.xin(),
            at.sc(Sc::Xq),
            s.n_embd,
            s.n_head,
            1,
        ),
        Op::RowSigmoidScale {
            buf: at.sc(Sc::Heads),
            gate: at.sc(Sc::Gate),
            rows: s.n_head,
            dim: s.value_mla,
        },
    ];
    assert(touches(gate[0], p));
    assert(touches(gate[1], p));
    assert(all_touch(gate, p));
    lemma_project_out_within(
        room,
        s,
        at,
        ctx,
        w.out,
        Wt::MlaOut,
        Sc::Heads,
        s.mla_out(),
    );
    let a = mla_query(s, at, pos);
    let b = mla_core(s, at, pos, ctx, Rope::Model);
    let c = quant_for(w.gate, at.sc(Sc::Xq), at.xin(), s.n_embd);
    lemma_all_touch_add(a, b, p);
    lemma_all_touch_add(a + b, c, p);
    lemma_all_touch_add(a + b + c, gate, p);
    lemma_all_touch_add(
        a + b + c + gate,
        project_out(s, at, w.out, Wt::MlaOut, Sc::Heads, s.mla_out()),
        p,
    );
}

proof fn lemma_ffn_within(
    rt: BailingRt,
    s: Shape,
    il: usize,
    l: LayerW,
    clamp: Option<usize>,
    ctx: u32,
)
    ensures
        all_touch(ffn(s, il, l, clamp).ops, within(bailing_room(rt, s, ctx))),
{
    let p = within(bailing_room(rt, s, ctx));
    match l.ffn {
        Ffn::Dense => {
            let ops = dense_ffn(s, il);
            assert(touches(ops[0], p));
            assert(touches(ops[1], p));
            assert(touches(ops[2], p));
            assert(touches(ops[3], p));
        },
        Ffn::Moe { shexp } => {
            let a = route(s, il);
            assert(touches(a[0], p));
            assert(touches(a[1], p));
            assert(all_touch(a, p));
            let b = shared_half(s, il, shexp, clamp);
            assert(touches(b[0], p));
            if shexp {
                assert(touches(b[1], p));
                assert(touches(b[2], p));
                assert(touches(b[3], p));
            }
            assert(all_touch(b, p));
            let c = routed_half(s, il);
            assert(touches(c[0], p));
            assert(touches(c[1], p));
            assert(touches(c[2], p));
            assert(touches(c[3], p));
            assert(all_touch(c, p));
            lemma_all_touch_add(a, b, p);
            lemma_all_touch_add(a + b, c, p);
        },
        Ffn::Other => {},
    }
}

/// Every kernel, copy and clear of a layer stays inside buffers that the runtime
/// has: the scratch of its card is there and is not overrun, the widest quantized
/// row included.
pub proof fn layer_stays_in_bounds(m: Model, rt: BailingRt, il: usize, pos: u32, ctx: u32)
    requires
        m.bailing_ready(rt),
        m.shape.kda_states_fit(),
        il < m.shape.n_exec_layer,
        is_mla(m.layers@[il as int]) ==> mla_sizes(m.shape),
        pos < ctx,
    ensures
        all_touch(m.bailing_layer(rt, il, pos, ctx).ops, within(bailing_room(rt, m.shape, ctx))),
{
    reveal(layer);
    let s = m.shape;
    let p = within(bailing_room(rt, s, ctx));
    let l = m.layers@[il as int];
    let cards = rt.scratch@;
    let at = Place { il, dev: m.attn_dev(il, rt.primary), primary: rt.primary };
    match l.attn {
        Attn::Bailing(w) => {
            let a = Plan::of(enter(s, il));
            assert(touches(a.ops[0], p));
            assert(all_touch(a.ops, p));
            let b = hop_in(s, at, cards);
            assert(all_touch(b.ops, p)) by {
                if b.ops.len() > 0 {
                    assert(touches(b.ops[0], p));
                    assert(touches(b.ops[1], p));
                    assert(touches(b.ops[2], p));
                }
            }
            lemma_and_within(a, b, p);
            let c = mixer(s, at, w, cards, rt.states@[il as int], pos, ctx);
            match (w.kda, w.mla) {
                (Some(kda), _) => {
                    lemma_kda_half_within(rt, s, at, kda, ctx);
                },
                (None, Some(mla)) => {
                    if cards.contains(at.dev) {
                        lemma_mla_half_within(rt, s, at, mla, pos, ctx);
                    }
                },
                _ => {},
            }
            lemma_and_within(a.and(b), c, p);
            let d = Plan::of(rejoin(s, il));
            assert(touches(d.ops[0], p));
            assert(touches(d.ops[1], p));
            assert(all_touch(d.ops, p));
            lemma_and_within(a.and(b).and(c), d, p);
            let e = ffn(s, il, l, m.clamp_of(il));
            lemma_ffn_within(rt, s, il, l, m.clamp_of(il), ctx);
            lemma_and_within(a.and(b).and(c).and(d), e, p);
            let f = Plan::of(
                seq![
                    Op::Add {
                        out: Buf::State(St::Cur),
                        a: Buf::State(St::AfterAttn),
                        b: Buf::State(St::FfnOut),
                        n: s.n_embd,
                    },
                ],
            );
            assert(touches(f.ops[0], p));
            assert(all_touch(f.ops, p));
            lemma_and_within(a.and(b).and(c).and(d).and(e), f, p);
        },
        _ => {},
    }
}

pub proof fn lemma_and_within(a: Plan, b: Plan, p: spec_fn(Buf, int) -> bool)
    requires
        all_touch(a.ops, p),
        all_touch(b.ops, p),
    ensures
        all_touch(a.and(b).ops, p),
{
    lemma_all_touch_add(a.ops, b.ops, p);
}

proof fn lemma_mixer_drained(
    s: Shape,
    at: Place,
    w: BailingW,
    cards: Seq<i32>,
    state: Option<KdaState>,
    pos: u32,
    ctx: u32,
)
    ensures
        drained(mixer(s, at, w, cards, state, pos, ctx).ops),
{
    match (w.kda, w.mla) {
        (Some(kda), _) => {
            let a = kda_project(s, at, kda);
            assert(no_crossing(a));
            let b = kda_recurrence(s, at);
            assert(no_crossing(b));
            let c = seq![
                matw(
                    at.sc(Sc::Gate),
                    at.wt(Wt::KdaWg),
                    kda.wg,
                    at.xin(),
                    at.sc(Sc::Xq),
                    s.n_embd,
                    s.d_inner(),
                    1,
                ),
                Op::SigmoidGate { buf: at.sc(Sc::O), gate: at.sc(Sc::Gate), n: s.d_inner() },
            ];
            assert(no_crossing(c));
            lemma_project_out_drained(s, at, kda.out, Wt::KdaOut, Sc::O, s.d_inner());
            lemma_drained_add(a, b);
            lemma_drained_add(a + b, c);
            lemma_drained_add(
                a + b + c,
                project_out(s, at, kda.out, Wt::KdaOut, Sc::O, s.d_inner()),
            );
        },
        (None, Some(mla)) => {
            let a = mla_query(s, at, pos);
            assert(no_crossing(a));
            let b = mla_core(s, at, pos, ctx, Rope::Model);
            assert(no_crossing(b));
            let c = quant_for(mla.gate, at.sc(Sc::Xq), at.xin(), s.n_embd);
            assert(no_crossing(c));
            let d = seq![
                matw(
                    at.sc(Sc::Gate),
                    at.wt(Wt::MlaGate),
                    mla.gate,
                    at.xin(),
                    at.sc(Sc::Xq),
                    s.n_embd,
                    s.n_head,
                    1,
                ),
                Op::RowSigmoidScale {
                    buf: at.sc(Sc::Heads),
                    gate: at.sc(Sc::Gate),
                    rows: s.n_head,
                    dim: s.value_mla,
                },
            ];
            assert(no_crossing(d));
            lemma_project_out_drained(s, at, mla.out, Wt::MlaOut, Sc::Heads, s.mla_out());
            lemma_drained_add(a, b);
            lemma_drained_add(a + b, c);
            lemma_drained_add(a + b + c, d);
            lemma_drained_add(
                a + b + c + d,
                project_out(s, at, mla.out, Wt::MlaOut, Sc::Heads, s.mla_out()),
            );
        },
        _ => {},
    }
}

/// Every copy between cards comes right after a wait for the card that is current,
/// so that what it reads has been written.
pub proof fn layer_drains_before_it_crosses(
    m: Model,
    rt: BailingRt,
    il: usize,
    pos: u32,
    ctx: u32,
)
    ensures
        drained(m.bailing_layer(rt, il, pos, ctx).ops),
{
    let s = m.shape;
    let l = m.layers@[il as int];
    let cards = rt.scratch@;
    let at = Place { il, dev: m.attn_dev(il, rt.primary), primary: rt.primary };
    let state = rt.states@[il as int];
    match l.attn {
        Attn::Bailing(w) => {
            let a = Plan::of(enter(s, il));
            assert(no_crossing(a.ops));
            let b = hop_in(s, at, cards);
            assert(drained(b.ops)) by {
                if b.ops.len() > 0 {
                    assert(b.ops[0] == Op::Sync);
                }
            }
            let c = mixer(s, at, w, cards, state, pos, ctx);
            lemma_mixer_drained(s, at, w, cards, state, pos, ctx);
            let d = Plan::of(rejoin(s, il));
            assert(no_crossing(d.ops));
            let e = ffn(s, il, l, m.clamp_of(il));
            assert(no_crossing(e.ops));
            let f = Plan::of(
                seq![
                    Op::Add {
                        out: Buf::State(St::Cur),
                        a: Buf::State(St::AfterAttn),
                        b: Buf::State(St::FfnOut),
                        n: s.n_embd,
                    },
                ],
            );
            assert(no_crossing(f.ops));
            lemma_and_drained(a, b);
            lemma_and_drained(a.and(b), c);
            lemma_and_drained(a.and(b).and(c), d);
            lemma_and_drained(a.and(b).and(c).and(d), e);
            lemma_and_drained(a.and(b).and(c).and(d).and(e), f);
            assert(m.bailing_layer(rt, il, pos, ctx) == a.and(b).and(c).and(d).and(e).and(f)) by {
                reveal(layer);
            }
        },
        _ => {
            assert(m.bailing_layer(rt, il, pos, ctx).ops =~= Seq::<Op>::empty()) by {
                reveal(layer);
            }
        },
    }
}

} // verus!
