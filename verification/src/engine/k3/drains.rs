//! A K3 pass waits before anything crosses between cards.

use crate::engine::access::{drained, lemma_drained_add};
use crate::engine::blocks::{
    kda_recurrence, matw, mla_core, project_out, quant_for, reset_all, reset_states, KdaState,
    Place,
};
use crate::engine::crossing::{
    lemma_and_drained, lemma_project_out_drained, lemma_reset_drained, no_crossing,
};
use crate::engine::error::EngineError;
use crate::engine::k3::blocks::{
    enter, entered, ffn, hop_in, kda_project, layer, mixer, mla_query, moe, rejoin, route,
    routed_half, shared_half, shift,
};
use crate::engine::k3::{banked, K3Rt};
use crate::engine::ops::{ops_if, Buf, Gw, Op, Plan, Rope, Sc, St, Wt};
use crate::engine::shape::{f32_bytes, Attn, Ffn, LayerW, Model, Shape, ShexpW, K3W};
use vstd::prelude::*;

verus! {

proof fn lemma_mixer_drained(
    s: Shape,
    at: Place,
    w: K3W,
    cards: Seq<i32>,
    state: Option<KdaState>,
    pos: u32,
    ctx: u32,
)
    ensures
        drained(mixer(s, at, w, cards, state, pos, ctx).ops),
{
    match (w.kda, w.mla) {
        (Some(kda), _) => {
            let a = kda_project(s, at, kda);
            assert(no_crossing(a));
            let b = kda_recurrence(s, at);
            assert(no_crossing(b));
            let c = seq![
                Op::SigmoidGate { buf: at.sc(Sc::O), gate: at.sc(Sc::Gate), n: s.d_inner() },
            ];
            assert(no_crossing(c));
            lemma_project_out_drained(s, at, kda.out, Wt::KdaOut, Sc::O, s.d_inner());
            lemma_drained_add(a, b);
            lemma_drained_add(a + b, c);
            lemma_drained_add(
                a + b + c,
                project_out(s, at, kda.out, Wt::KdaOut, Sc::O, s.d_inner()),
            );
        },
        (None, Some(mla)) => {
            let a = mla_query(s, at);
            assert(no_crossing(a));
            let b = mla_core(s, at, pos, ctx, Rope::Identity);
            assert(no_crossing(b));
            let c = quant_for(mla.gate, at.sc(Sc::Xq), at.xin(), s.n_embd);
            assert(no_crossing(c));
            let d = seq![
                matw(
                    at.sc(Sc::Gate),
                    at.wt(Wt::MlaGate),
                    mla.gate,
                    at.xin(),
                    at.sc(Sc::Xq),
                    s.n_embd,
                    s.mla_out(),
                    1,
                ),
                Op::SigmoidGate { buf: at.sc(Sc::Heads), gate: at.sc(Sc::Gate), n: s.mla_out() },
            ];
            assert(no_crossing(d));
            lemma_project_out_drained(s, at, mla.out, Wt::MlaOut, Sc::Heads, s.mla_out());
            lemma_drained_add(a, b);
            lemma_drained_add(a + b, c);
            lemma_drained_add(a + b + c, d);
            lemma_drained_add(
                a + b + c + d,
                project_out(s, at, mla.out, Wt::MlaOut, Sc::Heads, s.mla_out()),
            );
        },
        _ => {},
    }
}

proof fn lemma_shared_drained(s: Shape, at: Place, w: ShexpW)
    ensures
        drained(shared_half(s, at, w)),
{
    let a = shift(s, at, at.sc(Sc::FfnNormedA), Buf::State(St::Normed), at.dev);
    let c = shift(s, at, Buf::State(St::SharedOut), at.sc(Sc::ShexpOut), at.primary);
    assert(drained(a)) by {
        if at.dev != at.primary {
            assert(a[0] == Op::Sync);
        }
    }
    assert(drained(c)) by {
        if at.dev != at.primary {
            assert(c[0] == Op::Sync);
        }
    }
    let ops = shared_half(s, at, w);
    let n = a.len() as int;
    let b = ops.subrange(n, n + 6);
    assert(no_crossing(b));
    lemma_drained_add(a, b);
    lemma_drained_add(a + b, c);
    assert(ops =~= a + b + c);
}

proof fn lemma_ffn_drained(s: Shape, at: Place, l: LayerW, w: K3W, cards: Seq<i32>)
    ensures
        drained(ffn(s, at, l, w, cards).ops),
{
    if let (Ffn::Moe { .. }, Some(routed)) = (l.ffn, w.routed) {
        let a = Plan::of(route(s, at.il));
        assert(no_crossing(a.ops));
        let b = match w.shexp {
            Some(sh) => if cards.contains(at.dev) {
                Plan::of(shared_half(s, at, sh))
            } else {
                Plan::fail(EngineError::K3NoScratch)
            },
            None => Plan::of(
                seq![Op::Zero { buf: Buf::State(St::SharedOut), bytes: f32_bytes(s.n_embd) }],
            ),
        };
        if let Some(sh) = w.shexp {
            lemma_shared_drained(s, at, sh);
        }
        assert(drained(b.ops));
        let c = if cards.contains(at.primary) {
            Plan::of(routed_half(s, at, routed))
        } else {
            Plan::fail(EngineError::K3NoScratch)
        };
        assert(no_crossing(routed_half(s, at, routed)));
        assert(drained(c.ops));
        lemma_and_drained(a, b);
        lemma_and_drained(a.and(b), c);
        assert(moe(s, at, w, routed, cards) == a.and(b).and(c));
    } else {
        assert(no_crossing(ffn(s, at, l, w, cards).ops));
    }
}

/// Every copy between cards comes right after a wait for the card that is current,
/// so that what it reads has been written.
pub proof fn layer_drains_before_it_crosses(
    m: Model,
    rt: K3Rt,
    il: usize,
    n_ckpt: u32,
    pos: u32,
    ctx: u32,
)
    ensures
        drained(m.k3_layer(rt, il, n_ckpt, pos, ctx).ops),
{
    let s = m.shape;
    let l = m.layers@[il as int];
    let cards = rt.scratch@;
    let at = Place { il, dev: m.attn_dev(il, rt.primary), primary: rt.primary };
    let state = rt.states@[il as int];
    match l.attn {
        Attn::K3(w) => {
            let a = Plan::of(enter(s, il, n_ckpt));
            assert(no_crossing(a.ops));
            let b = hop_in(s, at, cards);
            assert(drained(b.ops)) by {
                if b.ops.len() > 0 {
                    assert(b.ops[0] == Op::Sync);
                }
            }
            let c = mixer(s, at, w, cards, state, pos, ctx);
            lemma_mixer_drained(s, at, w, cards, state, pos, ctx);
            let d = Plan::of(rejoin(s, il, entered(s, il, n_ckpt)));
            assert(no_crossing(d.ops));
            let e = ffn(s, at, l, w, cards);
            lemma_ffn_drained(s, at, l, w, cards);
            let f = Plan::of(
                seq![
                    Op::Add {
                        out: Buf::State(St::Cur),
                        a: Buf::State(St::AfterAttn),
                        b: Buf::State(St::FfnOut),
                        n: s.n_embd,
                    },
                ],
            );
            assert(no_crossing(f.ops));
            lemma_and_drained(a, b);
            lemma_and_drained(a.and(b), c);
            lemma_and_drained(a.and(b).and(c), d);
            lemma_and_drained(a.and(b).and(c).and(d), e);
            lemma_and_drained(a.and(b).and(c).and(d).and(e), f);
            assert(m.k3_layer(rt, il, n_ckpt, pos, ctx) == a.and(b).and(c).and(d).and(e).and(f))
                by {
                reveal(layer);
            }
        },
        _ => {
            assert(m.k3_layer(rt, il, n_ckpt, pos, ctx).ops =~= Seq::<Op>::empty()) by {
                reveal(layer);
            }
        },
    }
}

proof fn lemma_layers_drained(m: Model, rt: K3Rt, n: int, pos: u32, ctx: u32)
    ensures
        drained(m.k3_layers(rt, n, pos, ctx).ops),
    decreases n,
{
    if n > 0 {
        lemma_layers_drained(m, rt, n - 1, pos, ctx);
        let il = (n - 1) as usize;
        let n_ckpt = banked(m.shape, n - 1) as u32;
        layer_drains_before_it_crosses(m, rt, il, n_ckpt, pos, ctx);
        lemma_drained_add(
            m.k3_layers(rt, n - 1, pos, ctx).ops,
            m.k3_layer(rt, il, n_ckpt, pos, ctx).ops,
        );
    }
}

proof fn lemma_tokens_drained(
    m: Model,
    rt: K3Rt,
    tokens: Seq<u32>,
    n: int,
    pos0: u32,
    ctx: u32,
)
    ensures
        drained(m.k3_tokens(rt, tokens, n, pos0, ctx).ops),
    decreases n,
{
    if n > 0 {
        lemma_tokens_drained(m, rt, tokens, n - 1, pos0, ctx);
        let pos = (pos0 + n - 1) as u32;
        let a = seq![
            Op::WriteToken(tokens[n - 1]),
            Op::Embed {
                out: Buf::State(St::Cur),
                table: Buf::Global(Gw::TokenEmbd),
                n_embd: m.shape.n_embd,
                n_vocab: m.shape.n_vocab,
                t: 1,
            },
        ];
        assert(drained(a));
        let b = m.k3_layers(rt, m.shape.n_exec_layer as int, pos, ctx).ops;
        lemma_layers_drained(m, rt, m.shape.n_exec_layer as int, pos, ctx);
        let c = seq![Op::SetDevice(rt.primary)];
        lemma_drained_add(a, b);
        lemma_drained_add(a + b, c);
        lemma_drained_add(
            m.k3_tokens(rt, tokens, n - 1, pos0, ctx).ops,
            m.k3_token(rt, tokens[n - 1], pos, ctx).ops,
        );
    }
}

/// Every copy between cards of a batch comes right after a wait.
pub proof fn pass_drains_before_it_crosses(
    m: Model,
    rt: K3Rt,
    tokens: Seq<u32>,
    pos0: u32,
    rows: u32,
    ctx: u32,
    current: i32,
)
    ensures
        drained(m.k3_pass(rt, tokens, pos0, rows, ctx, current).ops),
{
    lemma_reset_drained(rt.states@, rt.states@.len() as int);
    let first = ops_if(pos0 == 0, reset_all(rt.states@, current));
    let back = seq![Op::SetDevice(current)];
    lemma_drained_add(reset_states(rt.states@, rt.states@.len() as int), back);
    let to = seq![Op::SetDevice(rt.primary)];
    lemma_drained_add(first, to);
    let a = Plan::of(first + to);
    let b = m.k3_tokens(rt, tokens, tokens.len() as int, pos0, ctx);
    lemma_tokens_drained(m, rt, tokens, tokens.len() as int, pos0, ctx);
    lemma_drained_add(a.ops, b.ops);
    let c = m.k3_tail(rows);
    assert(drained(c.ops));
    lemma_drained_add(a.and(b).ops, c.ops);
}

} // verus!
