//! What a Bailing pass computes.

use crate::engine::bailing::BailingRt;
use crate::engine::bailing::blocks::{
    enter, ffn, hop_in, kda_half, kda_project, layer, mixer, mla_half, mla_query, rejoin, route,
    routed_half, shared_half,
};
use crate::engine::blocks::{
    dense_ffn, kda_recurrence, matw, mla_core, project_out, quant_for, KdaState, Place,
};
use crate::engine::formula::{
    bx, dense, kda_decay, kda_heads, kda_moves, kda_strength, latent_heads, latent_moves,
    lemma_dense, lemma_mla_core, lemma_out_keeps, lemma_project_out, lemma_quant_for,
    lemma_recurrence, lemma_times, lemma_widths, moved, norm, quant_if, sum, times_own, times_w,
    KdaRow,
};
use crate::engine::hazard::{keeps, lemma_keeps_add};
use crate::engine::ops::{Buf, KdaBuf, Op, Part, Plan, Rope, Sc, St, Wt};
use crate::engine::shape::{BailingW, Ffn, KdaW, LayerW, MlaW, Model, Shape};
use crate::engine::value::{
    after, lemma_next, lemma_run_add, lemma_run_and, lemma_run_keeps, run, Val, World,
};
use vstd::prelude::*;

verus! {

/// The rows that a KDA mixer projects its input to.
pub open spec fn kda_rows(s: Shape, il: usize, kda: KdaW, x: Val, xq: Val) -> KdaRow {
    let n = s.n_embd as int;
    let d = s.n_head * s.kda_head_dim;
    let raw = times_w(kda.f_a, Buf::Layer(il, Wt::KdaFa), x, xq, n, d, 1);
    let beta = times_w(kda.beta_w, Buf::Layer(il, Wt::KdaBeta), x, xq, n, s.n_head as int, 1);
    KdaRow {
        q: times_w(kda.wq, Buf::Layer(il, Wt::KdaWq), x, xq, n, d, 1),
        k: times_w(kda.wk, Buf::Layer(il, Wt::KdaWk), x, xq, n, d, 1),
        v: times_w(kda.wv, Buf::Layer(il, Wt::KdaWv), x, xq, n, d, 1),
        g: kda_decay(s, il, raw, beta),
        beta: kda_strength(s, il, raw, beta),
    }
}

/// What a KDA mixer gives of its input.  `held`: what the scratch for quantized
/// rows held.
pub open spec fn kda_out(s: Shape, il: usize, kda: KdaW, x: Val, held: Val, w: World) -> Val {
    let n = s.n_embd as int;
    let d = s.n_head * s.kda_head_dim;
    let xq = quant_if(kda.wq, x, n, 1, held);
    let gate = times_w(kda.wg, Buf::Layer(il, Wt::KdaWg), x, xq, n, d, 1);
    let o = Val::Gated {
        x: bx(kda_heads(s, il, kda_rows(s, il, kda, x, xq), w)),
        gate: bx(gate),
        n: d,
    };
    times_own(kda.out, Buf::Layer(il, Wt::KdaOut), o, d, n, 1)
}

/// The queries of the latent attention, turned to their position.
pub open spec fn mla_q(s: Shape, il: usize, x: Val, pos: int) -> Val {
    Val::RopeTail {
        x: bx(
            Val::Mul {
                w: Buf::Layer(il, Wt::MlaQ),
                x: bx(x),
                n_in: s.n_embd as int,
                n_out: s.n_head * s.qk_dim,
                rows: 1,
            },
        ),
        rows: 1,
        heads: s.n_head as int,
        dim: s.qk_dim as int,
        rot: s.qk_rope as int,
        pos,
    }
}

/// What the latent attention gives of its input; one gate for each head.
pub open spec fn mla_out(
    s: Shape,
    il: usize,
    mla: MlaW,
    x: Val,
    w: World,
    pos: int,
    ctx: int,
) -> Val {
    let n = s.n_embd as int;
    let heads = Val::RowGated {
        x: bx(latent_heads(s, il, x, mla_q(s, il, x, pos), w, pos, ctx, Rope::Model)),
        gate: bx(
            times_own(mla.gate, Buf::Layer(il, Wt::MlaGate), x, n, s.n_head as int, 1),
        ),
        rows: s.n_head as int,
        dim: s.value_mla as int,
    };
    times_own(mla.out, Buf::Layer(il, Wt::MlaOut), heads, s.n_head * s.value_mla, n, 1)
}

/// The router's choice for a row: the best groups, then the best experts in them.
pub open spec fn chosen(s: Shape, il: usize, x: Val, weights: bool) -> Val {
    Val::GroupBest {
        weights,
        logits: bx(
            Val::MulFloat {
                w: Buf::Layer(il, Wt::GateInp),
                x: bx(x),
                n_in: s.n_embd as int,
                n_out: s.n_expert as int,
                rows: 1,
            },
        ),
        bias: Buf::Layer(il, Wt::ProbsB),
        of: s.n_expert as int,
        used: s.n_expert_used as int,
        groups: s.n_expert_groups as int,
        group_used: s.n_group_used as int,
        rows: 1,
    }
}

/// What the shared expert gives of a row.
pub open spec fn shared_out(s: Shape, il: usize, clamp: Option<usize>, x: Val) -> Val {
    let n = s.n_embd as int;
    let f = s.n_ff_shexp as int;
    Val::Mul {
        w: Buf::Layer(il, Wt::ShexpDown),
        x: bx(
            Val::Glu {
                gate: bx(
                    Val::Mul {
                        w: Buf::Layer(il, Wt::ShexpGate),
                        x: bx(x),
                        n_in: n,
                        n_out: f,
                        rows: 1,
                    },
                ),
                up: bx(
                    Val::Mul {
                        w: Buf::Layer(il, Wt::ShexpUp),
                        x: bx(x),
                        n_in: n,
                        n_out: f,
                        rows: 1,
                    },
                ),
                n: f,
                clamp,
                act: s.moe_act_op as int,
            },
        ),
        n_in: f,
        n_out: n,
        rows: 1,
    }
}

/// What the routed experts give of a row.
pub open spec fn routed_out(s: Shape, il: usize, x: Val) -> Val {
    Val::Experts {
        part: Part::Layer(il),
        il: il as int,
        picks: s.n_expert_used as int,
        act: s.moe_act_op as int,
        rows: 1,
        width: s.n_embd as int,
        selected: bx(chosen(s, il, x, false)),
        weights: bx(chosen(s, il, x, true)),
        x: bx(x),
        xq: bx(Val::Quant { x: bx(x), n: s.n_embd as int, rows: 1 }),
    }
}

/// What the feed-forward half gives of a normed row.
pub open spec fn ffn_out(s: Shape, il: usize, l: LayerW, clamp: Option<usize>, x: Val) -> Val {
    match l.ffn {
        Ffn::Moe { shexp } => sum(
            routed_out(s, il, x),
            shared_or_none(s, il, shexp, clamp, x),
            s.n_embd as int,
        ),
        _ => dense(s, il, x),
    }
}

/// What outlasts a token: the recurrent states and the caches.
pub open spec fn lasting(b: Buf) -> bool {
    b is Kda || b is KCache || b is VCache
}

/// What a layer keeps of the row it saw.
pub open spec fn grows(a: BailingW, il: usize, b: Buf) -> bool {
    match a.kda {
        Some(_) => b matches Buf::Kda(j, _) && j == il,
        None => b == Buf::KCache(il) || b == Buf::VCache(il),
    }
}

/// A layer, from what was there before it to what is there after it.
pub open spec fn layer_does(
    m: Model,
    primary: i32,
    il: usize,
    pos: int,
    ctx: int,
    w: World,
    z: World,
) -> bool {
    let s = m.shape;
    let l = m.layers@[il as int];
    let dev = if il < m.attn_layer_dev@.len() {
        m.attn_layer_dev@[il as int]
    } else {
        primary
    };
    let far = dev != primary;
    let n = s.n_embd as int;
    let cur = w.at[Buf::State(St::Cur)];
    let x = moved(far, norm(cur, Buf::Layer(il, Wt::AttnNorm), n, 1), n);
    let held = w.at[Buf::Scratch(dev, Sc::Xq)];
    &&& l.attn is Bailing
    &&& l.ffn is Dense || l.ffn is Moe
    &&& ({
        let a = l.attn->Bailing_0;
        let out = moved(
            far,
            match a.kda {
                Some(kda) => kda_out(s, il, kda, x, held, w),
                None => mla_out(s, il, a.mla->Some_0, x, w, pos, ctx),
            },
            n,
        );
        let mid = sum(cur, out, n);
        let y = norm(mid, Buf::Layer(il, Wt::FfnNorm), n, 1);
        let clamp = if il < m.n_clamp {
            Some(il)
        } else {
            None
        };
        &&& z.at[Buf::State(St::Cur)] == sum(mid, ffn_out(s, il, l, clamp, y), n)
        &&& match a.kda {
            Some(kda) => kda_moves(
                s,
                il,
                kda_rows(s, il, kda, x, quant_if(kda.wq, x, n, 1, held)),
                w,
                z,
            ),
            None => a.mla is Some && latent_moves(s, il, x, w, pos, ctx, z),
        }
        &&& forall|b: Buf| #[trigger]
            lasting(b) && !grows(a, il, b) ==> z.at[b] == w.at[b]
    })
}

#[verifier::rlimit(40)]
proof fn lemma_kda_project(s: Shape, at: Place, kda: KdaW, w: World)
    requires
        s.mixers_fit(),
    ensures
        ({
            let z = run(kda_project(s, at, kda), w);
            let x = w.at[at.xin()];
            let xq = quant_if(kda.wq, x, s.n_embd as int, 1, w.at[at.sc(Sc::Xq)]);
            let r = kda_rows(s, at.il, kda, x, xq);
            &&& z.at[at.sc(Sc::Q)] == r.q
            &&& z.at[at.sc(Sc::K)] == r.k
            &&& z.at[at.sc(Sc::V)] == r.v
            &&& z.at[at.sc(Sc::G)] == r.g
            &&& z.at[at.sc(Sc::Beta)] == r.beta
            &&& z.at[at.sc(Sc::Xq)] == xq
            &&& z.at[at.xin()] == x
        }),
{
    lemma_widths(s);
    let q = quant_for(kda.wq, at.sc(Sc::Xq), at.xin(), s.n_embd);
    let ops = kda_project(s, at, kda);
    let rest = ops.skip(q.len() as int);
    assert(ops =~= q + rest);
    lemma_run_add(q, rest, w);
    lemma_quant_for(kda.wq, at.sc(Sc::Xq), at.xin(), s.n_embd, w);
    let v = run(q, w);
    let n = s.n_embd;
    let d = s.d_inner();
    let x = at.xin();
    let xq = at.sc(Sc::Xq);
    lemma_times(rest, 0, at.sc(Sc::Q), at.wt(Wt::KdaWq), kda.wq, x, xq, n, d, 1, v);
    lemma_times(rest, 1, at.sc(Sc::K), at.wt(Wt::KdaWk), kda.wk, x, xq, n, d, 1, v);
    lemma_times(rest, 2, at.sc(Sc::V), at.wt(Wt::KdaWv), kda.wv, x, xq, n, d, 1, v);
    lemma_times(rest, 3, at.sc(Sc::G), at.wt(Wt::KdaFa), kda.f_a, x, xq, n, d, 1, v);
    lemma_times(
        rest,
        4,
        at.sc(Sc::Beta),
        at.wt(Wt::KdaBeta),
        kda.beta_w,
        x,
        xq,
        n,
        s.n_head,
        1,
        v,
    );
    lemma_next(rest, 5, v);
}

proof fn lemma_project_keeps(s: Shape, at: Place, kda: KdaW, b: Buf)
    requires
        !(b is Scratch),
    ensures
        keeps(kda_project(s, at, kda), b),
{
    let q = quant_for(kda.wq, at.sc(Sc::Xq), at.xin(), s.n_embd);
    let ops = kda_project(s, at, kda);
    let rest = ops.skip(q.len() as int);
    assert(ops =~= q + rest);
    assert(keeps(rest, b));
    lemma_keeps_add(q, rest, b);
}

/// The output gate of a KDA mixer, and the gated heads.
spec fn kda_gate(s: Shape, at: Place, kda: KdaW) -> Seq<Op> {
    seq![
        matw(
            at.sc(Sc::Gate),
            at.wt(Wt::KdaWg),
            kda.wg,
            at.xin(),
            at.sc(Sc::Xq),
            s.n_embd,
            s.d_inner(),
            1,
        ),
        Op::SigmoidGate { buf: at.sc(Sc::O), gate: at.sc(Sc::Gate), n: s.d_inner() },
    ]
}

#[verifier::rlimit(40)]
proof fn lemma_kda(s: Shape, at: Place, kda: KdaW, w: World)
    requires
        s.mixers_fit(),
    ensures
        ({
            let ops = kda_project(s, at, kda) + kda_recurrence(s, at) + kda_gate(s, at, kda)
                + project_out(s, at, kda.out, Wt::KdaOut, Sc::O, s.d_inner());
            let z = run(ops, w);
            let x = w.at[at.xin()];
            let held = w.at[at.sc(Sc::Xq)];
            &&& z.at[Buf::State(St::AttnOut)] == moved(
                at.dev != at.primary,
                kda_out(s, at.il, kda, x, held, w),
                s.n_embd as int,
            )
            &&& kda_moves(
                s,
                at.il,
                kda_rows(s, at.il, kda, x, quant_if(kda.wq, x, s.n_embd as int, 1, held)),
                w,
                z,
            )
        }),
{
    lemma_widths(s);
    let a = kda_project(s, at, kda);
    let b = kda_recurrence(s, at);
    let c = kda_gate(s, at, kda);
    let d = project_out(s, at, kda.out, Wt::KdaOut, Sc::O, s.d_inner());
    lemma_run_add(a, b, w);
    lemma_run_add(a + b, c, w);
    lemma_run_add(a + b + c, d, w);
    let w1 = run(a, w);
    let w2 = run(b, w1);
    let w3 = run(c, w2);
    let ks = Buf::Kda(at.il, KdaBuf::S);
    let kq = Buf::Kda(at.il, KdaBuf::ConvQ);
    let kk = Buf::Kda(at.il, KdaBuf::ConvK);
    let kv = Buf::Kda(at.il, KdaBuf::ConvV);
    lemma_kda_project(s, at, kda, w);
    lemma_project_keeps(s, at, kda, ks);
    lemma_project_keeps(s, at, kda, kq);
    lemma_project_keeps(s, at, kda, kk);
    lemma_project_keeps(s, at, kda, kv);
    lemma_run_keeps(a, a.len() as int, ks, w);
    lemma_run_keeps(a, a.len() as int, kq, w);
    lemma_run_keeps(a, a.len() as int, kk, w);
    lemma_run_keeps(a, a.len() as int, kv, w);
    lemma_recurrence(s, at, w1);
    lemma_run_keeps(b, b.len() as int, at.sc(Sc::Xq), w1);
    lemma_run_keeps(b, b.len() as int, at.xin(), w1);
    lemma_times(
        c,
        0,
        at.sc(Sc::Gate),
        at.wt(Wt::KdaWg),
        kda.wg,
        at.xin(),
        at.sc(Sc::Xq),
        s.n_embd,
        s.d_inner(),
        1,
        w2,
    );
    lemma_next(c, 1, w2);
    lemma_project_out(s, at, kda.out, Wt::KdaOut, Sc::O, s.d_inner(), w3);
    lemma_out_keeps(s, at, kda.out, Wt::KdaOut, Sc::O, s.d_inner(), ks);
    lemma_out_keeps(s, at, kda.out, Wt::KdaOut, Sc::O, s.d_inner(), kq);
    lemma_out_keeps(s, at, kda.out, Wt::KdaOut, Sc::O, s.d_inner(), kk);
    lemma_out_keeps(s, at, kda.out, Wt::KdaOut, Sc::O, s.d_inner(), kv);
    lemma_run_keeps(d, d.len() as int, ks, w3);
    lemma_run_keeps(d, d.len() as int, kq, w3);
    lemma_run_keeps(d, d.len() as int, kk, w3);
    lemma_run_keeps(d, d.len() as int, kv, w3);
}

#[verifier::rlimit(40)]
proof fn lemma_mla(s: Shape, at: Place, mla: MlaW, cards: Seq<i32>, pos: u32, ctx: u32, w: World)
    requires
        s.mixers_fit(),
        pos < u32::MAX,
        cards.contains(at.dev),
    ensures
        ({
            let z = run(mla_half(s, at, mla, cards, pos, ctx).ops, w);
            let x = w.at[at.xin()];
            &&& z.at[Buf::State(St::AttnOut)] == moved(
                at.dev != at.primary,
                mla_out(s, at.il, mla, x, w, pos as int, ctx as int),
                s.n_embd as int,
            )
            &&& latent_moves(s, at.il, x, w, pos as int, ctx as int, z)
        }),
{
    lemma_widths(s);
    let a = mla_query(s, at, pos);
    let b = mla_core(s, at, pos, ctx, Rope::Model);
    let c = quant_for(mla.gate, at.sc(Sc::Xq), at.xin(), s.n_embd);
    let e = project_out(s, at, mla.out, Wt::MlaOut, Sc::Heads, s.mla_out());
    let ops = mla_half(s, at, mla, cards, pos, ctx).ops;
    let n = (a.len() + b.len() + c.len()) as int;
    let d = ops.subrange(n, n + 2);
    assert(ops =~= a + b + c + d + e);
    lemma_run_add(a, b, w);
    lemma_run_add(a + b, c, w);
    lemma_run_add(a + b + c, d, w);
    lemma_run_add(a + b + c + d, e, w);
    let w1 = run(a, w);
    let w2 = run(b, w1);
    let w3 = run(c, w2);
    let w4 = run(d, w3);
    assert(w1.at[at.sc(Sc::Mq)] == mla_q(s, at.il, w.at[at.xin()], pos as int)) by {
        lemma_next(a, 0, w);
        lemma_next(a, 1, w);
    }
    let k = Buf::KCache(at.il);
    let v = Buf::VCache(at.il);
    lemma_run_keeps(a, a.len() as int, at.xin(), w);
    lemma_run_keeps(a, a.len() as int, k, w);
    lemma_run_keeps(a, a.len() as int, v, w);
    lemma_mla_core(s, at, pos, ctx, Rope::Model, w1);
    lemma_run_keeps(b, b.len() as int, at.xin(), w1);
    lemma_quant_for(mla.gate, at.sc(Sc::Xq), at.xin(), s.n_embd, w2);
    lemma_times(
        d,
        0,
        at.sc(Sc::Gate),
        at.wt(Wt::MlaGate),
        mla.gate,
        at.xin(),
        at.sc(Sc::Xq),
        s.n_embd,
        s.n_head,
        1,
        w3,
    );
    lemma_next(d, 1, w3);
    lemma_project_out(s, at, mla.out, Wt::MlaOut, Sc::Heads, s.mla_out(), w4);
    lemma_out_keeps(s, at, mla.out, Wt::MlaOut, Sc::Heads, s.mla_out(), k);
    lemma_out_keeps(s, at, mla.out, Wt::MlaOut, Sc::Heads, s.mla_out(), v);
    lemma_run_keeps(e, e.len() as int, k, w4);
    lemma_run_keeps(e, e.len() as int, v, w4);
}

proof fn lemma_route(s: Shape, il: usize, w: World)
    ensures
        ({
            let z = run(route(s, il), w);
            let x = w.at[Buf::State(St::Normed)];
            &&& z.at[Buf::State(St::RouterSelected)] == chosen(s, il, x, false)
            &&& z.at[Buf::State(St::RouterWeights)] == chosen(s, il, x, true)
            &&& z.at[Buf::State(St::Normed)] == x
        }),
{
    let r = route(s, il);
    lemma_next(r, 0, w);
    lemma_next(r, 1, w);
}

/// What the shared expert gives, zeros where there is none.
pub open spec fn shared_or_none(
    s: Shape,
    il: usize,
    shexp: bool,
    clamp: Option<usize>,
    x: Val,
) -> Val {
    if shexp {
        shared_out(s, il, clamp, x)
    } else {
        Val::Zeros { bytes: s.n_embd * 4 }
    }
}

proof fn lemma_shared(s: Shape, il: usize, shexp: bool, clamp: Option<usize>, w: World)
    ensures
        run(shared_half(s, il, shexp, clamp), w).at[Buf::State(St::SharedOut)] == shared_or_none(
            s,
            il,
            shexp,
            clamp,
            w.at[Buf::State(St::Normed)],
        ),
{
    let h = shared_half(s, il, shexp, clamp);
    lemma_next(h, 0, w);
    if shexp {
        lemma_next(h, 1, w);
        lemma_next(h, 2, w);
        lemma_next(h, 3, w);
    }
}

proof fn lemma_routed(s: Shape, il: usize, w: World)
    requires
        w.at[Buf::State(St::RouterSelected)] == chosen(
            s,
            il,
            w.at[Buf::State(St::Normed)],
            false,
        ),
        w.at[Buf::State(St::RouterWeights)] == chosen(s, il, w.at[Buf::State(St::Normed)], true),
    ensures
        run(routed_half(s, il), w).at[Buf::State(St::FfnOut)] == sum(
            routed_out(s, il, w.at[Buf::State(St::Normed)]),
            w.at[Buf::State(St::SharedOut)],
            s.n_embd as int,
        ),
{
    let o = routed_half(s, il);
    lemma_next(o, 0, w);
    lemma_next(o, 1, w);
    lemma_next(o, 2, w);
    lemma_next(o, 3, w);
}

#[verifier::rlimit(40)]
proof fn lemma_moe(s: Shape, il: usize, shexp: bool, clamp: Option<usize>, w: World)
    ensures
        ({
            let ops = route(s, il) + shared_half(s, il, shexp, clamp) + routed_half(s, il);
            let x = w.at[Buf::State(St::Normed)];
            run(ops, w).at[Buf::State(St::FfnOut)] == sum(
                routed_out(s, il, x),
                shared_or_none(s, il, shexp, clamp, x),
                s.n_embd as int,
            )
        }),
{
    let r = route(s, il);
    let sh = shared_half(s, il, shexp, clamp);
    let o = routed_half(s, il);
    lemma_run_add(r, sh, w);
    lemma_run_add(r + sh, o, w);
    let w1 = run(r, w);
    let w2 = run(sh, w1);
    lemma_route(s, il, w);
    lemma_shared(s, il, shexp, clamp, w1);
    lemma_run_keeps(sh, sh.len() as int, Buf::State(St::RouterSelected), w1);
    lemma_run_keeps(sh, sh.len() as int, Buf::State(St::RouterWeights), w1);
    lemma_run_keeps(sh, sh.len() as int, Buf::State(St::Normed), w1);
    lemma_routed(s, il, w2);
}

/// A buffer that the feed-forward half leaves as it is.
spec fn past_ffn(b: Buf) -> bool {
    lasting(b) || b == Buf::State(St::AfterAttn)
}

#[verifier::rlimit(40)]
proof fn lemma_ffn_keeps(s: Shape, il: usize, l: LayerW, clamp: Option<usize>, b: Buf)
    requires
        past_ffn(b),
    ensures
        keeps(ffn(s, il, l, clamp).ops, b),
{
    match l.ffn {
        Ffn::Dense => {
            assert(keeps(dense_ffn(s, il), b));
        },
        Ffn::Moe { shexp } => {
            let r = route(s, il);
            let sh = shared_half(s, il, shexp, clamp);
            let o = routed_half(s, il);
            assert(keeps(r, b));
            assert(keeps(sh, b));
            assert(keeps(o, b));
            lemma_keeps_add(r, sh, b);
            lemma_keeps_add(r + sh, o, b);
        },
        Ffn::Other => {},
    }
}

#[verifier::rlimit(40)]
proof fn lemma_mixer_keeps(
    s: Shape,
    at: Place,
    a: BailingW,
    cards: Seq<i32>,
    state: Option<KdaState>,
    pos: u32,
    ctx: u32,
    b: Buf,
)
    requires
        lasting(b) || b == Buf::State(St::Cur),
        !grows(a, at.il, b),
    ensures
        keeps(mixer(s, at, a, cards, state, pos, ctx).ops, b),
{
    match (a.kda, a.mla) {
        (Some(kda), _) => {
            let p = kda_project(s, at, kda);
            let r = kda_recurrence(s, at);
            let g = kda_gate(s, at, kda);
            let o = project_out(s, at, kda.out, Wt::KdaOut, Sc::O, s.d_inner());
            lemma_project_keeps(s, at, kda, b);
            assert(keeps(r, b));
            assert(keeps(g, b));
            lemma_out_keeps(s, at, kda.out, Wt::KdaOut, Sc::O, s.d_inner(), b);
            lemma_keeps_add(p, r, b);
            lemma_keeps_add(p + r, g, b);
            lemma_keeps_add(p + r + g, o, b);
            if cards.contains(at.dev) && state is Some {
                assert(kda_half(s, at, kda, cards, state).ops == p + r + g + o);
            }
        },
        (None, Some(mla)) => {
            let p = mla_query(s, at, pos);
            let r = mla_core(s, at, pos, ctx, Rope::Model);
            let c = quant_for(mla.gate, at.sc(Sc::Xq), at.xin(), s.n_embd);
            let o = project_out(s, at, mla.out, Wt::MlaOut, Sc::Heads, s.mla_out());
            let ops = mla_half(s, at, mla, cards, pos, ctx).ops;
            if cards.contains(at.dev) {
                let n = (p.len() + r.len() + c.len()) as int;
                let g = ops.subrange(n, n + 2);
                assert(ops =~= p + r + c + g + o);
                assert(keeps(p, b));
                assert(keeps(r, b));
                assert(keeps(c, b));
                assert(keeps(g, b));
                lemma_out_keeps(s, at, mla.out, Wt::MlaOut, Sc::Heads, s.mla_out(), b);
                lemma_keeps_add(p, r, b);
                lemma_keeps_add(p + r, c, b);
                lemma_keeps_add(p + r + c, g, b);
                lemma_keeps_add(p + r + c + g, o, b);
            }
        },
        _ => {},
    }
}

proof fn lemma_mixer(
    s: Shape,
    at: Place,
    a: BailingW,
    cards: Seq<i32>,
    state: Option<KdaState>,
    pos: u32,
    ctx: u32,
    w: World,
)
    requires
        s.mixers_fit(),
        pos < u32::MAX,
        mixer(s, at, a, cards, state, pos, ctx).end is Ok,
    ensures
        ({
            let z = run(mixer(s, at, a, cards, state, pos, ctx).ops, w);
            let n = s.n_embd as int;
            let x = w.at[at.xin()];
            let held = w.at[at.sc(Sc::Xq)];
            &&& a.kda is Some || a.mla is Some
            &&& z.at[Buf::State(St::AttnOut)] == moved(
                at.dev != at.primary,
                match a.kda {
                    Some(kda) => kda_out(s, at.il, kda, x, held, w),
                    None => mla_out(s, at.il, a.mla->Some_0, x, w, pos as int, ctx as int),
                },
                n,
            )
            &&& match a.kda {
                Some(kda) => kda_moves(
                    s,
                    at.il,
                    kda_rows(s, at.il, kda, x, quant_if(kda.wq, x, n, 1, held)),
                    w,
                    z,
                ),
                None => latent_moves(s, at.il, x, w, pos as int, ctx as int, z),
            }
        }),
{
    match (a.kda, a.mla) {
        (Some(kda), _) => {
            lemma_kda(s, at, kda, w);
            let p = kda_project(s, at, kda);
            let r = kda_recurrence(s, at);
            let o = project_out(s, at, kda.out, Wt::KdaOut, Sc::O, s.d_inner());
            assert(kda_half(s, at, kda, cards, state).ops == p + r + kda_gate(s, at, kda) + o);
        },
        (None, Some(mla)) => lemma_mla(s, at, mla, cards, pos, ctx, w),
        (None, None) => {},
    }
}

/// A mixer reads of the world its input, the scratch for quantized rows, and what
/// its layer keeps.
proof fn lemma_same_mixer(
    s: Shape,
    il: usize,
    a: BailingW,
    x: Val,
    held: Val,
    pos: int,
    ctx: int,
    v: World,
    w: World,
)
    requires
        forall|b: Buf| #[trigger] lasting(b) ==> v.at[b] == w.at[b],
    ensures
        a.kda matches Some(kda) ==> kda_out(s, il, kda, x, held, v) == kda_out(
            s,
            il,
            kda,
            x,
            held,
            w,
        ),
        a.mla matches Some(mla) ==> mla_out(s, il, mla, x, v, pos, ctx) == mla_out(
            s,
            il,
            mla,
            x,
            w,
            pos,
            ctx,
        ),
        forall|z: World, r: KdaRow| #[trigger]
            kda_moves(s, il, r, v, z) ==> kda_moves(s, il, r, w, z),
        forall|z: World| #[trigger]
            latent_moves(s, il, x, v, pos, ctx, z) ==> latent_moves(s, il, x, w, pos, ctx, z),
{
    assert(lasting(Buf::Kda(il, KdaBuf::S)));
    assert(lasting(Buf::Kda(il, KdaBuf::ConvQ)));
    assert(lasting(Buf::Kda(il, KdaBuf::ConvK)));
    assert(lasting(Buf::Kda(il, KdaBuf::ConvV)));
    assert(lasting(Buf::KCache(il)));
    assert(lasting(Buf::VCache(il)));
}

/// How a layer begins, up to its mixer.
#[verifier::rlimit(40)]
proof fn lemma_front(s: Shape, at: Place, cards: Seq<i32>, w: World)
    requires
        hop_in(s, at, cards).end is Ok,
    ensures
        ({
            let z = run(Plan::of(enter(s, at.il)).and(hop_in(s, at, cards)).ops, w);
            let cur = w.at[Buf::State(St::Cur)];
            let n = s.n_embd as int;
            &&& z.at[at.xin()] == moved(
                at.dev != at.primary,
                norm(cur, Buf::Layer(at.il, Wt::AttnNorm), n, 1),
                n,
            )
            &&& z.at[Buf::State(St::Cur)] == cur
            &&& z.at[at.sc(Sc::Xq)] == w.at[at.sc(Sc::Xq)]
            &&& forall|b: Buf| #[trigger] lasting(b) ==> z.at[b] == w.at[b]
        }),
{
    let p1 = Plan::of(enter(s, at.il));
    let p2 = hop_in(s, at, cards);
    lemma_run_and(p1, p2, w);
    let w1 = run(p1.ops, w);
    let w2 = run(p2.ops, w1);
    lemma_next(p1.ops, 0, w);
    assert(w2.at[at.xin()] == moved(
        at.dev != at.primary,
        w1.at[Buf::State(St::Normed)],
        s.n_embd as int,
    )) by {
        reveal_with_fuel(after, 4);
    }
    lemma_run_keeps(p2.ops, p2.ops.len() as int, Buf::State(St::Cur), w1);
    lemma_run_keeps(p2.ops, p2.ops.len() as int, at.sc(Sc::Xq), w1);
    assert forall|b: Buf| #[trigger] lasting(b) implies w2.at[b] == w.at[b] by {
        lemma_run_keeps(p1.ops, p1.ops.len() as int, b, w);
        lemma_run_keeps(p2.ops, p2.ops.len() as int, b, w1);
    }
}

/// The addition that ends a layer.
spec fn last_add(s: Shape) -> Seq<Op> {
    seq![
        Op::Add {
            out: Buf::State(St::Cur),
            a: Buf::State(St::AfterAttn),
            b: Buf::State(St::FfnOut),
            n: s.n_embd,
        },
    ]
}

/// How a layer ends, behind its mixer.
#[verifier::rlimit(40)]
proof fn lemma_back(s: Shape, il: usize, l: LayerW, clamp: Option<usize>, w: World)
    requires
        ffn(s, il, l, clamp).end is Ok,
    ensures
        ({
            let z = run(last_add(s), run(ffn(s, il, l, clamp).ops, run(rejoin(s, il), w)));
            let n = s.n_embd as int;
            let mid = sum(w.at[Buf::State(St::Cur)], w.at[Buf::State(St::AttnOut)], n);
            let y = norm(mid, Buf::Layer(il, Wt::FfnNorm), n, 1);
            &&& z.at[Buf::State(St::Cur)] == sum(mid, ffn_out(s, il, l, clamp, y), n)
            &&& forall|b: Buf| #[trigger] lasting(b) ==> z.at[b] == w.at[b]
        }),
{
    let p4 = rejoin(s, il);
    let p5 = ffn(s, il, l, clamp).ops;
    let last = last_add(s);
    let w4 = run(p4, w);
    let w5 = run(p5, w4);
    let mid = Buf::State(St::AfterAttn);
    lemma_next(p4, 0, w);
    lemma_next(p4, 1, w);
    match l.ffn {
        Ffn::Dense => lemma_dense(s, il, w4),
        Ffn::Moe { shexp } => lemma_moe(s, il, shexp, clamp, w4),
        Ffn::Other => {},
    }
    lemma_ffn_keeps(s, il, l, clamp, mid);
    lemma_run_keeps(p5, p5.len() as int, mid, w4);
    lemma_next(last, 0, w5);
    assert forall|b: Buf| #[trigger] lasting(b) implies run(last, w5).at[b] == w.at[b] by {
        lemma_run_keeps(p4, p4.len() as int, b, w);
        lemma_ffn_keeps(s, il, l, clamp, b);
        lemma_run_keeps(p5, p5.len() as int, b, w4);
    }
}

/// A layer computes the attention half of its normed input, adds it to the
/// residual, and adds the feed-forward half of that; nothing of another layer
/// changes.
#[verifier::rlimit(40)]
pub proof fn layer_computes(m: Model, rt: BailingRt, il: usize, pos: u32, ctx: u32, w: World)
    requires
        m.shape.mixers_fit(),
        pos < u32::MAX,
        m.bailing_layer(rt, il, pos, ctx).end is Ok,
    ensures
        layer_does(
            m,
            rt.primary,
            il,
            pos as int,
            ctx as int,
            w,
            run(m.bailing_layer(rt, il, pos, ctx).ops, w),
        ),
{
    reveal(layer);
    let s = m.shape;
    let l = m.layers@[il as int];
    let at = Place { il, dev: m.attn_dev(il, rt.primary), primary: rt.primary };
    let cards = rt.scratch@;
    let state = rt.states@[il as int];
    let clamp = m.clamp_of(il);
    let a = l.attn->Bailing_0;
    let p2 = Plan::of(enter(s, il)).and(hop_in(s, at, cards));
    let p3 = mixer(s, at, a, cards, state, pos, ctx);
    let p4 = Plan::of(rejoin(s, il));
    let p5 = ffn(s, il, l, clamp);
    let last = Plan::of(last_add(s));
    assert(m.bailing_layer(rt, il, pos, ctx) == p2.and(p3).and(p4).and(p5).and(last));
    lemma_run_and(p2, p3, w);
    lemma_run_and(p2.and(p3), p4, w);
    lemma_run_and(p2.and(p3).and(p4), p5, w);
    lemma_run_and(p2.and(p3).and(p4).and(p5), last, w);
    let w2 = run(p2.ops, w);
    let w3 = run(p3.ops, w2);
    let w6 = run(last.ops, run(p5.ops, run(p4.ops, w3)));
    let cur = Buf::State(St::Cur);
    lemma_front(s, at, cards, w);
    lemma_mixer(s, at, a, cards, state, pos, ctx, w2);
    lemma_same_mixer(
        s,
        il,
        a,
        w2.at[at.xin()],
        w2.at[at.sc(Sc::Xq)],
        pos as int,
        ctx as int,
        w2,
        w,
    );
    lemma_mixer_keeps(s, at, a, cards, state, pos, ctx, cur);
    lemma_run_keeps(p3.ops, p3.ops.len() as int, cur, w2);
    lemma_back(s, il, l, clamp, w3);
    assert forall|b: Buf| #[trigger] lasting(b) && !grows(a, il, b) implies w6.at[b] == w.at[b] by {
        lemma_mixer_keeps(s, at, a, cards, state, pos, ctx, b);
        lemma_run_keeps(p3.ops, p3.ops.len() as int, b, w2);
    }
    assert(lasting(Buf::Kda(il, KdaBuf::S)));
    assert(lasting(Buf::Kda(il, KdaBuf::ConvQ)));
    assert(lasting(Buf::Kda(il, KdaBuf::ConvK)));
    assert(lasting(Buf::Kda(il, KdaBuf::ConvV)));
    assert(lasting(Buf::KCache(il)));
    assert(lasting(Buf::VCache(il)));
}

} // verus!
