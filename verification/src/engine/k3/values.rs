//! What a K3 pass computes.

use crate::engine::blocks::{
    dense_ffn, kda_recurrence, mla_core, project_out, quant_for, KdaState, Place,
};
use crate::engine::formula::{
    bx, dense, kda_decay, kda_heads, kda_moves, kda_strength, latent_heads, latent_moves,
    lemma_dense, lemma_mla_core, lemma_out_keeps, lemma_project_out, lemma_quant_for,
    lemma_recurrence, lemma_times, lemma_widths, moved, norm, quant_if, row_of, sum, times_own,
    times_w, KdaRow,
};
use crate::engine::hazard::{keeps, lemma_keeps_add};
use crate::engine::k3::K3Rt;
use crate::engine::k3::blocks::{
    enter, entered, ffn, hop_in, kda_project, layer, mixer, mla_half, mla_query, moe, rejoin, route,
    routed_half, shared_half, shift,
};
use crate::engine::ops::{Buf, K3Buf, KdaBuf, Op, Part, Plan, Rope, Sc, St, Wt};
use crate::engine::shape::{
    f32_bytes, Attn, Ffn, KdaW, LayerW, MlaW, Model, RoutedW, Shape, ShexpW, K3W,
};
use crate::engine::value::{
    after, lemma_next, lemma_run_add, lemma_run_and, lemma_run_keeps, patched, run, Val, World,
};
use vstd::prelude::*;

verus! {

/// A row with the banked residuals mixed in, `k` of them, and normed.  Without a
/// bank the row is normed as it is.
pub open spec fn deep_norm(s: Shape, x: Val, bank: Val, k: int, score: Buf, gain: Buf) -> Val {
    if s.attn_res_block == 0 {
        norm(x, gain, s.n_embd as int, 1)
    } else {
        norm(
            Val::Depth {
                x: bx(x),
                bank: if k > 0 {
                    Some(bx(bank))
                } else {
                    None
                },
                w: score,
                n: s.n_embd as int,
                banked: k,
            },
            gain,
            s.n_embd as int,
            1,
        )
    }
}

/// Every `attn_res_block`-th layer from the first on starts a new block.
pub open spec fn starts_block(s: Shape, il: int) -> bool {
    s.attn_res_block != 0 && exists|b: int| #[trigger] (b * s.attn_res_block) == il
}

/// The rows that a KDA mixer projects its input to.
pub open spec fn kda_rows(s: Shape, il: usize, kda: KdaW, x: Val, xq: Val) -> KdaRow {
    let n = s.n_embd as int;
    let d = s.n_head * s.kda_head_dim;
    let raw = Val::MulFloat {
        w: Buf::Layer(il, Wt::KdaFb),
        x: bx(
            times_w(kda.f_a, Buf::Layer(il, Wt::KdaFa), x, xq, n, s.kda_head_dim as int, 1),
        ),
        n_in: s.kda_head_dim as int,
        n_out: d,
        rows: 1,
    };
    let beta = times_w(kda.beta_w, Buf::Layer(il, Wt::KdaBeta), x, xq, n, s.n_head as int, 1);
    KdaRow {
        q: times_w(kda.wq, Buf::Layer(il, Wt::KdaWq), x, xq, n, d, 1),
        k: times_w(kda.wk, Buf::Layer(il, Wt::KdaWk), x, xq, n, d, 1),
        v: times_w(kda.wv, Buf::Layer(il, Wt::KdaWv), x, xq, n, d, 1),
        g: kda_decay(s, il, raw, beta),
        beta: kda_strength(s, il, raw, beta),
    }
}

/// What a KDA mixer gives of its input.  `held`: what the scratch for quantized
/// rows held.
pub open spec fn kda_out(s: Shape, il: usize, kda: KdaW, x: Val, held: Val, w: World) -> Val {
    let n = s.n_embd as int;
    let d = s.n_head * s.kda_head_dim;
    let xq = quant_if(kda.wq, x, n, 1, held);
    let gate = times_w(kda.wg, Buf::Layer(il, Wt::KdaWg), x, xq, n, d, 1);
    let o = Val::Gated {
        x: bx(kda_heads(s, il, kda_rows(s, il, kda, x, xq), w)),
        gate: bx(gate),
        n: d,
    };
    times_own(kda.out, Buf::Layer(il, Wt::KdaOut), o, d, n, 1)
}

/// The queries of the latent attention.
pub open spec fn mla_q(s: Shape, il: usize, x: Val) -> Val {
    let rank = Val::Mul {
        w: Buf::Layer(il, Wt::MlaQa),
        x: bx(x),
        n_in: s.n_embd as int,
        n_out: s.n_lora_q as int,
        rows: 1,
    };
    Val::Mul {
        w: Buf::Layer(il, Wt::MlaQb),
        x: bx(norm(rank, Buf::Layer(il, Wt::MlaQaNorm), s.n_lora_q as int, 1)),
        n_in: s.n_lora_q as int,
        n_out: s.n_head * s.qk_dim,
        rows: 1,
    }
}

/// What the latent attention gives of its input; positions do not turn the heads.
pub open spec fn mla_out(
    s: Shape,
    il: usize,
    mla: MlaW,
    x: Val,
    w: World,
    pos: int,
    ctx: int,
) -> Val {
    let n = s.n_embd as int;
    let d = s.n_head * s.value_mla;
    let heads = Val::Gated {
        x: bx(latent_heads(s, il, x, mla_q(s, il, x), w, pos, ctx, Rope::Identity)),
        gate: bx(times_own(mla.gate, Buf::Layer(il, Wt::MlaGate), x, n, d, 1)),
        n: d,
    };
    times_own(mla.out, Buf::Layer(il, Wt::MlaOut), heads, d, n, 1)
}

/// The router's choice for a row.
pub open spec fn chosen(s: Shape, il: usize, x: Val, weights: bool) -> Val {
    Val::Best {
        weights,
        logits: bx(
            Val::MulFloat {
                w: Buf::Layer(il, Wt::GateInp),
                x: bx(x),
                n_in: s.n_embd as int,
                n_out: s.n_expert as int,
                rows: 1,
            },
        ),
        bias: Buf::Layer(il, Wt::ProbsB),
        of: s.n_expert as int,
        used: s.n_expert_used as int,
        rows: 1,
        softmax: false,
    }
}

/// What the shared experts give of a row.
pub open spec fn shared_out(s: Shape, il: usize, sh: ShexpW, x: Val) -> Val {
    let n = s.n_embd as int;
    let f = s.n_ff_shexp as int;
    let y = row_of(x, n);
    let mid = Val::Glu {
        gate: bx(times_own(sh.gate, Buf::Layer(il, Wt::ShexpGate), y, n, f, 1)),
        up: bx(times_own(sh.up, Buf::Layer(il, Wt::ShexpUp), y, n, f, 1)),
        n: f,
        clamp: None,
        act: s.moe_act_op as int,
    };
    row_of(times_own(sh.down, Buf::Layer(il, Wt::ShexpDown), mid, f, n, 1), n)
}

/// What the routed experts give of a row: in the latent space, and back.
pub open spec fn routed_out(s: Shape, il: usize, routed: RoutedW, x: Val) -> Val {
    let n = s.n_embd as int;
    let lat = s.n_expert_latent as int;
    let low = times_own(routed.down, Buf::Layer(il, Wt::RoutedDown), x, n, lat, 1);
    let made = Val::Experts {
        part: Part::Layer(il),
        il: il as int,
        picks: s.n_expert_used as int,
        act: 0,
        rows: 1,
        width: lat,
        selected: bx(chosen(s, il, x, false)),
        weights: bx(chosen(s, il, x, true)),
        x: bx(row_of(low, lat)),
        xq: bx(Val::Quant { x: bx(low), n: lat, rows: 1 }),
    };
    let back = if routed.norm {
        norm(made, Buf::Layer(il, Wt::RoutedNorm), lat, 1)
    } else {
        row_of(made, lat)
    };
    times_own(routed.up, Buf::Layer(il, Wt::RoutedUp), back, lat, n, 1)
}

/// What the feed-forward half gives of a normed row.
pub open spec fn ffn_out(s: Shape, il: usize, l: LayerW, x: Val) -> Val {
    match (l.ffn, l.attn) {
        (Ffn::Moe { .. }, Attn::K3(K3W { shexp, routed: Some(routed), .. })) => sum(
            routed_out(s, il, routed, x),
            match shexp {
                Some(sh) => shared_out(s, il, sh, x),
                None => Val::Zeros { bytes: s.n_embd * 4 },
            },
            s.n_embd as int,
        ),
        _ => dense(s, il, x),
    }
}

/// The residual once the attention half of a layer has given `out`: it starts
/// anew where the layer's input went to the bank, and goes on elsewhere.
pub open spec fn rejoined(s: Shape, il: int, cur: Val, out: Val) -> Val {
    if starts_block(s, il) {
        row_of(out, s.n_embd as int)
    } else {
        sum(cur, out, s.n_embd as int)
    }
}

/// The bank once a layer has begun, `k` rows in it before.
pub open spec fn bank_after(s: Shape, il: int, bank: Val, k: int, cur: Val) -> Val {
    if starts_block(s, il) {
        patched(bank, k * s.n_embd * 4, cur, 0, s.n_embd * 4)
    } else {
        bank
    }
}

/// A layer, from what was there before it to what is there after it, `k` rows
/// being banked.
pub open spec fn layer_does(
    m: Model,
    primary: i32,
    il: usize,
    k: int,
    pos: int,
    ctx: int,
    w: World,
    z: World,
) -> bool {
    let s = m.shape;
    let l = m.layers@[il as int];
    let dev = if il < m.attn_layer_dev@.len() {
        m.attn_layer_dev@[il as int]
    } else {
        primary
    };
    let far = dev != primary;
    let n = s.n_embd as int;
    let cur = w.at[Buf::State(St::Cur)];
    let bank = w.at[Buf::K3(K3Buf::Ckpt)];
    let input = deep_norm(
        s,
        cur,
        bank,
        k,
        Buf::Layer(il, Wt::AttnResScore),
        Buf::Layer(il, Wt::AttnNorm),
    );
    let x = moved(far, input, n);
    let held = w.at[Buf::Scratch(dev, Sc::Xq)];
    let banked = bank_after(s, il as int, bank, k, cur);
    let k2 = if starts_block(s, il as int) {
        k + 1
    } else {
        k
    };
    &&& l.attn is K3
    &&& l.ffn is Dense || (l.ffn is Moe && l.attn->K3_0.routed is Some)
    &&& ({
        let a = l.attn->K3_0;
        let out = moved(
            far,
            match a.kda {
                Some(kda) => kda_out(s, il, kda, x, held, w),
                None => mla_out(s, il, a.mla->Some_0, x, w, pos, ctx),
            },
            n,
        );
        let mid = rejoined(s, il as int, cur, out);
        let y = deep_norm(
            s,
            mid,
            banked,
            k2,
            Buf::Layer(il, Wt::FfnResScore),
            Buf::Layer(il, Wt::FfnNorm),
        );
        &&& z.at[Buf::State(St::Cur)] == sum(mid, ffn_out(s, il, l, y), n)
        &&& z.at[Buf::K3(K3Buf::Ckpt)] == banked
        &&& match a.kda {
            Some(kda) => kda_moves(
                s,
                il,
                kda_rows(s, il, kda, x, quant_if(kda.wq, x, n, 1, held)),
                w,
                z,
            ),
            None => a.mla is Some && latent_moves(s, il, x, w, pos, ctx, z),
        }
        &&& forall|b: Buf| #[trigger]
            lasting(b) && !grows(a, il, b) ==> z.at[b] == w.at[b]
    })
}

/// What outlasts a token: the recurrent states and the caches.
pub open spec fn lasting(b: Buf) -> bool {
    b is Kda || b is KCache || b is VCache
}

/// What a layer keeps of the row it saw.
pub open spec fn grows(a: K3W, il: usize, b: Buf) -> bool {
    match a.kda {
        Some(_) => b matches Buf::Kda(j, _) && j == il,
        None => b == Buf::KCache(il) || b == Buf::VCache(il),
    }
}

#[verifier::rlimit(40)]
proof fn lemma_block_start(s: Shape, il: usize)
    ensures
        starts_block(s, il as int) <==> s.attn_res_block > 0 && il % (s.attn_res_block as usize)
            == 0,
{
    if s.attn_res_block > 0 {
        let b = s.attn_res_block as int;
        let i = il as int;
        if i % b == 0 {
            vstd::arithmetic::div_mod::lemma_fundamental_div_mod(i, b);
            vstd::arithmetic::mul::lemma_mul_is_commutative(b, i / b);
            assert((i / b) * b == i);
        }
        if starts_block(s, i) {
            let q = choose|q: int| #[trigger] (q * s.attn_res_block) == i;
            vstd::arithmetic::div_mod::lemma_mod_multiples_basic(q, b);
        }
    }
}

proof fn lemma_enter(s: Shape, il: usize, k: u32, w: World)
    requires
        k * s.n_embd * 4 <= u64::MAX,
    ensures
        ({
            let z = run(enter(s, il, k), w);
            let cur = w.at[Buf::State(St::Cur)];
            let bank = w.at[Buf::K3(K3Buf::Ckpt)];
            &&& z.at[Buf::State(St::Normed)] == deep_norm(
                s,
                cur,
                bank,
                k as int,
                Buf::Layer(il, Wt::AttnResScore),
                Buf::Layer(il, Wt::AttnNorm),
            )
            &&& z.at[Buf::K3(K3Buf::Ckpt)] == bank_after(s, il as int, bank, k as int, cur)
        }),
{
    lemma_block_start(s, il);
    assert(0 <= k * s.n_embd) by (nonlinear_arith);
    assert(k * s.n_embd == s.n_embd * k) by (nonlinear_arith);
    reveal_with_fuel(after, 4);
}

#[verifier::rlimit(40)]
proof fn lemma_kda_project(s: Shape, at: Place, kda: KdaW, w: World)
    requires
        s.mixers_fit(),
    ensures
        ({
            let z = run(kda_project(s, at, kda), w);
            let x = w.at[at.xin()];
            let xq = quant_if(kda.wq, x, s.n_embd as int, 1, w.at[at.sc(Sc::Xq)]);
            let r = kda_rows(s, at.il, kda, x, xq);
            &&& z.at[at.sc(Sc::Q)] == r.q
            &&& z.at[at.sc(Sc::K)] == r.k
            &&& z.at[at.sc(Sc::V)] == r.v
            &&& z.at[at.sc(Sc::G)] == r.g
            &&& z.at[at.sc(Sc::Beta)] == r.beta
            &&& z.at[at.sc(Sc::Gate)] == times_w(
                kda.wg,
                Buf::Layer(at.il, Wt::KdaWg),
                x,
                xq,
                s.n_embd as int,
                s.n_head * s.kda_head_dim,
                1,
            )
        }),
{
    lemma_widths(s);
    let q = quant_for(kda.wq, at.sc(Sc::Xq), at.xin(), s.n_embd);
    let ops = kda_project(s, at, kda);
    let rest = ops.skip(q.len() as int);
    assert(ops =~= q + rest);
    lemma_run_add(q, rest, w);
    lemma_quant_for(kda.wq, at.sc(Sc::Xq), at.xin(), s.n_embd, w);
    let v = run(q, w);
    let n = s.n_embd;
    let d = s.d_inner();
    let x = at.xin();
    let xq = at.sc(Sc::Xq);
    lemma_times(rest, 0, at.sc(Sc::Q), at.wt(Wt::KdaWq), kda.wq, x, xq, n, d, 1, v);
    lemma_times(rest, 1, at.sc(Sc::K), at.wt(Wt::KdaWk), kda.wk, x, xq, n, d, 1, v);
    lemma_times(rest, 2, at.sc(Sc::V), at.wt(Wt::KdaWv), kda.wv, x, xq, n, d, 1, v);
    lemma_times(rest, 3, at.sc(Sc::Gate), at.wt(Wt::KdaWg), kda.wg, x, xq, n, d, 1, v);
    lemma_times(
        rest,
        4,
        at.sc(Sc::Fa),
        at.wt(Wt::KdaFa),
        kda.f_a,
        x,
        xq,
        n,
        s.kda_head_dim,
        1,
        v,
    );
    lemma_next(rest, 5, v);
    lemma_times(
        rest,
        6,
        at.sc(Sc::Beta),
        at.wt(Wt::KdaBeta),
        kda.beta_w,
        x,
        xq,
        n,
        s.n_head,
        1,
        v,
    );
    lemma_next(rest, 7, v);
}

/// A buffer that no part of the mixer's front writes.
spec fn aside(b: Buf) -> bool {
    b is Kda || b is KCache || b is VCache || b is State || b is K3
}

proof fn lemma_project_keeps(s: Shape, at: Place, kda: KdaW, b: Buf)
    requires
        aside(b),
    ensures
        keeps(kda_project(s, at, kda), b),
{
    let q = quant_for(kda.wq, at.sc(Sc::Xq), at.xin(), s.n_embd);
    let ops = kda_project(s, at, kda);
    let rest = ops.skip(q.len() as int);
    assert(ops =~= q + rest);
    assert(keeps(rest, b));
    lemma_keeps_add(q, rest, b);
}

#[verifier::rlimit(40)]
proof fn lemma_kda(s: Shape, at: Place, kda: KdaW, w: World)
    requires
        s.mixers_fit(),
    ensures
        ({
            let ops = kda_project(s, at, kda) + kda_recurrence(s, at) + seq![
                Op::SigmoidGate { buf: at.sc(Sc::O), gate: at.sc(Sc::Gate), n: s.d_inner() },
            ] + project_out(s, at, kda.out, Wt::KdaOut, Sc::O, s.d_inner());
            let z = run(ops, w);
            let x = w.at[at.xin()];
            let held = w.at[at.sc(Sc::Xq)];
            &&& z.at[Buf::State(St::AttnOut)] == moved(
                at.dev != at.primary,
                kda_out(s, at.il, kda, x, held, w),
                s.n_embd as int,
            )
            &&& kda_moves(
                s,
                at.il,
                kda_rows(s, at.il, kda, x, quant_if(kda.wq, x, s.n_embd as int, 1, held)),
                w,
                z,
            )
        }),
{
    lemma_widths(s);
    let a = kda_project(s, at, kda);
    let b = kda_recurrence(s, at);
    let c = seq![Op::SigmoidGate { buf: at.sc(Sc::O), gate: at.sc(Sc::Gate), n: s.d_inner() }];
    let d = project_out(s, at, kda.out, Wt::KdaOut, Sc::O, s.d_inner());
    lemma_run_add(a, b, w);
    lemma_run_add(a + b, c, w);
    lemma_run_add(a + b + c, d, w);
    let w1 = run(a, w);
    let w2 = run(b, w1);
    let w3 = run(c, w2);
    lemma_kda_project(s, at, kda, w);
    lemma_project_keeps(s, at, kda, Buf::Kda(at.il, KdaBuf::S));
    lemma_project_keeps(s, at, kda, Buf::Kda(at.il, KdaBuf::ConvQ));
    lemma_project_keeps(s, at, kda, Buf::Kda(at.il, KdaBuf::ConvK));
    lemma_project_keeps(s, at, kda, Buf::Kda(at.il, KdaBuf::ConvV));
    lemma_run_keeps(a, a.len() as int, Buf::Kda(at.il, KdaBuf::S), w);
    lemma_run_keeps(a, a.len() as int, Buf::Kda(at.il, KdaBuf::ConvQ), w);
    lemma_run_keeps(a, a.len() as int, Buf::Kda(at.il, KdaBuf::ConvK), w);
    lemma_run_keeps(a, a.len() as int, Buf::Kda(at.il, KdaBuf::ConvV), w);
    lemma_recurrence(s, at, w1);
    lemma_run_keeps(b, b.len() as int, at.sc(Sc::Gate), w1);
    lemma_next(c, 0, w2);
    lemma_project_out(s, at, kda.out, Wt::KdaOut, Sc::O, s.d_inner(), w3);
    lemma_out_keeps(s, at, kda.out, Wt::KdaOut, Sc::O, s.d_inner(), Buf::Kda(at.il, KdaBuf::S));
    lemma_out_keeps(
        s,
        at,
        kda.out,
        Wt::KdaOut,
        Sc::O,
        s.d_inner(),
        Buf::Kda(at.il, KdaBuf::ConvQ),
    );
    lemma_out_keeps(
        s,
        at,
        kda.out,
        Wt::KdaOut,
        Sc::O,
        s.d_inner(),
        Buf::Kda(at.il, KdaBuf::ConvK),
    );
    lemma_out_keeps(
        s,
        at,
        kda.out,
        Wt::KdaOut,
        Sc::O,
        s.d_inner(),
        Buf::Kda(at.il, KdaBuf::ConvV),
    );
    lemma_run_keeps(d, d.len() as int, Buf::Kda(at.il, KdaBuf::S), w3);
    lemma_run_keeps(d, d.len() as int, Buf::Kda(at.il, KdaBuf::ConvQ), w3);
    lemma_run_keeps(d, d.len() as int, Buf::Kda(at.il, KdaBuf::ConvK), w3);
    lemma_run_keeps(d, d.len() as int, Buf::Kda(at.il, KdaBuf::ConvV), w3);
}

#[verifier::rlimit(40)]
proof fn lemma_mla(s: Shape, at: Place, mla: MlaW, cards: Seq<i32>, pos: u32, ctx: u32, w: World)
    requires
        s.mixers_fit(),
        pos < u32::MAX,
        cards.contains(at.dev),
    ensures
        ({
            let z = run(mla_half(s, at, mla, cards, pos, ctx).ops, w);
            let x = w.at[at.xin()];
            &&& z.at[Buf::State(St::AttnOut)] == moved(
                at.dev != at.primary,
                mla_out(s, at.il, mla, x, w, pos as int, ctx as int),
                s.n_embd as int,
            )
            &&& latent_moves(s, at.il, x, w, pos as int, ctx as int, z)
        }),
{
    lemma_widths(s);
    let a = mla_query(s, at);
    let b = mla_core(s, at, pos, ctx, Rope::Identity);
    let c = quant_for(mla.gate, at.sc(Sc::Xq), at.xin(), s.n_embd);
    let e = project_out(s, at, mla.out, Wt::MlaOut, Sc::Heads, s.mla_out());
    let ops = mla_half(s, at, mla, cards, pos, ctx).ops;
    let n = (a.len() + b.len() + c.len()) as int;
    let d = ops.subrange(n, n + 2);
    assert(ops =~= a + b + c + d + e);
    lemma_run_add(a, b, w);
    lemma_run_add(a + b, c, w);
    lemma_run_add(a + b + c, d, w);
    lemma_run_add(a + b + c + d, e, w);
    let w1 = run(a, w);
    let w2 = run(b, w1);
    let w3 = run(c, w2);
    let w4 = run(d, w3);
    assert(w1.at[at.sc(Sc::Mq)] == mla_q(s, at.il, w.at[at.xin()])) by {
        lemma_next(a, 0, w);
        lemma_next(a, 1, w);
        lemma_next(a, 2, w);
    }
    let k = Buf::KCache(at.il);
    let v = Buf::VCache(at.il);
    lemma_run_keeps(a, a.len() as int, at.xin(), w);
    lemma_run_keeps(a, a.len() as int, k, w);
    lemma_run_keeps(a, a.len() as int, v, w);
    lemma_mla_core(s, at, pos, ctx, Rope::Identity, w1);
    lemma_run_keeps(b, b.len() as int, at.xin(), w1);
    lemma_quant_for(mla.gate, at.sc(Sc::Xq), at.xin(), s.n_embd, w2);
    lemma_times(
        d,
        0,
        at.sc(Sc::Gate),
        at.wt(Wt::MlaGate),
        mla.gate,
        at.xin(),
        at.sc(Sc::Xq),
        s.n_embd,
        s.mla_out(),
        1,
        w3,
    );
    lemma_next(d, 1, w3);
    lemma_project_out(s, at, mla.out, Wt::MlaOut, Sc::Heads, s.mla_out(), w4);
    lemma_out_keeps(s, at, mla.out, Wt::MlaOut, Sc::Heads, s.mla_out(), k);
    lemma_out_keeps(s, at, mla.out, Wt::MlaOut, Sc::Heads, s.mla_out(), v);
    lemma_run_keeps(e, e.len() as int, k, w4);
    lemma_run_keeps(e, e.len() as int, v, w4);
}

proof fn lemma_rejoin(s: Shape, il: usize, k: u32, w: World)
    ensures
        ({
            let z = run(rejoin(s, il, k), w);
            let mid = rejoined(
                s,
                il as int,
                w.at[Buf::State(St::Cur)],
                w.at[Buf::State(St::AttnOut)],
            );
            &&& z.at[Buf::State(St::AfterAttn)] == mid
            &&& z.at[Buf::State(St::Normed)] == deep_norm(
                s,
                mid,
                w.at[Buf::K3(K3Buf::Ckpt)],
                k as int,
                Buf::Layer(il, Wt::FfnResScore),
                Buf::Layer(il, Wt::FfnNorm),
            )
        }),
{
    lemma_block_start(s, il);
    reveal_with_fuel(after, 4);
}

proof fn lemma_shift(s: Shape, at: Place, dst: Buf, src: Buf, to: i32, w: World)
    ensures
        run(shift(s, at, dst, src, to), w).at[dst] == row_of(w.at[src], s.n_embd as int),
{
    reveal_with_fuel(after, 4);
}

#[verifier::rlimit(40)]
proof fn lemma_shared(s: Shape, at: Place, sh: ShexpW, w: World)
    ensures
        run(shared_half(s, at, sh), w).at[Buf::State(St::SharedOut)] == shared_out(
            s,
            at.il,
            sh,
            w.at[Buf::State(St::Normed)],
        ),
{
    let a = shift(s, at, at.sc(Sc::FfnNormedA), Buf::State(St::Normed), at.dev);
    let c = shift(s, at, Buf::State(St::SharedOut), at.sc(Sc::ShexpOut), at.primary);
    let ops = shared_half(s, at, sh);
    let b = ops.subrange(a.len() as int, a.len() as int + 6);
    assert(ops =~= a + b + c);
    lemma_run_add(a, b, w);
    lemma_run_add(a + b, c, w);
    let n = s.n_embd;
    let f = s.n_ff_shexp;
    let y = at.sc(Sc::FfnNormedA);
    let yq = at.sc(Sc::XqFfn);
    let v = run(a, w);
    lemma_shift(s, at, y, Buf::State(St::Normed), at.dev, w);
    lemma_next(b, 0, v);
    lemma_times(b, 1, at.sc(Sc::GateSh), at.wt(Wt::ShexpGate), sh.gate, y, yq, n, f, 1, v);
    lemma_times(b, 2, at.sc(Sc::UpSh), at.wt(Wt::ShexpUp), sh.up, y, yq, n, f, 1, v);
    lemma_next(b, 3, v);
    lemma_next(b, 4, v);
    lemma_times(
        b,
        5,
        at.sc(Sc::ShexpOut),
        at.wt(Wt::ShexpDown),
        sh.down,
        at.sc(Sc::MidSh),
        at.sc(Sc::XqMid),
        f,
        n,
        1,
        v,
    );
    lemma_shift(s, at, Buf::State(St::SharedOut), at.sc(Sc::ShexpOut), at.primary, run(b, v));
}

#[verifier::rlimit(40)]
proof fn lemma_routed(s: Shape, at: Place, routed: RoutedW, w: World)
    requires
        w.at[Buf::State(St::RouterSelected)] == chosen(
            s,
            at.il,
            w.at[Buf::State(St::Normed)],
            false,
        ),
        w.at[Buf::State(St::RouterWeights)] == chosen(
            s,
            at.il,
            w.at[Buf::State(St::Normed)],
            true,
        ),
    ensures
        run(routed_half(s, at, routed), w).at[Buf::State(St::FfnOut)] == sum(
            routed_out(s, at.il, routed, w.at[Buf::State(St::Normed)]),
            w.at[Buf::State(St::SharedOut)],
            s.n_embd as int,
        ),
{
    let xq = Buf::Scratch(at.primary, Sc::Xq);
    let lat = s.n_expert_latent;
    let a = quant_for(routed.down, xq, Buf::State(St::Normed), s.n_embd);
    let c = quant_for(routed.up, xq, Buf::K3(K3Buf::LatOut), lat);
    let ops = routed_half(s, at, routed);
    let n = a.len() as int;
    let b = ops.subrange(n, n + 6);
    let d = ops.skip(n + 6 + c.len());
    assert(ops =~= a + b + c + d);
    lemma_run_add(a, b, w);
    lemma_run_add(a + b, c, w);
    lemma_run_add(a + b + c, d, w);
    let w1 = run(a, w);
    let w2 = run(b, w1);
    let w3 = run(c, w2);
    lemma_quant_for(routed.down, xq, Buf::State(St::Normed), s.n_embd, w);
    lemma_times(
        b,
        0,
        Buf::K3(K3Buf::LatIn),
        at.wt(Wt::RoutedDown),
        routed.down,
        Buf::State(St::Normed),
        xq,
        s.n_embd,
        lat,
        1,
        w1,
    );
    lemma_next(b, 1, w1);
    lemma_next(b, 2, w1);
    lemma_next(b, 3, w1);
    lemma_next(b, 4, w1);
    lemma_next(b, 5, w1);
    lemma_quant_for(routed.up, xq, Buf::K3(K3Buf::LatOut), lat, w2);
    lemma_times(
        d,
        0,
        Buf::K3(K3Buf::RoutedOut),
        at.wt(Wt::RoutedUp),
        routed.up,
        Buf::K3(K3Buf::LatOut),
        xq,
        lat,
        s.n_embd,
        1,
        w3,
    );
    lemma_next(d, 1, w3);
}

proof fn lemma_route(s: Shape, il: usize, w: World)
    ensures
        ({
            let z = run(route(s, il), w);
            let x = w.at[Buf::State(St::Normed)];
            &&& z.at[Buf::State(St::RouterSelected)] == chosen(s, il, x, false)
            &&& z.at[Buf::State(St::RouterWeights)] == chosen(s, il, x, true)
            &&& z.at[Buf::State(St::Normed)] == x
        }),
{
    let r = route(s, il);
    lemma_next(r, 0, w);
    lemma_next(r, 1, w);
}

/// A buffer that the feed-forward half leaves as it is.
spec fn past_ffn(b: Buf) -> bool {
    b is Kda || b is KCache || b is VCache || b == Buf::K3(K3Buf::Ckpt) || b == Buf::State(St::Cur)
        || b == Buf::State(St::AfterAttn)
}

proof fn lemma_shared_keeps(s: Shape, at: Place, sh: ShexpW, b: Buf)
    requires
        !(b is Scratch),
        b != Buf::State(St::SharedOut),
    ensures
        keeps(shared_half(s, at, sh), b),
{
    let a = shift(s, at, at.sc(Sc::FfnNormedA), Buf::State(St::Normed), at.dev);
    let c = shift(s, at, Buf::State(St::SharedOut), at.sc(Sc::ShexpOut), at.primary);
    let ops = shared_half(s, at, sh);
    let mid = ops.subrange(a.len() as int, a.len() as int + 6);
    assert(ops =~= a + mid + c);
    assert(keeps(a, b));
    assert(keeps(mid, b));
    assert(keeps(c, b));
    lemma_keeps_add(a, mid, b);
    lemma_keeps_add(a + mid, c, b);
}

#[verifier::rlimit(40)]
proof fn lemma_routed_keeps(s: Shape, at: Place, routed: RoutedW, b: Buf)
    requires
        past_ffn(b),
    ensures
        keeps(routed_half(s, at, routed), b),
{
    let xq = Buf::Scratch(at.primary, Sc::Xq);
    let lat = s.n_expert_latent;
    let a = quant_for(routed.down, xq, Buf::State(St::Normed), s.n_embd);
    let c = quant_for(routed.up, xq, Buf::K3(K3Buf::LatOut), lat);
    let ops = routed_half(s, at, routed);
    let n = a.len() as int;
    let mid = ops.subrange(n, n + 6);
    let d = ops.skip(n + 6 + c.len());
    assert(ops =~= a + mid + c + d);
    assert(keeps(a, b));
    assert(keeps(mid, b));
    assert(keeps(c, b));
    assert(keeps(d, b));
    lemma_keeps_add(a, mid, b);
    lemma_keeps_add(a + mid, c, b);
    lemma_keeps_add(a + mid + c, d, b);
}

#[verifier::rlimit(40)]
proof fn lemma_ffn_keeps(s: Shape, at: Place, l: LayerW, a: K3W, cards: Seq<i32>, b: Buf)
    requires
        past_ffn(b),
    ensures
        keeps(ffn(s, at, l, a, cards).ops, b),
{
    match (l.ffn, a.routed) {
        (Ffn::Dense, _) => {
            assert(keeps(dense_ffn(s, at.il), b));
        },
        (Ffn::Moe { .. }, Some(routed)) => {
            let r = route(s, at.il);
            assert(keeps(r, b));
            if let Some(sh) = a.shexp {
                lemma_shared_keeps(s, at, sh, b);
                lemma_keeps_add(r, shared_half(s, at, sh), b);
                lemma_routed_keeps(s, at, routed, b);
                lemma_keeps_add(r + shared_half(s, at, sh), routed_half(s, at, routed), b);
            } else {
                let zero = seq![
                    Op::Zero { buf: Buf::State(St::SharedOut), bytes: f32_bytes(s.n_embd) },
                ];
                assert(keeps(zero, b));
                lemma_keeps_add(r, zero, b);
                lemma_routed_keeps(s, at, routed, b);
                lemma_keeps_add(r + zero, routed_half(s, at, routed), b);
            }
            assert(r + Seq::<Op>::empty() =~= r);
            assert(keeps(moe(s, at, a, routed, cards).ops, b));
        },
        _ => {},
    }
}

#[verifier::rlimit(40)]
proof fn lemma_ffn(s: Shape, at: Place, l: LayerW, a: K3W, cards: Seq<i32>, w: World)
    requires
        l.attn == Attn::K3(a),
        ffn(s, at, l, a, cards).end is Ok,
    ensures
        run(ffn(s, at, l, a, cards).ops, w).at[Buf::State(St::FfnOut)] == ffn_out(
            s,
            at.il,
            l,
            w.at[Buf::State(St::Normed)],
        ),
{
    match (l.ffn, a.routed) {
        (Ffn::Dense, _) => lemma_dense(s, at.il, w),
        (Ffn::Moe { .. }, Some(routed)) => {
            let r = route(s, at.il);
            let sh = match a.shexp {
                Some(sh) => shared_half(s, at, sh),
                None => seq![
                    Op::Zero { buf: Buf::State(St::SharedOut), bytes: f32_bytes(s.n_embd) },
                ],
            };
            let o = routed_half(s, at, routed);
            assert(moe(s, at, a, routed, cards).ops == r + sh + o);
            lemma_run_add(r, sh, w);
            lemma_run_add(r + sh, o, w);
            let w1 = run(r, w);
            let w2 = run(sh, w1);
            lemma_route(s, at.il, w);
            let sel = Buf::State(St::RouterSelected);
            let wei = Buf::State(St::RouterWeights);
            let nor = Buf::State(St::Normed);
            match a.shexp {
                Some(x) => {
                    lemma_shared(s, at, x, w1);
                    lemma_shared_keeps(s, at, x, sel);
                    lemma_shared_keeps(s, at, x, wei);
                    lemma_shared_keeps(s, at, x, nor);
                },
                None => {
                    lemma_next(sh, 0, w1);
                },
            }
            lemma_run_keeps(sh, sh.len() as int, sel, w1);
            lemma_run_keeps(sh, sh.len() as int, wei, w1);
            lemma_run_keeps(sh, sh.len() as int, nor, w1);
            lemma_routed(s, at, routed, w2);
        },
        _ => {},
    }
}

proof fn lemma_hop(s: Shape, at: Place, cards: Seq<i32>, w: World)
    requires
        hop_in(s, at, cards).end is Ok,
    ensures
        run(hop_in(s, at, cards).ops, w).at[at.xin()] == moved(
            at.dev != at.primary,
            w.at[Buf::State(St::Normed)],
            s.n_embd as int,
        ),
{
    reveal_with_fuel(after, 4);
}

/// A buffer that the attention half leaves as it is, but for what a layer keeps.
spec fn past_mixer(a: K3W, il: usize, b: Buf) -> bool {
    &&& b is Kda || b is KCache || b is VCache || b == Buf::K3(K3Buf::Ckpt) || b == Buf::State(
        St::Cur,
    )
    &&& !grows(a, il, b)
}

#[verifier::rlimit(40)]
proof fn lemma_mixer_keeps(
    s: Shape,
    at: Place,
    a: K3W,
    cards: Seq<i32>,
    state: Option<KdaState>,
    pos: u32,
    ctx: u32,
    b: Buf,
)
    requires
        past_mixer(a, at.il, b),
    ensures
        keeps(mixer(s, at, a, cards, state, pos, ctx).ops, b),
{
    match (a.kda, a.mla) {
        (Some(kda), _) => {
            let p = kda_project(s, at, kda);
            let r = kda_recurrence(s, at);
            let g = seq![
                Op::SigmoidGate { buf: at.sc(Sc::O), gate: at.sc(Sc::Gate), n: s.d_inner() },
            ];
            let o = project_out(s, at, kda.out, Wt::KdaOut, Sc::O, s.d_inner());
            lemma_project_keeps(s, at, kda, b);
            assert(keeps(r, b));
            assert(keeps(g, b));
            lemma_out_keeps(s, at, kda.out, Wt::KdaOut, Sc::O, s.d_inner(), b);
            lemma_keeps_add(p, r, b);
            lemma_keeps_add(p + r, g, b);
            lemma_keeps_add(p + r + g, o, b);
        },
        (None, Some(mla)) => {
            let p = mla_query(s, at);
            let r = mla_core(s, at, pos, ctx, Rope::Identity);
            let c = quant_for(mla.gate, at.sc(Sc::Xq), at.xin(), s.n_embd);
            let o = project_out(s, at, mla.out, Wt::MlaOut, Sc::Heads, s.mla_out());
            let ops = mla_half(s, at, mla, cards, pos, ctx).ops;
            if cards.contains(at.dev) {
                let n = (p.len() + r.len() + c.len()) as int;
                let g = ops.subrange(n, n + 2);
                assert(ops =~= p + r + c + g + o);
                assert(keeps(p, b));
                assert(keeps(r, b));
                assert(keeps(c, b));
                assert(keeps(g, b));
                lemma_out_keeps(s, at, mla.out, Wt::MlaOut, Sc::Heads, s.mla_out(), b);
                lemma_keeps_add(p, r, b);
                lemma_keeps_add(p + r, c, b);
                lemma_keeps_add(p + r + c, g, b);
                lemma_keeps_add(p + r + c + g, o, b);
            }
        },
        _ => {},
    }
}

proof fn lemma_mixer(
    s: Shape,
    at: Place,
    a: K3W,
    cards: Seq<i32>,
    state: Option<KdaState>,
    pos: u32,
    ctx: u32,
    w: World,
)
    requires
        s.mixers_fit(),
        pos < u32::MAX,
        mixer(s, at, a, cards, state, pos, ctx).end is Ok,
    ensures
        ({
            let z = run(mixer(s, at, a, cards, state, pos, ctx).ops, w);
            let n = s.n_embd as int;
            let x = w.at[at.xin()];
            let held = w.at[at.sc(Sc::Xq)];
            &&& a.kda is Some || a.mla is Some
            &&& z.at[Buf::State(St::AttnOut)] == moved(
                at.dev != at.primary,
                match a.kda {
                    Some(kda) => kda_out(s, at.il, kda, x, held, w),
                    None => mla_out(s, at.il, a.mla->Some_0, x, w, pos as int, ctx as int),
                },
                n,
            )
            &&& match a.kda {
                Some(kda) => kda_moves(
                    s,
                    at.il,
                    kda_rows(s, at.il, kda, x, quant_if(kda.wq, x, n, 1, held)),
                    w,
                    z,
                ),
                None => latent_moves(s, at.il, x, w, pos as int, ctx as int, z),
            }
        }),
{
    match (a.kda, a.mla) {
        (Some(kda), _) => lemma_kda(s, at, kda, w),
        (None, Some(mla)) => lemma_mla(s, at, mla, cards, pos, ctx, w),
        (None, None) => {},
    }
}

/// A mixer reads of the world its input, the scratch for quantized rows, and what
/// its layer keeps.
proof fn lemma_same_mixer(
    s: Shape,
    il: usize,
    a: K3W,
    x: Val,
    held: Val,
    pos: int,
    ctx: int,
    v: World,
    w: World,
)
    requires
        forall|b: Buf| #[trigger] lasting(b) ==> v.at[b] == w.at[b],
    ensures
        a.kda matches Some(kda) ==> kda_out(s, il, kda, x, held, v) == kda_out(
            s,
            il,
            kda,
            x,
            held,
            w,
        ),
        a.mla matches Some(mla) ==> mla_out(s, il, mla, x, v, pos, ctx) == mla_out(
            s,
            il,
            mla,
            x,
            w,
            pos,
            ctx,
        ),
        forall|z: World, r: KdaRow| #[trigger]
            kda_moves(s, il, r, v, z) ==> kda_moves(s, il, r, w, z),
        forall|z: World| #[trigger]
            latent_moves(s, il, x, v, pos, ctx, z) ==> latent_moves(s, il, x, w, pos, ctx, z),
{
    assert(lasting(Buf::Kda(il, KdaBuf::S)));
    assert(lasting(Buf::Kda(il, KdaBuf::ConvQ)));
    assert(lasting(Buf::Kda(il, KdaBuf::ConvK)));
    assert(lasting(Buf::Kda(il, KdaBuf::ConvV)));
    assert(lasting(Buf::KCache(il)));
    assert(lasting(Buf::VCache(il)));
}

/// How a layer begins, up to its mixer.
#[verifier::rlimit(40)]
proof fn lemma_front(s: Shape, at: Place, k: u32, cards: Seq<i32>, w: World)
    requires
        k * s.n_embd * 4 <= u64::MAX,
        hop_in(s, at, cards).end is Ok,
    ensures
        ({
            let z = run(Plan::of(enter(s, at.il, k)).and(hop_in(s, at, cards)).ops, w);
            let cur = w.at[Buf::State(St::Cur)];
            let bank = w.at[Buf::K3(K3Buf::Ckpt)];
            &&& z.at[at.xin()] == moved(
                at.dev != at.primary,
                deep_norm(
                    s,
                    cur,
                    bank,
                    k as int,
                    Buf::Layer(at.il, Wt::AttnResScore),
                    Buf::Layer(at.il, Wt::AttnNorm),
                ),
                s.n_embd as int,
            )
            &&& z.at[Buf::State(St::Cur)] == cur
            &&& z.at[Buf::K3(K3Buf::Ckpt)] == bank_after(s, at.il as int, bank, k as int, cur)
            &&& z.at[at.sc(Sc::Xq)] == w.at[at.sc(Sc::Xq)]
            &&& forall|b: Buf| #[trigger] lasting(b) ==> z.at[b] == w.at[b]
        }),
{
    let p1 = Plan::of(enter(s, at.il, k));
    let p2 = hop_in(s, at, cards);
    lemma_run_and(p1, p2, w);
    let w1 = run(p1.ops, w);
    let cur = Buf::State(St::Cur);
    let ckpt = Buf::K3(K3Buf::Ckpt);
    let held = at.sc(Sc::Xq);
    lemma_enter(s, at.il, k, w);
    lemma_run_keeps(p1.ops, p1.ops.len() as int, cur, w);
    lemma_run_keeps(p1.ops, p1.ops.len() as int, held, w);
    lemma_hop(s, at, cards, w1);
    lemma_run_keeps(p2.ops, p2.ops.len() as int, cur, w1);
    lemma_run_keeps(p2.ops, p2.ops.len() as int, ckpt, w1);
    lemma_run_keeps(p2.ops, p2.ops.len() as int, held, w1);
    assert forall|b: Buf| #[trigger] lasting(b) implies run(p2.ops, w1).at[b] == w.at[b] by {
        lemma_run_keeps(p1.ops, p1.ops.len() as int, b, w);
        lemma_run_keeps(p2.ops, p2.ops.len() as int, b, w1);
    }
}

/// The addition that ends a layer.
spec fn last_add(s: Shape) -> Seq<Op> {
    seq![
        Op::Add {
            out: Buf::State(St::Cur),
            a: Buf::State(St::AfterAttn),
            b: Buf::State(St::FfnOut),
            n: s.n_embd,
        },
    ]
}

/// How a layer ends, behind its mixer.
#[verifier::rlimit(40)]
proof fn lemma_back(s: Shape, at: Place, l: LayerW, a: K3W, k2: u32, cards: Seq<i32>, w: World)
    requires
        l.attn == Attn::K3(a),
        ffn(s, at, l, a, cards).end is Ok,
    ensures
        ({
            let z = run(
                last_add(s),
                run(ffn(s, at, l, a, cards).ops, run(rejoin(s, at.il, k2), w)),
            );
            let mid = rejoined(
                s,
                at.il as int,
                w.at[Buf::State(St::Cur)],
                w.at[Buf::State(St::AttnOut)],
            );
            let y = deep_norm(
                s,
                mid,
                w.at[Buf::K3(K3Buf::Ckpt)],
                k2 as int,
                Buf::Layer(at.il, Wt::FfnResScore),
                Buf::Layer(at.il, Wt::FfnNorm),
            );
            &&& z.at[Buf::State(St::Cur)] == sum(mid, ffn_out(s, at.il, l, y), s.n_embd as int)
            &&& z.at[Buf::K3(K3Buf::Ckpt)] == w.at[Buf::K3(K3Buf::Ckpt)]
            &&& forall|b: Buf| #[trigger] lasting(b) ==> z.at[b] == w.at[b]
        }),
{
    let p4 = rejoin(s, at.il, k2);
    let p5 = ffn(s, at, l, a, cards).ops;
    let last = last_add(s);
    let w4 = run(p4, w);
    let w5 = run(p5, w4);
    let ckpt = Buf::K3(K3Buf::Ckpt);
    let mid = Buf::State(St::AfterAttn);
    lemma_rejoin(s, at.il, k2, w);
    lemma_run_keeps(p4, p4.len() as int, ckpt, w);
    lemma_ffn(s, at, l, a, cards, w4);
    lemma_ffn_keeps(s, at, l, a, cards, mid);
    lemma_ffn_keeps(s, at, l, a, cards, ckpt);
    lemma_run_keeps(p5, p5.len() as int, mid, w4);
    lemma_run_keeps(p5, p5.len() as int, ckpt, w4);
    lemma_next(last, 0, w5);
    assert forall|b: Buf| #[trigger] lasting(b) implies run(last, w5).at[b] == w.at[b] by {
        lemma_run_keeps(p4, p4.len() as int, b, w);
        lemma_ffn_keeps(s, at, l, a, cards, b);
        lemma_run_keeps(p5, p5.len() as int, b, w4);
    }
}

/// A layer computes the attention half of its normed input, with the banked
/// residuals mixed in, then the feed-forward half; the residual starts anew
/// exactly where the layer's input went to the bank, and nothing of another layer
/// changes.
#[verifier::rlimit(40)]
pub proof fn layer_computes(
    m: Model,
    rt: K3Rt,
    il: usize,
    k: u32,
    pos: u32,
    ctx: u32,
    w: World,
)
    requires
        m.shape.mixers_fit(),
        pos < u32::MAX,
        k < u32::MAX,
        k * m.shape.n_embd * 4 <= u64::MAX,
        m.k3_layer(rt, il, k, pos, ctx).end is Ok,
    ensures
        layer_does(
            m,
            rt.primary,
            il,
            k as int,
            pos as int,
            ctx as int,
            w,
            run(m.k3_layer(rt, il, k, pos, ctx).ops, w),
        ),
{
    reveal(layer);
    let s = m.shape;
    let l = m.layers@[il as int];
    let at = Place { il, dev: m.attn_dev(il, rt.primary), primary: rt.primary };
    let cards = rt.scratch@;
    let state = rt.states@[il as int];
    let a = l.attn->K3_0;
    let k2 = entered(s, il, k);
    lemma_block_start(s, il);
    let p2 = Plan::of(enter(s, il, k)).and(hop_in(s, at, cards));
    let p3 = mixer(s, at, a, cards, state, pos, ctx);
    let p4 = Plan::of(rejoin(s, il, k2));
    let p5 = ffn(s, at, l, a, cards);
    let last = Plan::of(last_add(s));
    assert(m.k3_layer(rt, il, k, pos, ctx) == p2.and(p3).and(p4).and(p5).and(last));
    lemma_run_and(p2, p3, w);
    lemma_run_and(p2.and(p3), p4, w);
    lemma_run_and(p2.and(p3).and(p4), p5, w);
    lemma_run_and(p2.and(p3).and(p4).and(p5), last, w);
    let w2 = run(p2.ops, w);
    let w3 = run(p3.ops, w2);
    let w6 = run(last.ops, run(p5.ops, run(p4.ops, w3)));
    let cur = Buf::State(St::Cur);
    let ckpt = Buf::K3(K3Buf::Ckpt);
    lemma_front(s, at, k, cards, w);
    lemma_mixer(s, at, a, cards, state, pos, ctx, w2);
    lemma_same_mixer(
        s,
        il,
        a,
        w2.at[at.xin()],
        w2.at[at.sc(Sc::Xq)],
        pos as int,
        ctx as int,
        w2,
        w,
    );
    lemma_mixer_keeps(s, at, a, cards, state, pos, ctx, cur);
    lemma_mixer_keeps(s, at, a, cards, state, pos, ctx, ckpt);
    lemma_run_keeps(p3.ops, p3.ops.len() as int, cur, w2);
    lemma_run_keeps(p3.ops, p3.ops.len() as int, ckpt, w2);
    lemma_back(s, at, l, a, k2, cards, w3);
    assert forall|b: Buf| #[trigger] lasting(b) && !grows(a, il, b) implies w6.at[b] == w.at[b] by {
        lemma_mixer_keeps(s, at, a, cards, state, pos, ctx, b);
        lemma_run_keeps(p3.ops, p3.ops.len() as int, b, w2);
    }
    assert(lasting(Buf::Kda(il, KdaBuf::S)));
    assert(lasting(Buf::Kda(il, KdaBuf::ConvQ)));
    assert(lasting(Buf::Kda(il, KdaBuf::ConvK)));
    assert(lasting(Buf::Kda(il, KdaBuf::ConvV)));
    assert(lasting(Buf::KCache(il)));
    assert(lasting(Buf::VCache(il)));
}

} // verus!
