//! What a qwen38 layer, a chunk and a whole batch compute.

use crate::engine::formula::{bx, weight};
use crate::engine::hazard::{keeps, lemma_keeps_add};
use crate::engine::ops::{ops_if, Buf, GdnBuf, Op, Part, Plan, St, Wt, Q38};
use crate::engine::ple::{
    gram_hash, gram_len, hash_wf, ple_heads, ple_hist_cols, ple_row, read_heads, read_row,
    read_tokens, PleTable,
};
use crate::engine::qwen38::GdnState;
use crate::engine::qwen38::blocks::{
    attention, combine, gdn, hc_attn_at, hc_ffn_at, hc_full, moe, HcAt,
};
use crate::engine::qwen38::embed::{
    ple_conv, ple_device, ple_fits, ple_front, ple_residual, ple_roll, ple_width, stage_len,
    wide_bytes,
};
use crate::engine::qwen38::pass::expert_half;
use crate::engine::qwen38::values::{
    attn_gives, attn_moves, collapsed, combined, experts_give, gdn_gives, gdn_moves, gdn_rows,
    left_quant, lemma_attention, lemma_attention_keeps, lemma_chunk_widths, lemma_combine,
    lemma_gdn, lemma_gdn_keeps, lemma_mix, lemma_mix_keeps, lemma_moe, lemma_moe_keeps,
    normed_streams, scatter,
};
use crate::engine::shape::{LayerW, PleHash, Qwen38Attn, Qwen38Gdn, Qwen38W, Shape};
use crate::engine::value::{
    lemma_next, lemma_run_add, lemma_run_and, lemma_run_keeps, patched, run, Val, World,
};
use vstd::prelude::*;

verus! {

/// The weights of the mixer in front of the attention half.
pub open spec fn attn_mixer(part: Part) -> HcAt {
    HcAt {
        norm: weight(part, Wt::HcAttnNorm),
        down: weight(part, Wt::HcAttnDown),
        up: weight(part, Wt::HcAttnUp),
        inject: weight(part, Wt::HcAttnInject),
    }
}

/// The weights of the mixer in front of the experts.
pub open spec fn ffn_mixer(part: Part) -> HcAt {
    HcAt {
        norm: weight(part, Wt::HcFfnNorm),
        down: weight(part, Wt::HcFfnDown),
        up: weight(part, Wt::HcFfnUp),
        inject: weight(part, Wt::HcFfnInject),
    }
}

/// What outlasts a chunk: recurrent states, caches, and what drafts start from.
pub open spec fn lasting(b: Buf) -> bool {
    b is Gdn || b is KCache || b is VCache || b == Buf::State(St::MtpHidden)
}

/// What a layer keeps of the rows it saw.
pub open spec fn grows(gdn: bool, il: usize, b: Buf) -> bool {
    if gdn {
        b == Buf::Gdn(il, GdnBuf::S) || b == Buf::Gdn(il, GdnBuf::Conv)
    } else {
        b == Buf::KCache(il) || b == Buf::VCache(il)
    }
}

/// The mixers and experts of a layer: the streams collapse into the input of a
/// block, and its output comes back to them, once for the token mixer and once for
/// the experts.
pub open spec fn body_does(
    s: Shape,
    part: Part,
    il: usize,
    l: LayerW,
    w: Qwen38W,
    gdn: Option<Qwen38Gdn>,
    t: int,
    pos: int,
    ctx: int,
    v: World,
    z: World,
) -> bool {
    let res = v.at[Buf::Rt(Q38::ResHc)];
    let a = attn_mixer(part);
    let f = ffn_mixer(part);
    let x = collapsed(s, a, w.hc_attn, res, t);
    let inj = scatter(s, a, w.hc_attn, res, t, true, v.at[Buf::Rt(Q38::Inj)]);
    let held = left_quant(s, a, w.hc_attn, res, t, v.at[Buf::Rt(Q38::Xq2)]);
    let out = match gdn {
        Some(g) => gdn_gives(s, part, il, g, x, t, v),
        None => attn_gives(s, part, il, w.attn->Some_0, x, held, t, pos, ctx, v),
    };
    let mid = combined(s, res, out, inj, t);
    let y = collapsed(s, f, w.hc_ffn, mid, t);
    let inj2 = scatter(s, f, w.hc_ffn, mid, t, true, inj);
    &&& gdn is Some || w.attn is Some
    &&& l.ffn is Moe
    &&& z.at[Buf::Rt(Q38::ResHc)] == combined(
        s,
        mid,
        experts_give(s, part, il, l.ffn->shexp, y, t),
        inj2,
        t,
    )
    &&& z.at[Buf::Rt(Q38::Inj)] == inj2
    &&& match gdn {
        Some(g) => gdn_moves(s, part, il, gdn_rows(s, part, g, x, t), t, v, z),
        None => attn_moves(s, part, il, x, t, pos, ctx, v, z),
    }
    &&& forall|b: Buf| #[trigger]
        lasting(b) && !grows(gdn is Some, il, b) ==> z.at[b] == v.at[b]
}

#[verifier::rlimit(40)]
proof fn lemma_experts_half(
    s: Shape,
    part: Part,
    il: usize,
    l: LayerW,
    w: Qwen38W,
    t: u32,
    v: World,
)
    requires
        s.rows_fit(t),
        expert_half(s, part, il, l, w, t).end is Ok,
    ensures
        ({
            let z = run(expert_half(s, part, il, l, w, t).ops, v);
            let f = ffn_mixer(part);
            let rows = t as int;
            let res = v.at[Buf::Rt(Q38::ResHc)];
            let y = collapsed(s, f, w.hc_ffn, res, rows);
            let inj = scatter(s, f, w.hc_ffn, res, rows, true, v.at[Buf::Rt(Q38::Inj)]);
            &&& l.ffn is Moe
            &&& z.at[Buf::Rt(Q38::ResHc)] == combined(
                s,
                res,
                experts_give(s, part, il, l.ffn->shexp, y, rows),
                inj,
                rows,
            )
            &&& z.at[Buf::Rt(Q38::Inj)] == inj
            &&& forall|b: Buf| #[trigger] lasting(b) ==> z.at[b] == v.at[b]
        }),
{
    reveal(expert_half);
    let a = Plan::of(hc_full(s, hc_ffn_at(part), w.hc_ffn, t, true));
    let b = moe(s, part, il, l, t);
    let c = Plan::of(combine(s, Buf::Rt(Q38::Cur), t));
    assert(hc_ffn_at(part) == ffn_mixer(part));
    lemma_run_and(a, b, v);
    lemma_run_and(a.and(b), c, v);
    let v1 = run(a.ops, v);
    let v2 = run(b.ops, v1);
    let res = Buf::Rt(Q38::ResHc);
    let inj = Buf::Rt(Q38::Inj);
    lemma_mix(s, ffn_mixer(part), w.hc_ffn, t, true, v);
    lemma_moe(s, part, il, l, t, v1);
    lemma_moe_keeps(s, part, il, l, t, res);
    lemma_moe_keeps(s, part, il, l, t, inj);
    lemma_run_keeps(b.ops, b.ops.len() as int, res, v1);
    lemma_run_keeps(b.ops, b.ops.len() as int, inj, v1);
    lemma_combine(s, Buf::Rt(Q38::Cur), t, v2);
    assert forall|x: Buf| #[trigger] lasting(x) implies run(c.ops, v2).at[x] == v.at[x] by {
        lemma_mix_keeps(s, hc_ffn_at(part), w.hc_ffn, t, true, x);
        lemma_run_keeps(a.ops, a.ops.len() as int, x, v);
        lemma_moe_keeps(s, part, il, l, t, x);
        lemma_run_keeps(b.ops, b.ops.len() as int, x, v1);
    }
}

/// The mixer of a layer: a gated DeltaNet where it has one, else attention.
pub open spec fn mixer_of(
    s: Shape,
    part: Part,
    il: usize,
    gdn_w: Option<Qwen38Gdn>,
    attn_w: Option<Qwen38Attn>,
    state: Option<GdnState>,
    pos0: u32,
    t: u32,
    ctx: u32,
) -> Plan {
    match gdn_w {
        Some(g) => gdn(s, part, il, g, state, t),
        None => attention(s, part, il, attn_w->Some_0, pos0, t, ctx),
    }
}

#[verifier::rlimit(40)]
pub proof fn lemma_body(
    s: Shape,
    part: Part,
    il: usize,
    l: LayerW,
    w: Qwen38W,
    gdn_w: Option<Qwen38Gdn>,
    state: Option<GdnState>,
    pos0: u32,
    t: u32,
    ctx: u32,
    v: World,
)
    requires
        s.rows_fit(t),
        gdn_w is Some || w.attn is Some,
        mixer_of(s, part, il, gdn_w, w.attn, state, pos0, t, ctx).end is Ok,
        expert_half(s, part, il, l, w, t).end is Ok,
    ensures
        ({
            let plan = Plan::of(hc_full(s, hc_attn_at(part), w.hc_attn, t, true)).and(
                mixer_of(s, part, il, gdn_w, w.attn, state, pos0, t, ctx),
            ).and(Plan::of(combine(s, Buf::Rt(Q38::AttnOut), t))).and(
                expert_half(s, part, il, l, w, t),
            );
            body_does(
                s,
                part,
                il,
                l,
                w,
                gdn_w,
                t as int,
                pos0 as int,
                ctx as int,
                v,
                run(plan.ops, v),
            )
        }),
{
    let a = Plan::of(hc_full(s, hc_attn_at(part), w.hc_attn, t, true));
    let b = mixer_of(s, part, il, gdn_w, w.attn, state, pos0, t, ctx);
    let c = Plan::of(combine(s, Buf::Rt(Q38::AttnOut), t));
    let d = expert_half(s, part, il, l, w, t);
    assert(hc_attn_at(part) == attn_mixer(part));
    lemma_run_and(a, b, v);
    lemma_run_and(a.and(b), c, v);
    lemma_run_and(a.and(b).and(c), d, v);
    let v1 = run(a.ops, v);
    let v2 = run(b.ops, v1);
    let v3 = run(c.ops, v2);
    let z = run(d.ops, v3);
    let res = Buf::Rt(Q38::ResHc);
    let inj = Buf::Rt(Q38::Inj);
    lemma_mix(s, attn_mixer(part), w.hc_attn, t, true, v);
    assert forall|x: Buf| #[trigger] lasting(x) implies v1.at[x] == v.at[x] by {
        lemma_mix_keeps(s, hc_attn_at(part), w.hc_attn, t, true, x);
        lemma_run_keeps(a.ops, a.ops.len() as int, x, v);
    }
    assert(lasting(Buf::Gdn(il, GdnBuf::S)));
    assert(lasting(Buf::Gdn(il, GdnBuf::Conv)));
    assert(lasting(Buf::KCache(il)));
    assert(lasting(Buf::VCache(il)));
    match gdn_w {
        Some(g) => {
            lemma_gdn(s, part, il, g, state, t, v1);
            lemma_gdn_keeps(s, part, il, g, state, t, res);
            lemma_gdn_keeps(s, part, il, g, state, t, inj);
        },
        None => {
            lemma_attention(s, part, il, w.attn->Some_0, pos0, t, ctx, v1);
            lemma_attention_keeps(s, part, il, w.attn->Some_0, pos0, t, ctx, res);
            lemma_attention_keeps(s, part, il, w.attn->Some_0, pos0, t, ctx, inj);
        },
    }
    lemma_run_keeps(b.ops, b.ops.len() as int, res, v1);
    lemma_run_keeps(b.ops, b.ops.len() as int, inj, v1);
    lemma_combine(s, Buf::Rt(Q38::AttnOut), t, v2);
    lemma_experts_half(s, part, il, l, w, t, v3);
    assert forall|x: Buf| #[trigger] lasting(x) && !grows(gdn_w is Some, il, x) implies z.at[x]
        == v.at[x] by {
        match gdn_w {
            Some(g) => lemma_gdn_keeps(s, part, il, g, state, t, x),
            None => lemma_attention_keeps(s, part, il, w.attn->Some_0, pos0, t, ctx, x),
        }
        lemma_run_keeps(b.ops, b.ops.len() as int, x, v1);
    }
}

/// Rows of history in front of a chunk: the reach of the dilated convolution.
pub open spec fn reach(s: Shape) -> int {
    (if s.ple_conv_k >= 1 {
        s.ple_conv_k - 1
    } else {
        0
    }) * (if s.ple_ngram >= 1 {
        s.ple_ngram as int
    } else {
        1
    })
}

/// Values of a row of the n-gram embedding: every head of every n-gram length.
pub open spec fn gram_width(s: Shape) -> int {
    gram_heads(s) * s.ple_head_dim
}

/// Heads of a row: as many for every length from two on.
pub open spec fn gram_heads(s: Shape) -> int {
    if s.ple_ngram >= 1 {
        (s.ple_ngram - 1) * s.ple_heads_per_ngram
    } else {
        0
    }
}

#[verifier::rlimit(40)]
pub proof fn lemma_gram_widths(s: Shape, t: u32)
    requires
        ple_fits(s, t),
    ensures
        ple_hist_cols(&s) as int == reach(s),
        ple_heads(&s) as int == gram_heads(s),
        ple_width(s) as int == gram_width(s),
        stage_len(s, t) as int == t * gram_width(s),
        wide_bytes(ple_hist_cols(&s), s.hc_dim()) as int == reach(s) * (s.n_hc * s.n_embd) * 4,
        0 <= reach(s),
        0 <= reach(s) * (s.n_hc * s.n_embd) * 4,
        0 <= gram_heads(s),
{
    lemma_chunk_widths(s, t);
    let k = if s.ple_conv_k >= 1 {
        s.ple_conv_k - 1
    } else {
        0
    };
    let n = if s.ple_ngram >= 1 {
        s.ple_ngram as int
    } else {
        1
    };
    assert(0 <= k * n) by (nonlinear_arith)
        requires
            0 <= k,
            0 <= n,
    ;
    if s.ple_ngram >= 1 {
        assert(0 <= (s.ple_ngram - 1) * s.ple_heads_per_ngram) by (nonlinear_arith)
            requires
                s.ple_ngram >= 1,
        ;
    }
    let h = ple_heads(&s) as int;
    assert(0 <= h * s.ple_head_dim) by (nonlinear_arith)
        requires
            0 <= h,
    ;
    let g = ple_width(s) as int;
    assert(0 <= t * g <= 0xffff_ffff * 0xffff_ffff) by (nonlinear_arith)
        requires
            0 <= g <= 0xffff_ffff,
            0 <= t <= 0xffff_ffff,
    ;
    let d = s.n_hc * s.n_embd;
    let r = reach(s);
    assert(0 <= d) by (nonlinear_arith)
        requires
            d == s.n_hc * s.n_embd,
    ;
    assert(0 <= r * d) by (nonlinear_arith)
        requires
            0 <= r,
            0 <= d,
    ;
}

/// Where the row in a place of the staged rows was read from.
pub open spec fn staged_at(v: Val, place: int) -> Option<int>
    decreases v,
{
    match v {
        Val::Staged { old, slot, off } => if slot == place {
            Some(off)
        } else {
            staged_at(*old, place)
        },
        _ => None,
    }
}

/// What the rows of the n-gram embedding, behind their key and value, bring to the
/// streams, and what its convolution sees of the chunks before.
pub struct Grams {
    pub value: Val,
    pub normed: Val,
}

/// The values of staged rows, gated by how their keys meet the streams.
pub open spec fn applied(s: Shape, part: Part, rows: Val, res: Val, t: int) -> Val {
    let n = s.n_embd as int;
    let hc = s.n_hc as int;
    let g = gram_width(s);
    let emb = Val::Cut { of: bx(rows), off: 0, bytes: t * g * 4 };
    let key = Val::StreamNorm {
        x: bx(
            Val::Mul {
                w: weight(part, Wt::PleKey),
                x: bx(emb),
                n_in: g,
                n_out: hc * n,
                rows: t,
            },
        ),
        w: Some(weight(part, Wt::PleNormKey)),
        rows: t,
        n,
        hc,
    };
    let value = Val::Mul {
        w: weight(part, Wt::PleValue),
        x: bx(emb),
        n_in: g,
        n_out: n,
        rows: t,
    };
    let gate = Val::Score {
        key: bx(key),
        query: bx(normed_streams(s, res, weight(part, Wt::PleNormQuery), t)),
        rows: t,
        n,
        hc,
    };
    Val::Applied { value: bx(value), gate: bx(gate), rows: t, n, hc }
}

pub open spec fn grams(s: Shape, part: Part, rows: Val, res: Val, t: int) -> Grams {
    let a = applied(s, part, rows, res, t);
    Grams {
        value: Val::Cut { of: bx(a), off: 0, bytes: t * (s.n_hc * s.n_embd) * 4 },
        normed: normed_streams(s, a, weight(part, Wt::PleNormConv), t),
    }
}

/// The history, and the rows of the chunk behind it.
pub open spec fn padded(s: Shape, hist: Val, normed: Val, t: int) -> Val {
    let d = s.n_hc * s.n_embd;
    patched(
        Val::Cut { of: bx(hist), off: 0, bytes: reach(s) * d * 4 },
        reach(s) * d * 4,
        normed,
        0,
        t * d * 4,
    )
}

/// The n-gram embedding of a chunk joins the streams; its history moves on by the
/// chunk.
pub open spec fn grams_join(
    s: Shape,
    part: Part,
    il: usize,
    t: int,
    rows: Val,
    v: World,
    z: World,
) -> bool {
    let n = s.n_embd as int;
    let hc = s.n_hc as int;
    let d = hc * n;
    let res = v.at[Buf::Rt(Q38::ResHc)];
    let hist = v.at[Buf::Gdn(il, GdnBuf::PleHist)];
    let g = grams(s, part, rows, res, t);
    let pad = padded(s, hist, g.normed, t);
    let conv = Val::Dilated {
        x: bx(pad),
        w: weight(part, Wt::PleConv1d),
        t,
        dim: d,
        rows: reach(s) + t,
        k: s.ple_conv_k as int,
        dilation: s.ple_ngram as int,
    };
    let once = Val::Joined { res: bx(res), x: bx(g.value), rows: t, n, hc };
    &&& z.at[Buf::Rt(Q38::ResHc)] == Val::Joined { res: bx(once), x: bx(conv), rows: t, n, hc }
    &&& z.at[Buf::Gdn(il, GdnBuf::PleHist)] == if reach(s) > 0 && t > 0 {
        Val::Cut { of: bx(pad), off: t * d * 4, bytes: reach(s) * d * 4 }
    } else {
        hist
    }
}

/// The front up to the gated values, and from there on.
spec fn front_values(s: Shape, part: Part, t: u32) -> Seq<Op> {
    ple_front(s, part, t).subrange(0, 7)
}

proof fn lemma_front_values(s: Shape, part: Part, t: u32, v: World)
    requires
        ple_fits(s, t),
    ensures
        run(front_values(s, part, t), v).at[Buf::Rt(Q38::Gated)] == applied(
            s,
            part,
            v.stage,
            v.at[Buf::Rt(Q38::ResHc)],
            t as int,
        ),
{
    lemma_chunk_widths(s, t);
    lemma_gram_widths(s, t);
    let ops = front_values(s, part, t);
    lemma_next(ops, 0, v);
    lemma_next(ops, 1, v);
    lemma_next(ops, 2, v);
    lemma_next(ops, 3, v);
    lemma_next(ops, 4, v);
    lemma_next(ops, 5, v);
    lemma_next(ops, 6, v);
}

#[verifier::rlimit(40)]
proof fn lemma_ple_front(s: Shape, part: Part, t: u32, v: World)
    requires
        ple_fits(s, t),
    ensures
        ({
            let z = run(ple_front(s, part, t), v);
            let g = grams(s, part, v.stage, v.at[Buf::Rt(Q38::ResHc)], t as int);
            &&& z.at[Buf::Rt(Q38::PleValV)] == g.value
            &&& z.at[Buf::Rt(Q38::PleNorm)] == g.normed
        }),
{
    lemma_chunk_widths(s, t);
    lemma_gram_widths(s, t);
    let ops = ple_front(s, part, t);
    let a = front_values(s, part, t);
    let b = ops.skip(7);
    assert(ops =~= a + b);
    lemma_run_add(a, b, v);
    lemma_front_values(s, part, t, v);
    let v1 = run(a, v);
    lemma_next(b, 0, v1);
    lemma_next(b, 1, v1);
    lemma_next(b, 2, v1);
    lemma_next(b, 3, v1);
}

proof fn lemma_ple_conv(s: Shape, part: Part, il: usize, t: u32, v: World)
    requires
        ple_fits(s, t),
    ensures
        ({
            let z = run(ple_conv(s, part, il, t), v);
            let pad = padded(
                s,
                v.at[Buf::Gdn(il, GdnBuf::PleHist)],
                v.at[Buf::Rt(Q38::PleNorm)],
                t as int,
            );
            &&& z.at[Buf::Rt(Q38::PlePad)] == pad
            &&& z.at[Buf::Rt(Q38::PleOut)] == (Val::Dilated {
                x: bx(pad),
                w: weight(part, Wt::PleConv1d),
                t: t as int,
                dim: s.n_hc * s.n_embd,
                rows: reach(s) + t,
                k: s.ple_conv_k as int,
                dilation: s.ple_ngram as int,
            })
        }),
{
    lemma_chunk_widths(s, t);
    lemma_gram_widths(s, t);
    let ops = ple_conv(s, part, il, t);
    lemma_next(ops, 0, v);
    lemma_next(ops, 1, v);
    lemma_next(ops, 2, v);
}

/// What the n-gram embedding does not write.
pub open spec fn past_grams(il: usize, b: Buf) -> bool {
    match b {
        Buf::Rt(x) => x == Q38::Inj || x == Q38::Xq2,
        _ => b != Buf::Gdn(il, GdnBuf::PleHist),
    }
}

pub proof fn lemma_grams_keep(
    s: Shape,
    part: Part,
    il: usize,
    state: Option<GdnState>,
    t: u32,
    b: Buf,
)
    requires
        past_grams(il, b),
    ensures
        keeps(ple_device(s, part, il, state, t).ops, b),
{
    let f = ple_front(s, part, t);
    let c = ple_conv(s, part, il, t);
    let r = ops_if(ple_hist_cols(&s) > 0 && t > 0, ple_roll(s, il, t));
    let e = ple_residual(s, t);
    assert(keeps(f, b));
    assert(keeps(c, b));
    assert(keeps(r, b));
    assert(keeps(e, b));
    lemma_keeps_add(c, r, b);
    lemma_keeps_add(c + r, e, b);
    lemma_keeps_add(f, c + r + e, b);
    assert(f + Seq::<Op>::empty() =~= f);
}

proof fn lemma_grams_aside(s: Shape, part: Part, il: usize, t: u32)
    ensures
        keeps(ple_front(s, part, t), Buf::Rt(Q38::ResHc)),
        keeps(ple_front(s, part, t), Buf::Gdn(il, GdnBuf::PleHist)),
        keeps(ple_conv(s, part, il, t), Buf::Rt(Q38::ResHc)),
        keeps(ple_conv(s, part, il, t), Buf::Gdn(il, GdnBuf::PleHist)),
        keeps(ple_conv(s, part, il, t), Buf::Rt(Q38::PleValV)),
        keeps(ple_roll(s, il, t), Buf::Rt(Q38::ResHc)),
        keeps(ple_roll(s, il, t), Buf::Rt(Q38::PleValV)),
        keeps(ple_roll(s, il, t), Buf::Rt(Q38::PleOut)),
        keeps(ple_residual(s, t), Buf::Gdn(il, GdnBuf::PleHist)),
{
}

/// The convolution, the history and the two additions, behind the front.
#[verifier::rlimit(40)]
proof fn lemma_grams_back(s: Shape, part: Part, il: usize, t: u32, v: World)
    requires
        ple_fits(s, t),
    ensures
        ({
            let r = ops_if(ple_hist_cols(&s) > 0 && t > 0, ple_roll(s, il, t));
            let z = run(ple_conv(s, part, il, t) + r + ple_residual(s, t), v);
            let n = s.n_embd as int;
            let hc = s.n_hc as int;
            let d = hc * n;
            let rows = t as int;
            let hist = v.at[Buf::Gdn(il, GdnBuf::PleHist)];
            let pad = padded(s, hist, v.at[Buf::Rt(Q38::PleNorm)], rows);
            let conv = Val::Dilated {
                x: bx(pad),
                w: weight(part, Wt::PleConv1d),
                t: rows,
                dim: d,
                rows: reach(s) + t,
                k: s.ple_conv_k as int,
                dilation: s.ple_ngram as int,
            };
            let once = Val::Joined {
                res: v.get(Buf::Rt(Q38::ResHc)),
                x: v.get(Buf::Rt(Q38::PleValV)),
                rows,
                n,
                hc,
            };
            &&& z.at[Buf::Rt(Q38::ResHc)] == Val::Joined {
                res: bx(once),
                x: bx(conv),
                rows,
                n,
                hc,
            }
            &&& z.at[Buf::Gdn(il, GdnBuf::PleHist)] == if reach(s) > 0 && t > 0 {
                Val::Cut { of: bx(pad), off: t * d * 4, bytes: reach(s) * d * 4 }
            } else {
                hist
            }
        }),
{
    lemma_chunk_widths(s, t);
    lemma_gram_widths(s, t);
    lemma_grams_aside(s, part, il, t);
    let c = ple_conv(s, part, il, t);
    let r = ops_if(ple_hist_cols(&s) > 0 && t > 0, ple_roll(s, il, t));
    let e = ple_residual(s, t);
    lemma_run_add(c, r, v);
    lemma_run_add(c + r, e, v);
    let v2 = run(c, v);
    let v3 = run(r, v2);
    let res = Buf::Rt(Q38::ResHc);
    let hist = Buf::Gdn(il, GdnBuf::PleHist);
    let val = Buf::Rt(Q38::PleValV);
    let out = Buf::Rt(Q38::PleOut);
    lemma_ple_conv(s, part, il, t, v);
    lemma_run_keeps(c, c.len() as int, res, v);
    lemma_run_keeps(c, c.len() as int, hist, v);
    lemma_run_keeps(c, c.len() as int, val, v);
    if ple_hist_cols(&s) > 0 && t > 0 {
        lemma_next(r, 0, v2);
    }
    lemma_run_keeps(r, r.len() as int, res, v2);
    lemma_run_keeps(r, r.len() as int, val, v2);
    lemma_run_keeps(r, r.len() as int, out, v2);
    lemma_residual(s, t, v3);
    lemma_run_keeps(e, e.len() as int, hist, v3);
}

pub proof fn lemma_grams(
    s: Shape,
    part: Part,
    il: usize,
    state: Option<GdnState>,
    t: u32,
    v: World,
)
    requires
        ple_fits(s, t),
        ple_device(s, part, il, state, t).end is Ok,
    ensures
        grams_join(
            s,
            part,
            il,
            t as int,
            v.stage,
            v,
            run(ple_device(s, part, il, state, t).ops, v),
        ),
{
    let f = ple_front(s, part, t);
    let c = ple_conv(s, part, il, t);
    let r = ops_if(ple_hist_cols(&s) > 0 && t > 0, ple_roll(s, il, t));
    let e = ple_residual(s, t);
    assert(ple_device(s, part, il, state, t).ops == f + (c + r + e));
    lemma_run_add(f, c + r + e, v);
    let v1 = run(f, v);
    lemma_grams_aside(s, part, il, t);
    lemma_ple_front(s, part, t, v);
    lemma_run_keeps(f, f.len() as int, Buf::Rt(Q38::ResHc), v);
    lemma_run_keeps(f, f.len() as int, Buf::Gdn(il, GdnBuf::PleHist), v);
    lemma_grams_back(s, part, il, t, v1);
}

proof fn lemma_residual(s: Shape, t: u32, v: World)
    ensures
        ({
            let n = s.n_embd as int;
            let hc = s.n_hc as int;
            let rows = t as int;
            let once = Val::Joined {
                res: v.get(Buf::Rt(Q38::ResHc)),
                x: v.get(Buf::Rt(Q38::PleValV)),
                rows,
                n,
                hc,
            };
            run(ple_residual(s, t), v).at[Buf::Rt(Q38::ResHc)] == Val::Joined {
                res: bx(once),
                x: v.get(Buf::Rt(Q38::PleOut)),
                rows,
                n,
                hc,
            }
        }),
{
    let e = ple_residual(s, t);
    lemma_next(e, 0, v);
    lemma_next(e, 1, v);
}

/// Where the row of head `h` for token `tt` of a chunk lies in the model file.
pub open spec fn row_place(
    hash: PleHash,
    s: Shape,
    table: PleTable,
    hist: Seq<u32>,
    chunk: Seq<u32>,
    tt: int,
    h: int,
) -> int {
    table.base + ple_row(hash, s, hist + chunk, hist.len() + tt, h) * table.row_bytes
}

/// The place of a head's row among the staged rows.
pub open spec fn place_of(s: Shape, tt: int, h: int) -> int {
    tt * gram_heads(s) + h
}

/// The staged rows: for every token its heads, one behind the other, each from the
/// place that the hash of its n-gram gives.
pub open spec fn rows_staged(
    hash: PleHash,
    s: Shape,
    table: PleTable,
    hist: Seq<u32>,
    chunk: Seq<u32>,
    rows: Val,
) -> bool {
    forall|tt: int, h: int|
        0 <= tt < chunk.len() && 0 <= h < gram_heads(s) ==> staged_at(
            rows,
            #[trigger] place_of(s, tt, h),
        ) == Some(row_place(hash, s, table, hist, chunk, tt, h))
}

proof fn lemma_row_bounds(hash: PleHash, s: Shape, seq: Seq<u32>, i: int, h: int)
    requires
        hash_wf(hash, s),
        0 <= h < ple_heads(&s),
    ensures
        0 <= ple_row(hash, s, seq, i, h) <= u64::MAX,
{
    let g = gram_hash(
        hash.mult@,
        seq,
        i,
        gram_len(s, h),
        s.ple_eos_tok,
    ) as int;
    let m = hash.vocab@[h] as int;
    vstd::arithmetic::div_mod::lemma_mod_bound(g, m);
}

#[verifier::rlimit(40)]
proof fn lemma_read_heads(
    hash: PleHash,
    s: Shape,
    table: PleTable,
    hist: Seq<u32>,
    chunk: Seq<u32>,
    tt: int,
    n: int,
    v: World,
)
    requires
        hash_wf(hash, s),
        table.wf(),
        0 <= tt,
        0 <= n <= gram_heads(s),
        ple_heads(&s) as int == gram_heads(s),
        tt * gram_heads(s) + gram_heads(s) <= u64::MAX,
        read_heads(hash, s, table, hist, chunk, tt, n).end is Ok,
    ensures
        ({
            let z = run(read_heads(hash, s, table, hist, chunk, tt, n).ops, v);
            &&& z.at == v.at
            &&& forall|h: int|
                0 <= h < n ==> staged_at(z.stage, #[trigger] place_of(s, tt, h)) == Some(
                    row_place(hash, s, table, hist, chunk, tt, h),
                )
            &&& forall|p: int|
                p < tt * gram_heads(s) ==> #[trigger] staged_at(z.stage, p) == staged_at(
                    v.stage,
                    p,
                )
        }),
    decreases n,
{
    if n > 0 {
        lemma_read_heads(hash, s, table, hist, chunk, tt, n - 1, v);
        let row = ple_row(hash, s, hist + chunk, hist.len() + tt, n - 1);
        let slot = tt * gram_heads(s) + n - 1;
        let a = read_heads(hash, s, table, hist, chunk, tt, n - 1);
        let b = read_row(table, row as u64, slot);
        lemma_run_and(a, b, v);
        let v1 = run(a.ops, v);
        lemma_row_bounds(hash, s, hist + chunk, hist.len() + tt, n - 1);
        assert(0 <= tt * gram_heads(s)) by (nonlinear_arith)
            requires
                0 <= tt,
                0 <= gram_heads(s),
        ;
        assert(0 <= row * table.row_bytes <= table.rows * table.row_bytes) by (nonlinear_arith)
            requires
                0 <= row <= table.rows,
                0 <= table.row_bytes,
        ;
        lemma_next(b.ops, 0, v1);
        let z = run(b.ops, v1);
        assert(z.stage == Val::Staged {
            old: Box::new(v1.stage),
            slot,
            off: row_place(hash, s, table, hist, chunk, tt, n - 1),
        });
        assert forall|h: int| 0 <= h < n implies staged_at(z.stage, #[trigger] place_of(s, tt, h))
            == Some(row_place(hash, s, table, hist, chunk, tt, h)) by {
            if h < n - 1 {
                assert(staged_at(z.stage, place_of(s, tt, h)) == staged_at(
                    v1.stage,
                    place_of(s, tt, h),
                ));
            }
        }
        assert forall|p: int| p < tt * gram_heads(s) implies #[trigger] staged_at(z.stage, p)
            == staged_at(v.stage, p) by {
            assert(staged_at(z.stage, p) == staged_at(v1.stage, p));
        }
    }
}

#[verifier::rlimit(40)]
pub proof fn lemma_read_tokens(
    hash: PleHash,
    s: Shape,
    table: PleTable,
    hist: Seq<u32>,
    chunk: Seq<u32>,
    n: int,
    v: World,
)
    requires
        hash_wf(hash, s),
        table.wf(),
        0 <= n <= chunk.len(),
        0 <= gram_heads(s),
        ple_heads(&s) as int == gram_heads(s),
        chunk.len() * gram_heads(s) <= u64::MAX,
        read_tokens(hash, s, table, hist, chunk, n).end is Ok,
    ensures
        ({
            let z = run(read_tokens(hash, s, table, hist, chunk, n).ops, v);
            &&& z.at == v.at
            &&& forall|tt: int, h: int|
                0 <= tt < n && 0 <= h < gram_heads(s) ==> staged_at(
                    z.stage,
                    #[trigger] place_of(s, tt, h),
                ) == Some(row_place(hash, s, table, hist, chunk, tt, h))
        }),
    decreases n,
{
    if n > 0 {
        lemma_read_tokens(hash, s, table, hist, chunk, n - 1, v);
        let g = gram_heads(s);
        let a = read_tokens(hash, s, table, hist, chunk, n - 1);
        let b = read_heads(hash, s, table, hist, chunk, n - 1, g);
        lemma_run_and(a, b, v);
        let v1 = run(a.ops, v);
        assert((n - 1) * g + g <= chunk.len() * g) by (nonlinear_arith)
            requires
                n <= chunk.len(),
                0 <= g,
        ;
        lemma_read_heads(hash, s, table, hist, chunk, n - 1, g, v1);
        let z = run(b.ops, v1);
        assert forall|tt: int, h: int| 0 <= tt < n && 0 <= h < g implies staged_at(
            z.stage,
            #[trigger] place_of(s, tt, h),
        ) == Some(row_place(hash, s, table, hist, chunk, tt, h)) by {
            if tt < n - 1 {
                assert(tt * g + h < (n - 1) * g) by (nonlinear_arith)
                    requires
                        tt < n - 1,
                        0 <= h < g,
                ;
                assert(staged_at(z.stage, tt * g + h) == staged_at(v1.stage, tt * g + h));
            }
        }
    }
}

} // verus!
