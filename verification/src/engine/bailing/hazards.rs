//! What a Bailing pass writes, and when the host reads back.

use crate::engine::bailing::blocks::{
    enter, ffn, hop_in, kda_half, kda_project, layer, mixer, mla_half, mla_query, rejoin, route,
    routed_half, shared_half,
};
use crate::engine::bailing::BailingRt;
use crate::engine::blocks::{
    kda_recurrence, mla_core, project_out, quant_for, reset_all, reset_states, KdaState, Place,
};
use crate::engine::error::EngineError;
use crate::engine::hazard::{
    all_fed, all_from, kda_matches, keeps, lemma_dense_quiet, lemma_fed, lemma_head_sound, lemma_keeps_add,
    lemma_mla_core_quiet, lemma_project_out_quiet, lemma_quiet_add, lemma_quiet_and, lemma_recurrence_quiet,
    lemma_reset_sound, lemma_sound_add, lemma_sound_and, lemma_tidy_add, quiet, sound, tidy, writes,
};
use crate::engine::ops::{ops_if, Buf, Gw, Op, Plan, Rope, Sc, St, Wt};
use crate::engine::shape::{Attn, BailingW, Ffn, KdaW, LayerW, MatKind, MlaW, Model, Shape};
use vstd::prelude::*;

verus! {

/// The encodings of a layer's KDA mixer match, where it has one.
pub open spec fn kda_layer_matches(l: LayerW) -> bool {
    l.attn matches Attn::Bailing(w) ==> (w.kda matches Some(kda) ==> kda_matches(kda))
}

/// The encodings of every KDA mixer of a model match.
pub open spec fn kda_all_match(m: Model) -> bool {
    forall|il: int|
        0 <= il < m.shape.n_exec_layer ==> kda_layer_matches(#[trigger] m.layers@[il])
}

/// The projections of a KDA mixer behind the quantization of its input.
spec fn project_rest(s: Shape, at: Place, w: KdaW) -> Seq<Op> {
    kda_project(s, at, w).skip(
        quant_for(w.wq, at.sc(Sc::Xq), at.xin(), s.n_embd).len() as int,
    )
}

proof fn lemma_project_rest(s: Shape, at: Place, w: KdaW)
    ensures
        tidy(project_rest(s, at, w)),
        kda_matches(w) ==> all_from(
            project_rest(s, at, w),
            w.wq,
            at.xin(),
            at.sc(Sc::Xq),
            s.n_embd,
            1,
        ),
        keeps(project_rest(s, at, w), at.xin()),
        keeps(project_rest(s, at, w), at.sc(Sc::Xq)),
        keeps(project_rest(s, at, w), Buf::State(St::Cur)),
{
    let rest = project_rest(s, at, w);
    assert(tidy(rest));
    if kda_matches(w) {
        assert(all_from(rest, w.wq, at.xin(), at.sc(Sc::Xq), s.n_embd, 1));
    }
}

proof fn lemma_kda_quiet(
    s: Shape,
    at: Place,
    w: KdaW,
    cards: Seq<i32>,
    state: Option<KdaState>,
    matched: bool,
)
    requires
        matched ==> kda_matches(w),
    ensures
        quiet(kda_half(s, at, w, cards, state).ops, Buf::State(St::Cur), matched),
{
    let cur = Buf::State(St::Cur);
    let q = quant_for(w.wq, at.sc(Sc::Xq), at.xin(), s.n_embd);
    let a = kda_project(s, at, w);
    let rest = project_rest(s, at, w);
    lemma_project_rest(s, at, w);
    let xq = at.sc(Sc::Xq);
    lemma_fed(rest, w.wq, at.xin(), xq, s.n_embd, 1, matched);
    lemma_keeps_add(q, rest, cur);
    assert(a =~= q + rest);
    let b = kda_recurrence(s, at);
    lemma_recurrence_quiet(s, at, matched);
    let c = project_out(s, at, w.out, Wt::KdaOut, Sc::O, s.d_inner());
    lemma_project_out_quiet(s, at, w.out, Wt::KdaOut, Sc::O, s.d_inner(), matched);
    let ops = kda_half(s, at, w, cards, state).ops;
    if cards.contains(at.dev) && state is Some {
        let n = (a.len() + b.len()) as int;
        let gate = ops.subrange(n, n + 2);
        lemma_tidy_add(rest, b);
        lemma_tidy_add(rest + b, gate);
        lemma_keeps_add(rest, b, xq);
        lemma_keeps_add(rest + b, gate, xq);
        lemma_keeps_add(rest, b, at.xin());
        lemma_keeps_add(rest + b, gate, at.xin());
        let more = rest + b + gate;
        assert forall|i: int| matched && 0 <= i < more.len() implies (#[trigger] more[i] matches
            Op::MatmulKq {
            x,
            xq: from,
            in_dim,
            t,
            ..
        } ==> w.wq == MatKind::Kq && x == at.xin() && from == xq && in_dim == s.n_embd && t
            == 1) by {
            if i < rest.len() {
                assert(more[i] == rest[i]);
            } else if i < rest.len() + b.len() {
                assert(more[i] == b[i - rest.len()]);
            } else {
                assert(more[i] == gate[i - rest.len() - b.len()]);
            }
        }
        lemma_fed(more, w.wq, at.xin(), xq, s.n_embd, 1, matched);
        lemma_keeps_add(rest, b, cur);
        lemma_keeps_add(rest + b, gate, cur);
        lemma_keeps_add(q, more, cur);
        lemma_quiet_add(q + more, c, cur, matched);
        assert(ops =~= q + more + c);
    }
}

proof fn lemma_mla_quiet(
    s: Shape,
    at: Place,
    w: MlaW,
    cards: Seq<i32>,
    pos: u32,
    ctx: u32,
    matched: bool,
)
    ensures
        quiet(mla_half(s, at, w, cards, pos, ctx).ops, Buf::State(St::Cur), matched),
{
    let cur = Buf::State(St::Cur);
    let a = mla_query(s, at, pos);
    assert(quiet(a, cur, matched));
    let b = mla_core(s, at, pos, ctx, Rope::Model);
    lemma_mla_core_quiet(s, at, pos, ctx, Rope::Model, matched);
    let c = quant_for(w.gate, at.sc(Sc::Xq), at.xin(), s.n_embd);
    let e = project_out(s, at, w.out, Wt::MlaOut, Sc::Heads, s.mla_out());
    lemma_project_out_quiet(s, at, w.out, Wt::MlaOut, Sc::Heads, s.mla_out(), matched);
    let ops = mla_half(s, at, w, cards, pos, ctx).ops;
    if cards.contains(at.dev) {
        let n = (a.len() + b.len() + c.len()) as int;
        let d = ops.subrange(n, n + 2);
        lemma_fed(d, w.gate, at.xin(), at.sc(Sc::Xq), s.n_embd, 1, matched);
        lemma_keeps_add(c, d, cur);
        lemma_quiet_add(a, b, cur, matched);
        lemma_quiet_add(a + b, c + d, cur, matched);
        lemma_quiet_add(a + b + (c + d), e, cur, matched);
        assert(ops =~= a + b + (c + d) + e);
    }
}

proof fn lemma_mixer_quiet(
    s: Shape,
    at: Place,
    w: BailingW,
    cards: Seq<i32>,
    state: Option<KdaState>,
    pos: u32,
    ctx: u32,
    matched: bool,
)
    requires
        matched ==> (w.kda matches Some(kda) ==> kda_matches(kda)),
    ensures
        quiet(mixer(s, at, w, cards, state, pos, ctx).ops, Buf::State(St::Cur), matched),
{
    match (w.kda, w.mla) {
        (Some(kda), _) => lemma_kda_quiet(s, at, kda, cards, state, matched),
        (None, Some(mla)) => lemma_mla_quiet(s, at, mla, cards, pos, ctx, matched),
        (None, None) => {},
    }
}

proof fn lemma_ffn_quiet(s: Shape, il: usize, l: LayerW, clamp: Option<usize>, matched: bool)
    ensures
        quiet(ffn(s, il, l, clamp).ops, Buf::State(St::Cur), matched),
{
    let cur = Buf::State(St::Cur);
    match l.ffn {
        Ffn::Dense => lemma_dense_quiet(s, il, matched),
        Ffn::Moe { shexp } => {
            let a = route(s, il);
            assert(quiet(a, cur, matched));
            let b = shared_half(s, il, shexp, clamp);
            assert(quiet(b, cur, matched));
            let c = routed_half(s, il);
            assert(c[1] == Op::Sync);
            assert(quiet(c, cur, matched));
            lemma_quiet_add(a, b, cur, matched);
            lemma_quiet_add(a + b, c, cur, matched);
        },
        Ffn::Other => {},
    }
}

/// A layer up to the addition that ends it.
spec fn layer_front(m: Model, rt: BailingRt, il: usize, pos: u32, ctx: u32) -> Plan {
    let s = m.shape;
    let l = m.layers@[il as int];
    let at = Place { il, dev: m.attn_dev(il, rt.primary), primary: rt.primary };
    let cards = rt.scratch@;
    match l.attn {
        Attn::Bailing(w) => Plan::of(enter(s, il)).and(hop_in(s, at, cards)).and(
            mixer(s, at, w, cards, rt.states@[il as int], pos, ctx),
        ).and(Plan::of(rejoin(s, il))).and(ffn(s, il, l, m.clamp_of(il))),
        _ => Plan::fail(EngineError::BailingWrongAttn),
    }
}

/// The addition that ends a layer.
spec fn layer_last(m: Model) -> Plan {
    Plan::of(
        seq![
            Op::Add {
                out: Buf::State(St::Cur),
                a: Buf::State(St::AfterAttn),
                b: Buf::State(St::FfnOut),
                n: m.shape.n_embd,
            },
        ],
    )
}

proof fn lemma_layer_front(m: Model, rt: BailingRt, il: usize, pos: u32, ctx: u32, matched: bool)
    requires
        matched ==> kda_layer_matches(m.layers@[il as int]),
    ensures
        quiet(layer_front(m, rt, il, pos, ctx).ops, Buf::State(St::Cur), matched),
        m.bailing_layer(rt, il, pos, ctx) == layer_front(m, rt, il, pos, ctx).and(layer_last(m)),
{
    reveal(layer);
    let cur = Buf::State(St::Cur);
    let s = m.shape;
    let l = m.layers@[il as int];
    let at = Place { il, dev: m.attn_dev(il, rt.primary), primary: rt.primary };
    let cards = rt.scratch@;
    if let Attn::Bailing(w) = l.attn {
        let a = Plan::of(enter(s, il));
        assert(quiet(a.ops, cur, matched));
        let b = hop_in(s, at, cards);
        assert(quiet(b.ops, cur, matched));
        let c = mixer(s, at, w, cards, rt.states@[il as int], pos, ctx);
        lemma_mixer_quiet(s, at, w, cards, rt.states@[il as int], pos, ctx, matched);
        let d = Plan::of(rejoin(s, il));
        assert(quiet(d.ops, cur, matched));
        let e = ffn(s, il, l, m.clamp_of(il));
        lemma_ffn_quiet(s, il, l, m.clamp_of(il), matched);
        lemma_quiet_and(a, b, cur, matched);
        lemma_quiet_and(a.and(b), c, cur, matched);
        lemma_quiet_and(a.and(b).and(c), d, cur, matched);
        lemma_quiet_and(a.and(b).and(c).and(d), e, cur, matched);
    }
}

/// The residual stays as it entered a layer until the layer's last operation; a
/// layer that ends in an error leaves it as it was.
pub proof fn residual_changes_last(m: Model, rt: BailingRt, il: usize, pos: u32, ctx: u32)
    ensures
        ({
            let plan = m.bailing_layer(rt, il, pos, ctx);
            let cur = Buf::State(St::Cur);
            if plan.end is Ok {
                &&& plan.ops.len() > 0
                &&& writes(plan.ops.last(), cur)
                &&& keeps(plan.ops.drop_last(), cur)
            } else {
                keeps(plan.ops, cur)
            }
        }),
{
    let front = layer_front(m, rt, il, pos, ctx);
    let plan = m.bailing_layer(rt, il, pos, ctx);
    lemma_layer_front(m, rt, il, pos, ctx, false);
    if plan.end is Ok {
        assert(plan.ops.drop_last() =~= front.ops);
    }
}

proof fn lemma_layers_sound(m: Model, rt: BailingRt, n: int, pos: u32, ctx: u32, matched: bool)
    requires
        n <= m.shape.n_exec_layer,
        matched ==> kda_all_match(m),
    ensures
        sound(m.bailing_layers(rt, n, pos, ctx).ops, matched),
    decreases n,
{
    if n > 0 {
        lemma_layers_sound(m, rt, n - 1, pos, ctx, matched);
        let il = (n - 1) as usize;
        lemma_layer_front(m, rt, il, pos, ctx, matched);
        assert(sound(layer_last(m).ops, matched));
        lemma_sound_and(layer_front(m, rt, il, pos, ctx), layer_last(m), matched);
        lemma_sound_and(
            m.bailing_layers(rt, n - 1, pos, ctx),
            m.bailing_layer(rt, il, pos, ctx),
            matched,
        );
    }
}

proof fn lemma_tokens_sound(
    m: Model,
    rt: BailingRt,
    tokens: Seq<u32>,
    n: int,
    pos0: u32,
    ctx: u32,
    matched: bool,
)
    requires
        matched ==> kda_all_match(m),
    ensures
        sound(m.bailing_tokens(rt, tokens, n, pos0, ctx).ops, matched),
    decreases n,
{
    if n > 0 {
        lemma_tokens_sound(m, rt, tokens, n - 1, pos0, ctx, matched);
        let pos = (pos0 + n - 1) as u32;
        let nl = m.shape.n_exec_layer as int;
        let a = Plan::of(
            seq![
                Op::WriteToken(tokens[n - 1]),
                Op::Embed {
                    out: Buf::State(St::Cur),
                    table: Buf::Global(Gw::TokenEmbd),
                    n_embd: m.shape.n_embd,
                    n_vocab: m.shape.n_vocab,
                    t: 1,
                },
            ],
        );
        assert(sound(a.ops, matched));
        let b = m.bailing_layers(rt, nl, pos, ctx);
        lemma_layers_sound(m, rt, nl, pos, ctx, matched);
        let c = Plan::of(seq![Op::SetDevice(rt.primary)]);
        assert(sound(c.ops, matched));
        lemma_sound_and(a, b, matched);
        lemma_sound_and(a.and(b), c, matched);
        lemma_sound_and(
            m.bailing_tokens(rt, tokens, n - 1, pos0, ctx),
            m.bailing_token(rt, tokens[n - 1], pos, ctx),
            matched,
        );
    }
}

/// In a batch no kernel writes a weight, or a buffer that it also reads, and the
/// host waits for the device right before it reads the selected experts or the
/// logits back.  Where the encodings of every KDA mixer match, every matmul over
/// quantized rows multiplies the quantization of its own input.
pub proof fn pass_is_sound(
    m: Model,
    rt: BailingRt,
    tokens: Seq<u32>,
    pos0: u32,
    rows: u32,
    ctx: u32,
    current: i32,
)
    ensures
        tidy(m.bailing_pass(rt, tokens, pos0, rows, ctx, current).ops),
        kda_all_match(m) ==> all_fed(m.bailing_pass(rt, tokens, pos0, rows, ctx, current).ops),
{
    let matched = kda_all_match(m);
    let n = rt.states@.len() as int;
    lemma_reset_sound(rt.states@, n, matched);
    let back = seq![Op::SetDevice(current)];
    assert(sound(back, matched));
    lemma_sound_add(reset_states(rt.states@, n), back, matched);
    let first = ops_if(pos0 == 0, reset_all(rt.states@, current));
    let prim = seq![Op::SetDevice(rt.primary)];
    assert(sound(prim, matched));
    lemma_sound_add(first, prim, matched);
    let a = Plan::of(first + prim);
    let b = m.bailing_tokens(rt, tokens, tokens.len() as int, pos0, ctx);
    lemma_tokens_sound(m, rt, tokens, tokens.len() as int, pos0, ctx, matched);
    lemma_sound_and(a, b, matched);
    let c = m.bailing_tail(rows);
    lemma_head_sound(m.shape, matched);
    lemma_sound_and(a.and(b), c, matched);
}

} // verus!
