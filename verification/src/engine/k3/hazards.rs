//! What a K3 pass writes, and when the host reads back.

use crate::engine::blocks::{
    kda_recurrence, last_row_head, matw, mla_core, project_out, quant_for, reset_all, reset_states,
    KdaState, Place,
};
use crate::engine::error::EngineError;
use crate::engine::hazard::{
    all_fed, all_from, kda_matches, keeps, lemma_dense_quiet, lemma_fed, lemma_head_sound, lemma_keeps_add,
    lemma_mla_core_quiet, lemma_project_out_quiet, lemma_quiet_add, lemma_quiet_and, lemma_recurrence_quiet,
    lemma_reset_sound, lemma_sound_add, lemma_sound_and, quiet, sound, tidy, writes,
};
use crate::engine::k3::{banked, K3Rt};
use crate::engine::k3::blocks::{
    attn_res, enter, entered, ffn, hop_in, kda_project, layer, mixer, mla_half, mla_query, moe,
    rejoin, route, routed_half, shared_half, shift,
};
use crate::engine::ops::{ops_if, Buf, Gw, K3Buf, Op, Plan, Rope, Sc, St, Wt};
use crate::engine::shape::{
    f32_bytes, Attn, Ffn, KdaW, LayerW, MatKind, MlaW, Model, RoutedW, Shape, ShexpW, K3W,
};
use vstd::prelude::*;

verus! {

/// The encodings of a layer's KDA mixer match, where it has one.
pub open spec fn kda_layer_matches(l: LayerW) -> bool {
    l.attn matches Attn::K3(w) ==> (w.kda matches Some(kda) ==> kda_matches(kda))
}

/// The encodings of every KDA mixer of a model match.
pub open spec fn kda_all_match(m: Model) -> bool {
    forall|il: int|
        0 <= il < m.shape.n_exec_layer ==> kda_layer_matches(#[trigger] m.layers@[il])
}

/// The projections of a KDA mixer behind the quantization of its input.
spec fn project_rest(s: Shape, at: Place, w: KdaW) -> Seq<Op> {
    kda_project(s, at, w).skip(
        quant_for(w.wq, at.sc(Sc::Xq), at.xin(), s.n_embd).len() as int,
    )
}

proof fn lemma_project_rest(s: Shape, at: Place, w: KdaW)
    ensures
        tidy(project_rest(s, at, w)),
        kda_matches(w) ==> all_from(
            project_rest(s, at, w),
            w.wq,
            at.xin(),
            at.sc(Sc::Xq),
            s.n_embd,
            1,
        ),
        keeps(project_rest(s, at, w), at.xin()),
        keeps(project_rest(s, at, w), at.sc(Sc::Xq)),
        keeps(project_rest(s, at, w), Buf::State(St::Cur)),
{
    let rest = project_rest(s, at, w);
    assert(tidy(rest));
    if kda_matches(w) {
        assert(all_from(rest, w.wq, at.xin(), at.sc(Sc::Xq), s.n_embd, 1));
    }
}

proof fn lemma_kda_quiet(s: Shape, at: Place, w: KdaW, matched: bool)
    requires
        matched ==> kda_matches(w),
    ensures
        quiet(kda_project(s, at, w), Buf::State(St::Cur), matched),
        quiet(
            kda_project(s, at, w) + kda_recurrence(s, at) + seq![
                Op::SigmoidGate { buf: at.sc(Sc::O), gate: at.sc(Sc::Gate), n: s.d_inner() },
            ] + project_out(s, at, w.out, Wt::KdaOut, Sc::O, s.d_inner()),
            Buf::State(St::Cur),
            matched,
        ),
{
    let cur = Buf::State(St::Cur);
    let q = quant_for(w.wq, at.sc(Sc::Xq), at.xin(), s.n_embd);
    let a = kda_project(s, at, w);
    let rest = project_rest(s, at, w);
    lemma_project_rest(s, at, w);
    lemma_fed(rest, w.wq, at.xin(), at.sc(Sc::Xq), s.n_embd, 1, matched);
    lemma_keeps_add(q, rest, cur);
    assert(a =~= q + rest);
    let b = kda_recurrence(s, at);
    lemma_recurrence_quiet(s, at, matched);
    let gate = seq![
        Op::SigmoidGate { buf: at.sc(Sc::O), gate: at.sc(Sc::Gate), n: s.d_inner() },
    ];
    assert(quiet(gate, cur, matched));
    let c = project_out(s, at, w.out, Wt::KdaOut, Sc::O, s.d_inner());
    lemma_project_out_quiet(s, at, w.out, Wt::KdaOut, Sc::O, s.d_inner(), matched);
    lemma_quiet_add(a, b, cur, matched);
    lemma_quiet_add(a + b, gate, cur, matched);
    lemma_quiet_add(a + b + gate, c, cur, matched);
}

proof fn lemma_mla_quiet(
    s: Shape,
    at: Place,
    w: MlaW,
    cards: Seq<i32>,
    pos: u32,
    ctx: u32,
    matched: bool,
)
    ensures
        quiet(mla_half(s, at, w, cards, pos, ctx).ops, Buf::State(St::Cur), matched),
{
    let cur = Buf::State(St::Cur);
    let a = mla_query(s, at);
    assert(quiet(a, cur, matched));
    let b = mla_core(s, at, pos, ctx, Rope::Identity);
    lemma_mla_core_quiet(s, at, pos, ctx, Rope::Identity, matched);
    let c = quant_for(w.gate, at.sc(Sc::Xq), at.xin(), s.n_embd);
    let e = project_out(s, at, w.out, Wt::MlaOut, Sc::Heads, s.mla_out());
    lemma_project_out_quiet(s, at, w.out, Wt::MlaOut, Sc::Heads, s.mla_out(), matched);
    let ops = mla_half(s, at, w, cards, pos, ctx).ops;
    if cards.contains(at.dev) {
        let n = (a.len() + b.len() + c.len()) as int;
        let d = ops.subrange(n, n + 2);
        lemma_fed(d, w.gate, at.xin(), at.sc(Sc::Xq), s.n_embd, 1, matched);
        lemma_keeps_add(c, d, cur);
        lemma_quiet_add(a, b, cur, matched);
        lemma_quiet_add(a + b, c + d, cur, matched);
        lemma_quiet_add(a + b + (c + d), e, cur, matched);
        assert(ops =~= a + b + (c + d) + e);
    }
}

proof fn lemma_mixer_quiet(
    s: Shape,
    at: Place,
    w: K3W,
    cards: Seq<i32>,
    state: Option<KdaState>,
    pos: u32,
    ctx: u32,
    matched: bool,
)
    requires
        matched ==> (w.kda matches Some(kda) ==> kda_matches(kda)),
    ensures
        quiet(mixer(s, at, w, cards, state, pos, ctx).ops, Buf::State(St::Cur), matched),
{
    match (w.kda, w.mla) {
        (Some(kda), _) => lemma_kda_quiet(s, at, kda, matched),
        (None, Some(mla)) => lemma_mla_quiet(s, at, mla, cards, pos, ctx, matched),
        (None, None) => {},
    }
}

/// The shared experts up to their middle.
spec fn shared_front(s: Shape, at: Place, w: ShexpW) -> Seq<Op> {
    let x = at.sc(Sc::FfnNormedA);
    let xq = at.sc(Sc::XqFfn);
    seq![
        matw(at.sc(Sc::GateSh), at.wt(Wt::ShexpGate), w.gate, x, xq, s.n_embd, s.n_ff_shexp, 1),
        matw(at.sc(Sc::UpSh), at.wt(Wt::ShexpUp), w.up, x, xq, s.n_embd, s.n_ff_shexp, 1),
        Op::Swiglu {
            out: at.sc(Sc::MidSh),
            gate: at.sc(Sc::GateSh),
            up: at.sc(Sc::UpSh),
            n: s.n_ff_shexp,
            clamp: None,
            act: s.moe_act_op,
        },
    ]
}

/// The shared experts from their middle on.
spec fn shared_back(s: Shape, at: Place, w: ShexpW) -> Seq<Op> {
    seq![
        matw(
            at.sc(Sc::ShexpOut),
            at.wt(Wt::ShexpDown),
            w.down,
            at.sc(Sc::MidSh),
            at.sc(Sc::XqMid),
            s.n_ff_shexp,
            s.n_embd,
            1,
        ),
    ]
}

proof fn lemma_shared_front(s: Shape, at: Place, w: ShexpW, matched: bool)
    ensures
        quiet(
            seq![
                Op::QuantizeQ8K {
                    out: at.sc(Sc::XqFfn),
                    x: at.sc(Sc::FfnNormedA),
                    n: s.n_embd,
                    rows: 1,
                },
            ] + shared_front(s, at, w),
            Buf::State(St::Cur),
            matched,
        ),
{
    let rest = shared_front(s, at, w);
    let q = seq![
        Op::QuantizeQ8K { out: at.sc(Sc::XqFfn), x: at.sc(Sc::FfnNormedA), n: s.n_embd, rows: 1 },
    ];
    lemma_fed(rest, MatKind::Kq, at.sc(Sc::FfnNormedA), at.sc(Sc::XqFfn), s.n_embd, 1, matched);
    lemma_keeps_add(q, rest, Buf::State(St::Cur));
}

proof fn lemma_shared_back(s: Shape, at: Place, w: ShexpW, matched: bool)
    ensures
        quiet(
            seq![
                Op::QuantizeQ8K {
                    out: at.sc(Sc::XqMid),
                    x: at.sc(Sc::MidSh),
                    n: s.n_ff_shexp,
                    rows: 1,
                },
            ] + shared_back(s, at, w),
            Buf::State(St::Cur),
            matched,
        ),
{
    let rest = shared_back(s, at, w);
    let q = seq![
        Op::QuantizeQ8K { out: at.sc(Sc::XqMid), x: at.sc(Sc::MidSh), n: s.n_ff_shexp, rows: 1 },
    ];
    lemma_fed(rest, MatKind::Kq, at.sc(Sc::MidSh), at.sc(Sc::XqMid), s.n_ff_shexp, 1, matched);
    lemma_keeps_add(q, rest, Buf::State(St::Cur));
}

proof fn lemma_shared_quiet(s: Shape, at: Place, w: ShexpW, matched: bool)
    ensures
        quiet(shared_half(s, at, w), Buf::State(St::Cur), matched),
{
    let cur = Buf::State(St::Cur);
    let a = shift(s, at, at.sc(Sc::FfnNormedA), Buf::State(St::Normed), at.dev);
    assert(quiet(a, cur, matched));
    let e = shift(s, at, Buf::State(St::SharedOut), at.sc(Sc::ShexpOut), at.primary);
    assert(quiet(e, cur, matched));
    let b = seq![
        Op::QuantizeQ8K { out: at.sc(Sc::XqFfn), x: at.sc(Sc::FfnNormedA), n: s.n_embd, rows: 1 },
    ] + shared_front(s, at, w);
    lemma_shared_front(s, at, w, matched);
    let c = seq![
        Op::QuantizeQ8K { out: at.sc(Sc::XqMid), x: at.sc(Sc::MidSh), n: s.n_ff_shexp, rows: 1 },
    ] + shared_back(s, at, w);
    lemma_shared_back(s, at, w, matched);
    lemma_quiet_add(a, b, cur, matched);
    lemma_quiet_add(a + b, c, cur, matched);
    lemma_quiet_add(a + b + c, e, cur, matched);
    assert(shared_half(s, at, w) =~= a + b + c + e);
}

proof fn lemma_routed_quiet(s: Shape, at: Place, w: RoutedW, matched: bool)
    ensures
        quiet(routed_half(s, at, w), Buf::State(St::Cur), matched),
{
    let cur = Buf::State(St::Cur);
    let xq = Buf::Scratch(at.primary, Sc::Xq);
    let lat = s.n_expert_latent;
    let a = quant_for(w.down, xq, Buf::State(St::Normed), s.n_embd);
    let c = quant_for(w.up, xq, Buf::K3(K3Buf::LatOut), lat);
    let ops = routed_half(s, at, w);
    let n = a.len() as int;
    let down = ops.subrange(n, n + 1);
    lemma_fed(down, w.down, Buf::State(St::Normed), xq, s.n_embd, 1, matched);
    lemma_keeps_add(a, down, cur);
    let b = ops.subrange(n + 1, n + 6);
    assert(b[2] == Op::Sync);
    assert(quiet(b, cur, matched));
    let d = ops.skip(n + 6 + c.len());
    lemma_fed(d, w.up, Buf::K3(K3Buf::LatOut), xq, lat, 1, matched);
    lemma_keeps_add(c, d, cur);
    lemma_quiet_add(a + down, b, cur, matched);
    lemma_quiet_add(a + down + b, c + d, cur, matched);
    assert(ops =~= a + down + b + (c + d));
}

proof fn lemma_ffn_quiet(s: Shape, at: Place, l: LayerW, w: K3W, cards: Seq<i32>, matched: bool)
    ensures
        quiet(ffn(s, at, l, w, cards).ops, Buf::State(St::Cur), matched),
{
    let cur = Buf::State(St::Cur);
    match (l.ffn, w.routed) {
        (Ffn::Dense, _) => lemma_dense_quiet(s, at.il, matched),
        (Ffn::Moe { .. }, Some(routed)) => {
            let a = Plan::of(route(s, at.il));
            assert(quiet(a.ops, cur, matched));
            let b = match w.shexp {
                Some(sh) => if cards.contains(at.dev) {
                    lemma_shared_quiet(s, at, sh, matched);
                    Plan::of(shared_half(s, at, sh))
                } else {
                    Plan::fail(EngineError::K3NoScratch)
                },
                None => Plan::of(
                    seq![Op::Zero { buf: Buf::State(St::SharedOut), bytes: f32_bytes(s.n_embd) }],
                ),
            };
            assert(quiet(b.ops, cur, matched));
            let c = if cards.contains(at.primary) {
                lemma_routed_quiet(s, at, routed, matched);
                Plan::of(routed_half(s, at, routed))
            } else {
                Plan::fail(EngineError::K3NoScratch)
            };
            assert(quiet(c.ops, cur, matched));
            lemma_quiet_and(a, b, cur, matched);
            lemma_quiet_and(a.and(b), c, cur, matched);
            assert(moe(s, at, w, routed, cards) == a.and(b).and(c));
        },
        _ => {},
    }
}

/// A layer up to the addition that ends it.
spec fn layer_front(m: Model, rt: K3Rt, il: usize, n_ckpt: u32, pos: u32, ctx: u32) -> Plan {
    let s = m.shape;
    let l = m.layers@[il as int];
    let at = Place { il, dev: m.attn_dev(il, rt.primary), primary: rt.primary };
    let cards = rt.scratch@;
    match l.attn {
        Attn::K3(w) => Plan::of(enter(s, il, n_ckpt)).and(hop_in(s, at, cards)).and(
            mixer(s, at, w, cards, rt.states@[il as int], pos, ctx),
        ).and(Plan::of(rejoin(s, il, entered(s, il, n_ckpt)))).and(ffn(s, at, l, w, cards)),
        _ => Plan::fail(EngineError::K3WrongAttn),
    }
}

/// The addition that ends a layer.
spec fn layer_last(m: Model) -> Plan {
    Plan::of(
        seq![
            Op::Add {
                out: Buf::State(St::Cur),
                a: Buf::State(St::AfterAttn),
                b: Buf::State(St::FfnOut),
                n: m.shape.n_embd,
            },
        ],
    )
}

proof fn lemma_layer_front(
    m: Model,
    rt: K3Rt,
    il: usize,
    n_ckpt: u32,
    pos: u32,
    ctx: u32,
    matched: bool,
)
    requires
        matched ==> kda_layer_matches(m.layers@[il as int]),
    ensures
        quiet(layer_front(m, rt, il, n_ckpt, pos, ctx).ops, Buf::State(St::Cur), matched),
        m.k3_layer(rt, il, n_ckpt, pos, ctx) == layer_front(m, rt, il, n_ckpt, pos, ctx).and(
            layer_last(m),
        ),
{
    reveal(layer);
    let cur = Buf::State(St::Cur);
    let s = m.shape;
    let l = m.layers@[il as int];
    let at = Place { il, dev: m.attn_dev(il, rt.primary), primary: rt.primary };
    let cards = rt.scratch@;
    if let Attn::K3(w) = l.attn {
        let a = Plan::of(enter(s, il, n_ckpt));
        assert(quiet(a.ops, cur, matched));
        let b = hop_in(s, at, cards);
        assert(quiet(b.ops, cur, matched));
        let c = mixer(s, at, w, cards, rt.states@[il as int], pos, ctx);
        lemma_mixer_quiet(s, at, w, cards, rt.states@[il as int], pos, ctx, matched);
        let d = Plan::of(rejoin(s, il, entered(s, il, n_ckpt)));
        assert(quiet(d.ops, cur, matched));
        let e = ffn(s, at, l, w, cards);
        lemma_ffn_quiet(s, at, l, w, cards, matched);
        lemma_quiet_and(a, b, cur, matched);
        lemma_quiet_and(a.and(b), c, cur, matched);
        lemma_quiet_and(a.and(b).and(c), d, cur, matched);
        lemma_quiet_and(a.and(b).and(c).and(d), e, cur, matched);
    }
}

/// The residual stays as it entered a layer until the layer's last operation,
/// so that what the layer banks is its raw input; a layer that ends in an error
/// leaves it as it was.
pub proof fn residual_changes_last(
    m: Model,
    rt: K3Rt,
    il: usize,
    n_ckpt: u32,
    pos: u32,
    ctx: u32,
)
    ensures
        ({
            let plan = m.k3_layer(rt, il, n_ckpt, pos, ctx);
            let cur = Buf::State(St::Cur);
            if plan.end is Ok {
                &&& plan.ops.len() > 0
                &&& writes(plan.ops.last(), cur)
                &&& keeps(plan.ops.drop_last(), cur)
            } else {
                keeps(plan.ops, cur)
            }
        }),
{
    let front = layer_front(m, rt, il, n_ckpt, pos, ctx);
    let plan = m.k3_layer(rt, il, n_ckpt, pos, ctx);
    lemma_layer_front(m, rt, il, n_ckpt, pos, ctx, false);
    if plan.end is Ok {
        assert(plan.ops.drop_last() =~= front.ops);
    }
}

proof fn lemma_layers_sound(m: Model, rt: K3Rt, n: int, pos: u32, ctx: u32, matched: bool)
    requires
        n <= m.shape.n_exec_layer,
        matched ==> kda_all_match(m),
    ensures
        sound(m.k3_layers(rt, n, pos, ctx).ops, matched),
    decreases n,
{
    if n > 0 {
        lemma_layers_sound(m, rt, n - 1, pos, ctx, matched);
        let il = (n - 1) as usize;
        let ck = banked(m.shape, n - 1) as u32;
        lemma_layer_front(m, rt, il, ck, pos, ctx, matched);
        let front = layer_front(m, rt, il, ck, pos, ctx);
        assert(sound(layer_last(m).ops, matched));
        lemma_sound_and(front, layer_last(m), matched);
        lemma_sound_and(
            m.k3_layers(rt, n - 1, pos, ctx),
            m.k3_layer(rt, il, ck, pos, ctx),
            matched,
        );
    }
}

proof fn lemma_tokens_sound(
    m: Model,
    rt: K3Rt,
    tokens: Seq<u32>,
    n: int,
    pos0: u32,
    ctx: u32,
    matched: bool,
)
    requires
        matched ==> kda_all_match(m),
    ensures
        sound(m.k3_tokens(rt, tokens, n, pos0, ctx).ops, matched),
    decreases n,
{
    if n > 0 {
        lemma_tokens_sound(m, rt, tokens, n - 1, pos0, ctx, matched);
        let pos = (pos0 + n - 1) as u32;
        let nl = m.shape.n_exec_layer as int;
        let a = Plan::of(
            seq![
                Op::WriteToken(tokens[n - 1]),
                Op::Embed {
                    out: Buf::State(St::Cur),
                    table: Buf::Global(Gw::TokenEmbd),
                    n_embd: m.shape.n_embd,
                    n_vocab: m.shape.n_vocab,
                    t: 1,
                },
            ],
        );
        assert(sound(a.ops, matched));
        let b = m.k3_layers(rt, nl, pos, ctx);
        lemma_layers_sound(m, rt, nl, pos, ctx, matched);
        let c = Plan::of(seq![Op::SetDevice(rt.primary)]);
        assert(sound(c.ops, matched));
        lemma_sound_and(a, b, matched);
        lemma_sound_and(a.and(b), c, matched);
        lemma_sound_and(
            m.k3_tokens(rt, tokens, n - 1, pos0, ctx),
            m.k3_token(rt, tokens[n - 1], pos, ctx),
            matched,
        );
    }
}

/// In a batch no kernel writes a weight, or a buffer that it also reads, and the
/// host waits for the device right before it reads the selected experts or the
/// logits back.  Where the encodings of every KDA mixer match, every matmul over
/// quantized rows multiplies the quantization of its own input.
pub proof fn pass_is_sound(
    m: Model,
    rt: K3Rt,
    tokens: Seq<u32>,
    pos0: u32,
    rows: u32,
    ctx: u32,
    current: i32,
)
    ensures
        tidy(m.k3_pass(rt, tokens, pos0, rows, ctx, current).ops),
        kda_all_match(m) ==> all_fed(m.k3_pass(rt, tokens, pos0, rows, ctx, current).ops),
{
    let matched = kda_all_match(m);
    let n = rt.states@.len() as int;
    lemma_reset_sound(rt.states@, n, matched);
    let back = seq![Op::SetDevice(current)];
    assert(sound(back, matched));
    lemma_sound_add(reset_states(rt.states@, n), back, matched);
    let first = ops_if(pos0 == 0, reset_all(rt.states@, current));
    let prim = seq![Op::SetDevice(rt.primary)];
    assert(sound(prim, matched));
    lemma_sound_add(first, prim, matched);
    let a = Plan::of(first + prim);
    let b = m.k3_tokens(rt, tokens, tokens.len() as int, pos0, ctx);
    lemma_tokens_sound(m, rt, tokens, tokens.len() as int, pos0, ctx, matched);
    lemma_sound_and(a, b, matched);
    let c = m.k3_tail(rows);
    lemma_tail_sound(m, rows, matched);
    lemma_sound_and(a.and(b), c, matched);
}

proof fn lemma_tail_sound(m: Model, rows: u32, matched: bool)
    ensures
        sound(m.k3_tail(rows).ops, matched),
{
    let s = m.shape;
    lemma_head_sound(s, matched);
    let head = last_row_head(s);
    let none = Seq::<Op>::empty();
    assert(sound(none, matched));
    let mix = seq![
        attn_res(
            s,
            Buf::State(St::Cur),
            Buf::Global(Gw::OutputResScore),
            banked(s, s.n_exec_layer as int) as u32,
        ),
        Op::CopyD2d {
            dst: Buf::State(St::Cur),
            dst_off: 0,
            src: Buf::K3(K3Buf::Mixed),
            src_off: 0,
            bytes: f32_bytes(s.n_embd),
        },
    ];
    assert(sound(mix, matched));
    lemma_sound_add(mix, head, matched);
    lemma_sound_add(mix, none, matched);
    lemma_sound_add(none, head, matched);
    lemma_sound_add(none, none, matched);
}

} // verus!
