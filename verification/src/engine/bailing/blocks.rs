//! The pieces of a Bailing layer.

use crate::engine::blocks::{
    dense_ffn, has_card, kda_coeffs, kda_recurrence, make_kda_coeffs, matw, mla_core, project_out,
    push_dense_ffn, push_kda_recurrence, push_mla_core, push_project_out, push_quant_for,
    quant_for, KdaState, Place,
};
use crate::engine::error::EngineError;
use crate::engine::ops::{Buf, Op, Part, Plan, Rope, Sc, St, Wt};
use crate::engine::shape::{f32_bytes, Attn, BailingW, Ffn, KdaW, LayerW, MlaW, Shape};
use vstd::prelude::*;

verus! {

/// How a layer begins: the norm of the residual.
pub open spec fn enter(s: Shape, il: usize) -> Seq<Op> {
    seq![
        Op::RmsNorm {
            out: Buf::State(St::Normed),
            x: Buf::State(St::Cur),
            w: Buf::Layer(il, Wt::AttnNorm),
            n: s.n_embd,
            rows: 1,
        },
    ]
}

/// The normed row goes to the layer's card, once the primary has written it, and
/// the card becomes current.
pub open spec fn hop_in(s: Shape, at: Place, cards: Seq<i32>) -> Plan {
    if at.dev == at.primary {
        Plan::of(Seq::empty())
    } else if !cards.contains(at.dev) {
        Plan::fail(EngineError::BailingNoOwnerScratch)
    } else {
        Plan::of(
            seq![
                Op::Sync,
                Op::CopyAcross {
                    dst: at.sc(Sc::NormedA),
                    src: Buf::State(St::Normed),
                    bytes: f32_bytes(s.n_embd),
                },
                Op::SetDevice(at.dev),
            ],
        )
    }
}

/// The projections of a KDA mixer; the decay is projected directly.
pub open spec fn kda_project(s: Shape, at: Place, w: KdaW) -> Seq<Op> {
    let d = s.d_inner();
    let xq = at.sc(Sc::Xq);
    quant_for(w.wq, xq, at.xin(), s.n_embd) + seq![
        matw(at.sc(Sc::Q), at.wt(Wt::KdaWq), w.wq, at.xin(), xq, s.n_embd, d, 1),
        matw(at.sc(Sc::K), at.wt(Wt::KdaWk), w.wk, at.xin(), xq, s.n_embd, d, 1),
        matw(at.sc(Sc::V), at.wt(Wt::KdaWv), w.wv, at.xin(), xq, s.n_embd, d, 1),
        matw(at.sc(Sc::G), at.wt(Wt::KdaFa), w.f_a, at.xin(), xq, s.n_embd, d, 1),
        matw(at.sc(Sc::Beta), at.wt(Wt::KdaBeta), w.beta_w, at.xin(), xq, s.n_embd, s.n_head, 1),
        kda_coeffs(s, at),
    ]
}

/// The KDA mixer; its output gate is projected after the recurrence.
pub open spec fn kda_half(
    s: Shape,
    at: Place,
    w: KdaW,
    cards: Seq<i32>,
    state: Option<KdaState>,
) -> Plan {
    if !cards.contains(at.dev) {
        Plan::fail(EngineError::BailingNoScratch)
    } else if state is None {
        Plan { ops: kda_project(s, at, w), end: Err(EngineError::BailingKdaStateMissing) }
    } else {
        Plan::of(
            kda_project(s, at, w) + kda_recurrence(s, at) + seq![
                matw(
                    at.sc(Sc::Gate),
                    at.wt(Wt::KdaWg),
                    w.wg,
                    at.xin(),
                    at.sc(Sc::Xq),
                    s.n_embd,
                    s.d_inner(),
                    1,
                ),
                Op::SigmoidGate { buf: at.sc(Sc::O), gate: at.sc(Sc::Gate), n: s.d_inner() },
            ] + project_out(s, at, w.out, Wt::KdaOut, Sc::O, s.d_inner()),
        )
    }
}

/// The queries of the latent attention: one projection, and the rotation of the
/// tail of each head.
pub open spec fn mla_query(s: Shape, at: Place, pos: u32) -> Seq<Op> {
    seq![
        Op::MatmulQ8 {
            out: at.sc(Sc::Mq),
            w: at.wt(Wt::MlaQ),
            x: at.xin(),
            in_dim: s.n_embd,
            out_dim: s.mla_q(),
            t: 1,
        },
        Op::MlaRopeTail {
            buf: at.sc(Sc::Mq),
            t: 1,
            n_head: s.n_head,
            qk_dim: s.qk_dim,
            rope_dim: s.qk_rope,
            pos,
        },
    ]
}

/// The latent-attention mixer.  Its output gate, one value for each head, reads
/// the normed layer input.
pub open spec fn mla_half(
    s: Shape,
    at: Place,
    w: MlaW,
    cards: Seq<i32>,
    pos: u32,
    ctx: u32,
) -> Plan {
    if !cards.contains(at.dev) {
        Plan::fail(EngineError::BailingNoScratch)
    } else {
        Plan::of(
            mla_query(s, at, pos) + mla_core(s, at, pos, ctx, Rope::Model) + quant_for(
                w.gate,
                at.sc(Sc::Xq),
                at.xin(),
                s.n_embd,
            ) + seq![
                matw(
                    at.sc(Sc::Gate),
                    at.wt(Wt::MlaGate),
                    w.gate,
                    at.xin(),
                    at.sc(Sc::Xq),
                    s.n_embd,
                    s.n_head,
                    1,
                ),
                Op::RowSigmoidScale {
                    buf: at.sc(Sc::Heads),
                    gate: at.sc(Sc::Gate),
                    rows: s.n_head,
                    dim: s.value_mla,
                },
            ] + project_out(s, at, w.out, Wt::MlaOut, Sc::Heads, s.mla_out()),
        )
    }
}

/// The attention half on its card.
pub open spec fn mixer(
    s: Shape,
    at: Place,
    w: BailingW,
    cards: Seq<i32>,
    state: Option<KdaState>,
    pos: u32,
    ctx: u32,
) -> Plan {
    match (w.kda, w.mla) {
        (Some(kda), _) => kda_half(s, at, kda, cards, state),
        (None, Some(mla)) => mla_half(s, at, mla, cards, pos, ctx),
        (None, None) => Plan::fail(EngineError::BailingNoMixer),
    }
}

/// The residual after the attention half, and the input of the feed-forward
/// half.
pub open spec fn rejoin(s: Shape, il: usize) -> Seq<Op> {
    seq![
        Op::Add {
            out: Buf::State(St::AfterAttn),
            a: Buf::State(St::Cur),
            b: Buf::State(St::AttnOut),
            n: s.n_embd,
        },
        Op::RmsNorm {
            out: Buf::State(St::Normed),
            x: Buf::State(St::AfterAttn),
            w: Buf::Layer(il, Wt::FfnNorm),
            n: s.n_embd,
            rows: 1,
        },
    ]
}

/// The router: the best groups, then the best experts in them.
pub open spec fn route(s: Shape, il: usize) -> Seq<Op> {
    seq![
        Op::MatmulF32 {
            out: Buf::State(St::RouterLogits),
            w: Buf::Layer(il, Wt::GateInp),
            x: Buf::State(St::Normed),
            in_dim: s.n_embd,
            out_dim: s.n_expert,
            t: 1,
        },
        Op::GroupRouterSelect {
            selected: Buf::State(St::RouterSelected),
            weights: Buf::State(St::RouterWeights),
            logits: Buf::State(St::RouterLogits),
            bias: Buf::Layer(il, Wt::ProbsB),
            n_expert: s.n_expert,
            n_used: s.n_expert_used,
            groups: s.n_expert_groups,
            group_used: s.n_group_used,
            t: 1,
        },
    ]
}

/// The shared expert with the layer's clamp, or zeros where there is none.
pub open spec fn shared_half(s: Shape, il: usize, shexp: bool, clamp: Option<usize>) -> Seq<Op> {
    if shexp {
        seq![
            Op::MatmulQ8 {
                out: Buf::State(St::GateAct),
                w: Buf::Layer(il, Wt::ShexpGate),
                x: Buf::State(St::Normed),
                in_dim: s.n_embd,
                out_dim: s.n_ff_shexp,
                t: 1,
            },
            Op::MatmulQ8 {
                out: Buf::State(St::UpAct),
                w: Buf::Layer(il, Wt::ShexpUp),
                x: Buf::State(St::Normed),
                in_dim: s.n_embd,
                out_dim: s.n_ff_shexp,
                t: 1,
            },
            Op::Swiglu {
                out: Buf::State(St::FfnMid),
                gate: Buf::State(St::GateAct),
                up: Buf::State(St::UpAct),
                n: s.n_ff_shexp,
                clamp,
                act: s.moe_act_op,
            },
            Op::MatmulQ8 {
                out: Buf::State(St::SharedOut),
                w: Buf::Layer(il, Wt::ShexpDown),
                x: Buf::State(St::FfnMid),
                in_dim: s.n_ff_shexp,
                out_dim: s.n_embd,
                t: 1,
            },
        ]
    } else {
        seq![Op::Zero { buf: Buf::State(St::SharedOut), bytes: f32_bytes(s.n_embd) }]
    }
}

/// The routed experts, and the sum with the shared one.
pub open spec fn routed_half(s: Shape, il: usize) -> Seq<Op> {
    seq![
        Op::QuantizeQ8K {
            out: Buf::State(St::Xq),
            x: Buf::State(St::Normed),
            n: s.n_embd,
            rows: 1,
        },
        Op::Sync,
        Op::Moe {
            part: Part::Layer(il),
            il,
            n_sel: s.n_expert_used,
            act: s.moe_act_op,
            t: 1,
            width: s.n_embd,
        },
        Op::Add {
            out: Buf::State(St::FfnOut),
            a: Buf::State(St::MoeOut),
            b: Buf::State(St::SharedOut),
            n: s.n_embd,
        },
    ]
}

/// The feed-forward half: dense, or experts.
pub open spec fn ffn(s: Shape, il: usize, l: LayerW, clamp: Option<usize>) -> Plan {
    match l.ffn {
        Ffn::Dense => Plan::of(dense_ffn(s, il)),
        Ffn::Moe { shexp } => Plan::of(
            route(s, il) + shared_half(s, il, shexp, clamp) + routed_half(s, il),
        ),
        Ffn::Other => Plan::fail(EngineError::BailingNoFfn),
    }
}

/// A layer.
#[verifier::opaque]
pub open spec fn layer(
    s: Shape,
    at: Place,
    l: LayerW,
    cards: Seq<i32>,
    state: Option<KdaState>,
    clamp: Option<usize>,
    pos: u32,
    ctx: u32,
) -> Plan {
    match l.attn {
        Attn::Bailing(w) => Plan::of(enter(s, at.il)).and(hop_in(s, at, cards)).and(
            mixer(s, at, w, cards, state, pos, ctx),
        ).and(Plan::of(rejoin(s, at.il))).and(ffn(s, at.il, l, clamp)).and(
            Plan::of(
                seq![
                    Op::Add {
                        out: Buf::State(St::Cur),
                        a: Buf::State(St::AfterAttn),
                        b: Buf::State(St::FfnOut),
                        n: s.n_embd,
                    },
                ],
            ),
        ),
        _ => Plan::fail(EngineError::BailingWrongAttn),
    }
}

pub(crate) fn push_enter(ops: &mut Vec<Op>, s: Shape, il: usize)
    ensures
        final(ops)@ == old(ops)@ + enter(s, il),
{
    ops.push(
        Op::RmsNorm {
            out: Buf::State(St::Normed),
            x: Buf::State(St::Cur),
            w: Buf::Layer(il, Wt::AttnNorm),
            n: s.n_embd,
            rows: 1,
        },
    );
    assert(ops@ =~= old(ops)@ + enter(s, il));
}

pub(crate) fn push_hop_in(ops: &mut Vec<Op>, s: Shape, at: Place, cards: &Vec<i32>) -> (r: Result<
    (),
    EngineError,
>)
    ensures
        hop_in(s, at, cards@).appended(old(ops)@, final(ops)@, r),
{
    let mut r: Result<(), EngineError> = Ok(());
    if at.dev != at.primary {
        if has_card(cards, at.dev) {
            ops.push(Op::Sync);
            ops.push(
                Op::CopyAcross {
                    dst: at.sc(Sc::NormedA),
                    src: Buf::State(St::Normed),
                    bytes: f32_bytes(s.n_embd),
                },
            );
            ops.push(Op::SetDevice(at.dev));
        } else {
            r = Err(EngineError::BailingNoOwnerScratch);
        }
    }
    assert(ops@ =~= old(ops)@ + hop_in(s, at, cards@).ops);
    r
}

pub(crate) fn push_kda_project(ops: &mut Vec<Op>, s: Shape, at: Place, w: KdaW)
    requires
        s.mixers_fit(),
    ensures
        final(ops)@ == old(ops)@ + kda_project(s, at, w),
{
    let d: u32 = s.d_inner();
    let xq: Buf = at.sc(Sc::Xq);
    push_quant_for(ops, w.wq, xq, at.xin(), s.n_embd);
    ops.push(matw(at.sc(Sc::Q), at.wt(Wt::KdaWq), w.wq, at.xin(), xq, s.n_embd, d, 1));
    ops.push(matw(at.sc(Sc::K), at.wt(Wt::KdaWk), w.wk, at.xin(), xq, s.n_embd, d, 1));
    ops.push(matw(at.sc(Sc::V), at.wt(Wt::KdaWv), w.wv, at.xin(), xq, s.n_embd, d, 1));
    ops.push(matw(at.sc(Sc::G), at.wt(Wt::KdaFa), w.f_a, at.xin(), xq, s.n_embd, d, 1));
    ops.push(
        matw(at.sc(Sc::Beta), at.wt(Wt::KdaBeta), w.beta_w, at.xin(), xq, s.n_embd, s.n_head, 1),
    );
    ops.push(make_kda_coeffs(s, at));
    assert(ops@ =~= old(ops)@ + kda_project(s, at, w));
}

pub(crate) fn push_kda_half(
    ops: &mut Vec<Op>,
    s: Shape,
    at: Place,
    w: KdaW,
    cards: &Vec<i32>,
    state: Option<KdaState>,
) -> (r: Result<(), EngineError>)
    requires
        s.mixers_fit(),
    ensures
        kda_half(s, at, w, cards@, state).appended(old(ops)@, final(ops)@, r),
{
    if !has_card(cards, at.dev) {
        assert(ops@ =~= old(ops)@ + Seq::<Op>::empty());
        return Err(EngineError::BailingNoScratch);
    }
    push_kda_project(ops, s, at, w);
    if state.is_none() {
        return Err(EngineError::BailingKdaStateMissing);
    }
    push_kda_recurrence(ops, s, at);
    ops.push(
        matw(
            at.sc(Sc::Gate),
            at.wt(Wt::KdaWg),
            w.wg,
            at.xin(),
            at.sc(Sc::Xq),
            s.n_embd,
            s.d_inner(),
            1,
        ),
    );
    ops.push(Op::SigmoidGate { buf: at.sc(Sc::O), gate: at.sc(Sc::Gate), n: s.d_inner() });
    push_project_out(ops, s, at, w.out, Wt::KdaOut, Sc::O, s.d_inner());
    assert(ops@ =~= old(ops)@ + kda_half(s, at, w, cards@, state).ops);
    Ok(())
}

pub(crate) fn push_mla_query(ops: &mut Vec<Op>, s: Shape, at: Place, pos: u32)
    requires
        s.mixers_fit(),
    ensures
        final(ops)@ == old(ops)@ + mla_query(s, at, pos),
{
    ops.push(
        Op::MatmulQ8 {
            out: at.sc(Sc::Mq),
            w: at.wt(Wt::MlaQ),
            x: at.xin(),
            in_dim: s.n_embd,
            out_dim: s.mla_q(),
            t: 1,
        },
    );
    ops.push(
        Op::MlaRopeTail {
            buf: at.sc(Sc::Mq),
            t: 1,
            n_head: s.n_head,
            qk_dim: s.qk_dim,
            rope_dim: s.qk_rope,
            pos,
        },
    );
    assert(ops@ =~= old(ops)@ + mla_query(s, at, pos));
}

pub(crate) fn push_mla_half(
    ops: &mut Vec<Op>,
    s: Shape,
    at: Place,
    w: MlaW,
    cards: &Vec<i32>,
    pos: u32,
    ctx: u32,
) -> (r: Result<(), EngineError>)
    requires
        s.mixers_fit(),
        pos < u32::MAX,
    ensures
        mla_half(s, at, w, cards@, pos, ctx).appended(old(ops)@, final(ops)@, r),
{
    if !has_card(cards, at.dev) {
        assert(ops@ =~= old(ops)@ + Seq::<Op>::empty());
        return Err(EngineError::BailingNoScratch);
    }
    push_mla_query(ops, s, at, pos);
    push_mla_core(ops, s, at, pos, ctx, Rope::Model);
    push_quant_for(ops, w.gate, at.sc(Sc::Xq), at.xin(), s.n_embd);
    ops.push(
        matw(
            at.sc(Sc::Gate),
            at.wt(Wt::MlaGate),
            w.gate,
            at.xin(),
            at.sc(Sc::Xq),
            s.n_embd,
            s.n_head,
            1,
        ),
    );
    ops.push(
        Op::RowSigmoidScale {
            buf: at.sc(Sc::Heads),
            gate: at.sc(Sc::Gate),
            rows: s.n_head,
            dim: s.value_mla,
        },
    );
    push_project_out(ops, s, at, w.out, Wt::MlaOut, Sc::Heads, s.mla_out());
    assert(ops@ =~= old(ops)@ + mla_half(s, at, w, cards@, pos, ctx).ops);
    Ok(())
}

pub(crate) fn push_mixer(
    ops: &mut Vec<Op>,
    s: Shape,
    at: Place,
    w: BailingW,
    cards: &Vec<i32>,
    state: Option<KdaState>,
    pos: u32,
    ctx: u32,
) -> (r: Result<(), EngineError>)
    requires
        s.mixers_fit(),
        pos < u32::MAX,
    ensures
        mixer(s, at, w, cards@, state, pos, ctx).appended(old(ops)@, final(ops)@, r),
{
    if let Some(kda) = w.kda {
        push_kda_half(ops, s, at, kda, cards, state)
    } else if let Some(mla) = w.mla {
        push_mla_half(ops, s, at, mla, cards, pos, ctx)
    } else {
        assert(ops@ =~= old(ops)@ + Seq::<Op>::empty());
        Err(EngineError::BailingNoMixer)
    }
}

pub(crate) fn push_rejoin(ops: &mut Vec<Op>, s: Shape, il: usize)
    ensures
        final(ops)@ == old(ops)@ + rejoin(s, il),
{
    ops.push(
        Op::Add {
            out: Buf::State(St::AfterAttn),
            a: Buf::State(St::Cur),
            b: Buf::State(St::AttnOut),
            n: s.n_embd,
        },
    );
    ops.push(
        Op::RmsNorm {
            out: Buf::State(St::Normed),
            x: Buf::State(St::AfterAttn),
            w: Buf::Layer(il, Wt::FfnNorm),
            n: s.n_embd,
            rows: 1,
        },
    );
    assert(ops@ =~= old(ops)@ + rejoin(s, il));
}

pub(crate) fn push_route(ops: &mut Vec<Op>, s: Shape, il: usize)
    ensures
        final(ops)@ == old(ops)@ + route(s, il),
{
    ops.push(
        Op::MatmulF32 {
            out: Buf::State(St::RouterLogits),
            w: Buf::Layer(il, Wt::GateInp),
            x: Buf::State(St::Normed),
            in_dim: s.n_embd,
            out_dim: s.n_expert,
            t: 1,
        },
    );
    ops.push(
        Op::GroupRouterSelect {
            selected: Buf::State(St::RouterSelected),
            weights: Buf::State(St::RouterWeights),
            logits: Buf::State(St::RouterLogits),
            bias: Buf::Layer(il, Wt::ProbsB),
            n_expert: s.n_expert,
            n_used: s.n_expert_used,
            groups: s.n_expert_groups,
            group_used: s.n_group_used,
            t: 1,
        },
    );
    assert(ops@ =~= old(ops)@ + route(s, il));
}

pub(crate) fn push_shared_half(
    ops: &mut Vec<Op>,
    s: Shape,
    il: usize,
    shexp: bool,
    clamp: Option<usize>,
)
    ensures
        final(ops)@ == old(ops)@ + shared_half(s, il, shexp, clamp),
{
    if shexp {
        ops.push(
            Op::MatmulQ8 {
                out: Buf::State(St::GateAct),
                w: Buf::Layer(il, Wt::ShexpGate),
                x: Buf::State(St::Normed),
                in_dim: s.n_embd,
                out_dim: s.n_ff_shexp,
                t: 1,
            },
        );
        ops.push(
            Op::MatmulQ8 {
                out: Buf::State(St::UpAct),
                w: Buf::Layer(il, Wt::ShexpUp),
                x: Buf::State(St::Normed),
                in_dim: s.n_embd,
                out_dim: s.n_ff_shexp,
                t: 1,
            },
        );
        ops.push(
            Op::Swiglu {
                out: Buf::State(St::FfnMid),
                gate: Buf::State(St::GateAct),
                up: Buf::State(St::UpAct),
                n: s.n_ff_shexp,
                clamp,
                act: s.moe_act_op,
            },
        );
        ops.push(
            Op::MatmulQ8 {
                out: Buf::State(St::SharedOut),
                w: Buf::Layer(il, Wt::ShexpDown),
                x: Buf::State(St::FfnMid),
                in_dim: s.n_ff_shexp,
                out_dim: s.n_embd,
                t: 1,
            },
        );
    } else {
        ops.push(Op::Zero { buf: Buf::State(St::SharedOut), bytes: f32_bytes(s.n_embd) });
    }
    assert(ops@ =~= old(ops)@ + shared_half(s, il, shexp, clamp));
}

pub(crate) fn push_routed_half(ops: &mut Vec<Op>, s: Shape, il: usize)
    ensures
        final(ops)@ == old(ops)@ + routed_half(s, il),
{
    ops.push(
        Op::QuantizeQ8K {
            out: Buf::State(St::Xq),
            x: Buf::State(St::Normed),
            n: s.n_embd,
            rows: 1,
        },
    );
    ops.push(Op::Sync);
    ops.push(
        Op::Moe {
            part: Part::Layer(il),
            il,
            n_sel: s.n_expert_used,
            act: s.moe_act_op,
            t: 1,
            width: s.n_embd,
        },
    );
    ops.push(
        Op::Add {
            out: Buf::State(St::FfnOut),
            a: Buf::State(St::MoeOut),
            b: Buf::State(St::SharedOut),
            n: s.n_embd,
        },
    );
    assert(ops@ =~= old(ops)@ + routed_half(s, il));
}

/// Appends the feed-forward half of a layer.
pub fn bailing_ffn(
    ops: &mut Vec<Op>,
    s: Shape,
    il: usize,
    l: LayerW,
    clamp: Option<usize>,
) -> (r: Result<(), EngineError>)
    ensures
        ffn(s, il, l, clamp).appended(old(ops)@, final(ops)@, r),
{
    match l.ffn {
        Ffn::Dense => {
            push_dense_ffn(ops, s, il);
            Ok(())
        },
        Ffn::Moe { shexp } => {
            push_route(ops, s, il);
            push_shared_half(ops, s, il, shexp, clamp);
            push_routed_half(ops, s, il);
            assert(ops@ =~= old(ops)@ + ffn(s, il, l, clamp).ops);
            Ok(())
        },
        Ffn::Other => {
            assert(ops@ =~= old(ops)@ + Seq::<Op>::empty());
            Err(EngineError::BailingNoFfn)
        },
    }
}

} // verus!
