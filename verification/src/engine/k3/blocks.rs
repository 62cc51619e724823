//! The pieces of a K3 layer.

use crate::engine::blocks::{
    dense_ffn, has_card, kda_coeffs, kda_recurrence, make_kda_coeffs, matw, mla_core, project_out,
    push_dense_ffn, push_kda_recurrence, push_mla_core, push_project_out, push_quant_for, quant_for,
    KdaState, Place,
};
use crate::engine::error::EngineError;
use crate::engine::ops::{ops_if, Buf, K3Buf, Op, Part, Plan, Rope, Sc, St, Wt};
use crate::engine::shape::{f32_bytes, Attn, Ffn, KdaW, LayerW, MlaW, RoutedW, Shape, ShexpW, K3W};
use vstd::prelude::*;

verus! {

/// The layer banks its raw input.
pub open spec fn banks(s: Shape, il: int) -> bool {
    s.attn_res_block > 0 && il % (s.attn_res_block as int) == 0
}

/// A mix over the residual and the bank.
pub open spec fn attn_res(s: Shape, x: Buf, w: Buf, n_ckpt: u32) -> Op {
    Op::AttnRes {
        out: Buf::K3(K3Buf::Mixed),
        x,
        bank: if n_ckpt > 0 {
            Some(Buf::K3(K3Buf::Ckpt))
        } else {
            None
        },
        w,
        n_embd: s.n_embd,
        n_ckpt,
    }
}

pub(crate) fn make_attn_res(s: Shape, x: Buf, w: Buf, n_ckpt: u32) -> (op: Op)
    ensures
        op == attn_res(s, x, w, n_ckpt),
{
    Op::AttnRes {
        out: Buf::K3(K3Buf::Mixed),
        x,
        bank: if n_ckpt > 0 {
            Some(Buf::K3(K3Buf::Ckpt))
        } else {
            None
        },
        w,
        n_embd: s.n_embd,
        n_ckpt,
    }
}

/// The norm of a row of the residual stream.
pub open spec fn row_norm(s: Shape, x: Buf, w: Buf) -> Op {
    Op::RmsNorm { out: Buf::State(St::Normed), x, w, n: s.n_embd, rows: 1 }
}

/// How a layer begins: the first mix reads the bank as it was, then the raw
/// residual is banked, then the mix is normed.
pub open spec fn enter(s: Shape, il: usize, n_ckpt: u32) -> Seq<Op> {
    if s.attn_res_block > 0 {
        seq![
            attn_res(s, Buf::State(St::Cur), Buf::Layer(il, Wt::AttnResScore), n_ckpt),
        ] + ops_if(
            banks(s, il as int),
            seq![
                Op::CopyD2d {
                    dst: Buf::K3(K3Buf::Ckpt),
                    dst_off: (n_ckpt * s.n_embd * 4) as u64,
                    src: Buf::State(St::Cur),
                    src_off: 0,
                    bytes: f32_bytes(s.n_embd),
                },
            ],
        ) + seq![row_norm(s, Buf::K3(K3Buf::Mixed), Buf::Layer(il, Wt::AttnNorm))]
    } else {
        seq![row_norm(s, Buf::State(St::Cur), Buf::Layer(il, Wt::AttnNorm))]
    }
}

/// Checkpoints that are live once a layer has begun.
pub open spec fn entered(s: Shape, il: usize, n_ckpt: u32) -> u32 {
    if banks(s, il as int) {
        (n_ckpt + 1) as u32
    } else {
        n_ckpt
    }
}

/// The normed row goes to the layer's card, once the primary has written it, and
/// the card becomes current.
pub open spec fn hop_in(s: Shape, at: Place, cards: Seq<i32>) -> Plan {
    if at.dev == at.primary {
        Plan::of(Seq::empty())
    } else if !cards.contains(at.dev) {
        Plan::fail(EngineError::K3NoOwnerScratch)
    } else {
        Plan::of(
            seq![
                Op::Sync,
                Op::CopyAcross {
                    dst: at.sc(Sc::NormedA),
                    src: Buf::State(St::Normed),
                    bytes: f32_bytes(s.n_embd),
                },
                Op::SetDevice(at.dev),
            ],
        )
    }
}

/// The projections of a KDA mixer; the decay goes through a bottleneck as wide
/// as a head.
pub open spec fn kda_project(s: Shape, at: Place, w: KdaW) -> Seq<Op> {
    let d = s.d_inner();
    let xq = at.sc(Sc::Xq);
    quant_for(w.wq, xq, at.xin(), s.n_embd) + seq![
        matw(at.sc(Sc::Q), at.wt(Wt::KdaWq), w.wq, at.xin(), xq, s.n_embd, d, 1),
        matw(at.sc(Sc::K), at.wt(Wt::KdaWk), w.wk, at.xin(), xq, s.n_embd, d, 1),
        matw(at.sc(Sc::V), at.wt(Wt::KdaWv), w.wv, at.xin(), xq, s.n_embd, d, 1),
        matw(at.sc(Sc::Gate), at.wt(Wt::KdaWg), w.wg, at.xin(), xq, s.n_embd, d, 1),
        matw(
            at.sc(Sc::Fa),
            at.wt(Wt::KdaFa),
            w.f_a,
            at.xin(),
            xq,
            s.n_embd,
            s.kda_head_dim,
            1,
        ),
        Op::MatmulF32 {
            out: at.sc(Sc::G),
            w: at.wt(Wt::KdaFb),
            x: at.sc(Sc::Fa),
            in_dim: s.kda_head_dim,
            out_dim: d,
            t: 1,
        },
        matw(at.sc(Sc::Beta), at.wt(Wt::KdaBeta), w.beta_w, at.xin(), xq, s.n_embd, s.n_head, 1),
        kda_coeffs(s, at),
    ]
}

/// The KDA mixer.
pub open spec fn kda_half(
    s: Shape,
    at: Place,
    w: KdaW,
    cards: Seq<i32>,
    state: Option<KdaState>,
) -> Plan {
    if !cards.contains(at.dev) {
        Plan::fail(EngineError::K3NoScratch)
    } else if state is None {
        Plan { ops: kda_project(s, at, w), end: Err(EngineError::K3KdaStateMissing) }
    } else {
        Plan::of(
            kda_project(s, at, w) + kda_recurrence(s, at) + seq![
                Op::SigmoidGate { buf: at.sc(Sc::O), gate: at.sc(Sc::Gate), n: s.d_inner() },
            ] + project_out(s, at, w.out, Wt::KdaOut, Sc::O, s.d_inner()),
        )
    }
}

/// The queries of the latent attention, through a low-rank pair.
pub open spec fn mla_query(s: Shape, at: Place) -> Seq<Op> {
    seq![
        Op::MatmulQ8 {
            out: at.sc(Sc::QRank),
            w: at.wt(Wt::MlaQa),
            x: at.xin(),
            in_dim: s.n_embd,
            out_dim: s.n_lora_q,
            t: 1,
        },
        Op::RmsNorm {
            out: at.sc(Sc::QRankNorm),
            x: at.sc(Sc::QRank),
            w: at.wt(Wt::MlaQaNorm),
            n: s.n_lora_q,
            rows: 1,
        },
        Op::MatmulQ8 {
            out: at.sc(Sc::Mq),
            w: at.wt(Wt::MlaQb),
            x: at.sc(Sc::QRankNorm),
            in_dim: s.n_lora_q,
            out_dim: s.mla_q(),
            t: 1,
        },
    ]
}

/// The latent-attention mixer.  Its output gate reads the normed layer input.
pub open spec fn mla_half(
    s: Shape,
    at: Place,
    w: MlaW,
    cards: Seq<i32>,
    pos: u32,
    ctx: u32,
) -> Plan {
    if !cards.contains(at.dev) {
        Plan::fail(EngineError::K3NoScratch)
    } else {
        Plan::of(
            mla_query(s, at) + mla_core(s, at, pos, ctx, Rope::Identity) + quant_for(
                w.gate,
                at.sc(Sc::Xq),
                at.xin(),
                s.n_embd,
            ) + seq![
                matw(
                    at.sc(Sc::Gate),
                    at.wt(Wt::MlaGate),
                    w.gate,
                    at.xin(),
                    at.sc(Sc::Xq),
                    s.n_embd,
                    s.mla_out(),
                    1,
                ),
                Op::SigmoidGate { buf: at.sc(Sc::Heads), gate: at.sc(Sc::Gate), n: s.mla_out() },
            ] + project_out(s, at, w.out, Wt::MlaOut, Sc::Heads, s.mla_out()),
        )
    }
}

/// The attention half on its card.
pub open spec fn mixer(
    s: Shape,
    at: Place,
    w: K3W,
    cards: Seq<i32>,
    state: Option<KdaState>,
    pos: u32,
    ctx: u32,
) -> Plan {
    match (w.kda, w.mla) {
        (Some(kda), _) => kda_half(s, at, kda, cards, state),
        (None, Some(mla)) => mla_half(s, at, mla, cards, pos, ctx),
        (None, None) => Plan::fail(EngineError::K3NoMixer),
    }
}

/// The residual after the attention half, and the input of the feed-forward
/// half.  A layer that banked its input restarts the residual; any other adds to
/// it.
pub open spec fn rejoin(s: Shape, il: usize, n_ckpt: u32) -> Seq<Op> {
    seq![
        if banks(s, il as int) {
            Op::CopyD2d {
                dst: Buf::State(St::AfterAttn),
                dst_off: 0,
                src: Buf::State(St::AttnOut),
                src_off: 0,
                bytes: f32_bytes(s.n_embd),
            }
        } else {
            Op::Add {
                out: Buf::State(St::AfterAttn),
                a: Buf::State(St::Cur),
                b: Buf::State(St::AttnOut),
                n: s.n_embd,
            }
        },
    ] + if s.attn_res_block > 0 {
        seq![
            attn_res(s, Buf::State(St::AfterAttn), Buf::Layer(il, Wt::FfnResScore), n_ckpt),
            row_norm(s, Buf::K3(K3Buf::Mixed), Buf::Layer(il, Wt::FfnNorm)),
        ]
    } else {
        seq![row_norm(s, Buf::State(St::AfterAttn), Buf::Layer(il, Wt::FfnNorm))]
    }
}

/// The router scores the full-width row.
pub open spec fn route(s: Shape, il: usize) -> Seq<Op> {
    seq![
        Op::MatmulF32 {
            out: Buf::State(St::RouterLogits),
            w: Buf::Layer(il, Wt::GateInp),
            x: Buf::State(St::Normed),
            in_dim: s.n_embd,
            out_dim: s.n_expert,
            t: 1,
        },
        Op::RouterSelect {
            selected: Buf::State(St::RouterSelected),
            weights: Buf::State(St::RouterWeights),
            logits: Buf::State(St::RouterLogits),
            bias: Buf::Layer(il, Wt::ProbsB),
            n_expert: s.n_expert,
            n_used: s.n_expert_used,
            t: 1,
            softmax: false,
        },
    ]
}

/// A row goes over to a card or back, once its card has written it, and the card
/// at the far end is current.
pub open spec fn shift(s: Shape, at: Place, dst: Buf, src: Buf, to: i32) -> Seq<Op> {
    if at.dev != at.primary {
        seq![
            Op::Sync,
            Op::CopyAcross { dst, src, bytes: f32_bytes(s.n_embd) },
            Op::SetDevice(to),
        ]
    } else {
        seq![
            Op::CopyD2d { dst, dst_off: 0, src, src_off: 0, bytes: f32_bytes(s.n_embd) },
        ]
    }
}

/// The shared experts, on the layer's card.
pub open spec fn shared_half(s: Shape, at: Place, w: ShexpW) -> Seq<Op> {
    let ffw = s.n_ff_shexp;
    shift(s, at, at.sc(Sc::FfnNormedA), Buf::State(St::Normed), at.dev) + seq![
        Op::QuantizeQ8K {
            out: at.sc(Sc::XqFfn),
            x: at.sc(Sc::FfnNormedA),
            n: s.n_embd,
            rows: 1,
        },
        matw(
            at.sc(Sc::GateSh),
            at.wt(Wt::ShexpGate),
            w.gate,
            at.sc(Sc::FfnNormedA),
            at.sc(Sc::XqFfn),
            s.n_embd,
            ffw,
            1,
        ),
        matw(
            at.sc(Sc::UpSh),
            at.wt(Wt::ShexpUp),
            w.up,
            at.sc(Sc::FfnNormedA),
            at.sc(Sc::XqFfn),
            s.n_embd,
            ffw,
            1,
        ),
        Op::Swiglu {
            out: at.sc(Sc::MidSh),
            gate: at.sc(Sc::GateSh),
            up: at.sc(Sc::UpSh),
            n: ffw,
            clamp: None,
            act: s.moe_act_op,
        },
        Op::QuantizeQ8K { out: at.sc(Sc::XqMid), x: at.sc(Sc::MidSh), n: ffw, rows: 1 },
        matw(
            at.sc(Sc::ShexpOut),
            at.wt(Wt::ShexpDown),
            w.down,
            at.sc(Sc::MidSh),
            at.sc(Sc::XqMid),
            ffw,
            s.n_embd,
            1,
        ),
    ] + shift(s, at, Buf::State(St::SharedOut), at.sc(Sc::ShexpOut), at.primary)
}

/// The routed experts, in the latent space.  The latent row also takes the place
/// of the normed one, which the experts read.
pub open spec fn routed_half(s: Shape, at: Place, w: RoutedW) -> Seq<Op> {
    let xq = Buf::Scratch(at.primary, Sc::Xq);
    let lat = s.n_expert_latent;
    quant_for(w.down, xq, Buf::State(St::Normed), s.n_embd) + seq![
        matw(
            Buf::K3(K3Buf::LatIn),
            at.wt(Wt::RoutedDown),
            w.down,
            Buf::State(St::Normed),
            xq,
            s.n_embd,
            lat,
            1,
        ),
        Op::CopyD2d {
            dst: Buf::State(St::Normed),
            dst_off: 0,
            src: Buf::K3(K3Buf::LatIn),
            src_off: 0,
            bytes: f32_bytes(lat),
        },
        Op::QuantizeQ8K {
            out: Buf::State(St::Xq),
            x: Buf::K3(K3Buf::LatIn),
            n: lat,
            rows: 1,
        },
        Op::Sync,
        Op::Moe {
            part: Part::Layer(at.il),
            il: at.il,
            n_sel: s.n_expert_used,
            act: 0,
            t: 1,
            width: lat,
        },
        if w.norm {
            Op::RmsNorm {
                out: Buf::K3(K3Buf::LatOut),
                x: Buf::State(St::MoeOut),
                w: at.wt(Wt::RoutedNorm),
                n: lat,
                rows: 1,
            }
        } else {
            Op::CopyD2d {
                dst: Buf::K3(K3Buf::LatOut),
                dst_off: 0,
                src: Buf::State(St::MoeOut),
                src_off: 0,
                bytes: f32_bytes(lat),
            }
        },
    ] + quant_for(w.up, xq, Buf::K3(K3Buf::LatOut), lat) + seq![
        matw(
            Buf::K3(K3Buf::RoutedOut),
            at.wt(Wt::RoutedUp),
            w.up,
            Buf::K3(K3Buf::LatOut),
            xq,
            lat,
            s.n_embd,
            1,
        ),
        Op::Add {
            out: Buf::State(St::FfnOut),
            a: Buf::K3(K3Buf::RoutedOut),
            b: Buf::State(St::SharedOut),
            n: s.n_embd,
        },
    ]
}

/// The experts: router, shared experts where there are any, routed experts.
pub open spec fn moe(s: Shape, at: Place, w: K3W, routed: RoutedW, cards: Seq<i32>) -> Plan {
    Plan::of(route(s, at.il)).and(
        match w.shexp {
            Some(sh) => if cards.contains(at.dev) {
                Plan::of(shared_half(s, at, sh))
            } else {
                Plan::fail(EngineError::K3NoScratch)
            },
            None => Plan::of(
                seq![Op::Zero { buf: Buf::State(St::SharedOut), bytes: f32_bytes(s.n_embd) }],
            ),
        },
    ).and(
        if cards.contains(at.primary) {
            Plan::of(routed_half(s, at, routed))
        } else {
            Plan::fail(EngineError::K3NoScratch)
        },
    )
}

/// The feed-forward half: dense, or experts in the latent space.
pub open spec fn ffn(s: Shape, at: Place, l: LayerW, w: K3W, cards: Seq<i32>) -> Plan {
    match l.ffn {
        Ffn::Dense => Plan::of(dense_ffn(s, at.il)),
        Ffn::Moe { .. } => match w.routed {
            None => Plan::fail(EngineError::K3NoLatent),
            Some(routed) => moe(s, at, w, routed, cards),
        },
        Ffn::Other => Plan::fail(EngineError::K3NoFfn),
    }
}

/// A layer.
#[verifier::opaque]
pub open spec fn layer(
    s: Shape,
    at: Place,
    l: LayerW,
    cards: Seq<i32>,
    state: Option<KdaState>,
    n_ckpt: u32,
    pos: u32,
    ctx: u32,
) -> Plan {
    match l.attn {
        Attn::K3(w) => Plan::of(enter(s, at.il, n_ckpt)).and(hop_in(s, at, cards)).and(
            mixer(s, at, w, cards, state, pos, ctx),
        ).and(Plan::of(rejoin(s, at.il, entered(s, at.il, n_ckpt)))).and(
            ffn(s, at, l, w, cards),
        ).and(
            Plan::of(
                seq![
                    Op::Add {
                        out: Buf::State(St::Cur),
                        a: Buf::State(St::AfterAttn),
                        b: Buf::State(St::FfnOut),
                        n: s.n_embd,
                    },
                ],
            ),
        ),
        _ => Plan::fail(EngineError::K3WrongAttn),
    }
}

/// Appends the start of a layer, and gives the live checkpoints after it.
pub(crate) fn push_enter(ops: &mut Vec<Op>, s: Shape, il: usize, n_ckpt: u32) -> (r: u32)
    requires
        banks(s, il as int) ==> n_ckpt < u32::MAX && n_ckpt * s.n_embd * 4 <= u64::MAX,
    ensures
        final(ops)@ == old(ops)@ + enter(s, il, n_ckpt),
        r == entered(s, il, n_ckpt),
{
    let mut n: u32 = n_ckpt;
    if s.attn_res_block > 0 {
        ops.push(
            make_attn_res(s, Buf::State(St::Cur), Buf::Layer(il, Wt::AttnResScore), n_ckpt),
        );
        if il % (s.attn_res_block as usize) == 0 {
            proof {
                assert(banks(s, il as int));
                assert(0 <= n_ckpt * s.n_embd) by (nonlinear_arith);
            }
            let dst_off: u64 = n_ckpt as u64 * s.n_embd as u64 * 4;
            ops.push(
                Op::CopyD2d {
                    dst: Buf::K3(K3Buf::Ckpt),
                    dst_off,
                    src: Buf::State(St::Cur),
                    src_off: 0,
                    bytes: f32_bytes(s.n_embd),
                },
            );
            n = n_ckpt + 1;
        }
        ops.push(
            Op::RmsNorm {
                out: Buf::State(St::Normed),
                x: Buf::K3(K3Buf::Mixed),
                w: Buf::Layer(il, Wt::AttnNorm),
                n: s.n_embd,
                rows: 1,
            },
        );
    } else {
        ops.push(
            Op::RmsNorm {
                out: Buf::State(St::Normed),
                x: Buf::State(St::Cur),
                w: Buf::Layer(il, Wt::AttnNorm),
                n: s.n_embd,
                rows: 1,
            },
        );
    }
    assert(ops@ =~= old(ops)@ + enter(s, il, n_ckpt));
    n
}

pub(crate) fn push_hop_in(ops: &mut Vec<Op>, s: Shape, at: Place, cards: &Vec<i32>) -> (r: Result<
    (),
    EngineError,
>)
    ensures
        hop_in(s, at, cards@).appended(old(ops)@, final(ops)@, r),
{
    let mut r: Result<(), EngineError> = Ok(());
    if at.dev != at.primary {
        if has_card(cards, at.dev) {
            ops.push(Op::Sync);
            ops.push(
                Op::CopyAcross {
                    dst: at.sc(Sc::NormedA),
                    src: Buf::State(St::Normed),
                    bytes: f32_bytes(s.n_embd),
                },
            );
            ops.push(Op::SetDevice(at.dev));
        } else {
            r = Err(EngineError::K3NoOwnerScratch);
        }
    }
    assert(ops@ =~= old(ops)@ + hop_in(s, at, cards@).ops);
    r
}

pub(crate) fn push_kda_project(ops: &mut Vec<Op>, s: Shape, at: Place, w: KdaW)
    requires
        s.mixers_fit(),
    ensures
        final(ops)@ == old(ops)@ + kda_project(s, at, w),
{
    let d: u32 = s.d_inner();
    let xq: Buf = at.sc(Sc::Xq);
    push_quant_for(ops, w.wq, xq, at.xin(), s.n_embd);
    ops.push(matw(at.sc(Sc::Q), at.wt(Wt::KdaWq), w.wq, at.xin(), xq, s.n_embd, d, 1));
    ops.push(matw(at.sc(Sc::K), at.wt(Wt::KdaWk), w.wk, at.xin(), xq, s.n_embd, d, 1));
    ops.push(matw(at.sc(Sc::V), at.wt(Wt::KdaWv), w.wv, at.xin(), xq, s.n_embd, d, 1));
    ops.push(matw(at.sc(Sc::Gate), at.wt(Wt::KdaWg), w.wg, at.xin(), xq, s.n_embd, d, 1));
    ops.push(
        matw(
            at.sc(Sc::Fa),
            at.wt(Wt::KdaFa),
            w.f_a,
            at.xin(),
            xq,
            s.n_embd,
            s.kda_head_dim,
            1,
        ),
    );
    ops.push(
        Op::MatmulF32 {
            out: at.sc(Sc::G),
            w: at.wt(Wt::KdaFb),
            x: at.sc(Sc::Fa),
            in_dim: s.kda_head_dim,
            out_dim: d,
            t: 1,
        },
    );
    ops.push(
        matw(at.sc(Sc::Beta), at.wt(Wt::KdaBeta), w.beta_w, at.xin(), xq, s.n_embd, s.n_head, 1),
    );
    ops.push(make_kda_coeffs(s, at));
    assert(ops@ =~= old(ops)@ + kda_project(s, at, w));
}

pub(crate) fn push_kda_half(
    ops: &mut Vec<Op>,
    s: Shape,
    at: Place,
    w: KdaW,
    cards: &Vec<i32>,
    state: Option<KdaState>,
) -> (r: Result<(), EngineError>)
    requires
        s.mixers_fit(),
    ensures
        kda_half(s, at, w, cards@, state).appended(old(ops)@, final(ops)@, r),
{
    if !has_card(cards, at.dev) {
        assert(ops@ =~= old(ops)@ + Seq::<Op>::empty());
        return Err(EngineError::K3NoScratch);
    }
    push_kda_project(ops, s, at, w);
    if state.is_none() {
        return Err(EngineError::K3KdaStateMissing);
    }
    push_kda_recurrence(ops, s, at);
    ops.push(Op::SigmoidGate { buf: at.sc(Sc::O), gate: at.sc(Sc::Gate), n: s.d_inner() });
    push_project_out(ops, s, at, w.out, Wt::KdaOut, Sc::O, s.d_inner());
    assert(ops@ =~= old(ops)@ + kda_half(s, at, w, cards@, state).ops);
    Ok(())
}

pub(crate) fn push_mla_query(ops: &mut Vec<Op>, s: Shape, at: Place)
    requires
        s.mixers_fit(),
    ensures
        final(ops)@ == old(ops)@ + mla_query(s, at),
{
    ops.push(
        Op::MatmulQ8 {
            out: at.sc(Sc::QRank),
            w: at.wt(Wt::MlaQa),
            x: at.xin(),
            in_dim: s.n_embd,
            out_dim: s.n_lora_q,
            t: 1,
        },
    );
    ops.push(
        Op::RmsNorm {
            out: at.sc(Sc::QRankNorm),
            x: at.sc(Sc::QRank),
            w: at.wt(Wt::MlaQaNorm),
            n: s.n_lora_q,
            rows: 1,
        },
    );
    ops.push(
        Op::MatmulQ8 {
            out: at.sc(Sc::Mq),
            w: at.wt(Wt::MlaQb),
            x: at.sc(Sc::QRankNorm),
            in_dim: s.n_lora_q,
            out_dim: s.mla_q(),
            t: 1,
        },
    );
    assert(ops@ =~= old(ops)@ + mla_query(s, at));
}

pub(crate) fn push_mla_half(
    ops: &mut Vec<Op>,
    s: Shape,
    at: Place,
    w: MlaW,
    cards: &Vec<i32>,
    pos: u32,
    ctx: u32,
) -> (r: Result<(), EngineError>)
    requires
        s.mixers_fit(),
        pos < u32::MAX,
    ensures
        mla_half(s, at, w, cards@, pos, ctx).appended(old(ops)@, final(ops)@, r),
{
    if !has_card(cards, at.dev) {
        assert(ops@ =~= old(ops)@ + Seq::<Op>::empty());
        return Err(EngineError::K3NoScratch);
    }
    push_mla_query(ops, s, at);
    push_mla_core(ops, s, at, pos, ctx, Rope::Identity);
    push_quant_for(ops, w.gate, at.sc(Sc::Xq), at.xin(), s.n_embd);
    ops.push(
        matw(
            at.sc(Sc::Gate),
            at.wt(Wt::MlaGate),
            w.gate,
            at.xin(),
            at.sc(Sc::Xq),
            s.n_embd,
            s.mla_out(),
            1,
        ),
    );
    ops.push(Op::SigmoidGate { buf: at.sc(Sc::Heads), gate: at.sc(Sc::Gate), n: s.mla_out() });
    push_project_out(ops, s, at, w.out, Wt::MlaOut, Sc::Heads, s.mla_out());
    assert(ops@ =~= old(ops)@ + mla_half(s, at, w, cards@, pos, ctx).ops);
    Ok(())
}

pub(crate) fn push_mixer(
    ops: &mut Vec<Op>,
    s: Shape,
    at: Place,
    w: K3W,
    cards: &Vec<i32>,
    state: Option<KdaState>,
    pos: u32,
    ctx: u32,
) -> (r: Result<(), EngineError>)
    requires
        s.mixers_fit(),
        pos < u32::MAX,
    ensures
        mixer(s, at, w, cards@, state, pos, ctx).appended(old(ops)@, final(ops)@, r),
{
    if let Some(kda) = w.kda {
        push_kda_half(ops, s, at, kda, cards, state)
    } else if let Some(mla) = w.mla {
        push_mla_half(ops, s, at, mla, cards, pos, ctx)
    } else {
        assert(ops@ =~= old(ops)@ + Seq::<Op>::empty());
        Err(EngineError::K3NoMixer)
    }
}

pub(crate) fn push_rejoin(ops: &mut Vec<Op>, s: Shape, il: usize, n_ckpt: u32)
    ensures
        final(ops)@ == old(ops)@ + rejoin(s, il, n_ckpt),
{
    if s.attn_res_block > 0 && il % (s.attn_res_block as usize) == 0 {
        ops.push(
            Op::CopyD2d {
                dst: Buf::State(St::AfterAttn),
                dst_off: 0,
                src: Buf::State(St::AttnOut),
                src_off: 0,
                bytes: f32_bytes(s.n_embd),
            },
        );
    } else {
        ops.push(
            Op::Add {
                out: Buf::State(St::AfterAttn),
                a: Buf::State(St::Cur),
                b: Buf::State(St::AttnOut),
                n: s.n_embd,
            },
        );
    }
    if s.attn_res_block > 0 {
        ops.push(
            make_attn_res(s, Buf::State(St::AfterAttn), Buf::Layer(il, Wt::FfnResScore), n_ckpt),
        );
        ops.push(
            Op::RmsNorm {
                out: Buf::State(St::Normed),
                x: Buf::K3(K3Buf::Mixed),
                w: Buf::Layer(il, Wt::FfnNorm),
                n: s.n_embd,
                rows: 1,
            },
        );
    } else {
        ops.push(
            Op::RmsNorm {
                out: Buf::State(St::Normed),
                x: Buf::State(St::AfterAttn),
                w: Buf::Layer(il, Wt::FfnNorm),
                n: s.n_embd,
                rows: 1,
            },
        );
    }
    assert(ops@ =~= old(ops)@ + rejoin(s, il, n_ckpt));
}

pub(crate) fn push_route(ops: &mut Vec<Op>, s: Shape, il: usize)
    ensures
        final(ops)@ == old(ops)@ + route(s, il),
{
    ops.push(
        Op::MatmulF32 {
            out: Buf::State(St::RouterLogits),
            w: Buf::Layer(il, Wt::GateInp),
            x: Buf::State(St::Normed),
            in_dim: s.n_embd,
            out_dim: s.n_expert,
            t: 1,
        },
    );
    ops.push(
        Op::RouterSelect {
            selected: Buf::State(St::RouterSelected),
            weights: Buf::State(St::RouterWeights),
            logits: Buf::State(St::RouterLogits),
            bias: Buf::Layer(il, Wt::ProbsB),
            n_expert: s.n_expert,
            n_used: s.n_expert_used,
            t: 1,
            softmax: false,
        },
    );
    assert(ops@ =~= old(ops)@ + route(s, il));
}

pub(crate) fn push_shift(ops: &mut Vec<Op>, s: Shape, at: Place, dst: Buf, src: Buf, to: i32)
    ensures
        final(ops)@ == old(ops)@ + shift(s, at, dst, src, to),
{
    if at.dev != at.primary {
        ops.push(Op::Sync);
        ops.push(Op::CopyAcross { dst, src, bytes: f32_bytes(s.n_embd) });
        ops.push(Op::SetDevice(to));
    } else {
        ops.push(Op::CopyD2d { dst, dst_off: 0, src, src_off: 0, bytes: f32_bytes(s.n_embd) });
    }
    assert(ops@ =~= old(ops)@ + shift(s, at, dst, src, to));
}

pub(crate) fn push_shared_half(ops: &mut Vec<Op>, s: Shape, at: Place, w: ShexpW)
    ensures
        final(ops)@ == old(ops)@ + shared_half(s, at, w),
{
    let ffw: u32 = s.n_ff_shexp;
    push_shift(ops, s, at, at.sc(Sc::FfnNormedA), Buf::State(St::Normed), at.dev);
    ops.push(
        Op::QuantizeQ8K {
            out: at.sc(Sc::XqFfn),
            x: at.sc(Sc::FfnNormedA),
            n: s.n_embd,
            rows: 1,
        },
    );
    ops.push(
        matw(
            at.sc(Sc::GateSh),
            at.wt(Wt::ShexpGate),
            w.gate,
            at.sc(Sc::FfnNormedA),
            at.sc(Sc::XqFfn),
            s.n_embd,
            ffw,
            1,
        ),
    );
    ops.push(
        matw(
            at.sc(Sc::UpSh),
            at.wt(Wt::ShexpUp),
            w.up,
            at.sc(Sc::FfnNormedA),
            at.sc(Sc::XqFfn),
            s.n_embd,
            ffw,
            1,
        ),
    );
    ops.push(
        Op::Swiglu {
            out: at.sc(Sc::MidSh),
            gate: at.sc(Sc::GateSh),
            up: at.sc(Sc::UpSh),
            n: ffw,
            clamp: None,
            act: s.moe_act_op,
        },
    );
    ops.push(Op::QuantizeQ8K { out: at.sc(Sc::XqMid), x: at.sc(Sc::MidSh), n: ffw, rows: 1 });
    ops.push(
        matw(
            at.sc(Sc::ShexpOut),
            at.wt(Wt::ShexpDown),
            w.down,
            at.sc(Sc::MidSh),
            at.sc(Sc::XqMid),
            ffw,
            s.n_embd,
            1,
        ),
    );
    push_shift(ops, s, at, Buf::State(St::SharedOut), at.sc(Sc::ShexpOut), at.primary);
    assert(ops@ =~= old(ops)@ + shared_half(s, at, w));
}

pub(crate) fn push_routed_half(ops: &mut Vec<Op>, s: Shape, at: Place, w: RoutedW)
    ensures
        final(ops)@ == old(ops)@ + routed_half(s, at, w),
{
    let xq: Buf = Buf::Scratch(at.primary, Sc::Xq);
    let lat: u32 = s.n_expert_latent;
    push_quant_for(ops, w.down, xq, Buf::State(St::Normed), s.n_embd);
    ops.push(
        matw(
            Buf::K3(K3Buf::LatIn),
            at.wt(Wt::RoutedDown),
            w.down,
            Buf::State(St::Normed),
            xq,
            s.n_embd,
            lat,
            1,
        ),
    );
    ops.push(
        Op::CopyD2d {
            dst: Buf::State(St::Normed),
            dst_off: 0,
            src: Buf::K3(K3Buf::LatIn),
            src_off: 0,
            bytes: f32_bytes(lat),
        },
    );
    ops.push(
        Op::QuantizeQ8K {
            out: Buf::State(St::Xq),
            x: Buf::K3(K3Buf::LatIn),
            n: lat,
            rows: 1,
        },
    );
    ops.push(Op::Sync);
    ops.push(
        Op::Moe {
            part: Part::Layer(at.il),
            il: at.il,
            n_sel: s.n_expert_used,
            act: 0,
            t: 1,
            width: lat,
        },
    );
    if w.norm {
        ops.push(
            Op::RmsNorm {
                out: Buf::K3(K3Buf::LatOut),
                x: Buf::State(St::MoeOut),
                w: at.wt(Wt::RoutedNorm),
                n: lat,
                rows: 1,
            },
        );
    } else {
        ops.push(
            Op::CopyD2d {
                dst: Buf::K3(K3Buf::LatOut),
                dst_off: 0,
                src: Buf::State(St::MoeOut),
                src_off: 0,
                bytes: f32_bytes(lat),
            },
        );
    }
    push_quant_for(ops, w.up, xq, Buf::K3(K3Buf::LatOut), lat);
    ops.push(
        matw(
            Buf::K3(K3Buf::RoutedOut),
            at.wt(Wt::RoutedUp),
            w.up,
            Buf::K3(K3Buf::LatOut),
            xq,
            lat,
            s.n_embd,
            1,
        ),
    );
    ops.push(
        Op::Add {
            out: Buf::State(St::FfnOut),
            a: Buf::K3(K3Buf::RoutedOut),
            b: Buf::State(St::SharedOut),
            n: s.n_embd,
        },
    );
    assert(ops@ =~= old(ops)@ + routed_half(s, at, w));
}

/// Appends the feed-forward half of a layer.
pub fn k3_ffn(ops: &mut Vec<Op>, s: Shape, at: Place, l: LayerW, w: K3W, cards: &Vec<i32>) -> (r:
    Result<(), EngineError>)
    ensures
        ffn(s, at, l, w, cards@).appended(old(ops)@, final(ops)@, r),
{
    if l.ffn == Ffn::Dense {
        push_dense_ffn(ops, s, at.il);
        return Ok(());
    }
    if !matches!(l.ffn, Ffn::Moe { .. }) {
        assert(ops@ =~= old(ops)@ + Seq::<Op>::empty());
        return Err(EngineError::K3NoFfn);
    }
    let routed: RoutedW = match w.routed {
        Some(routed) => routed,
        None => {
            assert(ops@ =~= old(ops)@ + Seq::<Op>::empty());
            return Err(EngineError::K3NoLatent);
        },
    };
    push_route(ops, s, at.il);
    if let Some(sh) = w.shexp {
        if !has_card(cards, at.dev) {
            assert(ops@ =~= old(ops)@ + ffn(s, at, l, w, cards@).ops);
            return Err(EngineError::K3NoScratch);
        }
        push_shared_half(ops, s, at, sh);
    } else {
        ops.push(Op::Zero { buf: Buf::State(St::SharedOut), bytes: f32_bytes(s.n_embd) });
    }
    if !has_card(cards, at.primary) {
        assert(ops@ =~= old(ops)@ + ffn(s, at, l, w, cards@).ops);
        return Err(EngineError::K3NoScratch);
    }
    push_routed_half(ops, s, at, routed);
    assert(ops@ =~= old(ops)@ + ffn(s, at, l, w, cards@).ops);
    Ok(())
}

} // verus!
