//! Pieces of a pass that several families share.

use crate::engine::error::EngineError;
use crate::engine::ops::{ops_if, Buf, Gw, KdaBuf, Op, Plan, Rope, Sc, St, Wt};
use crate::engine::shape::{f32_bytes, MatKind, Shape};
use vstd::prelude::*;

verus! {

/// Where a layer's attention half runs.
#[derive(Debug, Clone, Copy, PartialEq, Eq, Structural)]
pub struct Place {
    pub il: usize,
    /// card of the attention half
    pub dev: i32,
    pub primary: i32,
}

impl Place {
    pub open spec fn spec_sc(self, b: Sc) -> Buf {
        Buf::Scratch(self.dev, b)
    }

    /// Scratch on the layer's card.
    #[verifier::when_used_as_spec(spec_sc)]
    pub fn sc(self, b: Sc) -> (r: Buf)
        ensures
            r == self.spec_sc(b),
    {
        Buf::Scratch(self.dev, b)
    }

    pub open spec fn spec_wt(self, w: Wt) -> Buf {
        Buf::Layer(self.il, w)
    }

    /// A weight of the layer.
    #[verifier::when_used_as_spec(spec_wt)]
    pub fn wt(self, w: Wt) -> (r: Buf)
        ensures
            r == self.spec_wt(w),
    {
        Buf::Layer(self.il, w)
    }

    pub open spec fn spec_xin(self) -> Buf {
        if self.dev != self.primary {
            Buf::Scratch(self.dev, Sc::NormedA)
        } else {
            Buf::State(St::Normed)
        }
    }

    /// The normed layer input, on the layer's card.
    #[verifier::when_used_as_spec(spec_xin)]
    pub fn xin(self) -> (r: Buf)
        ensures
            r == self.spec_xin(),
    {
        if self.dev != self.primary {
            Buf::Scratch(self.dev, Sc::NormedA)
        } else {
            Buf::State(St::Normed)
        }
    }
}

pub open spec fn spec_matw(
    out: Buf,
    w: Buf,
    kind: MatKind,
    x: Buf,
    xq: Buf,
    in_dim: u32,
    out_dim: u32,
    t: u32,
) -> Op {
    match kind {
        MatKind::Q8 => Op::MatmulQ8 { out, w, x, in_dim, out_dim, t },
        MatKind::Kq => Op::MatmulKq { out, w, x, xq, in_dim, out_dim, t },
    }
}

/// Matmul over either weight encoding.
#[verifier::when_used_as_spec(spec_matw)]
pub fn matw(
    out: Buf,
    w: Buf,
    kind: MatKind,
    x: Buf,
    xq: Buf,
    in_dim: u32,
    out_dim: u32,
    t: u32,
) -> (op: Op)
    ensures
        op == spec_matw(out, w, kind, x, xq, in_dim, out_dim, t),
{
    match kind {
        MatKind::Q8 => Op::MatmulQ8 { out, w, x, in_dim, out_dim, t },
        MatKind::Kq => Op::MatmulKq { out, w, x, xq, in_dim, out_dim, t },
    }
}

/// The quantization that a matmul with this encoding reads, where it reads one.
pub open spec fn quant_for(kind: MatKind, out: Buf, x: Buf, n: u32) -> Seq<Op> {
    ops_if(kind == MatKind::Kq, seq![Op::QuantizeQ8K { out, x, n, rows: 1 }])
}

pub fn push_quant_for(ops: &mut Vec<Op>, kind: MatKind, out: Buf, x: Buf, n: u32)
    ensures
        final(ops)@ == old(ops)@ + quant_for(kind, out, x, n),
{
    if kind == MatKind::Kq {
        ops.push(Op::QuantizeQ8K { out, x, n, rows: 1 });
    }
    assert(ops@ =~= old(ops)@ + quant_for(kind, out, x, n));
}

/// The recurrence of a KDA mixer: three conv windows, the norms of query and
/// key, the delta rule, and the norm of each head.
pub open spec fn kda_recurrence(s: Shape, at: Place) -> Seq<Op> {
    let d = s.d_inner();
    seq![
        Op::ConvStep {
            out: at.sc(Sc::Cq),
            x: at.sc(Sc::Q),
            w: at.wt(Wt::KdaConvQ),
            state: Buf::Kda(at.il, KdaBuf::ConvQ),
            dim: d,
            k: s.ssm_conv_k,
        },
        Op::ConvStep {
            out: at.sc(Sc::Ck),
            x: at.sc(Sc::K),
            w: at.wt(Wt::KdaConvK),
            state: Buf::Kda(at.il, KdaBuf::ConvK),
            dim: d,
            k: s.ssm_conv_k,
        },
        Op::ConvStep {
            out: at.sc(Sc::Cv),
            x: at.sc(Sc::V),
            w: at.wt(Wt::KdaConvV),
            state: Buf::Kda(at.il, KdaBuf::ConvV),
            dim: d,
            k: s.ssm_conv_k,
        },
        Op::L2Norm { buf: at.sc(Sc::Cq), rows: s.n_head, dim: s.kda_head_dim },
        Op::L2Norm { buf: at.sc(Sc::Ck), rows: s.n_head, dim: s.kda_head_dim },
        Op::KdaStep {
            out: at.sc(Sc::O),
            state: Buf::Kda(at.il, KdaBuf::S),
            q: at.sc(Sc::Cq),
            k: at.sc(Sc::Ck),
            v: at.sc(Sc::Cv),
            g: at.sc(Sc::G),
            beta: at.sc(Sc::Beta),
            n_head: s.n_head,
            head_dim: s.kda_head_dim,
        },
        Op::HeadRmsNorm {
            buf: at.sc(Sc::O),
            w: at.wt(Wt::KdaNorm),
            rows: s.n_head,
            dim: s.kda_head_dim,
        },
    ]
}

pub fn push_kda_recurrence(ops: &mut Vec<Op>, s: Shape, at: Place)
    requires
        s.mixers_fit(),
    ensures
        final(ops)@ == old(ops)@ + kda_recurrence(s, at),
{
    let d: u32 = s.d_inner();
    ops.push(
        Op::ConvStep {
            out: at.sc(Sc::Cq),
            x: at.sc(Sc::Q),
            w: at.wt(Wt::KdaConvQ),
            state: Buf::Kda(at.il, KdaBuf::ConvQ),
            dim: d,
            k: s.ssm_conv_k,
        },
    );
    ops.push(
        Op::ConvStep {
            out: at.sc(Sc::Ck),
            x: at.sc(Sc::K),
            w: at.wt(Wt::KdaConvK),
            state: Buf::Kda(at.il, KdaBuf::ConvK),
            dim: d,
            k: s.ssm_conv_k,
        },
    );
    ops.push(
        Op::ConvStep {
            out: at.sc(Sc::Cv),
            x: at.sc(Sc::V),
            w: at.wt(Wt::KdaConvV),
            state: Buf::Kda(at.il, KdaBuf::ConvV),
            dim: d,
            k: s.ssm_conv_k,
        },
    );
    ops.push(Op::L2Norm { buf: at.sc(Sc::Cq), rows: s.n_head, dim: s.kda_head_dim });
    ops.push(Op::L2Norm { buf: at.sc(Sc::Ck), rows: s.n_head, dim: s.kda_head_dim });
    ops.push(
        Op::KdaStep {
            out: at.sc(Sc::O),
            state: Buf::Kda(at.il, KdaBuf::S),
            q: at.sc(Sc::Cq),
            k: at.sc(Sc::Ck),
            v: at.sc(Sc::Cv),
            g: at.sc(Sc::G),
            beta: at.sc(Sc::Beta),
            n_head: s.n_head,
            head_dim: s.kda_head_dim,
        },
    );
    ops.push(
        Op::HeadRmsNorm {
            buf: at.sc(Sc::O),
            w: at.wt(Wt::KdaNorm),
            rows: s.n_head,
            dim: s.kda_head_dim,
        },
    );
    assert(ops@ =~= old(ops)@ + kda_recurrence(s, at));
}

/// Decay and step size of a KDA mixer from their raw projections.
pub open spec fn kda_coeffs(s: Shape, at: Place) -> Op {
    Op::KdaCoeffs {
        g: at.sc(Sc::G),
        beta: at.sc(Sc::Beta),
        a: at.wt(Wt::KdaA),
        dt_bias: at.wt(Wt::KdaDtBias),
        t: 1,
        n_head: s.n_head,
        head_dim: s.kda_head_dim,
    }
}

pub fn make_kda_coeffs(s: Shape, at: Place) -> (op: Op)
    ensures
        op == kda_coeffs(s, at),
{
    Op::KdaCoeffs {
        g: at.sc(Sc::G),
        beta: at.sc(Sc::Beta),
        a: at.wt(Wt::KdaA),
        dt_bias: at.wt(Wt::KdaDtBias),
        t: 1,
        n_head: s.n_head,
        head_dim: s.kda_head_dim,
    }
}

/// The latent attention from the raw latent row on: the row goes to the cache,
/// and the query attends to every row up to its own.
pub open spec fn mla_core(s: Shape, at: Place, pos: u32, ctx: u32, rope: Rope) -> Seq<Op> {
    let visible = (pos + 1) as u32;
    seq![
        Op::MatmulQ8 {
            out: at.sc(Sc::KvRaw),
            w: at.wt(Wt::MlaKvA),
            x: at.xin(),
            in_dim: s.n_embd,
            out_dim: s.kv_raw(),
            t: 1,
        },
        Op::MlaKvNorm {
            out: at.sc(Sc::KvNorm),
            x: at.sc(Sc::KvRaw),
            w: at.wt(Wt::MlaKvANorm),
            t: 1,
            row: s.kv_raw(),
            lora: s.n_kv_lora,
        },
        Op::MlaStoreKv {
            k: Buf::KCache(at.il),
            v: Buf::VCache(at.il),
            norm: at.sc(Sc::KvNorm),
            raw: at.sc(Sc::KvRaw),
            pos,
            t: 1,
            ctx,
            row: s.kv_raw(),
            lora: s.n_kv_lora,
            rope_dim: s.qk_rope,
        },
        Op::MlaSelectRange { out: at.sc(Sc::Selected), t: 1, pos, visible, ctx },
        Op::MlaQkLow {
            out: at.sc(Sc::QkLow),
            q: at.sc(Sc::Mq),
            w: at.wt(Wt::MlaKb),
            t: 1,
            n_head: s.n_head,
            lora: s.n_kv_lora,
            nope: s.qk_nope,
            qk_dim: s.qk_dim,
        },
        Op::MlaAttention {
            out: at.sc(Sc::Heads),
            q: at.sc(Sc::Mq),
            qk_low: at.sc(Sc::QkLow),
            k: Buf::KCache(at.il),
            v: Buf::VCache(at.il),
            w: at.wt(Wt::MlaVb),
            selected: at.sc(Sc::Selected),
            t: 1,
            visible,
            ctx,
            n_head: s.n_head,
            lora: s.n_kv_lora,
            nope: s.qk_nope,
            rope_dim: s.qk_rope,
            value: s.value_mla,
            rope,
        },
    ]
}

pub fn push_mla_core(ops: &mut Vec<Op>, s: Shape, at: Place, pos: u32, ctx: u32, rope: Rope)
    requires
        s.mixers_fit(),
        pos < u32::MAX,
    ensures
        final(ops)@ == old(ops)@ + mla_core(s, at, pos, ctx, rope),
{
    let kv_raw_dim: u32 = s.kv_raw();
    ops.push(
        Op::MatmulQ8 {
            out: at.sc(Sc::KvRaw),
            w: at.wt(Wt::MlaKvA),
            x: at.xin(),
            in_dim: s.n_embd,
            out_dim: kv_raw_dim,
            t: 1,
        },
    );
    ops.push(
        Op::MlaKvNorm {
            out: at.sc(Sc::KvNorm),
            x: at.sc(Sc::KvRaw),
            w: at.wt(Wt::MlaKvANorm),
            t: 1,
            row: kv_raw_dim,
            lora: s.n_kv_lora,
        },
    );
    ops.push(
        Op::MlaStoreKv {
            k: Buf::KCache(at.il),
            v: Buf::VCache(at.il),
            norm: at.sc(Sc::KvNorm),
            raw: at.sc(Sc::KvRaw),
            pos,
            t: 1,
            ctx,
            row: kv_raw_dim,
            lora: s.n_kv_lora,
            rope_dim: s.qk_rope,
        },
    );
    let visible: u32 = pos + 1;
    ops.push(Op::MlaSelectRange { out: at.sc(Sc::Selected), t: 1, pos, visible, ctx });
    ops.push(
        Op::MlaQkLow {
            out: at.sc(Sc::QkLow),
            q: at.sc(Sc::Mq),
            w: at.wt(Wt::MlaKb),
            t: 1,
            n_head: s.n_head,
            lora: s.n_kv_lora,
            nope: s.qk_nope,
            qk_dim: s.qk_dim,
        },
    );
    ops.push(
        Op::MlaAttention {
            out: at.sc(Sc::Heads),
            q: at.sc(Sc::Mq),
            qk_low: at.sc(Sc::QkLow),
            k: Buf::KCache(at.il),
            v: Buf::VCache(at.il),
            w: at.wt(Wt::MlaVb),
            selected: at.sc(Sc::Selected),
            t: 1,
            visible,
            ctx,
            n_head: s.n_head,
            lora: s.n_kv_lora,
            nope: s.qk_nope,
            rope_dim: s.qk_rope,
            value: s.value_mla,
            rope,
        },
    );
    assert(ops@ =~= old(ops)@ + mla_core(s, at, pos, ctx, rope));
}

/// The output projection of a mixer.  On another card it lands in scratch and
/// crosses over, once the card has written it, and the primary card is current
/// again.
pub open spec fn project_out(
    s: Shape,
    at: Place,
    kind: MatKind,
    w: Wt,
    x: Sc,
    in_dim: u32,
) -> Seq<Op> {
    quant_for(kind, at.sc(Sc::Xq), at.sc(x), in_dim) + if at.dev != at.primary {
        seq![
            matw(
                at.sc(Sc::AttnOutA),
                at.wt(w),
                kind,
                at.sc(x),
                at.sc(Sc::Xq),
                in_dim,
                s.n_embd,
                1,
            ),
            Op::Sync,
            Op::CopyAcross {
                dst: Buf::State(St::AttnOut),
                src: at.sc(Sc::AttnOutA),
                bytes: f32_bytes(s.n_embd),
            },
            Op::SetDevice(at.primary),
        ]
    } else {
        seq![
            matw(
                Buf::State(St::AttnOut),
                at.wt(w),
                kind,
                at.sc(x),
                at.sc(Sc::Xq),
                in_dim,
                s.n_embd,
                1,
            ),
        ]
    }
}

pub fn push_project_out(
    ops: &mut Vec<Op>,
    s: Shape,
    at: Place,
    kind: MatKind,
    w: Wt,
    x: Sc,
    in_dim: u32,
)
    ensures
        final(ops)@ == old(ops)@ + project_out(s, at, kind, w, x, in_dim),
{
    push_quant_for(ops, kind, at.sc(Sc::Xq), at.sc(x), in_dim);
    if at.dev != at.primary {
        ops.push(
            matw(
                at.sc(Sc::AttnOutA),
                at.wt(w),
                kind,
                at.sc(x),
                at.sc(Sc::Xq),
                in_dim,
                s.n_embd,
                1,
            ),
        );
        ops.push(Op::Sync);
        ops.push(
            Op::CopyAcross {
                dst: Buf::State(St::AttnOut),
                src: at.sc(Sc::AttnOutA),
                bytes: f32_bytes(s.n_embd),
            },
        );
        ops.push(Op::SetDevice(at.primary));
    } else {
        ops.push(
            matw(
                Buf::State(St::AttnOut),
                at.wt(w),
                kind,
                at.sc(x),
                at.sc(Sc::Xq),
                in_dim,
                s.n_embd,
                1,
            ),
        );
    }
    assert(ops@ =~= old(ops)@ + project_out(s, at, kind, w, x, in_dim));
}

/// A dense feed-forward block on the normed row.
pub open spec fn dense_ffn(s: Shape, il: usize) -> Seq<Op> {
    seq![
        Op::MatmulQ8 {
            out: Buf::State(St::GateAct),
            w: Buf::Layer(il, Wt::FfnGate),
            x: Buf::State(St::Normed),
            in_dim: s.n_embd,
            out_dim: s.n_ff_dense,
            t: 1,
        },
        Op::MatmulQ8 {
            out: Buf::State(St::UpAct),
            w: Buf::Layer(il, Wt::FfnUp),
            x: Buf::State(St::Normed),
            in_dim: s.n_embd,
            out_dim: s.n_ff_dense,
            t: 1,
        },
        Op::Swiglu {
            out: Buf::State(St::FfnMid),
            gate: Buf::State(St::GateAct),
            up: Buf::State(St::UpAct),
            n: s.n_ff_dense,
            clamp: None,
            act: s.moe_act_op,
        },
        Op::MatmulQ8 {
            out: Buf::State(St::FfnOut),
            w: Buf::Layer(il, Wt::FfnDown),
            x: Buf::State(St::FfnMid),
            in_dim: s.n_ff_dense,
            out_dim: s.n_embd,
            t: 1,
        },
    ]
}

pub fn push_dense_ffn(ops: &mut Vec<Op>, s: Shape, il: usize)
    ensures
        final(ops)@ == old(ops)@ + dense_ffn(s, il),
{
    ops.push(
        Op::MatmulQ8 {
            out: Buf::State(St::GateAct),
            w: Buf::Layer(il, Wt::FfnGate),
            x: Buf::State(St::Normed),
            in_dim: s.n_embd,
            out_dim: s.n_ff_dense,
            t: 1,
        },
    );
    ops.push(
        Op::MatmulQ8 {
            out: Buf::State(St::UpAct),
            w: Buf::Layer(il, Wt::FfnUp),
            x: Buf::State(St::Normed),
            in_dim: s.n_embd,
            out_dim: s.n_ff_dense,
            t: 1,
        },
    );
    ops.push(
        Op::Swiglu {
            out: Buf::State(St::FfnMid),
            gate: Buf::State(St::GateAct),
            up: Buf::State(St::UpAct),
            n: s.n_ff_dense,
            clamp: None,
            act: s.moe_act_op,
        },
    );
    ops.push(
        Op::MatmulQ8 {
            out: Buf::State(St::FfnOut),
            w: Buf::Layer(il, Wt::FfnDown),
            x: Buf::State(St::FfnMid),
            in_dim: s.n_ff_dense,
            out_dim: s.n_embd,
            t: 1,
        },
    );
    assert(ops@ =~= old(ops)@ + dense_ffn(s, il));
}

/// Recurrent state of a KDA layer.
#[derive(Debug, Clone, Copy, PartialEq, Eq, Structural)]
pub struct KdaState {
    /// the card it stands on
    pub dev: i32,
    pub s_bytes: u64,
    /// bytes of each conv window
    pub conv_bytes: u64,
}

/// Whether a card is listed.
pub fn has_card(cards: &Vec<i32>, dev: i32) -> (r: bool)
    ensures
        r == cards@.contains(dev),
{
    let mut i: usize = 0;
    while i < cards.len()
        invariant
            i <= cards@.len(),
            forall|k: int| 0 <= k < i ==> cards@[k] != dev,
        decreases cards@.len() - i,
    {
        if cards[i] == dev {
            return true;
        }
        i = i + 1;
    }
    false
}

/// Allocates the state of a KDA layer on its card, and clears it.
pub open spec fn alloc_kda(il: usize, k: KdaState) -> Seq<Op> {
    seq![
        Op::SetDevice(k.dev),
        Op::Alloc { buf: Buf::Kda(il, KdaBuf::S), bytes: k.s_bytes },
        Op::Alloc { buf: Buf::Kda(il, KdaBuf::ConvQ), bytes: k.conv_bytes },
        Op::Alloc { buf: Buf::Kda(il, KdaBuf::ConvK), bytes: k.conv_bytes },
        Op::Alloc { buf: Buf::Kda(il, KdaBuf::ConvV), bytes: k.conv_bytes },
    ] + zero_kda(il, k)
}

/// Clears the state of a KDA layer; its card is current.
pub open spec fn zero_kda(il: usize, k: KdaState) -> Seq<Op> {
    seq![
        Op::Zero { buf: Buf::Kda(il, KdaBuf::S), bytes: k.s_bytes },
        Op::Zero { buf: Buf::Kda(il, KdaBuf::ConvQ), bytes: k.conv_bytes },
        Op::Zero { buf: Buf::Kda(il, KdaBuf::ConvK), bytes: k.conv_bytes },
        Op::Zero { buf: Buf::Kda(il, KdaBuf::ConvV), bytes: k.conv_bytes },
    ]
}

fn push_zero_kda(ops: &mut Vec<Op>, il: usize, k: KdaState)
    ensures
        final(ops)@ == old(ops)@ + zero_kda(il, k),
{
    ops.push(Op::Zero { buf: Buf::Kda(il, KdaBuf::S), bytes: k.s_bytes });
    ops.push(Op::Zero { buf: Buf::Kda(il, KdaBuf::ConvQ), bytes: k.conv_bytes });
    ops.push(Op::Zero { buf: Buf::Kda(il, KdaBuf::ConvK), bytes: k.conv_bytes });
    ops.push(Op::Zero { buf: Buf::Kda(il, KdaBuf::ConvV), bytes: k.conv_bytes });
    assert(ops@ =~= old(ops)@ + zero_kda(il, k));
}

pub fn push_alloc_kda(ops: &mut Vec<Op>, il: usize, k: KdaState)
    ensures
        final(ops)@ == old(ops)@ + alloc_kda(il, k),
{
    ops.push(Op::SetDevice(k.dev));
    ops.push(Op::Alloc { buf: Buf::Kda(il, KdaBuf::S), bytes: k.s_bytes });
    ops.push(Op::Alloc { buf: Buf::Kda(il, KdaBuf::ConvQ), bytes: k.conv_bytes });
    ops.push(Op::Alloc { buf: Buf::Kda(il, KdaBuf::ConvK), bytes: k.conv_bytes });
    ops.push(Op::Alloc { buf: Buf::Kda(il, KdaBuf::ConvV), bytes: k.conv_bytes });
    push_zero_kda(ops, il, k);
    assert(ops@ =~= old(ops)@ + alloc_kda(il, k));
}

/// Clears the states of the first `n` layers, each on its card.
pub open spec fn reset_states(states: Seq<Option<KdaState>>, n: int) -> Seq<Op>
    decreases n,
{
    if n <= 0 {
        Seq::empty()
    } else {
        reset_states(states, n - 1) + match states[n - 1] {
            Some(k) => seq![Op::SetDevice(k.dev)] + zero_kda((n - 1) as usize, k),
            None => Seq::empty(),
        }
    }
}

/// Clears every state, and makes the card current again that was so before.
pub open spec fn reset_all(states: Seq<Option<KdaState>>, current: i32) -> Seq<Op> {
    reset_states(states, states.len() as int) + seq![Op::SetDevice(current)]
}

pub fn push_reset(ops: &mut Vec<Op>, states: &Vec<Option<KdaState>>, current: i32)
    ensures
        final(ops)@ == old(ops)@ + reset_all(states@, current),
{
    let mut i: usize = 0;
    assert(ops@ =~= old(ops)@ + reset_states(states@, 0));
    while i < states.len()
        invariant
            i <= states@.len(),
            ops@ == old(ops)@ + reset_states(states@, i as int),
        decreases states@.len() - i,
    {
        let ghost was = ops@;
        match states[i] {
            Some(k) => {
                ops.push(Op::SetDevice(k.dev));
                push_zero_kda(ops, i, k);
            },
            None => {},
        }
        assert(ops@ =~= old(ops)@ + reset_states(states@, i + 1));
        i = i + 1;
    }
    ops.push(Op::SetDevice(current));
    assert(ops@ =~= old(ops)@ + reset_all(states@, current));
}

/// What a call has to meet before anything runs.
pub open spec fn batch_ok(n_tokens: nat, pos0: u32, ctx: u32) -> Result<(), EngineError> {
    if n_tokens == 0 {
        Err(EngineError::EmptyBatch)
    } else if pos0 + n_tokens > ctx {
        Err(EngineError::PositionExceedsContext)
    } else {
        Ok(())
    }
}

/// Checks that a batch has tokens and fits the context.
pub fn check_batch(n_tokens: usize, pos0: u32, ctx: u32) -> (r: Result<(), EngineError>)
    ensures
        r == batch_ok(n_tokens as nat, pos0, ctx),
{
    if n_tokens == 0 {
        return Err(EngineError::EmptyBatch);
    }
    if pos0 > ctx || n_tokens as u64 > (ctx - pos0) as u64 {
        return Err(EngineError::PositionExceedsContext);
    }
    Ok(())
}

/// The norm and the head on the last row, and its logits to the host.
pub open spec fn last_row_head(s: Shape) -> Seq<Op> {
    seq![
        Op::RmsNorm {
            out: Buf::State(St::Normed),
            x: Buf::State(St::Cur),
            w: Buf::Global(Gw::OutputNorm),
            n: s.n_embd,
            rows: 1,
        },
        Op::HeadLogits { rows: 1 },
        Op::Sync,
        Op::ReadLogits { n: s.n_vocab as u64 },
    ]
}

pub fn push_last_row_head(ops: &mut Vec<Op>, s: Shape)
    ensures
        final(ops)@ == old(ops)@ + last_row_head(s),
{
    ops.push(
        Op::RmsNorm {
            out: Buf::State(St::Normed),
            x: Buf::State(St::Cur),
            w: Buf::Global(Gw::OutputNorm),
            n: s.n_embd,
            rows: 1,
        },
    );
    ops.push(Op::HeadLogits { rows: 1 });
    ops.push(Op::Sync);
    ops.push(Op::ReadLogits { n: s.n_vocab as u64 });
    assert(ops@ =~= old(ops)@ + last_row_head(s));
}

/// How a pass ends that ran a plan and was asked for `rows` rows: it says
/// whether there are logits.
pub open spec fn outcome(plan: Plan, rows: u32) -> Result<bool, EngineError> {
    match plan.end {
        Ok(_) => Ok(rows != 0),
        Err(e) => Err(e),
    }
}

/// Plans in a row do not depend on how they are grouped.
pub proof fn lemma_and_associates(a: Plan, b: Plan, c: Plan)
    ensures
        a.and(b).and(c) == a.and(b.and(c)),
{
    if a.end is Ok && b.end is Ok {
        assert(a.ops + b.ops + c.ops =~= a.ops + (b.ops + c.ops));
    }
}

} // verus!
