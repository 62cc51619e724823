//! The pieces of a qwen38 layer: stream mixers, token mixers, experts.

use crate::engine::blocks::matw;
use crate::engine::error::EngineError;
use crate::engine::ops::{ops_if, Buf, Factor, GdnBuf, Gw, Op, Part, Plan, Q38, St, Wt};
use crate::engine::qwen38::GdnState;
use crate::engine::shape::{
    either, f32_bytes, times, Ffn, LayerW, MatKind, Qwen38Attn, Qwen38Gdn, Qwen38Hc, Shape,
};
use vstd::prelude::*;

verus! {

impl Shape {
    pub open spec fn spec_hc_dim(self) -> u32 {
        times(self.n_hc, self.n_embd)
    }

    /// Width of all streams of a token.
    #[verifier::when_used_as_spec(spec_hc_dim)]
    pub fn hc_dim(self) -> (r: u32)
        requires
            self.n_hc * self.n_embd <= u32::MAX,
        ensures
            r == self.spec_hc_dim(),
    {
        times(self.n_hc, self.n_embd)
    }

    pub open spec fn spec_key_dim(self) -> u32 {
        times(self.ssm_k_heads, self.ssm_state)
    }

    /// Width of a DeltaNet key.
    #[verifier::when_used_as_spec(spec_key_dim)]
    pub fn key_dim(self) -> (r: u32)
        requires
            self.ssm_k_heads * self.ssm_state <= u32::MAX,
        ensures
            r == self.spec_key_dim(),
    {
        times(self.ssm_k_heads, self.ssm_state)
    }

    pub open spec fn spec_value_dim(self) -> u32 {
        times(self.ssm_v_heads, self.ssm_state)
    }

    /// Width of a DeltaNet value.
    #[verifier::when_used_as_spec(spec_value_dim)]
    pub fn value_dim(self) -> (r: u32)
        requires
            self.ssm_v_heads * self.ssm_state <= u32::MAX,
        ensures
            r == self.spec_value_dim(),
    {
        times(self.ssm_v_heads, self.ssm_state)
    }

    pub open spec fn spec_conv_dim(self) -> u32 {
        (2 * (self.ssm_k_heads * self.ssm_state) + self.ssm_v_heads * self.ssm_state) as u32
    }

    /// Width of a DeltaNet query, key and value together.
    #[verifier::when_used_as_spec(spec_conv_dim)]
    pub fn conv_dim(self) -> (r: u32)
        requires
            2 * (self.ssm_k_heads * self.ssm_state) + self.ssm_v_heads * self.ssm_state
                <= u32::MAX,
        ensures
            r == self.spec_conv_dim(),
    {
        proof {
            assert(self.ssm_k_heads * self.ssm_state >= 0) by (nonlinear_arith);
            assert(self.ssm_v_heads * self.ssm_state >= 0) by (nonlinear_arith);
        }
        2 * (self.ssm_k_heads * self.ssm_state) + self.ssm_v_heads * self.ssm_state
    }

    pub open spec fn spec_attn_dim(self) -> u32 {
        times(self.n_head, self.head_dim)
    }

    /// Width of the attention heads.
    #[verifier::when_used_as_spec(spec_attn_dim)]
    pub fn attn_dim(self) -> (r: u32)
        requires
            self.n_head * self.head_dim <= u32::MAX,
        ensures
            r == self.spec_attn_dim(),
    {
        times(self.n_head, self.head_dim)
    }

    pub open spec fn spec_kv_dim(self) -> u32 {
        times(self.n_head_kv, self.head_dim)
    }

    /// Width of the key and value heads.
    #[verifier::when_used_as_spec(spec_kv_dim)]
    pub fn kv_dim(self) -> (r: u32)
        requires
            self.n_head_kv * self.head_dim <= u32::MAX,
        ensures
            r == self.spec_kv_dim(),
    {
        times(self.n_head_kv, self.head_dim)
    }

    /// The widths and the sizes of `t` rows fit their type.
    pub open spec fn rows_fit(self, t: u32) -> bool {
        &&& self.n_hc * self.n_embd <= u32::MAX
        &&& t * (self.n_hc * self.n_embd) <= u32::MAX
        &&& t * self.n_embd <= u32::MAX
        &&& t * self.hc_low_rank <= u32::MAX
        &&& 2 * (self.ssm_k_heads * self.ssm_state) + self.ssm_v_heads * self.ssm_state
            <= u32::MAX
        &&& self.ssm_k_heads * self.ssm_state <= u32::MAX
        &&& self.ssm_v_heads * self.ssm_state <= u32::MAX
        &&& t * self.ssm_k_heads <= u32::MAX
        &&& t * self.ssm_v_heads <= u32::MAX
        &&& t * (self.ssm_v_heads * self.ssm_state) <= u32::MAX
        &&& 2 * (self.n_head * self.head_dim) <= u32::MAX
        &&& self.n_head * self.head_dim <= u32::MAX
        &&& t * (self.n_head * self.head_dim) <= u32::MAX
        &&& t * self.n_head <= u32::MAX
        &&& self.n_head_kv * self.head_dim <= u32::MAX
        &&& t * self.n_head_kv <= u32::MAX
        &&& t * self.n_ff_exp <= u32::MAX
        &&& t * self.n_expert_used <= u32::MAX
    }
}

/// The weights of a stream mixer.
#[derive(Debug, Clone, Copy, PartialEq, Eq, Structural)]
pub struct HcAt {
    pub norm: Buf,
    pub down: Buf,
    pub up: Buf,
    pub inject: Buf,
}

pub open spec fn spec_hc_attn_at(part: Part) -> HcAt {
    HcAt {
        norm: part.wt(Wt::HcAttnNorm),
        down: part.wt(Wt::HcAttnDown),
        up: part.wt(Wt::HcAttnUp),
        inject: part.wt(Wt::HcAttnInject),
    }
}

/// The mixer before the attention half.
#[verifier::when_used_as_spec(spec_hc_attn_at)]
pub fn hc_attn_at(part: Part) -> (r: HcAt)
    ensures
        r == spec_hc_attn_at(part),
{
    HcAt {
        norm: part.wt(Wt::HcAttnNorm),
        down: part.wt(Wt::HcAttnDown),
        up: part.wt(Wt::HcAttnUp),
        inject: part.wt(Wt::HcAttnInject),
    }
}

pub open spec fn spec_hc_ffn_at(part: Part) -> HcAt {
    HcAt {
        norm: part.wt(Wt::HcFfnNorm),
        down: part.wt(Wt::HcFfnDown),
        up: part.wt(Wt::HcFfnUp),
        inject: part.wt(Wt::HcFfnInject),
    }
}

/// The mixer before the experts.
#[verifier::when_used_as_spec(spec_hc_ffn_at)]
pub fn hc_ffn_at(part: Part) -> (r: HcAt)
    ensures
        r == spec_hc_ffn_at(part),
{
    HcAt {
        norm: part.wt(Wt::HcFfnNorm),
        down: part.wt(Wt::HcFfnDown),
        up: part.wt(Wt::HcFfnUp),
        inject: part.wt(Wt::HcFfnInject),
    }
}

pub open spec fn spec_hc_out_at() -> HcAt {
    HcAt {
        norm: Buf::Global(Gw::OutputHcNorm),
        down: Buf::Global(Gw::OutputHcDown),
        up: Buf::Global(Gw::OutputHcUp),
        inject: Buf::Global(Gw::OutputHcInject),
    }
}

/// The mixer of the head.
#[verifier::when_used_as_spec(spec_hc_out_at)]
pub fn hc_out_at() -> (r: HcAt)
    ensures
        r == spec_hc_out_at(),
{
    HcAt {
        norm: Buf::Global(Gw::OutputHcNorm),
        down: Buf::Global(Gw::OutputHcDown),
        up: Buf::Global(Gw::OutputHcUp),
        inject: Buf::Global(Gw::OutputHcInject),
    }
}

/// The quantization of `rows` rows that a matmul with this encoding reads, where
/// it reads one.
pub open spec fn quant_rows(kind: MatKind, out: Buf, x: Buf, n: u32, rows: u32) -> Seq<Op> {
    ops_if(kind == MatKind::Kq, seq![Op::QuantizeQ8K { out, x, n, rows }])
}

pub(crate) fn push_quant_rows(ops: &mut Vec<Op>, kind: MatKind, out: Buf, x: Buf, n: u32, rows: u32)
    ensures
        final(ops)@ == old(ops)@ + quant_rows(kind, out, x, n, rows),
{
    if kind == MatKind::Kq {
        ops.push(Op::QuantizeQ8K { out, x, n, rows });
    }
    assert(ops@ =~= old(ops)@ + quant_rows(kind, out, x, n, rows));
}

/// First step of a stream mix: each stream is normed, with a weight for every
/// value where `gamma` holds.
pub open spec fn hc_norm(s: Shape, w: Buf, t: u32, gamma: bool) -> Seq<Op> {
    seq![
        Op::HcNorm {
            out: Buf::Rt(Q38::Xn),
            x: Buf::Rt(Q38::ResHc),
            w: if gamma { Some(w) } else { None },
            t,
            n_embd: s.n_embd,
            hc: s.n_hc,
        },
    ]
}

pub(crate) fn push_hc_norm(ops: &mut Vec<Op>, s: Shape, w: Buf, t: u32, gamma: bool)
    ensures
        final(ops)@ == old(ops)@ + hc_norm(s, w, t, gamma),
{
    ops.push(
        Op::HcNorm {
            out: Buf::Rt(Q38::Xn),
            x: Buf::Rt(Q38::ResHc),
            w: if gamma { Some(w) } else { None },
            t,
            n_embd: s.n_embd,
            hc: s.n_hc,
        },
    );
    assert(ops@ =~= old(ops)@ + hc_norm(s, w, t, gamma));
}

/// The low-rank gate of a stream mix: down, a scale by the number of streams, the
/// self-gate, and up to the full width.
pub open spec fn hc_gate(s: Shape, at: HcAt, w: Qwen38Hc, t: u32) -> Seq<Op> {
    quant_rows(w.down, Buf::Rt(Q38::Xq), Buf::Rt(Q38::Xn), s.hc_dim(), t) + hc_down(
        s,
        at,
        w,
        t,
    ) + quant_rows(w.up, Buf::Rt(Q38::Xq2), Buf::Rt(Q38::Lo), s.hc_low_rank, t) + hc_up(
        s,
        at,
        w,
        t,
    )
}

/// The way down to the low rank, scaled before it gates itself.
pub open spec fn hc_down(s: Shape, at: HcAt, w: Qwen38Hc, t: u32) -> Seq<Op> {
    seq![
        matw(
            Buf::Rt(Q38::Lo),
            at.down,
            w.down,
            Buf::Rt(Q38::Xn),
            Buf::Rt(Q38::Xq),
            s.hc_dim(),
            s.hc_low_rank,
            t,
        ),
        Op::Scale { buf: Buf::Rt(Q38::Lo), n: times(t, s.hc_low_rank), factor: Factor::InvHc },
        Op::CopyD2d {
            dst: Buf::Rt(Q38::GateFull),
            dst_off: 0,
            src: Buf::Rt(Q38::Lo),
            src_off: 0,
            bytes: f32_bytes(times(t, s.hc_low_rank)),
        },
        Op::SigmoidGate {
            buf: Buf::Rt(Q38::Lo),
            gate: Buf::Rt(Q38::GateFull),
            n: times(t, s.hc_low_rank),
        },
    ]
}

pub(crate) fn push_hc_down(ops: &mut Vec<Op>, s: Shape, at: HcAt, w: Qwen38Hc, t: u32)
    requires
        s.rows_fit(t),
    ensures
        final(ops)@ == old(ops)@ + hc_down(s, at, w, t),
{
    ops.push(
        matw(
            Buf::Rt(Q38::Lo),
            at.down,
            w.down,
            Buf::Rt(Q38::Xn),
            Buf::Rt(Q38::Xq),
            s.hc_dim(),
            s.hc_low_rank,
            t,
        ),
    );
    ops.push(
        Op::Scale { buf: Buf::Rt(Q38::Lo), n: times(t, s.hc_low_rank), factor: Factor::InvHc },
    );
    ops.push(
        Op::CopyD2d {
            dst: Buf::Rt(Q38::GateFull),
            dst_off: 0,
            src: Buf::Rt(Q38::Lo),
            src_off: 0,
            bytes: f32_bytes(times(t, s.hc_low_rank)),
        },
    );
    ops.push(
        Op::SigmoidGate {
            buf: Buf::Rt(Q38::Lo),
            gate: Buf::Rt(Q38::GateFull),
            n: times(t, s.hc_low_rank),
        },
    );
    assert(ops@ =~= old(ops)@ + hc_down(s, at, w, t));
}

/// The way up to a gate for every stream.
pub open spec fn hc_up(s: Shape, at: HcAt, w: Qwen38Hc, t: u32) -> Seq<Op> {
    seq![
        matw(
            Buf::Rt(Q38::Gated),
            at.up,
            w.up,
            Buf::Rt(Q38::Lo),
            Buf::Rt(Q38::Xq2),
            s.hc_low_rank,
            s.hc_dim(),
            t,
        ),
    ]
}

pub(crate) fn push_hc_up(ops: &mut Vec<Op>, s: Shape, at: HcAt, w: Qwen38Hc, t: u32)
    requires
        s.rows_fit(t),
    ensures
        final(ops)@ == old(ops)@ + hc_up(s, at, w, t),
{
    ops.push(
        matw(
            Buf::Rt(Q38::Gated),
            at.up,
            w.up,
            Buf::Rt(Q38::Lo),
            Buf::Rt(Q38::Xq2),
            s.hc_low_rank,
            s.hc_dim(),
            t,
        ),
    );
    assert(ops@ =~= old(ops)@ + hc_up(s, at, w, t));
}

/// The scatter weights of the streams.
pub open spec fn hc_inject(s: Shape, at: HcAt, t: u32) -> Seq<Op> {
    seq![
        Op::MatmulF32 {
            out: Buf::Rt(Q38::Inj),
            w: at.inject,
            x: Buf::Rt(Q38::Xn),
            in_dim: s.hc_dim(),
            out_dim: s.n_hc,
            t,
        },
    ]
}

pub(crate) fn push_hc_inject(ops: &mut Vec<Op>, s: Shape, at: HcAt, t: u32)
    requires
        s.rows_fit(t),
    ensures
        final(ops)@ == old(ops)@ + hc_inject(s, at, t),
{
    ops.push(
        Op::MatmulF32 {
            out: Buf::Rt(Q38::Inj),
            w: at.inject,
            x: Buf::Rt(Q38::Xn),
            in_dim: s.hc_dim(),
            out_dim: s.n_hc,
            t,
        },
    );
    assert(ops@ =~= old(ops)@ + hc_inject(s, at, t));
}

/// The streams are gated and collapsed to their mean.
pub open spec fn hc_collapse(s: Shape, t: u32) -> Seq<Op> {
    seq![
        Op::SigmoidGate {
            buf: Buf::Rt(Q38::Xn),
            gate: Buf::Rt(Q38::Gated),
            n: times(t, s.hc_dim()),
        },
        Op::HcMean { out: Buf::Rt(Q38::Cur), x: Buf::Rt(Q38::Xn), t, n_embd: s.n_embd, hc: s.n_hc },
    ]
}

pub(crate) fn push_hc_collapse(ops: &mut Vec<Op>, s: Shape, t: u32)
    requires
        s.rows_fit(t),
    ensures
        final(ops)@ == old(ops)@ + hc_collapse(s, t),
{
    ops.push(
        Op::SigmoidGate {
            buf: Buf::Rt(Q38::Xn),
            gate: Buf::Rt(Q38::Gated),
            n: times(t, s.hc_dim()),
        },
    );
    ops.push(
        Op::HcMean { out: Buf::Rt(Q38::Cur), x: Buf::Rt(Q38::Xn), t, n_embd: s.n_embd, hc: s.n_hc },
    );
    assert(ops@ =~= old(ops)@ + hc_collapse(s, t));
}

/// Second step of a stream mix.  The projections run once for each token, over
/// all its streams.
pub open spec fn hc_mix(s: Shape, at: HcAt, w: Qwen38Hc, t: u32, inject: bool) -> Seq<Op> {
    hc_gate(s, at, w, t) + ops_if(inject && w.inject_bytes > 4, hc_inject(s, at, t))
        + hc_collapse(s, t)
}

/// Appends the second step of a stream mix.
pub fn hc_mix_core(ops: &mut Vec<Op>, s: Shape, at: HcAt, w: Qwen38Hc, t: u32, inject: bool)
    requires
        s.rows_fit(t),
    ensures
        final(ops)@ == old(ops)@ + hc_mix(s, at, w, t, inject),
{
    push_quant_rows(ops, w.down, Buf::Rt(Q38::Xq), Buf::Rt(Q38::Xn), s.hc_dim(), t);
    push_hc_down(ops, s, at, w, t);
    push_quant_rows(ops, w.up, Buf::Rt(Q38::Xq2), Buf::Rt(Q38::Lo), s.hc_low_rank, t);
    push_hc_up(ops, s, at, w, t);
    if inject && w.inject_bytes > 4 {
        push_hc_inject(ops, s, at, t);
    }
    push_hc_collapse(ops, s, t);
    assert(ops@ =~= old(ops)@ + hc_mix(s, at, w, t, inject));
}

/// A whole stream mix.
pub open spec fn hc_full(s: Shape, at: HcAt, w: Qwen38Hc, t: u32, inject: bool) -> Seq<Op> {
    hc_norm(s, at.norm, t, true) + hc_mix(s, at, w, t, inject)
}

pub(crate) fn push_hc_full(ops: &mut Vec<Op>, s: Shape, at: HcAt, w: Qwen38Hc, t: u32, inject: bool)
    requires
        s.rows_fit(t),
    ensures
        final(ops)@ == old(ops)@ + hc_full(s, at, w, t, inject),
{
    push_hc_norm(ops, s, at.norm, t, true);
    hc_mix_core(ops, s, at, w, t, inject);
    assert(ops@ =~= old(ops)@ + hc_full(s, at, w, t, inject));
}

/// The input of a gated DeltaNet, quantized where one of its projections reads it
/// so.
pub open spec fn gdn_input(s: Shape, w: Qwen38Gdn, t: u32) -> Seq<Op> {
    quant_rows(either(w.wqkv, w.wz), Buf::Rt(Q38::Xq2), Buf::Rt(Q38::Cur), s.n_embd, t)
}

/// The projections of a gated DeltaNet, and its decay and step size.
pub open spec fn gdn_project(s: Shape, part: Part, w: Qwen38Gdn, t: u32) -> Seq<Op> {
    seq![
        matw(
            Buf::Rt(Q38::GdnQkv),
            part.wt(Wt::GdnWqkv),
            w.wqkv,
            Buf::Rt(Q38::Cur),
            Buf::Rt(Q38::Xq2),
            s.n_embd,
            s.conv_dim(),
            t,
        ),
        matw(
            Buf::Rt(Q38::GdnZ),
            part.wt(Wt::GdnWz),
            w.wz,
            Buf::Rt(Q38::Cur),
            Buf::Rt(Q38::Xq2),
            s.n_embd,
            s.value_dim(),
            t,
        ),
        Op::MatmulF32 {
            out: Buf::Rt(Q38::GdnG),
            w: part.wt(Wt::GdnAlpha),
            x: Buf::Rt(Q38::Cur),
            in_dim: s.n_embd,
            out_dim: s.ssm_v_heads,
            t,
        },
        Op::MatmulF32 {
            out: Buf::Rt(Q38::GdnBeta),
            w: part.wt(Wt::GdnBeta),
            x: Buf::Rt(Q38::Cur),
            in_dim: s.n_embd,
            out_dim: s.ssm_v_heads,
            t,
        },
        Op::GdnCoeffs {
            g: Buf::Rt(Q38::GdnG),
            beta: Buf::Rt(Q38::GdnBeta),
            a: part.wt(Wt::GdnA),
            dt_bias: part.wt(Wt::GdnDtBias),
            t,
            heads: s.ssm_v_heads,
        },
    ]
}

pub(crate) fn push_gdn_project(ops: &mut Vec<Op>, s: Shape, part: Part, w: Qwen38Gdn, t: u32)
    requires
        s.rows_fit(t),
    ensures
        final(ops)@ == old(ops)@ + gdn_project(s, part, w, t),
{
    ops.push(
        matw(
            Buf::Rt(Q38::GdnQkv),
            part.wt(Wt::GdnWqkv),
            w.wqkv,
            Buf::Rt(Q38::Cur),
            Buf::Rt(Q38::Xq2),
            s.n_embd,
            s.conv_dim(),
            t,
        ),
    );
    ops.push(
        matw(
            Buf::Rt(Q38::GdnZ),
            part.wt(Wt::GdnWz),
            w.wz,
            Buf::Rt(Q38::Cur),
            Buf::Rt(Q38::Xq2),
            s.n_embd,
            s.value_dim(),
            t,
        ),
    );
    ops.push(
        Op::MatmulF32 {
            out: Buf::Rt(Q38::GdnG),
            w: part.wt(Wt::GdnAlpha),
            x: Buf::Rt(Q38::Cur),
            in_dim: s.n_embd,
            out_dim: s.ssm_v_heads,
            t,
        },
    );
    ops.push(
        Op::MatmulF32 {
            out: Buf::Rt(Q38::GdnBeta),
            w: part.wt(Wt::GdnBeta),
            x: Buf::Rt(Q38::Cur),
            in_dim: s.n_embd,
            out_dim: s.ssm_v_heads,
            t,
        },
    );
    ops.push(
        Op::GdnCoeffs {
            g: Buf::Rt(Q38::GdnG),
            beta: Buf::Rt(Q38::GdnBeta),
            a: part.wt(Wt::GdnA),
            dt_bias: part.wt(Wt::GdnDtBias),
            t,
            heads: s.ssm_v_heads,
        },
    );
    assert(ops@ =~= old(ops)@ + gdn_project(s, part, w, t));
}

/// The recurrence: conv window, split, norms, delta rule; then the norm of each
/// value head and the sigmoid output gate.
pub open spec fn gdn_recurrence(s: Shape, part: Part, il: usize, t: u32) -> Seq<Op> {
    seq![
        Op::ConvBatch {
            out: Buf::Rt(Q38::GdnConvOut),
            x: Buf::Rt(Q38::GdnQkv),
            w: part.wt(Wt::GdnConv),
            state: Buf::Gdn(il, GdnBuf::Conv),
            dim: s.conv_dim(),
            k: s.ssm_conv_k,
            t,
        },
        Op::SplitQkv {
            q: Buf::Rt(Q38::GdnGq),
            k: Buf::Rt(Q38::GdnGk),
            v: Buf::Rt(Q38::GdnGv),
            x: Buf::Rt(Q38::GdnConvOut),
            t,
            key_dim: s.key_dim(),
            value_dim: s.value_dim(),
        },
        Op::L2Norm { buf: Buf::Rt(Q38::GdnGq), rows: times(t, s.ssm_k_heads), dim: s.ssm_state },
        Op::L2Norm { buf: Buf::Rt(Q38::GdnGk), rows: times(t, s.ssm_k_heads), dim: s.ssm_state },
        Op::GdnBatch {
            out: Buf::Rt(Q38::GdnO),
            state: Buf::Gdn(il, GdnBuf::S),
            q: Buf::Rt(Q38::GdnGq),
            k: Buf::Rt(Q38::GdnGk),
            v: Buf::Rt(Q38::GdnGv),
            g: Buf::Rt(Q38::GdnG),
            beta: Buf::Rt(Q38::GdnBeta),
            v_heads: s.ssm_v_heads,
            k_heads: s.ssm_k_heads,
            dim: s.ssm_state,
            t,
        },
        Op::HeadRmsNorm {
            buf: Buf::Rt(Q38::GdnO),
            w: part.wt(Wt::GdnNorm),
            rows: times(t, s.ssm_v_heads),
            dim: s.ssm_state,
        },
        Op::SigmoidGate {
            buf: Buf::Rt(Q38::GdnO),
            gate: Buf::Rt(Q38::GdnZ),
            n: times(t, s.value_dim()),
        },
    ]
}

pub(crate) fn push_gdn_recurrence(ops: &mut Vec<Op>, s: Shape, part: Part, il: usize, t: u32)
    requires
        s.rows_fit(t),
    ensures
        final(ops)@ == old(ops)@ + gdn_recurrence(s, part, il, t),
{
    ops.push(
        Op::ConvBatch {
            out: Buf::Rt(Q38::GdnConvOut),
            x: Buf::Rt(Q38::GdnQkv),
            w: part.wt(Wt::GdnConv),
            state: Buf::Gdn(il, GdnBuf::Conv),
            dim: s.conv_dim(),
            k: s.ssm_conv_k,
            t,
        },
    );
    ops.push(
        Op::SplitQkv {
            q: Buf::Rt(Q38::GdnGq),
            k: Buf::Rt(Q38::GdnGk),
            v: Buf::Rt(Q38::GdnGv),
            x: Buf::Rt(Q38::GdnConvOut),
            t,
            key_dim: s.key_dim(),
            value_dim: s.value_dim(),
        },
    );
    ops.push(
        Op::L2Norm { buf: Buf::Rt(Q38::GdnGq), rows: times(t, s.ssm_k_heads), dim: s.ssm_state },
    );
    ops.push(
        Op::L2Norm { buf: Buf::Rt(Q38::GdnGk), rows: times(t, s.ssm_k_heads), dim: s.ssm_state },
    );
    ops.push(
        Op::GdnBatch {
            out: Buf::Rt(Q38::GdnO),
            state: Buf::Gdn(il, GdnBuf::S),
            q: Buf::Rt(Q38::GdnGq),
            k: Buf::Rt(Q38::GdnGk),
            v: Buf::Rt(Q38::GdnGv),
            g: Buf::Rt(Q38::GdnG),
            beta: Buf::Rt(Q38::GdnBeta),
            v_heads: s.ssm_v_heads,
            k_heads: s.ssm_k_heads,
            dim: s.ssm_state,
            t,
        },
    );
    ops.push(
        Op::HeadRmsNorm {
            buf: Buf::Rt(Q38::GdnO),
            w: part.wt(Wt::GdnNorm),
            rows: times(t, s.ssm_v_heads),
            dim: s.ssm_state,
        },
    );
    ops.push(
        Op::SigmoidGate {
            buf: Buf::Rt(Q38::GdnO),
            gate: Buf::Rt(Q38::GdnZ),
            n: times(t, s.value_dim()),
        },
    );
    assert(ops@ =~= old(ops)@ + gdn_recurrence(s, part, il, t));
}

/// The output projection of a gated DeltaNet.
pub open spec fn gdn_out(s: Shape, part: Part, w: Qwen38Gdn, t: u32) -> Seq<Op> {
    seq![
        matw(
            Buf::Rt(Q38::AttnOut),
            part.wt(Wt::GdnOut),
            w.ssm_out,
            Buf::Rt(Q38::GdnO),
            Buf::Rt(Q38::Midq),
            s.value_dim(),
            s.n_embd,
            t,
        ),
    ]
}

pub(crate) fn push_gdn_out(ops: &mut Vec<Op>, s: Shape, part: Part, w: Qwen38Gdn, t: u32)
    requires
        s.rows_fit(t),
    ensures
        final(ops)@ == old(ops)@ + gdn_out(s, part, w, t),
{
    ops.push(
        matw(
            Buf::Rt(Q38::AttnOut),
            part.wt(Wt::GdnOut),
            w.ssm_out,
            Buf::Rt(Q38::GdnO),
            Buf::Rt(Q38::Midq),
            s.value_dim(),
            s.n_embd,
            t,
        ),
    );
    assert(ops@ =~= old(ops)@ + gdn_out(s, part, w, t));
}

/// A gated DeltaNet.
#[verifier::opaque]
pub open spec fn gdn(
    s: Shape,
    part: Part,
    il: usize,
    w: Qwen38Gdn,
    state: Option<GdnState>,
    t: u32,
) -> Plan {
    if state is None {
        Plan {
            ops: gdn_input(s, w, t) + gdn_project(s, part, w, t),
            end: Err(EngineError::Qwen38GdnStateMissing),
        }
    } else {
        Plan::of(
            gdn_input(s, w, t) + gdn_project(s, part, w, t) + gdn_recurrence(
                s,
                part,
                il,
                t,
            ) + quant_rows(
                w.ssm_out,
                Buf::Rt(Q38::Midq),
                Buf::Rt(Q38::GdnO),
                s.value_dim(),
                t,
            ) + gdn_out(s, part, w, t),
        )
    }
}

/// Appends a gated DeltaNet.
pub fn eval_gdn_layer(
    ops: &mut Vec<Op>,
    s: Shape,
    part: Part,
    il: usize,
    w: Qwen38Gdn,
    state: Option<GdnState>,
    t: u32,
) -> (r: Result<(), EngineError>)
    requires
        s.rows_fit(t),
    ensures
        gdn(s, part, il, w, state, t).appended(old(ops)@, final(ops)@, r),
{
    proof {
        reveal(gdn);
    }
    push_quant_rows(
        ops,
        either(w.wqkv, w.wz),
        Buf::Rt(Q38::Xq2),
        Buf::Rt(Q38::Cur),
        s.n_embd,
        t,
    );
    push_gdn_project(ops, s, part, w, t);
    if state.is_none() {
        assert(ops@ =~= old(ops)@ + gdn(s, part, il, w, state, t).ops);
        return Err(EngineError::Qwen38GdnStateMissing);
    }
    push_gdn_recurrence(ops, s, part, il, t);
    push_quant_rows(
        ops,
        w.ssm_out,
        Buf::Rt(Q38::Midq),
        Buf::Rt(Q38::GdnO),
        s.value_dim(),
        t,
    );
    push_gdn_out(ops, s, part, w, t);
    assert(ops@ =~= old(ops)@ + gdn(s, part, il, w, state, t).ops);
    Ok(())
}

/// The last position at which dense attention is what the model asks for.
pub open spec fn dense_bound(s: Shape) -> int {
    s.n_idx_topk + if s.qsa_ratio >= 1 {
        s.qsa_ratio - 1
    } else {
        0
    }
}

/// The positions reach past the window in which the sparse selection is dense.
pub open spec fn beyond_dense(s: Shape, w: Qwen38Attn, pos0: u32, t: u32) -> bool {
    w.has_indexer && s.qsa_ratio > 0 && pos0 + t > dense_bound(s)
}

/// The fused projection of queries and output gates, and its split.  With a
/// quantized encoding it multiplies what the scratch holds.
pub open spec fn attn_query(s: Shape, part: Part, w: Qwen38Attn, t: u32) -> Seq<Op> {
    seq![
        matw(
            Buf::Rt(Q38::Qfull),
            part.wt(Wt::AttnWq),
            w.wq,
            Buf::Rt(Q38::Cur),
            Buf::Rt(Q38::Xq2),
            s.n_embd,
            times(2, s.attn_dim()),
            t,
        ),
        Op::SplitGate {
            q: Buf::Rt(Q38::Q),
            gate: Buf::Rt(Q38::GateA),
            x: Buf::Rt(Q38::Qfull),
            rows: times(t, s.n_head),
            dim: s.head_dim,
        },
    ]
}

pub(crate) fn push_attn_query(ops: &mut Vec<Op>, s: Shape, part: Part, w: Qwen38Attn, t: u32)
    requires
        s.rows_fit(t),
    ensures
        final(ops)@ == old(ops)@ + attn_query(s, part, w, t),
{
    ops.push(
        matw(
            Buf::Rt(Q38::Qfull),
            part.wt(Wt::AttnWq),
            w.wq,
            Buf::Rt(Q38::Cur),
            Buf::Rt(Q38::Xq2),
            s.n_embd,
            times(2, s.attn_dim()),
            t,
        ),
    );
    ops.push(
        Op::SplitGate {
            q: Buf::Rt(Q38::Q),
            gate: Buf::Rt(Q38::GateA),
            x: Buf::Rt(Q38::Qfull),
            rows: times(t, s.n_head),
            dim: s.head_dim,
        },
    );
    assert(ops@ =~= old(ops)@ + attn_query(s, part, w, t));
}

/// The projections of keys and values.
pub open spec fn attn_kv(s: Shape, part: Part, t: u32) -> Seq<Op> {
    seq![
        Op::MatmulQ8 {
            out: Buf::Rt(Q38::K),
            w: part.wt(Wt::AttnWk),
            x: Buf::Rt(Q38::Cur),
            in_dim: s.n_embd,
            out_dim: s.kv_dim(),
            t,
        },
        Op::MatmulQ8 {
            out: Buf::Rt(Q38::V),
            w: part.wt(Wt::AttnWv),
            x: Buf::Rt(Q38::Cur),
            in_dim: s.n_embd,
            out_dim: s.kv_dim(),
            t,
        },
    ]
}

pub(crate) fn push_attn_kv(ops: &mut Vec<Op>, s: Shape, part: Part, t: u32)
    requires
        s.rows_fit(t),
    ensures
        final(ops)@ == old(ops)@ + attn_kv(s, part, t),
{
    ops.push(
        Op::MatmulQ8 {
            out: Buf::Rt(Q38::K),
            w: part.wt(Wt::AttnWk),
            x: Buf::Rt(Q38::Cur),
            in_dim: s.n_embd,
            out_dim: s.kv_dim(),
            t,
        },
    );
    ops.push(
        Op::MatmulQ8 {
            out: Buf::Rt(Q38::V),
            w: part.wt(Wt::AttnWv),
            x: Buf::Rt(Q38::Cur),
            in_dim: s.n_embd,
            out_dim: s.kv_dim(),
            t,
        },
    );
    assert(ops@ =~= old(ops)@ + attn_kv(s, part, t));
}

/// Head norms, partial rotation, the cache, dense attention and the sigmoid output
/// gate.
pub open spec fn attn_core(
    s: Shape,
    part: Part,
    il: usize,
    pos0: u32,
    t: u32,
    ctx: u32,
) -> Seq<Op> {
    seq![
        Op::HeadRmsNorm {
            buf: Buf::Rt(Q38::Q),
            w: part.wt(Wt::AttnQNorm),
            rows: times(t, s.n_head),
            dim: s.head_dim,
        },
        Op::HeadRmsNorm {
            buf: Buf::Rt(Q38::K),
            w: part.wt(Wt::AttnKNorm),
            rows: times(t, s.n_head_kv),
            dim: s.head_dim,
        },
        Op::GqaRope {
            buf: Buf::Rt(Q38::Q),
            t,
            heads: s.n_head,
            dim: s.head_dim,
            rot: s.rot_dim,
            pos: pos0,
        },
        Op::GqaRope {
            buf: Buf::Rt(Q38::K),
            t,
            heads: s.n_head_kv,
            dim: s.head_dim,
            rot: s.rot_dim,
            pos: pos0,
        },
        Op::GqaKvAppend {
            cache: Buf::KCache(il),
            x: Buf::Rt(Q38::K),
            t,
            heads: s.n_head_kv,
            dim: s.head_dim,
            ctx,
            pos: pos0,
        },
        Op::GqaKvAppend {
            cache: Buf::VCache(il),
            x: Buf::Rt(Q38::V),
            t,
            heads: s.n_head_kv,
            dim: s.head_dim,
            ctx,
            pos: pos0,
        },
        Op::GqaAttention {
            out: Buf::Rt(Q38::Heads),
            q: Buf::Rt(Q38::Q),
            k: Buf::KCache(il),
            v: Buf::VCache(il),
            t,
            heads: s.n_head,
            kv_heads: s.n_head_kv,
            dim: s.head_dim,
            ctx,
            pos: pos0,
        },
        Op::SigmoidGate {
            buf: Buf::Rt(Q38::Heads),
            gate: Buf::Rt(Q38::GateA),
            n: times(t, s.attn_dim()),
        },
    ]
}

pub(crate) fn push_attn_core(
    ops: &mut Vec<Op>,
    s: Shape,
    part: Part,
    il: usize,
    pos0: u32,
    t: u32,
    ctx: u32,
)
    requires
        s.rows_fit(t),
    ensures
        final(ops)@ == old(ops)@ + attn_core(s, part, il, pos0, t, ctx),
{
    ops.push(
        Op::HeadRmsNorm {
            buf: Buf::Rt(Q38::Q),
            w: part.wt(Wt::AttnQNorm),
            rows: times(t, s.n_head),
            dim: s.head_dim,
        },
    );
    ops.push(
        Op::HeadRmsNorm {
            buf: Buf::Rt(Q38::K),
            w: part.wt(Wt::AttnKNorm),
            rows: times(t, s.n_head_kv),
            dim: s.head_dim,
        },
    );
    ops.push(
        Op::GqaRope {
            buf: Buf::Rt(Q38::Q),
            t,
            heads: s.n_head,
            dim: s.head_dim,
            rot: s.rot_dim,
            pos: pos0,
        },
    );
    ops.push(
        Op::GqaRope {
            buf: Buf::Rt(Q38::K),
            t,
            heads: s.n_head_kv,
            dim: s.head_dim,
            rot: s.rot_dim,
            pos: pos0,
        },
    );
    ops.push(
        Op::GqaKvAppend {
            cache: Buf::KCache(il),
            x: Buf::Rt(Q38::K),
            t,
            heads: s.n_head_kv,
            dim: s.head_dim,
            ctx,
            pos: pos0,
        },
    );
    ops.push(
        Op::GqaKvAppend {
            cache: Buf::VCache(il),
            x: Buf::Rt(Q38::V),
            t,
            heads: s.n_head_kv,
            dim: s.head_dim,
            ctx,
            pos: pos0,
        },
    );
    ops.push(
        Op::GqaAttention {
            out: Buf::Rt(Q38::Heads),
            q: Buf::Rt(Q38::Q),
            k: Buf::KCache(il),
            v: Buf::VCache(il),
            t,
            heads: s.n_head,
            kv_heads: s.n_head_kv,
            dim: s.head_dim,
            ctx,
            pos: pos0,
        },
    );
    ops.push(
        Op::SigmoidGate {
            buf: Buf::Rt(Q38::Heads),
            gate: Buf::Rt(Q38::GateA),
            n: times(t, s.attn_dim()),
        },
    );
    assert(ops@ =~= old(ops)@ + attn_core(s, part, il, pos0, t, ctx));
}

/// The output projection of gated attention.  It is handed the heads as they are,
/// whatever its encoding.
pub open spec fn attn_out(s: Shape, part: Part, w: Qwen38Attn, t: u32) -> Seq<Op> {
    seq![
        matw(
            Buf::Rt(Q38::AttnOut),
            part.wt(Wt::AttnOut),
            w.out,
            Buf::Rt(Q38::Heads),
            Buf::Rt(Q38::Heads),
            s.attn_dim(),
            s.n_embd,
            t,
        ),
    ]
}

pub(crate) fn push_attn_out(ops: &mut Vec<Op>, s: Shape, part: Part, w: Qwen38Attn, t: u32)
    requires
        s.rows_fit(t),
    ensures
        final(ops)@ == old(ops)@ + attn_out(s, part, w, t),
{
    ops.push(
        matw(
            Buf::Rt(Q38::AttnOut),
            part.wt(Wt::AttnOut),
            w.out,
            Buf::Rt(Q38::Heads),
            Buf::Rt(Q38::Heads),
            s.attn_dim(),
            s.n_embd,
            t,
        ),
    );
    assert(ops@ =~= old(ops)@ + attn_out(s, part, w, t));
}

/// Gated attention, inside the dense window.
#[verifier::opaque]
pub open spec fn attention(
    s: Shape,
    part: Part,
    il: usize,
    w: Qwen38Attn,
    pos0: u32,
    t: u32,
    ctx: u32,
) -> Plan {
    if beyond_dense(s, w, pos0, t) {
        Plan::fail(
            EngineError::Qwen38BeyondDense {
                end: (pos0 + t) as u32,
                topk: s.n_idx_topk,
                ratio: s.qsa_ratio,
            },
        )
    } else if w.wk == MatKind::Q8 && w.wv == MatKind::Q8 {
        Plan::of(
            attn_query(s, part, w, t) + attn_kv(s, part, t) + attn_core(
                s,
                part,
                il,
                pos0,
                t,
                ctx,
            ) + attn_out(s, part, w, t),
        )
    } else {
        Plan { ops: attn_query(s, part, w, t), end: Err(EngineError::Qwen38KvNotQ8) }
    }
}

/// Appends gated attention.
pub fn eval_attn_layer(
    ops: &mut Vec<Op>,
    s: Shape,
    part: Part,
    il: usize,
    w: Qwen38Attn,
    pos0: u32,
    t: u32,
    ctx: u32,
) -> (r: Result<(), EngineError>)
    requires
        s.rows_fit(t),
        pos0 + t <= u32::MAX,
    ensures
        attention(s, part, il, w, pos0, t, ctx).appended(old(ops)@, final(ops)@, r),
{
    proof {
        reveal(attention);
    }
    let slack: u32 = if s.qsa_ratio >= 1 {
        s.qsa_ratio - 1
    } else {
        0
    };
    let bound: u64 = s.n_idx_topk as u64 + slack as u64;
    if w.has_indexer && (pos0 + t) as u64 > bound && s.qsa_ratio > 0 {
        assert(ops@ =~= old(ops)@ + Seq::<Op>::empty());
        return Err(
            EngineError::Qwen38BeyondDense {
                end: pos0 + t,
                topk: s.n_idx_topk,
                ratio: s.qsa_ratio,
            },
        );
    }
    push_attn_query(ops, s, part, w, t);
    if w.wk != MatKind::Q8 || w.wv != MatKind::Q8 {
        assert(ops@ =~= old(ops)@ + attention(s, part, il, w, pos0, t, ctx).ops);
        return Err(EngineError::Qwen38KvNotQ8);
    }
    push_attn_kv(ops, s, part, t);
    push_attn_core(ops, s, part, il, pos0, t, ctx);
    push_attn_out(ops, s, part, w, t);
    assert(ops@ =~= old(ops)@ + attention(s, part, il, w, pos0, t, ctx).ops);
    Ok(())
}

/// The input is published where the experts read it, and the router picks by a
/// softmax.
pub open spec fn moe_route(s: Shape, part: Part, t: u32) -> Seq<Op> {
    seq![
        Op::CopyD2d {
            dst: Buf::State(St::Normed),
            dst_off: 0,
            src: Buf::Rt(Q38::Cur),
            src_off: 0,
            bytes: f32_bytes(times(t, s.n_embd)),
        },
        Op::MatmulF32 {
            out: Buf::Rt(Q38::RouterLogits),
            w: part.wt(Wt::GateInp),
            x: Buf::Rt(Q38::Cur),
            in_dim: s.n_embd,
            out_dim: s.n_expert,
            t,
        },
        Op::RouterSelect {
            selected: Buf::State(St::RouterSelected),
            weights: Buf::State(St::RouterWeights),
            logits: Buf::Rt(Q38::RouterLogits),
            bias: part.wt(Wt::ProbsB),
            n_expert: s.n_expert,
            n_used: s.n_expert_used,
            t,
            softmax: true,
        },
    ]
}

pub(crate) fn push_moe_route(ops: &mut Vec<Op>, s: Shape, part: Part, t: u32)
    requires
        s.rows_fit(t),
    ensures
        final(ops)@ == old(ops)@ + moe_route(s, part, t),
{
    ops.push(
        Op::CopyD2d {
            dst: Buf::State(St::Normed),
            dst_off: 0,
            src: Buf::Rt(Q38::Cur),
            src_off: 0,
            bytes: f32_bytes(times(t, s.n_embd)),
        },
    );
    ops.push(
        Op::MatmulF32 {
            out: Buf::Rt(Q38::RouterLogits),
            w: part.wt(Wt::GateInp),
            x: Buf::Rt(Q38::Cur),
            in_dim: s.n_embd,
            out_dim: s.n_expert,
            t,
        },
    );
    ops.push(
        Op::RouterSelect {
            selected: Buf::State(St::RouterSelected),
            weights: Buf::State(St::RouterWeights),
            logits: Buf::Rt(Q38::RouterLogits),
            bias: part.wt(Wt::ProbsB),
            n_expert: s.n_expert,
            n_used: s.n_expert_used,
            t,
            softmax: true,
        },
    );
    assert(ops@ =~= old(ops)@ + moe_route(s, part, t));
}

/// The shared expert, scaled by one sigmoid for each token.
pub open spec fn moe_shared(s: Shape, part: Part, t: u32) -> Seq<Op> {
    seq![
        Op::MatmulQ8 {
            out: Buf::Rt(Q38::GateAct),
            w: part.wt(Wt::ShexpGate),
            x: Buf::Rt(Q38::Cur),
            in_dim: s.n_embd,
            out_dim: s.n_ff_exp,
            t,
        },
        Op::MatmulQ8 {
            out: Buf::Rt(Q38::UpAct),
            w: part.wt(Wt::ShexpUp),
            x: Buf::Rt(Q38::Cur),
            in_dim: s.n_embd,
            out_dim: s.n_ff_exp,
            t,
        },
        Op::Swiglu {
            out: Buf::Rt(Q38::FfnMid),
            gate: Buf::Rt(Q38::GateAct),
            up: Buf::Rt(Q38::UpAct),
            n: times(t, s.n_ff_exp),
            clamp: None,
            act: 0,
        },
        Op::MatmulQ8 {
            out: Buf::Rt(Q38::SharedOut),
            w: part.wt(Wt::ShexpDown),
            x: Buf::Rt(Q38::FfnMid),
            in_dim: s.n_ff_exp,
            out_dim: s.n_embd,
            t,
        },
        Op::MatmulF32 {
            out: Buf::Rt(Q38::Shg),
            w: part.wt(Wt::ShexpScalar),
            x: Buf::Rt(Q38::Cur),
            in_dim: s.n_embd,
            out_dim: 1,
            t,
        },
        Op::RowSigmoidScale {
            buf: Buf::Rt(Q38::SharedOut),
            gate: Buf::Rt(Q38::Shg),
            rows: t,
            dim: s.n_embd,
        },
    ]
}

pub(crate) fn push_moe_shared(ops: &mut Vec<Op>, s: Shape, part: Part, t: u32)
    requires
        s.rows_fit(t),
    ensures
        final(ops)@ == old(ops)@ + moe_shared(s, part, t),
{
    ops.push(
        Op::MatmulQ8 {
            out: Buf::Rt(Q38::GateAct),
            w: part.wt(Wt::ShexpGate),
            x: Buf::Rt(Q38::Cur),
            in_dim: s.n_embd,
            out_dim: s.n_ff_exp,
            t,
        },
    );
    ops.push(
        Op::MatmulQ8 {
            out: Buf::Rt(Q38::UpAct),
            w: part.wt(Wt::ShexpUp),
            x: Buf::Rt(Q38::Cur),
            in_dim: s.n_embd,
            out_dim: s.n_ff_exp,
            t,
        },
    );
    ops.push(
        Op::Swiglu {
            out: Buf::Rt(Q38::FfnMid),
            gate: Buf::Rt(Q38::GateAct),
            up: Buf::Rt(Q38::UpAct),
            n: times(t, s.n_ff_exp),
            clamp: None,
            act: 0,
        },
    );
    ops.push(
        Op::MatmulQ8 {
            out: Buf::Rt(Q38::SharedOut),
            w: part.wt(Wt::ShexpDown),
            x: Buf::Rt(Q38::FfnMid),
            in_dim: s.n_ff_exp,
            out_dim: s.n_embd,
            t,
        },
    );
    ops.push(
        Op::MatmulF32 {
            out: Buf::Rt(Q38::Shg),
            w: part.wt(Wt::ShexpScalar),
            x: Buf::Rt(Q38::Cur),
            in_dim: s.n_embd,
            out_dim: 1,
            t,
        },
    );
    ops.push(
        Op::RowSigmoidScale {
            buf: Buf::Rt(Q38::SharedOut),
            gate: Buf::Rt(Q38::Shg),
            rows: t,
            dim: s.n_embd,
        },
    );
    assert(ops@ =~= old(ops)@ + moe_shared(s, part, t));
}

/// The routed experts, and the sum with the shared one, in the place of the input.
pub open spec fn moe_routed(s: Shape, part: Part, il: usize, t: u32) -> Seq<Op> {
    seq![
        Op::QuantizeQ8K { out: Buf::State(St::Xq), x: Buf::Rt(Q38::Cur), n: s.n_embd, rows: t },
        Op::Sync,
        Op::Moe { part, il, n_sel: times(t, s.n_expert_used), act: 0, t, width: s.n_embd },
        Op::Add {
            out: Buf::State(St::FfnMid),
            a: Buf::State(St::MoeOut),
            b: Buf::Rt(Q38::SharedOut),
            n: times(t, s.n_embd),
        },
        Op::CopyD2d {
            dst: Buf::Rt(Q38::Cur),
            dst_off: 0,
            src: Buf::State(St::FfnMid),
            src_off: 0,
            bytes: f32_bytes(times(t, s.n_embd)),
        },
    ]
}

pub(crate) fn push_moe_routed(ops: &mut Vec<Op>, s: Shape, part: Part, il: usize, t: u32)
    requires
        s.rows_fit(t),
    ensures
        final(ops)@ == old(ops)@ + moe_routed(s, part, il, t),
{
    ops.push(
        Op::QuantizeQ8K { out: Buf::State(St::Xq), x: Buf::Rt(Q38::Cur), n: s.n_embd, rows: t },
    );
    ops.push(Op::Sync);
    ops.push(Op::Moe { part, il, n_sel: times(t, s.n_expert_used), act: 0, t, width: s.n_embd });
    ops.push(
        Op::Add {
            out: Buf::State(St::FfnMid),
            a: Buf::State(St::MoeOut),
            b: Buf::Rt(Q38::SharedOut),
            n: times(t, s.n_embd),
        },
    );
    ops.push(
        Op::CopyD2d {
            dst: Buf::Rt(Q38::Cur),
            dst_off: 0,
            src: Buf::State(St::FfnMid),
            src_off: 0,
            bytes: f32_bytes(times(t, s.n_embd)),
        },
    );
    assert(ops@ =~= old(ops)@ + moe_routed(s, part, il, t));
}

/// The experts, shared and routed.
pub open spec fn moe(s: Shape, part: Part, il: usize, l: LayerW, t: u32) -> Plan {
    match l.ffn {
        Ffn::Moe { shexp } => Plan::of(
            moe_route(s, part, t) + (if shexp {
                moe_shared(s, part, t)
            } else {
                seq![
                    Op::Zero {
                        buf: Buf::Rt(Q38::SharedOut),
                        bytes: f32_bytes(times(t, s.n_embd)),
                    },
                ]
            }) + moe_routed(s, part, il, t),
        ),
        _ => Plan::fail(EngineError::Qwen38NoMoe),
    }
}

/// Appends the experts.
pub fn eval_moe(ops: &mut Vec<Op>, s: Shape, part: Part, il: usize, l: LayerW, t: u32) -> (r:
    Result<(), EngineError>)
    requires
        s.rows_fit(t),
    ensures
        moe(s, part, il, l, t).appended(old(ops)@, final(ops)@, r),
{
    match l.ffn {
        Ffn::Moe { shexp } => {
            push_moe_route(ops, s, part, t);
            if shexp {
                push_moe_shared(ops, s, part, t);
            } else {
                ops.push(
                    Op::Zero {
                        buf: Buf::Rt(Q38::SharedOut),
                        bytes: f32_bytes(times(t, s.n_embd)),
                    },
                );
            }
            push_moe_routed(ops, s, part, il, t);
            assert(ops@ =~= old(ops)@ + moe(s, part, il, l, t).ops);
            Ok(())
        },
        _ => {
            assert(ops@ =~= old(ops)@ + Seq::<Op>::empty());
            Err(EngineError::Qwen38NoMoe)
        },
    }
}

/// A block's output goes back to the streams by their scatter weights.
pub open spec fn combine(s: Shape, x: Buf, t: u32) -> Seq<Op> {
    seq![
        Op::HcCombine {
            res: Buf::Rt(Q38::ResHc),
            x,
            inj: Buf::Rt(Q38::Inj),
            t,
            n_embd: s.n_embd,
            hc: s.n_hc,
        },
    ]
}

pub(crate) fn push_combine(ops: &mut Vec<Op>, s: Shape, x: Buf, t: u32)
    ensures
        final(ops)@ == old(ops)@ + combine(s, x, t),
{
    ops.push(
        Op::HcCombine {
            res: Buf::Rt(Q38::ResHc),
            x,
            inj: Buf::Rt(Q38::Inj),
            t,
            n_embd: s.n_embd,
            hc: s.n_hc,
        },
    );
    assert(ops@ =~= old(ops)@ + combine(s, x, t));
}

} // verus!
