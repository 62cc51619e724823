//! Device buffers by name, and the operations on them.

use crate::engine::error::EngineError;
use vstd::prelude::*;

verus! {

/// Buffers of the engine's state, on the primary card.
#[derive(Debug, Clone, Copy, PartialEq, Eq, Structural, Hash)]
pub enum St {
    Tok,
    Cur,
    Normed,
    AttnOut,
    AfterAttn,
    FfnOut,
    GateAct,
    UpAct,
    FfnMid,
    RouterLogits,
    RouterSelected,
    RouterWeights,
    SharedOut,
    Xq,
    MoeOut,
    Logits,
    LastRow,
    MtpHidden,
    MtpERaw,
    MtpE,
    MtpH,
    MtpX,
}

/// Scratch buffers; every card that holds a layer has a set of them.
#[derive(Debug, Clone, Copy, PartialEq, Eq, Structural, Hash)]
pub enum Sc {
    NormedA,
    AttnOutA,
    FfnNormedA,
    ShexpOut,
    XqFfn,
    XqMid,
    GateSh,
    UpSh,
    MidSh,
    Xq,
    Q,
    K,
    V,
    Cq,
    Ck,
    Cv,
    G,
    Beta,
    Fa,
    O,
    Gate,
    QRank,
    QRankNorm,
    Mq,
    KvRaw,
    KvNorm,
    QkLow,
    Heads,
    Selected,
}

/// Recurrent state of a KDA layer.
#[derive(Debug, Clone, Copy, PartialEq, Eq, Structural, Hash)]
pub enum KdaBuf {
    /// delta-rule state, [n_head][head_dim][head_dim]
    S,
    /// conv windows, [conv_k - 1][d_inner] each
    ConvQ,
    ConvK,
    ConvV,
}

/// Recurrent state of a gated DeltaNet layer.
#[derive(Debug, Clone, Copy, PartialEq, Eq, Structural, Hash)]
pub enum GdnBuf {
    /// delta-rule state, [v_heads][state][state]
    S,
    /// conv window, [conv_k - 1][conv_dim]
    Conv,
    /// history of the dilated conv, [(conv_k - 1) * ngram][hc_dim]
    PleHist,
}

/// Buffers of the K3 runtime, on the primary card.
#[derive(Debug, Clone, Copy, PartialEq, Eq, Structural, Hash)]
pub enum K3Buf {
    /// checkpoint bank, [n_ckpt][n_embd]
    Ckpt,
    LatIn,
    LatOut,
    Mixed,
    RoutedOut,
}

/// Buffers of the qwen38 runtime.
#[derive(Debug, Clone, Copy, PartialEq, Eq, Structural, Hash)]
pub enum Q38 {
    ResHc,
    Xn,
    Lo,
    GateFull,
    Gated,
    Inj,
    Cur,
    AttnOut,
    FfnMid,
    Xq,
    Xq2,
    Qfull,
    GateA,
    Q,
    K,
    V,
    Heads,
    GdnQkv,
    GdnConvOut,
    GdnZ,
    GdnGq,
    GdnGk,
    GdnGv,
    GdnG,
    GdnBeta,
    GdnO,
    RouterLogits,
    GateAct,
    UpAct,
    Shg,
    SharedOut,
    Midq,
    PleEmbDev,
    PleKeyV,
    PleValV,
    PleQuery,
    PleGate,
    PleNorm,
    PlePad,
    PleOut,
}

/// Weights of a layer.
#[derive(Debug, Clone, Copy, PartialEq, Eq, Structural, Hash)]
pub enum Wt {
    AttnNorm,
    FfnNorm,
    AttnResScore,
    FfnResScore,
    KdaWq,
    KdaWk,
    KdaWv,
    KdaWg,
    KdaFa,
    KdaFb,
    KdaBeta,
    KdaA,
    KdaDtBias,
    KdaConvQ,
    KdaConvK,
    KdaConvV,
    KdaNorm,
    KdaOut,
    MlaQ,
    MlaQa,
    MlaQaNorm,
    MlaQb,
    MlaKvA,
    MlaKvANorm,
    MlaKb,
    MlaVb,
    MlaGate,
    MlaOut,
    FfnGate,
    FfnUp,
    FfnDown,
    GateInp,
    ProbsB,
    ShexpGate,
    ShexpUp,
    ShexpDown,
    ShexpScalar,
    RoutedDown,
    RoutedUp,
    RoutedNorm,
    HcAttnNorm,
    HcAttnDown,
    HcAttnUp,
    HcAttnInject,
    HcFfnNorm,
    HcFfnDown,
    HcFfnUp,
    HcFfnInject,
    GdnWqkv,
    GdnWz,
    GdnAlpha,
    GdnBeta,
    GdnA,
    GdnDtBias,
    GdnConv,
    GdnNorm,
    GdnOut,
    AttnWq,
    AttnWk,
    AttnWv,
    AttnQNorm,
    AttnKNorm,
    AttnOut,
    PleKey,
    PleValue,
    PleNormKey,
    PleNormQuery,
    PleNormConv,
    PleConv1d,
}

/// Weights of the model as a whole.
#[derive(Debug, Clone, Copy, PartialEq, Eq, Structural, Hash)]
pub enum Gw {
    TokenEmbd,
    OutputNorm,
    OutputResScore,
    OutputHcNorm,
    OutputHcDown,
    OutputHcUp,
    OutputHcInject,
    MtpTokEmbd,
    MtpEnorm,
    MtpHnorm,
    MtpEhProj,
    MtpOutput,
}

/// A device buffer.
#[derive(Debug, Clone, Copy, PartialEq, Eq, Structural, Hash)]
pub enum Buf {
    State(St),
    /// key cache of a layer
    KCache(usize),
    /// value cache of a layer
    VCache(usize),
    /// scratch on a card
    Scratch(i32, Sc),
    Kda(usize, KdaBuf),
    Gdn(usize, GdnBuf),
    K3(K3Buf),
    Rt(Q38),
    /// saved copy of a layer's recurrent state
    Saved(usize, GdnBuf),
    Layer(usize, Wt),
    /// weight of the drafting block's layer
    Mtp(Wt),
    Global(Gw),
}

/// Whose weights a layer runs on.
#[derive(Debug, Clone, Copy, PartialEq, Eq, Structural, Hash)]
pub enum Part {
    Layer(usize),
    /// the drafting block
    Mtp,
}

impl Part {
    pub open spec fn spec_wt(self, w: Wt) -> Buf {
        match self {
            Part::Layer(il) => Buf::Layer(il, w),
            Part::Mtp => Buf::Mtp(w),
        }
    }

    /// A weight of the layer.
    #[verifier::when_used_as_spec(spec_wt)]
    pub fn wt(self, w: Wt) -> (b: Buf)
        ensures
            b == self.spec_wt(w),
    {
        match self {
            Part::Layer(il) => Buf::Layer(il, w),
            Part::Mtp => Buf::Mtp(w),
        }
    }
}

/// Which rotation the attention kernel applies to the key tail.
#[derive(Debug, Clone, Copy, PartialEq, Eq, Structural, Hash)]
pub enum Rope {
    /// angle zero: the identity
    Identity,
    /// the model's rotation
    Model,
}

/// What a buffer is multiplied by.
#[derive(Debug, Clone, Copy, PartialEq, Eq, Structural, Hash)]
pub enum Factor {
    /// one over the number of streams
    InvHc,
    /// the model's logit scale
    LogitScale,
}

/// One operation.  Where a kernel takes the norm epsilon, the KDA gate bound,
/// the expert weight scale, the rope base or the softmax scale, it takes the
/// model's.
#[allow(inconsistent_fields)]
#[derive(Debug, Clone, Copy, PartialEq, Eq, Structural, Hash)]
pub enum Op {
    /// makes a card current
    SetDevice(i32),
    /// waits for the current card
    Sync,
    Alloc { buf: Buf, bytes: u64 },
    Zero { buf: Buf, bytes: u64 },
    /// copy on one card
    CopyD2d { dst: Buf, dst_off: u64, src: Buf, src_off: u64, bytes: u64 },
    /// copy between cards
    CopyAcross { dst: Buf, src: Buf, bytes: u64 },
    /// one token id to the token buffer
    WriteToken(u32),
    /// the `n` token ids of the call from position `pos` on to the token buffer
    WriteTokens { pos: u32, n: usize },
    /// rows of the embedding table
    Embed { out: Buf, table: Buf, n_embd: u32, n_vocab: u32, t: u32 },
    RmsNorm { out: Buf, x: Buf, w: Buf, n: u32, rows: u32 },
    MatmulQ8 { out: Buf, w: Buf, x: Buf, in_dim: u32, out_dim: u32, t: u32 },
    /// `xq` holds the values of `x` quantized; only `xq` is read
    MatmulKq { out: Buf, w: Buf, x: Buf, xq: Buf, in_dim: u32, out_dim: u32, t: u32 },
    MatmulF32 { out: Buf, w: Buf, x: Buf, in_dim: u32, out_dim: u32, t: u32 },
    QuantizeQ8K { out: Buf, x: Buf, n: u32, rows: u32 },
    Add { out: Buf, a: Buf, b: Buf, n: u32 },
    /// `clamp`: the layer whose clamp applies, where one does
    Swiglu { out: Buf, gate: Buf, up: Buf, n: u32, clamp: Option<usize>, act: u32 },
    /// mix over the residual and the checkpoint bank, where any is banked
    AttnRes { out: Buf, x: Buf, bank: Option<Buf>, w: Buf, n_embd: u32, n_ckpt: u32 },
    KdaCoeffs { g: Buf, beta: Buf, a: Buf, dt_bias: Buf, t: u32, n_head: u32, head_dim: u32 },
    ConvStep { out: Buf, x: Buf, w: Buf, state: Buf, dim: u32, k: u32 },
    L2Norm { buf: Buf, rows: u32, dim: u32 },
    KdaStep {
        out: Buf,
        state: Buf,
        q: Buf,
        k: Buf,
        v: Buf,
        g: Buf,
        beta: Buf,
        n_head: u32,
        head_dim: u32,
    },
    HeadRmsNorm { buf: Buf, w: Buf, rows: u32, dim: u32 },
    SigmoidGate { buf: Buf, gate: Buf, n: u32 },
    RowSigmoidScale { buf: Buf, gate: Buf, rows: u32, dim: u32 },
    MlaRopeTail { buf: Buf, t: u32, n_head: u32, qk_dim: u32, rope_dim: u32, pos: u32 },
    MlaKvNorm { out: Buf, x: Buf, w: Buf, t: u32, row: u32, lora: u32 },
    MlaStoreKv {
        k: Buf,
        v: Buf,
        norm: Buf,
        raw: Buf,
        pos: u32,
        t: u32,
        ctx: u32,
        row: u32,
        lora: u32,
        rope_dim: u32,
    },
    MlaSelectRange { out: Buf, t: u32, pos: u32, visible: u32, ctx: u32 },
    MlaQkLow {
        out: Buf,
        q: Buf,
        w: Buf,
        t: u32,
        n_head: u32,
        lora: u32,
        nope: u32,
        qk_dim: u32,
    },
    MlaAttention {
        out: Buf,
        q: Buf,
        qk_low: Buf,
        k: Buf,
        v: Buf,
        w: Buf,
        selected: Buf,
        t: u32,
        visible: u32,
        ctx: u32,
        n_head: u32,
        lora: u32,
        nope: u32,
        rope_dim: u32,
        value: u32,
        rope: Rope,
    },
    /// `softmax`: the router's weights are a softmax, else sigmoids with the
    /// correction bias
    RouterSelect {
        selected: Buf,
        weights: Buf,
        logits: Buf,
        bias: Buf,
        n_expert: u32,
        n_used: u32,
        t: u32,
        softmax: bool,
    },
    /// the best groups first, then the best experts in them
    GroupRouterSelect {
        selected: Buf,
        weights: Buf,
        logits: Buf,
        bias: Buf,
        n_expert: u32,
        n_used: u32,
        groups: u32,
        group_used: u32,
        t: u32,
    },
    /// reads `n_sel` selected experts back and runs the routed experts of `part`,
    /// in the place of layer `il`, on the quantized input, into the state's
    /// expert output
    Moe { part: Part, il: usize, n_sel: u32, act: u32, t: u32, width: u32 },
    /// the output head on the normed rows
    HeadLogits { rows: u32 },
    Softcap { n: u32 },
    Scale { buf: Buf, n: u32, factor: Factor },
    /// the tail of each row of logits to minus infinity
    FillRowTail { rows: u32, n: u32, n_out: u32 },
    BroadcastHc { out: Buf, x: Buf, t: u32, n_embd: u32, hc: u32 },
    HcNorm { out: Buf, x: Buf, w: Option<Buf>, t: u32, n_embd: u32, hc: u32 },
    HcNormInplace { buf: Buf, w: Buf, t: u32, n_embd: u32, hc: u32 },
    HcMean { out: Buf, x: Buf, t: u32, n_embd: u32, hc: u32 },
    HcCombine { res: Buf, x: Buf, inj: Buf, t: u32, n_embd: u32, hc: u32 },
    GdnCoeffs { g: Buf, beta: Buf, a: Buf, dt_bias: Buf, t: u32, heads: u32 },
    ConvBatch { out: Buf, x: Buf, w: Buf, state: Buf, dim: u32, k: u32, t: u32 },
    SplitQkv { q: Buf, k: Buf, v: Buf, x: Buf, t: u32, key_dim: u32, value_dim: u32 },
    GdnBatch {
        out: Buf,
        state: Buf,
        q: Buf,
        k: Buf,
        v: Buf,
        g: Buf,
        beta: Buf,
        v_heads: u32,
        k_heads: u32,
        dim: u32,
        t: u32,
    },
    SplitGate { q: Buf, gate: Buf, x: Buf, rows: u32, dim: u32 },
    GqaRope { buf: Buf, t: u32, heads: u32, dim: u32, rot: u32, pos: u32 },
    GqaKvAppend { cache: Buf, x: Buf, t: u32, heads: u32, dim: u32, ctx: u32, pos: u32 },
    GqaAttention {
        out: Buf,
        q: Buf,
        k: Buf,
        v: Buf,
        t: u32,
        heads: u32,
        kv_heads: u32,
        dim: u32,
        ctx: u32,
        pos: u32,
    },
    /// reads the table row that starts at byte `off` of the model file into
    /// place `slot` of the host-side staging rows
    PleRow { slot: u64, off: u64 },
    /// makes room on the host for `n` staged values, all zero
    HostStage { n: u64 },
    /// the first `n` staged values to the device
    PleStage { n: u64 },
    PleScore { out: Buf, key: Buf, query: Buf, t: u32, n_embd: u32, hc: u32 },
    PleApply { out: Buf, value: Buf, gate: Buf, t: u32, n_embd: u32, hc: u32 },
    PleConv {
        out: Buf,
        x: Buf,
        w: Buf,
        t: u32,
        dim: u32,
        rows: u32,
        k: u32,
        dilation: u32,
    },
    ResidualAdd { res: Buf, x: Buf, t: u32, n_embd: u32, hc: u32 },
    /// the first `n` logits to the host
    ReadLogits { n: u64 },
}

/// A plan: the operations that run, and how it ends.  Where it ends in an
/// error, the operations before the error have run.
pub struct Plan {
    pub ops: Seq<Op>,
    pub end: Result<(), EngineError>,
}

impl Plan {
    /// A plan that ends well.
    pub open spec fn of(ops: Seq<Op>) -> Plan {
        Plan { ops, end: Ok(()) }
    }

    /// A plan that only ends in an error.
    pub open spec fn fail(e: EngineError) -> Plan {
        Plan { ops: Seq::empty(), end: Err(e) }
    }

    /// One plan after the other; the second does not start where the first ends
    /// in an error.
    pub open spec fn and(self, next: Plan) -> Plan {
        if self.end is Err {
            self
        } else {
            Plan { ops: self.ops + next.ops, end: next.end }
        }
    }

    /// Operations, and then a plan.
    pub open spec fn before(ops: Seq<Op>, next: Plan) -> Plan {
        Plan { ops: ops + next.ops, end: next.end }
    }

    /// The plan was appended to a list of operations.
    pub open spec fn appended(
        self,
        before: Seq<Op>,
        after: Seq<Op>,
        end: Result<(), EngineError>,
    ) -> bool {
        after == before + self.ops && end == self.end
    }
}

/// The operations where a condition holds, else none.
pub open spec fn ops_if(c: bool, ops: Seq<Op>) -> Seq<Op> {
    if c {
        ops
    } else {
        Seq::empty()
    }
}

} // verus!
