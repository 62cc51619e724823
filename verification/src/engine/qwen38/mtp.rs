//! The block that drafts the next token from the trunk's last streams.

use crate::engine::error::EngineError;
use crate::engine::ops::{ops_if, Buf, Factor, Gw, Op, Part, Plan, Q38, St};
use crate::engine::qwen38::blocks::{
    attention, combine, eval_attn_layer, hc_attn_at, hc_full, hc_out_at, push_combine,
    push_hc_full,
};
use crate::engine::qwen38::pass::{expert_half, lemma_rows_fit_shorter, push_expert_half};
use crate::engine::shape::{
    f32_bytes, times, Attn, LayerW, Model, MtpW, Qwen38Hc, Qwen38W, Shape,
};
use crate::engine::state::State;
use vstd::prelude::*;

verus! {

pub open spec fn spec_embd_table(mtp: MtpW) -> Buf {
    if mtp.tok_embd {
        Buf::Global(Gw::MtpTokEmbd)
    } else {
        Buf::Global(Gw::TokenEmbd)
    }
}

/// The block's own embedding table, or the trunk's.
#[verifier::when_used_as_spec(spec_embd_table)]
pub fn embd_table(mtp: MtpW) -> (b: Buf)
    ensures
        b == spec_embd_table(mtp),
{
    if mtp.tok_embd {
        Buf::Global(Gw::MtpTokEmbd)
    } else {
        Buf::Global(Gw::TokenEmbd)
    }
}

/// The widths of the drafting block fit their type, for `t` rows.
pub open spec fn mtp_fits(s: Shape, t: u32) -> bool {
    &&& s.rows_fit(t)
    &&& s.rows_fit(1)
    &&& 2 * s.n_embd <= u32::MAX
    &&& 2 * (t * s.n_embd) * 4 <= u64::MAX
}

/// The token's normed embedding and the trunk's normed, collapsed streams stand
/// side by side, and a projection of both goes to every stream.
pub open spec fn draft_input(s: Shape, mtp: MtpW, token: u32) -> Seq<Op> {
    seq![
        Op::WriteToken(token),
        Op::Embed {
            out: Buf::State(St::MtpERaw),
            table: embd_table(mtp),
            n_embd: s.n_embd,
            n_vocab: s.n_vocab,
            t: 1,
        },
        Op::RmsNorm {
            out: Buf::State(St::MtpE),
            x: Buf::State(St::MtpERaw),
            w: Buf::Global(Gw::MtpEnorm),
            n: s.n_embd,
            rows: 1,
        },
        Op::HcNorm {
            out: Buf::Rt(Q38::Xn),
            x: Buf::State(St::MtpHidden),
            w: Some(Buf::Global(Gw::MtpHnorm)),
            t: 1,
            n_embd: s.n_embd,
            hc: s.n_hc,
        },
        Op::HcMean {
            out: Buf::State(St::MtpH),
            x: Buf::Rt(Q38::Xn),
            t: 1,
            n_embd: s.n_embd,
            hc: s.n_hc,
        },
        Op::CopyD2d {
            dst: Buf::State(St::MtpX),
            dst_off: 0,
            src: Buf::State(St::MtpE),
            src_off: 0,
            bytes: f32_bytes(s.n_embd),
        },
        Op::CopyD2d {
            dst: Buf::State(St::MtpX),
            dst_off: f32_bytes(s.n_embd),
            src: Buf::State(St::MtpH),
            src_off: 0,
            bytes: f32_bytes(s.n_embd),
        },
        Op::MatmulQ8 {
            out: Buf::State(St::Cur),
            w: Buf::Global(Gw::MtpEhProj),
            x: Buf::State(St::MtpX),
            in_dim: times(2, s.n_embd),
            out_dim: s.n_embd,
            t: 1,
        },
        Op::BroadcastHc {
            out: Buf::Rt(Q38::ResHc),
            x: Buf::State(St::Cur),
            t: 1,
            n_embd: s.n_embd,
            hc: s.n_hc,
        },
    ]
}

fn push_draft_input(ops: &mut Vec<Op>, s: Shape, mtp: MtpW, token: u32)
    requires
        mtp_fits(s, 1),
    ensures
        final(ops)@ == old(ops)@ + draft_input(s, mtp, token),
{
    ops.push(Op::WriteToken(token));
    ops.push(
        Op::Embed {
            out: Buf::State(St::MtpERaw),
            table: embd_table(mtp),
            n_embd: s.n_embd,
            n_vocab: s.n_vocab,
            t: 1,
        },
    );
    ops.push(
        Op::RmsNorm {
            out: Buf::State(St::MtpE),
            x: Buf::State(St::MtpERaw),
            w: Buf::Global(Gw::MtpEnorm),
            n: s.n_embd,
            rows: 1,
        },
    );
    ops.push(
        Op::HcNorm {
            out: Buf::Rt(Q38::Xn),
            x: Buf::State(St::MtpHidden),
            w: Some(Buf::Global(Gw::MtpHnorm)),
            t: 1,
            n_embd: s.n_embd,
            hc: s.n_hc,
        },
    );
    ops.push(
        Op::HcMean {
            out: Buf::State(St::MtpH),
            x: Buf::Rt(Q38::Xn),
            t: 1,
            n_embd: s.n_embd,
            hc: s.n_hc,
        },
    );
    ops.push(
        Op::CopyD2d {
            dst: Buf::State(St::MtpX),
            dst_off: 0,
            src: Buf::State(St::MtpE),
            src_off: 0,
            bytes: f32_bytes(s.n_embd),
        },
    );
    ops.push(
        Op::CopyD2d {
            dst: Buf::State(St::MtpX),
            dst_off: f32_bytes(s.n_embd),
            src: Buf::State(St::MtpH),
            src_off: 0,
            bytes: f32_bytes(s.n_embd),
        },
    );
    ops.push(
        Op::MatmulQ8 {
            out: Buf::State(St::Cur),
            w: Buf::Global(Gw::MtpEhProj),
            x: Buf::State(St::MtpX),
            in_dim: times(2, s.n_embd),
            out_dim: s.n_embd,
            t: 1,
        },
    );
    ops.push(
        Op::BroadcastHc {
            out: Buf::Rt(Q38::ResHc),
            x: Buf::State(St::Cur),
            t: 1,
            n_embd: s.n_embd,
            hc: s.n_hc,
        },
    );
    assert(ops@ =~= old(ops)@ + draft_input(s, mtp, token));
}

/// The layer of the drafting block, on `t` rows from position `pos0` on.  Its
/// cache is the one past the trunk's layers.
pub open spec fn mtp_layer_body(
    s: Shape,
    l: LayerW,
    w: Qwen38W,
    pos0: u32,
    t: u32,
    ctx: u32,
) -> Plan {
    let il = s.n_exec_layer as usize;
    Plan::of(hc_full(s, hc_attn_at(Part::Mtp), w.hc_attn, t, true)).and(
        match w.attn {
            None => Plan::fail(EngineError::Qwen38MtpNoAttn),
            Some(a) => attention(s, Part::Mtp, il, a, pos0, t, ctx),
        },
    ).and(Plan::of(combine(s, Buf::Rt(Q38::AttnOut), t))).and(
        expert_half(s, Part::Mtp, il, l, w, t),
    )
}

fn push_mtp_layer_body(
    ops: &mut Vec<Op>,
    s: Shape,
    l: LayerW,
    w: Qwen38W,
    pos0: u32,
    t: u32,
    ctx: u32,
) -> (r: Result<(), EngineError>)
    requires
        s.rows_fit(t),
        pos0 + t <= u32::MAX,
    ensures
        mtp_layer_body(s, l, w, pos0, t, ctx).appended(old(ops)@, final(ops)@, r),
{
    let ghost plan = mtp_layer_body(s, l, w, pos0, t, ctx);
    let il: usize = s.n_exec_layer as usize;
    push_hc_full(ops, s, hc_attn_at(Part::Mtp), w.hc_attn, t, true);
    let r = match w.attn {
        None => {
            assert(ops@ =~= ops@ + Seq::<Op>::empty());
            Err(EngineError::Qwen38MtpNoAttn)
        },
        Some(a) => eval_attn_layer(ops, s, Part::Mtp, il, a, pos0, t, ctx),
    };
    if r.is_err() {
        assert(ops@ =~= old(ops)@ + plan.ops);
        return r;
    }
    push_combine(ops, s, Buf::Rt(Q38::AttnOut), t);
    let r = push_expert_half(ops, s, Part::Mtp, il, l, w, t);
    assert(ops@ =~= old(ops)@ + plan.ops);
    r
}

/// The layer of the drafting block for a draft.
pub open spec fn mtp_layer(s: Shape, l: LayerW, pos: u32, ctx: u32) -> Plan {
    match l.attn {
        Attn::Qwen38(w) => mtp_layer_body(s, l, w, pos, 1, ctx),
        _ => Plan::fail(EngineError::Qwen38MtpWrongAttn),
    }
}

/// Appends the layer of the drafting block for a draft.
pub fn eval_qwen38_mtp_layer(ops: &mut Vec<Op>, s: Shape, l: LayerW, pos: u32, ctx: u32) -> (r:
    Result<(), EngineError>)
    requires
        s.rows_fit(1),
        pos < u32::MAX,
    ensures
        mtp_layer(s, l, pos, ctx).appended(old(ops)@, final(ops)@, r),
{
    match l.attn {
        Attn::Qwen38(w) => push_mtp_layer_body(ops, s, l, w, pos, 1, ctx),
        _ => {
            assert(ops@ =~= old(ops)@ + Seq::<Op>::empty());
            Err(EngineError::Qwen38MtpWrongAttn)
        },
    }
}

impl Model {
    /// The head of a draft: the block's own output matrix with the model's cap,
    /// scale and tail on its logits, or the trunk's head.
    pub open spec fn draft_head(self, mtp: MtpW) -> Seq<Op> {
        let s = self.shape;
        if mtp.output_w {
            seq![
                Op::MatmulQ8 {
                    out: Buf::State(St::Logits),
                    w: Buf::Global(Gw::MtpOutput),
                    x: Buf::State(St::Normed),
                    in_dim: s.n_embd,
                    out_dim: s.n_vocab,
                    t: 1,
                },
            ] + ops_if(self.softcap, seq![Op::Softcap { n: s.n_vocab }]) + ops_if(
                self.logit_scale,
                seq![
                    Op::Scale {
                        buf: Buf::State(St::Logits),
                        n: s.n_vocab,
                        factor: Factor::LogitScale,
                    },
                ],
            ) + ops_if(
                self.n_vocab_out < s.n_vocab,
                seq![Op::FillRowTail { rows: 1, n: s.n_vocab, n_out: self.n_vocab_out }],
            )
        } else {
            seq![Op::HeadLogits { rows: 1 }]
        }
    }

    fn push_draft_head(&self, mtp: MtpW, ops: &mut Vec<Op>)
        ensures
            final(ops)@ == old(ops)@ + self.draft_head(mtp),
    {
        let s: Shape = self.shape;
        if mtp.output_w {
            ops.push(
                Op::MatmulQ8 {
                    out: Buf::State(St::Logits),
                    w: Buf::Global(Gw::MtpOutput),
                    x: Buf::State(St::Normed),
                    in_dim: s.n_embd,
                    out_dim: s.n_vocab,
                    t: 1,
                },
            );
            if self.softcap {
                ops.push(Op::Softcap { n: s.n_vocab });
            }
            if self.logit_scale {
                ops.push(
                    Op::Scale {
                        buf: Buf::State(St::Logits),
                        n: s.n_vocab,
                        factor: Factor::LogitScale,
                    },
                );
            }
            if self.n_vocab_out < s.n_vocab {
                ops.push(
                    Op::FillRowTail { rows: 1, n: s.n_vocab, n_out: self.n_vocab_out },
                );
            }
        } else {
            ops.push(Op::HeadLogits { rows: 1 });
        }
        assert(ops@ =~= old(ops)@ + self.draft_head(mtp));
    }

    /// The end of a draft: the stream mixer of the head, the head, the logits to
    /// the host, and the block's streams in the place of the trunk's.
    pub open spec fn draft_tail(self, mtp: MtpW) -> Plan {
        let s = self.shape;
        match self.output_hc {
            None => Plan::fail(EngineError::Qwen38NoOutputHc),
            Some(w) => Plan::of(
                hc_full(s, hc_out_at(), w, 1, false) + seq![
                    Op::CopyD2d {
                        dst: Buf::State(St::Normed),
                        dst_off: 0,
                        src: Buf::Rt(Q38::Cur),
                        src_off: 0,
                        bytes: f32_bytes(s.n_embd),
                    },
                ] + self.draft_head(mtp) + seq![
                    Op::Sync,
                    Op::ReadLogits { n: s.n_vocab as u64 },
                    Op::CopyD2d {
                        dst: Buf::State(St::MtpHidden),
                        dst_off: 0,
                        src: Buf::Rt(Q38::ResHc),
                        src_off: 0,
                        bytes: f32_bytes(s.hc_dim()),
                    },
                ],
            ),
        }
    }

    fn push_draft_tail(&self, mtp: MtpW, ops: &mut Vec<Op>) -> (r: Result<(), EngineError>)
        requires
            self.shape.rows_fit(1),
        ensures
            self.draft_tail(mtp).appended(old(ops)@, final(ops)@, r),
    {
        let s: Shape = self.shape;
        let ghost plan = self.draft_tail(mtp);
        let w: Qwen38Hc = match self.output_hc {
            Some(w) => w,
            None => {
                assert(ops@ =~= old(ops)@ + Seq::<Op>::empty());
                return Err(EngineError::Qwen38NoOutputHc);
            },
        };
        push_hc_full(ops, s, hc_out_at(), w, 1, false);
        ops.push(
            Op::CopyD2d {
                dst: Buf::State(St::Normed),
                dst_off: 0,
                src: Buf::Rt(Q38::Cur),
                src_off: 0,
                bytes: f32_bytes(s.n_embd),
            },
        );
        self.push_draft_head(mtp, ops);
        ops.push(Op::Sync);
        ops.push(Op::ReadLogits { n: s.n_vocab as u64 });
        ops.push(
            Op::CopyD2d {
                dst: Buf::State(St::MtpHidden),
                dst_off: 0,
                src: Buf::Rt(Q38::ResHc),
                src_off: 0,
                bytes: f32_bytes(s.hc_dim()),
            },
        );
        assert(ops@ =~= old(ops)@ + plan.ops);
        Ok(())
    }

    /// A draft of the token after `token`, which stands at `pos`.
    pub open spec fn draft(
        self,
        mtp: MtpW,
        mtp_layer_w: LayerW,
        token: u32,
        pos: u32,
        ctx: u32,
    ) -> Plan {
        Plan::of(draft_input(self.shape, mtp, token)).and(
            mtp_layer(self.shape, mtp_layer_w, pos, ctx),
        ).and(self.draft_tail(mtp))
    }

    /// Plans a draft.  Where it ends in an error once it has begun, the runtime
    /// is gone from the state.
    pub fn forward_qwen38_mtp_draft(
        &self,
        st: &mut State,
        mtp_layer_w: LayerW,
        token: u32,
        pos: u32,
        ops: &mut Vec<Op>,
    ) -> (r: Result<(), EngineError>)
        requires
            self.mtp is Some,
            mtp_fits(self.shape, 1),
            pos < u32::MAX,
        ensures
            final(st).ctx == old(st).ctx,
            final(st).k3 == old(st).k3,
            final(st).bailing == old(st).bailing,
            match old(st).qwen38 {
                None => r == Err::<(), EngineError>(EngineError::Qwen38StateMissing)
                    && final(ops)@ == old(ops)@ && final(st).qwen38 is None,
                Some(rt) => {
                    let plan = self.draft(
                        self.mtp->Some_0,
                        mtp_layer_w,
                        token,
                        pos,
                        old(st).ctx,
                    );
                    &&& plan.appended(old(ops)@, final(ops)@, r)
                    &&& r is Ok ==> final(st).qwen38 == Some(rt)
                    &&& r is Err ==> final(st).qwen38 is None
                },
            },
    {
        let s: Shape = self.shape;
        let mtp: MtpW = self.mtp.unwrap();
        let taken = st.qwen38.take();
        match taken {
            None => Err(EngineError::Qwen38StateMissing),
            Some(rt) => {
                let ghost plan = self.draft(mtp, mtp_layer_w, token, pos, st.ctx);
                push_draft_input(ops, s, mtp, token);
                let r = eval_qwen38_mtp_layer(ops, s, mtp_layer_w, pos, st.ctx);
                if r.is_err() {
                    assert(ops@ =~= old(ops)@ + plan.ops);
                    return r;
                }
                let r = self.push_draft_tail(mtp, ops);
                assert(ops@ =~= old(ops)@ + plan.ops);
                if r.is_err() {
                    return r;
                }
                st.qwen38 = Some(rt);
                r
            },
        }
    }
}

pub open spec fn spec_stream_bytes(s: Shape, rows: u32) -> u64 {
    (rows * s.hc_dim() * 4) as u64
}

/// Bytes of the streams of `rows` tokens.
#[verifier::when_used_as_spec(spec_stream_bytes)]
pub fn stream_bytes(s: Shape, rows: u32) -> (r: u64)
    requires
        s.rows_fit(rows),
    ensures
        r == spec_stream_bytes(s, rows),
{
    rows as u64 * s.hc_dim() as u64 * 4
}

/// The hidden input of each row is the trunk's streams one position before it:
/// for the first row those kept from before the chunk, for the others the
/// chunk's own, one row back.
pub open spec fn hidden_rows(s: Shape, n: u32) -> Seq<Op> {
    seq![
        Op::CopyD2d {
            dst: Buf::Rt(Q38::Xn),
            dst_off: 0,
            src: Buf::State(St::MtpHidden),
            src_off: 0,
            bytes: stream_bytes(s, 1),
        },
    ] + ops_if(
        n > 1,
        seq![
            Op::CopyD2d {
                dst: Buf::Rt(Q38::Xn),
                dst_off: stream_bytes(s, 1),
                src: Buf::Rt(Q38::ResHc),
                src_off: 0,
                bytes: stream_bytes(s, (n - 1) as u32),
            },
        ],
    )
}

fn push_hidden_rows(ops: &mut Vec<Op>, s: Shape, n: u32)
    requires
        1 <= n,
        s.rows_fit(n),
        s.rows_fit(1),
    ensures
        final(ops)@ == old(ops)@ + hidden_rows(s, n),
{
    ops.push(
        Op::CopyD2d {
            dst: Buf::Rt(Q38::Xn),
            dst_off: 0,
            src: Buf::State(St::MtpHidden),
            src_off: 0,
            bytes: stream_bytes(s, 1),
        },
    );
    if n > 1 {
        proof {
            lemma_rows_fit_shorter(s, n, (n - 1) as u32);
        }
        ops.push(
            Op::CopyD2d {
                dst: Buf::Rt(Q38::Xn),
                dst_off: stream_bytes(s, 1),
                src: Buf::Rt(Q38::ResHc),
                src_off: 0,
                bytes: stream_bytes(s, n - 1),
            },
        );
    }
    assert(ops@ =~= old(ops)@ + hidden_rows(s, n));
}

/// The streams are normed and collapsed, and the embeddings normed.
pub open spec fn fill_norms(s: Shape, mtp: MtpW, n: u32) -> Seq<Op> {
    seq![
        Op::HcNorm {
            out: Buf::Rt(Q38::Gated),
            x: Buf::Rt(Q38::Xn),
            w: Some(Buf::Global(Gw::MtpHnorm)),
            t: n,
            n_embd: s.n_embd,
            hc: s.n_hc,
        },
        Op::HcMean {
            out: Buf::State(St::MtpH),
            x: Buf::Rt(Q38::Gated),
            t: n,
            n_embd: s.n_embd,
            hc: s.n_hc,
        },
        Op::Embed {
            out: Buf::State(St::MtpERaw),
            table: embd_table(mtp),
            n_embd: s.n_embd,
            n_vocab: s.n_vocab,
            t: n,
        },
        Op::RmsNorm {
            out: Buf::State(St::MtpE),
            x: Buf::State(St::MtpERaw),
            w: Buf::Global(Gw::MtpEnorm),
            n: s.n_embd,
            rows: n,
        },
    ]
}

fn push_fill_norms(ops: &mut Vec<Op>, s: Shape, mtp: MtpW, n: u32)
    ensures
        final(ops)@ == old(ops)@ + fill_norms(s, mtp, n),
{
    ops.push(
        Op::HcNorm {
            out: Buf::Rt(Q38::Gated),
            x: Buf::Rt(Q38::Xn),
            w: Some(Buf::Global(Gw::MtpHnorm)),
            t: n,
            n_embd: s.n_embd,
            hc: s.n_hc,
        },
    );
    ops.push(
        Op::HcMean {
            out: Buf::State(St::MtpH),
            x: Buf::Rt(Q38::Gated),
            t: n,
            n_embd: s.n_embd,
            hc: s.n_hc,
        },
    );
    ops.push(
        Op::Embed {
            out: Buf::State(St::MtpERaw),
            table: embd_table(mtp),
            n_embd: s.n_embd,
            n_vocab: s.n_vocab,
            t: n,
        },
    );
    ops.push(
        Op::RmsNorm {
            out: Buf::State(St::MtpE),
            x: Buf::State(St::MtpERaw),
            w: Buf::Global(Gw::MtpEnorm),
            n: s.n_embd,
            rows: n,
        },
    );
    assert(ops@ =~= old(ops)@ + fill_norms(s, mtp, n));
}

/// The first `n` rows of embedding and collapsed streams, side by side.
pub open spec fn interleave(s: Shape, n: int) -> Seq<Op>
    decreases n,
{
    if n <= 0 {
        Seq::empty()
    } else {
        let i = n - 1;
        let row = f32_bytes(s.n_embd);
        interleave(s, n - 1) + seq![
            Op::CopyD2d {
                dst: Buf::State(St::MtpX),
                dst_off: (i * 2 * row) as u64,
                src: Buf::State(St::MtpE),
                src_off: (i * row) as u64,
                bytes: row,
            },
            Op::CopyD2d {
                dst: Buf::State(St::MtpX),
                dst_off: (i * 2 * row + row) as u64,
                src: Buf::State(St::MtpH),
                src_off: (i * row) as u64,
                bytes: row,
            },
        ]
    }
}

fn push_interleave(ops: &mut Vec<Op>, s: Shape, n: u32)
    requires
        mtp_fits(s, n),
    ensures
        final(ops)@ == old(ops)@ + interleave(s, n as int),
{
    let row: u64 = f32_bytes(s.n_embd);
    let mut i: u32 = 0;
    assert(ops@ =~= old(ops)@ + interleave(s, 0));
    while i < n
        invariant
            i <= n,
            mtp_fits(s, n),
            row == f32_bytes(s.n_embd),
            ops@ == old(ops)@ + interleave(s, i as int),
        decreases n - i,
    {
        proof {
            assert((i + 1) * s.n_embd <= n * s.n_embd) by (nonlinear_arith)
                requires
                    i + 1 <= n,
                    0 <= s.n_embd,
            ;
            assert(row == 4 * s.n_embd);
            assert((i + 1) * row == 4 * ((i + 1) * s.n_embd)) by (nonlinear_arith)
                requires
                    row == 4 * s.n_embd,
            ;
            assert((i + 1) * row == i * row + row) by (nonlinear_arith);
            assert(i * 2 * row == 2 * (i * row)) by (nonlinear_arith);
            assert(0 <= i * row) by (nonlinear_arith);
        }
        let two: u64 = i as u64 * 2;
        let at: u64 = i as u64 * row;
        let dst: u64 = two * row;
        ops.push(
            Op::CopyD2d {
                dst: Buf::State(St::MtpX),
                dst_off: dst,
                src: Buf::State(St::MtpE),
                src_off: at,
                bytes: row,
            },
        );
        ops.push(
            Op::CopyD2d {
                dst: Buf::State(St::MtpX),
                dst_off: dst + row,
                src: Buf::State(St::MtpH),
                src_off: at,
                bytes: row,
            },
        );
        i = i + 1;
        assert(ops@ =~= old(ops)@ + interleave(s, i as int));
    }
}

/// The projection of both, the trunk's last streams kept for the next call, and the
/// projection to every stream once they are kept.
pub open spec fn fill_project(s: Shape, n: u32) -> Seq<Op> {
    seq![
        Op::MatmulQ8 {
            out: Buf::State(St::Cur),
            w: Buf::Global(Gw::MtpEhProj),
            x: Buf::State(St::MtpX),
            in_dim: times(2, s.n_embd),
            out_dim: s.n_embd,
            t: n,
        },
        Op::CopyD2d {
            dst: Buf::State(St::MtpHidden),
            dst_off: 0,
            src: Buf::Rt(Q38::ResHc),
            src_off: stream_bytes(s, (n - 1) as u32),
            bytes: stream_bytes(s, 1),
        },
        Op::Sync,
        Op::BroadcastHc {
            out: Buf::Rt(Q38::ResHc),
            x: Buf::State(St::Cur),
            t: n,
            n_embd: s.n_embd,
            hc: s.n_hc,
        },
    ]
}

fn push_fill_project(ops: &mut Vec<Op>, s: Shape, n: u32)
    requires
        1 <= n,
        mtp_fits(s, n),
    ensures
        final(ops)@ == old(ops)@ + fill_project(s, n),
{
    proof {
        lemma_rows_fit_shorter(s, n, (n - 1) as u32);
    }
    ops.push(
        Op::MatmulQ8 {
            out: Buf::State(St::Cur),
            w: Buf::Global(Gw::MtpEhProj),
            x: Buf::State(St::MtpX),
            in_dim: times(2, s.n_embd),
            out_dim: s.n_embd,
            t: n,
        },
    );
    ops.push(
        Op::CopyD2d {
            dst: Buf::State(St::MtpHidden),
            dst_off: 0,
            src: Buf::Rt(Q38::ResHc),
            src_off: stream_bytes(s, (n - 1) as u32),
            bytes: stream_bytes(s, 1),
        },
    );
    ops.push(Op::Sync);
    ops.push(
        Op::BroadcastHc {
            out: Buf::Rt(Q38::ResHc),
            x: Buf::State(St::Cur),
            t: n,
            n_embd: s.n_embd,
            hc: s.n_hc,
        },
    );
    assert(ops@ =~= old(ops)@ + fill_project(s, n));
}

/// What runs before the layer of the drafting block, over a chunk of `n` rows.
pub open spec fn fill_input(s: Shape, mtp: MtpW, n: u32) -> Seq<Op> {
    hidden_rows(s, n) + fill_norms(s, mtp, n) + interleave(s, n as int) + fill_project(s, n)
}

/// The cache of the drafting block over a chunk of `n` rows from `pos0` on.
pub open spec fn fill(s: Shape, mtp: MtpW, n: u32, pos0: u32, ctx: u32) -> Plan {
    Plan::of(fill_input(s, mtp, n)).and(
        match mtp.layer.attn {
            Attn::Qwen38(w) => mtp_layer_body(s, mtp.layer, w, pos0, n, ctx),
            _ => Plan::fail(EngineError::Qwen38MtpWrongAttn),
        },
    )
}

impl Model {
    /// Plans the filling of the drafting block's cache.  Where it ends in an error
    /// inside the block's layer, the runtime is gone from the state.
    pub fn mtp_prefill_fill_qwen38(
        &self,
        st: &mut State,
        n_tok: u32,
        pos0: u32,
        ops: &mut Vec<Op>,
    ) -> (r: Result<(), EngineError>)
        requires
            self.mtp is Some,
            1 <= n_tok,
            mtp_fits(self.shape, n_tok),
            pos0 + n_tok <= u32::MAX,
        ensures
            final(st).ctx == old(st).ctx,
            final(st).k3 == old(st).k3,
            final(st).bailing == old(st).bailing,
            match old(st).qwen38 {
                None => r == Err::<(), EngineError>(EngineError::Qwen38StateMissing)
                    && final(ops)@ == old(ops)@ && final(st).qwen38 is None,
                Some(rt) => {
                    let plan = fill(self.shape, self.mtp->Some_0, n_tok, pos0, old(st).ctx);
                    &&& plan.appended(old(ops)@, final(ops)@, r)
                    &&& final(st).qwen38 == if r is Ok || !(self.mtp->Some_0.layer.attn is Qwen38) {
                        Some(rt)
                    } else {
                        None
                    }
                },
            },
    {
        let s: Shape = self.shape;
        let mtp: MtpW = self.mtp.unwrap();
        let taken = st.qwen38.take();
        match taken {
            None => Err(EngineError::Qwen38StateMissing),
            Some(rt) => {
                let ghost plan = fill(s, mtp, n_tok, pos0, st.ctx);
                push_hidden_rows(ops, s, n_tok);
                push_fill_norms(ops, s, mtp, n_tok);
                push_interleave(ops, s, n_tok);
                push_fill_project(ops, s, n_tok);
                assert(ops@ =~= old(ops)@ + fill_input(s, mtp, n_tok));
                match mtp.layer.attn {
                    Attn::Qwen38(w) => {
                        let r = push_mtp_layer_body(ops, s, mtp.layer, w, pos0, n_tok, st.ctx);
                        assert(ops@ =~= old(ops)@ + plan.ops);
                        if r.is_err() {
                            return r;
                        }
                        st.qwen38 = Some(rt);
                        r
                    },
                    _ => {
                        assert(ops@ =~= old(ops)@ + plan.ops);
                        st.qwen38 = Some(rt);
                        Err(EngineError::Qwen38MtpWrongAttn)
                    },
                }
            },
        }
    }
}

} // verus!
