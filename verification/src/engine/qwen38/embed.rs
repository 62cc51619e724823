//! The n-gram embedding block of a qwen38 layer.

use crate::engine::error::EngineError;
use crate::engine::ops::{ops_if, Buf, GdnBuf, Op, Part, Plan, Q38, Wt};
use crate::engine::ple::{
    gather_chunk, hash_wf, keep_tokens, kept, ple_heads, ple_heads_fit, ple_hist_cols,
    ple_hist_fits, read_tokens, PleTable,
};
use crate::engine::qwen38::{GdnState, PleMem, Qwen38Rt, Run};
use crate::engine::shape::{f32_bytes, times, Attn, Model, Qwen38W, Shape};
use vstd::prelude::*;

verus! {

pub open spec fn spec_wide_bytes(rows: usize, width: u32) -> u64 {
    (rows * width * 4) as u64
}

/// Bytes of `rows` rows of `width` values.
#[verifier::when_used_as_spec(spec_wide_bytes)]
pub fn wide_bytes(rows: usize, width: u32) -> (r: u64)
    requires
        rows * width * 4 <= u64::MAX,
    ensures
        r == spec_wide_bytes(rows, width),
{
    proof {
        assert(rows * width >= 0) by (nonlinear_arith);
    }
    rows as u64 * width as u64 * 4
}

pub open spec fn spec_ple_width(s: Shape) -> u32 {
    (ple_heads(&s) * s.ple_head_dim) as u32
}

/// Width of the rows of all heads of a token.
#[verifier::when_used_as_spec(spec_ple_width)]
pub fn ple_width(s: Shape) -> (r: u32)
    requires
        ple_heads_fit(s),
        ple_heads(&s) * s.ple_head_dim <= u32::MAX,
    ensures
        r == spec_ple_width(s),
{
    let heads: u64 = ple_heads(&s) as u64;
    proof {
        if s.ple_head_dim > 0 {
            assert(heads <= heads * s.ple_head_dim) by (nonlinear_arith)
                requires
                    0 <= heads,
                    1 <= s.ple_head_dim,
            ;
        } else {
            assert(heads * s.ple_head_dim == 0) by (nonlinear_arith)
                requires
                    s.ple_head_dim == 0,
            ;
        }
    }
    (heads * s.ple_head_dim as u64) as u32
}

pub open spec fn spec_stage_len(s: Shape, t: u32) -> u64 {
    (t * ple_width(s)) as u64
}

/// Values of the rows of `t` tokens.
#[verifier::when_used_as_spec(spec_stage_len)]
pub fn stage_len(s: Shape, t: u32) -> (r: u64)
    requires
        ple_heads_fit(s),
        ple_heads(&s) * s.ple_head_dim <= u32::MAX,
    ensures
        r == spec_stage_len(s, t),
{
    let w: u32 = ple_width(s);
    proof {
        assert(t * w <= 0xffff_ffff * 0xffff_ffff) by (nonlinear_arith)
            requires
                0 <= t <= 0xffff_ffff,
                0 <= w <= 0xffff_ffff,
        ;
    }
    t as u64 * w as u64
}

/// The widths and sizes of the n-gram embedding fit their type.
pub open spec fn ple_fits(s: Shape, t: u32) -> bool {
    &&& s.rows_fit(t)
    &&& ple_heads_fit(s)
    &&& ple_hist_fits(s)
    &&& ple_heads(&s) * s.ple_head_dim <= u32::MAX
    &&& t * ple_heads(&s) <= u64::MAX
    &&& ple_hist_cols(&s) + t <= u32::MAX
    &&& ple_hist_cols(&s) * (s.n_hc * s.n_embd) * 4 <= u64::MAX
}

/// The gathered rows go to the device and are projected to keys and values; the
/// keys and the residual are normed and scored against each other, and the score
/// gates the values.  The gated values are kept once as they are and once normed.
pub open spec fn ple_front(s: Shape, part: Part, t: u32) -> Seq<Op> {
    seq![
        Op::PleStage { n: stage_len(s, t) },
        Op::MatmulQ8 {
            out: Buf::Rt(Q38::PleKeyV),
            w: part.wt(Wt::PleKey),
            x: Buf::Rt(Q38::PleEmbDev),
            in_dim: ple_width(s),
            out_dim: s.hc_dim(),
            t,
        },
        Op::MatmulQ8 {
            out: Buf::Rt(Q38::PleValV),
            w: part.wt(Wt::PleValue),
            x: Buf::Rt(Q38::PleEmbDev),
            in_dim: ple_width(s),
            out_dim: s.n_embd,
            t,
        },
        Op::HcNormInplace {
            buf: Buf::Rt(Q38::PleKeyV),
            w: part.wt(Wt::PleNormKey),
            t,
            n_embd: s.n_embd,
            hc: s.n_hc,
        },
        Op::HcNorm {
            out: Buf::Rt(Q38::PleQuery),
            x: Buf::Rt(Q38::ResHc),
            w: Some(part.wt(Wt::PleNormQuery)),
            t,
            n_embd: s.n_embd,
            hc: s.n_hc,
        },
        Op::PleScore {
            out: Buf::Rt(Q38::PleGate),
            key: Buf::Rt(Q38::PleKeyV),
            query: Buf::Rt(Q38::PleQuery),
            t,
            n_embd: s.n_embd,
            hc: s.n_hc,
        },
        Op::PleApply {
            out: Buf::Rt(Q38::Gated),
            value: Buf::Rt(Q38::PleValV),
            gate: Buf::Rt(Q38::PleGate),
            t,
            n_embd: s.n_embd,
            hc: s.n_hc,
        },
        Op::Sync,
        Op::CopyD2d {
            dst: Buf::Rt(Q38::PleValV),
            dst_off: 0,
            src: Buf::Rt(Q38::Gated),
            src_off: 0,
            bytes: f32_bytes(times(t, s.hc_dim())),
        },
        Op::HcNorm {
            out: Buf::Rt(Q38::PleNorm),
            x: Buf::Rt(Q38::Gated),
            w: Some(part.wt(Wt::PleNormConv)),
            t,
            n_embd: s.n_embd,
            hc: s.n_hc,
        },
        Op::Sync,
    ]
}

pub(crate) fn push_ple_front(ops: &mut Vec<Op>, s: Shape, part: Part, t: u32)
    requires
        ple_fits(s, t),
    ensures
        final(ops)@ == old(ops)@ + ple_front(s, part, t),
{
    ops.push(Op::PleStage { n: stage_len(s, t) });
    ops.push(
        Op::MatmulQ8 {
            out: Buf::Rt(Q38::PleKeyV),
            w: part.wt(Wt::PleKey),
            x: Buf::Rt(Q38::PleEmbDev),
            in_dim: ple_width(s),
            out_dim: s.hc_dim(),
            t,
        },
    );
    ops.push(
        Op::MatmulQ8 {
            out: Buf::Rt(Q38::PleValV),
            w: part.wt(Wt::PleValue),
            x: Buf::Rt(Q38::PleEmbDev),
            in_dim: ple_width(s),
            out_dim: s.n_embd,
            t,
        },
    );
    ops.push(
        Op::HcNormInplace {
            buf: Buf::Rt(Q38::PleKeyV),
            w: part.wt(Wt::PleNormKey),
            t,
            n_embd: s.n_embd,
            hc: s.n_hc,
        },
    );
    ops.push(
        Op::HcNorm {
            out: Buf::Rt(Q38::PleQuery),
            x: Buf::Rt(Q38::ResHc),
            w: Some(part.wt(Wt::PleNormQuery)),
            t,
            n_embd: s.n_embd,
            hc: s.n_hc,
        },
    );
    ops.push(
        Op::PleScore {
            out: Buf::Rt(Q38::PleGate),
            key: Buf::Rt(Q38::PleKeyV),
            query: Buf::Rt(Q38::PleQuery),
            t,
            n_embd: s.n_embd,
            hc: s.n_hc,
        },
    );
    ops.push(
        Op::PleApply {
            out: Buf::Rt(Q38::Gated),
            value: Buf::Rt(Q38::PleValV),
            gate: Buf::Rt(Q38::PleGate),
            t,
            n_embd: s.n_embd,
            hc: s.n_hc,
        },
    );
    ops.push(Op::Sync);
    ops.push(
        Op::CopyD2d {
            dst: Buf::Rt(Q38::PleValV),
            dst_off: 0,
            src: Buf::Rt(Q38::Gated),
            src_off: 0,
            bytes: f32_bytes(times(t, s.hc_dim())),
        },
    );
    ops.push(
        Op::HcNorm {
            out: Buf::Rt(Q38::PleNorm),
            x: Buf::Rt(Q38::Gated),
            w: Some(part.wt(Wt::PleNormConv)),
            t,
            n_embd: s.n_embd,
            hc: s.n_hc,
        },
    );
    ops.push(Op::Sync);
    assert(ops@ =~= old(ops)@ + ple_front(s, part, t));
}

pub open spec fn spec_conv_rows(s: Shape, t: u32) -> u32 {
    (ple_hist_cols(&s) + t) as u32
}

/// Rows that the dilated conv reads: the history and the chunk.
#[verifier::when_used_as_spec(spec_conv_rows)]
pub fn conv_rows(s: Shape, t: u32) -> (r: u32)
    requires
        ple_hist_fits(s),
        ple_hist_cols(&s) + t <= u32::MAX,
    ensures
        r == spec_conv_rows(s, t),
{
    (ple_hist_cols(&s) as u64 + t as u64) as u32
}

/// The dilated conv over time reads the history and, after it, the chunk.
pub open spec fn ple_conv(s: Shape, part: Part, il: usize, t: u32) -> Seq<Op> {
    seq![
        Op::CopyD2d {
            dst: Buf::Rt(Q38::PlePad),
            dst_off: 0,
            src: Buf::Gdn(il, GdnBuf::PleHist),
            src_off: 0,
            bytes: wide_bytes(ple_hist_cols(&s), s.hc_dim()),
        },
        Op::CopyD2d {
            dst: Buf::Rt(Q38::PlePad),
            dst_off: wide_bytes(ple_hist_cols(&s), s.hc_dim()),
            src: Buf::Rt(Q38::PleNorm),
            src_off: 0,
            bytes: f32_bytes(times(t, s.hc_dim())),
        },
        Op::PleConv {
            out: Buf::Rt(Q38::PleOut),
            x: Buf::Rt(Q38::PlePad),
            w: part.wt(Wt::PleConv1d),
            t,
            dim: s.hc_dim(),
            rows: conv_rows(s, t),
            k: s.ple_conv_k,
            dilation: s.ple_ngram,
        },
    ]
}

pub(crate) fn push_ple_conv(ops: &mut Vec<Op>, s: Shape, part: Part, il: usize, t: u32)
    requires
        ple_fits(s, t),
    ensures
        final(ops)@ == old(ops)@ + ple_conv(s, part, il, t),
{
    ops.push(
        Op::CopyD2d {
            dst: Buf::Rt(Q38::PlePad),
            dst_off: 0,
            src: Buf::Gdn(il, GdnBuf::PleHist),
            src_off: 0,
            bytes: wide_bytes(ple_hist_cols(&s), s.hc_dim()),
        },
    );
    ops.push(
        Op::CopyD2d {
            dst: Buf::Rt(Q38::PlePad),
            dst_off: wide_bytes(ple_hist_cols(&s), s.hc_dim()),
            src: Buf::Rt(Q38::PleNorm),
            src_off: 0,
            bytes: f32_bytes(times(t, s.hc_dim())),
        },
    );
    ops.push(
        Op::PleConv {
            out: Buf::Rt(Q38::PleOut),
            x: Buf::Rt(Q38::PlePad),
            w: part.wt(Wt::PleConv1d),
            t,
            dim: s.hc_dim(),
            rows: conv_rows(s, t),
            k: s.ple_conv_k,
            dilation: s.ple_ngram,
        },
    );
    assert(ops@ =~= old(ops)@ + ple_conv(s, part, il, t));
}

/// The history rolls forward: it becomes the newest rows of what the conv read.
pub open spec fn ple_roll(s: Shape, il: usize, t: u32) -> Seq<Op> {
    seq![
        Op::CopyD2d {
            dst: Buf::Gdn(il, GdnBuf::PleHist),
            dst_off: 0,
            src: Buf::Rt(Q38::PlePad),
            src_off: f32_bytes(times(t, s.hc_dim())),
            bytes: wide_bytes(ple_hist_cols(&s), s.hc_dim()),
        },
    ]
}

pub(crate) fn push_ple_roll(ops: &mut Vec<Op>, s: Shape, il: usize, t: u32)
    requires
        ple_fits(s, t),
    ensures
        final(ops)@ == old(ops)@ + ple_roll(s, il, t),
{
    ops.push(
        Op::CopyD2d {
            dst: Buf::Gdn(il, GdnBuf::PleHist),
            dst_off: 0,
            src: Buf::Rt(Q38::PlePad),
            src_off: f32_bytes(times(t, s.hc_dim())),
            bytes: wide_bytes(ple_hist_cols(&s), s.hc_dim()),
        },
    );
    assert(ops@ =~= old(ops)@ + ple_roll(s, il, t));
}

/// The gated values and the conv are added to the residual.
pub open spec fn ple_residual(s: Shape, t: u32) -> Seq<Op> {
    seq![
        Op::ResidualAdd {
            res: Buf::Rt(Q38::ResHc),
            x: Buf::Rt(Q38::PleValV),
            t,
            n_embd: s.n_embd,
            hc: s.n_hc,
        },
        Op::ResidualAdd {
            res: Buf::Rt(Q38::ResHc),
            x: Buf::Rt(Q38::PleOut),
            t,
            n_embd: s.n_embd,
            hc: s.n_hc,
        },
    ]
}

pub(crate) fn push_ple_residual(ops: &mut Vec<Op>, s: Shape, t: u32)
    ensures
        final(ops)@ == old(ops)@ + ple_residual(s, t),
{
    ops.push(
        Op::ResidualAdd {
            res: Buf::Rt(Q38::ResHc),
            x: Buf::Rt(Q38::PleValV),
            t,
            n_embd: s.n_embd,
            hc: s.n_hc,
        },
    );
    ops.push(
        Op::ResidualAdd {
            res: Buf::Rt(Q38::ResHc),
            x: Buf::Rt(Q38::PleOut),
            t,
            n_embd: s.n_embd,
            hc: s.n_hc,
        },
    );
    assert(ops@ =~= old(ops)@ + ple_residual(s, t));
}

/// The rest of the block, once its rows are gathered.
pub open spec fn ple_device(
    s: Shape,
    part: Part,
    il: usize,
    state: Option<GdnState>,
    t: u32,
) -> Plan {
    Plan::of(ple_front(s, part, t)).and(
        match state {
            None => Plan::fail(EngineError::Qwen38PleStateMissing),
            Some(g) => if g.ple_hist is None {
                Plan::fail(EngineError::Qwen38PleHistMissing)
            } else {
                Plan::of(
                    ple_conv(s, part, il, t) + ops_if(
                        ple_hist_cols(&s) > 0 && t > 0,
                        ple_roll(s, il, t),
                    ) + ple_residual(s, t),
                )
            },
        },
    )
}

pub(crate) fn push_ple_device(
    ops: &mut Vec<Op>,
    s: Shape,
    part: Part,
    il: usize,
    state: Option<GdnState>,
    t: u32,
) -> (r: Result<(), EngineError>)
    requires
        ple_fits(s, t),
    ensures
        ple_device(s, part, il, state, t).appended(old(ops)@, final(ops)@, r),
{
    let ghost plan = ple_device(s, part, il, state, t);
    push_ple_front(ops, s, part, t);
    match state {
        None => {
            assert(ops@ =~= old(ops)@ + plan.ops);
            Err(EngineError::Qwen38PleStateMissing)
        },
        Some(g) => {
            if g.ple_hist.is_none() {
                assert(ops@ =~= old(ops)@ + plan.ops);
                return Err(EngineError::Qwen38PleHistMissing);
            }
            push_ple_conv(ops, s, part, il, t);
            if ple_hist_cols(&s) > 0 && t > 0 {
                push_ple_roll(ops, s, il, t);
            }
            push_ple_residual(ops, s, t);
            assert(ops@ =~= old(ops)@ + plan.ops);
            Ok(())
        },
    }
}

impl Model {
    /// The n-gram embedding of a chunk on layer `il`.
    pub open spec fn ple_block(
        self,
        states: Seq<Option<GdnState>>,
        table: Option<PleTable>,
        mem: PleMem,
        chunk: Seq<u32>,
        pos0: u32,
        il: usize,
    ) -> Run {
        let s = self.shape;
        let t = chunk.len() as u32;
        match (table, self.layers@[il as int].attn) {
            (None, _) => Run::of(Plan::fail(EngineError::Qwen38NoPleTable), mem),
            (Some(table), Attn::Qwen38(w)) => if !w.ple {
                Run::of(Plan::fail(EngineError::Qwen38NoPleWeights), mem)
            } else {
                let from = mem.at(pos0);
                let rows = read_tokens(
                    self.ple_hash,
                    s,
                    table,
                    from.tokens,
                    chunk,
                    chunk.len() as int,
                );
                Run::of(
                    rows.and(ple_device(s, Part::Layer(il), il, states[il as int], t)),
                    if rows.end is Err {
                        from
                    } else {
                        PleMem {
                            tokens: kept(s, from.tokens, chunk),
                            next_pos: (pos0 + chunk.len()) as u32,
                        }
                    },
                )
            },
            (Some(_), _) => Run::of(Plan::fail(EngineError::Qwen38WrongAttn), mem),
        }
    }

    /// What the n-gram embedding needs of the model and the table.
    pub open spec fn ple_ready(self, table: Option<PleTable>, t: u32) -> bool {
        &&& hash_wf(self.ple_hash, self.shape)
        &&& ple_fits(self.shape, t)
        &&& table matches Some(table) ==> table.wf()
    }

    /// Appends the n-gram embedding of a chunk.
    pub fn eval_ple(
        &self,
        rt: &mut Qwen38Rt,
        chunk: &[u32],
        pos0: u32,
        il: usize,
        ops: &mut Vec<Op>,
    ) -> (r: Result<(), EngineError>)
        requires
            il < self.layers@.len(),
            il < old(rt).states@.len(),
            chunk@.len() <= u32::MAX,
            self.ple_ready(old(rt).ple_table, chunk@.len() as u32),
            old(rt).ple_tokens@.len() + chunk@.len() <= usize::MAX,
            pos0 + chunk@.len() <= u32::MAX,
        ensures
            ({
                let run = self.ple_block(
                    old(rt).states@,
                    old(rt).ple_table,
                    old(rt).mem(),
                    chunk@,
                    pos0,
                    il,
                );
                &&& run.plan.appended(old(ops)@, final(ops)@, r)
                &&& final(rt).mem() == run.mem
                &&& final(rt).same_but_mem(*old(rt))
            }),
    {
        let s: Shape = self.shape;
        let t: u32 = chunk.len() as u32;
        let ghost run = self.ple_block(
            rt.states@,
            rt.ple_table,
            rt.mem(),
            chunk@,
            pos0,
            il,
        );
        let table: PleTable = match rt.ple_table {
            Some(table) => table,
            None => {
                assert(ops@ =~= old(ops)@ + Seq::<Op>::empty());
                return Err(EngineError::Qwen38NoPleTable);
            },
        };
        let w: Qwen38W = match self.layers[il].attn {
            Attn::Qwen38(w) => w,
            _ => {
                assert(ops@ =~= old(ops)@ + Seq::<Op>::empty());
                return Err(EngineError::Qwen38WrongAttn);
            },
        };
        if !w.ple {
            assert(ops@ =~= old(ops)@ + Seq::<Op>::empty());
            return Err(EngineError::Qwen38NoPleWeights);
        }
        if pos0 != rt.ple_next_pos {
            rt.ple_tokens.clear();
        }
        assert(rt.ple_tokens@ =~= old(rt).mem().at(pos0).tokens);
        let ghost from = rt.ple_tokens@;
        let r = gather_chunk(&self.ple_hash, &s, &table, &rt.ple_tokens, chunk, ops);
        let ghost rows = read_tokens(
            self.ple_hash,
            s,
            table,
            from,
            chunk@,
            chunk@.len() as int,
        );
        if r.is_err() {
            assert(ops@ =~= old(ops)@ + run.plan.ops);
            return r;
        }
        rt.ple_tokens = keep_tokens(&s, &rt.ple_tokens, chunk);
        rt.ple_next_pos = pos0 + t;
        let r = push_ple_device(ops, s, Part::Layer(il), il, rt.states[il], t);
        assert(ops@ =~= old(ops)@ + run.plan.ops);
        r
    }
}

} // verus!
