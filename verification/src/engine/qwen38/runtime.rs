//! Making, saving and restoring the qwen38 runtime.

use crate::engine::error::EngineError;
use crate::engine::ops::{Buf, GdnBuf, Op, Q38};
use crate::engine::ple::{
    ple_heads, ple_heads_fit, ple_hist_cols, ple_hist_fits, ple_row_bytes, PleTable,
};
use crate::engine::qwen38::embed::{ple_width, wide_bytes};
use crate::engine::qwen38::pass::{push_zero_gdn, zero_gdn};
use crate::engine::qwen38::{GdnState, PleMem, Qwen38Rt};
use crate::engine::shape::{larger, times, Model, PleEntry, Shape};
use vstd::prelude::*;

verus! {

pub open spec fn spec_chunk_bytes(n: u32) -> u64 {
    (n * 64) as u64
}

/// Bytes of `n` values for each token of a chunk.
#[verifier::when_used_as_spec(spec_chunk_bytes)]
pub fn chunk_bytes(n: u32) -> (r: u64)
    ensures
        r == spec_chunk_bytes(n),
{
    n as u64 * 64
}

pub open spec fn spec_wide_chunk_bytes(rows: u32, n: u32) -> u64 {
    (rows * n * 64) as u64
}

/// Bytes of `rows` rows of `n` values for each token of a chunk.
#[verifier::when_used_as_spec(spec_wide_chunk_bytes)]
pub fn wide_chunk_bytes(rows: u32, n: u32) -> (r: u64)
    requires
        rows * n * 64 <= u64::MAX,
    ensures
        r == spec_wide_chunk_bytes(rows, n),
{
    proof {
        assert(rows * n >= 0) by (nonlinear_arith);
    }
    rows as u64 * n as u64 * 64
}

pub open spec fn spec_chunk_q8k(n: u32) -> u64 {
    (n * 16 / 256 * 292) as u64
}

/// Bytes of the q8_K blocks that `n` values for each token of a chunk fill.
#[verifier::when_used_as_spec(spec_chunk_q8k)]
pub fn chunk_q8k(n: u32) -> (r: u64)
    ensures
        r == spec_chunk_q8k(n),
{
    n as u64 * 16 / 256 * 292
}

pub open spec fn spec_max_glu(s: Shape) -> u32 {
    larger(larger(s.n_ff_exp, s.n_ff_shexp), 1)
}

/// The widest feed-forward mid.
#[verifier::when_used_as_spec(spec_max_glu)]
pub fn max_glu(s: Shape) -> (r: u32)
    ensures
        r == spec_max_glu(s),
{
    larger(larger(s.n_ff_exp, s.n_ff_shexp), 1)
}

pub open spec fn spec_pad_bytes(s: Shape) -> u64 {
    ((16 + ple_hist_cols(&s)) * s.hc_dim() * 4) as u64
}

/// Bytes of the history and a chunk, for the dilated conv.
#[verifier::when_used_as_spec(spec_pad_bytes)]
pub fn pad_bytes(s: Shape) -> (r: u64)
    requires
        buffers_fit(s),
    ensures
        r == spec_pad_bytes(s),
{
    proof {
        assert((16 + ple_hist_cols(&s)) * s.hc_dim() >= 0) by (nonlinear_arith);
    }
    (16 + ple_hist_cols(&s) as u64) * s.hc_dim() as u64 * 4
}

/// The sizes of the runtime's buffers fit their type.
pub open spec fn buffers_fit(s: Shape) -> bool {
    &&& s.rows_fit(1)
    &&& s.n_hc * s.hc_low_rank <= u32::MAX
    &&& s.n_hc * (s.n_hc * s.n_embd) * 64 <= u64::MAX
    &&& ple_heads_fit(s)
    &&& ple_heads(&s) * s.ple_head_dim <= u32::MAX
    &&& ple_hist_fits(s)
    &&& 16 + ple_hist_cols(&s) <= u64::MAX
    &&& (16 + ple_hist_cols(&s)) * (s.n_hc * s.n_embd) * 4 <= u64::MAX
}

pub open spec fn spec_rt_bytes(s: Shape, b: Q38) -> u64 {
    match b {
        Q38::ResHc => chunk_bytes(s.hc_dim()),
        Q38::Xn => chunk_bytes(s.hc_dim()),
        Q38::Lo => chunk_bytes(times(s.n_hc, s.hc_low_rank)),
        Q38::GateFull => wide_chunk_bytes(s.n_hc, s.hc_dim()),
        Q38::Gated => chunk_bytes(s.hc_dim()),
        Q38::Inj => chunk_bytes(s.n_hc),
        Q38::Cur => chunk_bytes(s.n_embd),
        Q38::AttnOut => chunk_bytes(s.n_embd),
        Q38::FfnMid => chunk_bytes(max_glu(s)),
        Q38::Xq => chunk_q8k(s.hc_dim()),
        Q38::Xq2 => chunk_q8k(times(s.n_hc, larger(s.n_embd, s.hc_low_rank))),
        Q38::Qfull => chunk_bytes(times(2, s.attn_dim())),
        Q38::GateA => chunk_bytes(s.attn_dim()),
        Q38::Q => chunk_bytes(s.attn_dim()),
        Q38::K => chunk_bytes(s.kv_dim()),
        Q38::V => chunk_bytes(s.kv_dim()),
        Q38::Heads => chunk_bytes(s.attn_dim()),
        Q38::GdnQkv => chunk_bytes(s.conv_dim()),
        Q38::GdnConvOut => chunk_bytes(s.conv_dim()),
        Q38::GdnZ => chunk_bytes(s.value_dim()),
        Q38::GdnGq => chunk_bytes(s.key_dim()),
        Q38::GdnGk => chunk_bytes(s.key_dim()),
        Q38::GdnGv => chunk_bytes(s.value_dim()),
        Q38::GdnG => chunk_bytes(s.ssm_v_heads),
        Q38::GdnBeta => chunk_bytes(s.ssm_v_heads),
        Q38::GdnO => chunk_bytes(s.value_dim()),
        Q38::RouterLogits => chunk_bytes(s.n_expert),
        Q38::GateAct => chunk_bytes(max_glu(s)),
        Q38::UpAct => chunk_bytes(max_glu(s)),
        Q38::Shg => chunk_bytes(1),
        Q38::SharedOut => chunk_bytes(s.n_embd),
        Q38::Midq => chunk_q8k(max_glu(s)),
        Q38::PleEmbDev => chunk_bytes(ple_width(s)),
        Q38::PleKeyV => chunk_bytes(s.hc_dim()),
        Q38::PleValV => chunk_bytes(s.hc_dim()),
        Q38::PleQuery => chunk_bytes(s.hc_dim()),
        Q38::PleGate => chunk_bytes(s.n_hc),
        Q38::PleNorm => chunk_bytes(s.hc_dim()),
        Q38::PlePad => pad_bytes(s),
        Q38::PleOut => chunk_bytes(s.hc_dim()),
    }
}

/// Bytes of a buffer of the runtime.
#[verifier::when_used_as_spec(spec_rt_bytes)]
pub fn rt_bytes(s: Shape, b: Q38) -> (r: u64)
    requires
        buffers_fit(s),
    ensures
        r == spec_rt_bytes(s, b),
{
    match b {
        Q38::ResHc => chunk_bytes(s.hc_dim()),
        Q38::Xn => chunk_bytes(s.hc_dim()),
        Q38::Lo => chunk_bytes(times(s.n_hc, s.hc_low_rank)),
        Q38::GateFull => wide_chunk_bytes(s.n_hc, s.hc_dim()),
        Q38::Gated => chunk_bytes(s.hc_dim()),
        Q38::Inj => chunk_bytes(s.n_hc),
        Q38::Cur => chunk_bytes(s.n_embd),
        Q38::AttnOut => chunk_bytes(s.n_embd),
        Q38::FfnMid => chunk_bytes(max_glu(s)),
        Q38::Xq => chunk_q8k(s.hc_dim()),
        Q38::Xq2 => chunk_q8k(times(s.n_hc, larger(s.n_embd, s.hc_low_rank))),
        Q38::Qfull => chunk_bytes(times(2, s.attn_dim())),
        Q38::GateA => chunk_bytes(s.attn_dim()),
        Q38::Q => chunk_bytes(s.attn_dim()),
        Q38::K => chunk_bytes(s.kv_dim()),
        Q38::V => chunk_bytes(s.kv_dim()),
        Q38::Heads => chunk_bytes(s.attn_dim()),
        Q38::GdnQkv => chunk_bytes(s.conv_dim()),
        Q38::GdnConvOut => chunk_bytes(s.conv_dim()),
        Q38::GdnZ => chunk_bytes(s.value_dim()),
        Q38::GdnGq => chunk_bytes(s.key_dim()),
        Q38::GdnGk => chunk_bytes(s.key_dim()),
        Q38::GdnGv => chunk_bytes(s.value_dim()),
        Q38::GdnG => chunk_bytes(s.ssm_v_heads),
        Q38::GdnBeta => chunk_bytes(s.ssm_v_heads),
        Q38::GdnO => chunk_bytes(s.value_dim()),
        Q38::RouterLogits => chunk_bytes(s.n_expert),
        Q38::GateAct => chunk_bytes(max_glu(s)),
        Q38::UpAct => chunk_bytes(max_glu(s)),
        Q38::Shg => chunk_bytes(1),
        Q38::SharedOut => chunk_bytes(s.n_embd),
        Q38::Midq => chunk_q8k(max_glu(s)),
        Q38::PleEmbDev => chunk_bytes(ple_width(s)),
        Q38::PleKeyV => chunk_bytes(s.hc_dim()),
        Q38::PleValV => chunk_bytes(s.hc_dim()),
        Q38::PleQuery => chunk_bytes(s.hc_dim()),
        Q38::PleGate => chunk_bytes(s.n_hc),
        Q38::PleNorm => chunk_bytes(s.hc_dim()),
        Q38::PlePad => pad_bytes(s),
        Q38::PleOut => chunk_bytes(s.hc_dim()),
    }
}

/// The buffers of the runtime up to the staging of the n-gram embedding, in the
/// order they are allocated.
pub open spec fn rt_list() -> Seq<Q38> {
    seq![
        Q38::ResHc,
        Q38::Xn,
        Q38::Lo,
        Q38::GateFull,
        Q38::Gated,
        Q38::Inj,
        Q38::Cur,
        Q38::AttnOut,
        Q38::FfnMid,
        Q38::Xq,
        Q38::Xq2,
        Q38::Qfull,
        Q38::GateA,
        Q38::Q,
        Q38::K,
        Q38::V,
        Q38::Heads,
        Q38::GdnQkv,
        Q38::GdnConvOut,
        Q38::GdnZ,
        Q38::GdnGq,
        Q38::GdnGk,
        Q38::GdnGv,
        Q38::GdnG,
        Q38::GdnBeta,
        Q38::GdnO,
        Q38::RouterLogits,
        Q38::GateAct,
        Q38::UpAct,
        Q38::Shg,
        Q38::SharedOut,
        Q38::Midq,
    ]
}

/// The buffers of the n-gram embedding, in the order they are allocated.
pub open spec fn ple_list() -> Seq<Q38> {
    seq![
        Q38::PleEmbDev,
        Q38::PleKeyV,
        Q38::PleValV,
        Q38::PleQuery,
        Q38::PleGate,
        Q38::PleNorm,
        Q38::PlePad,
        Q38::PleOut,
    ]
}

fn make_rt_list() -> (v: Vec<Q38>)
    ensures
        v@ == rt_list(),
{
    let v: Vec<Q38> = vec![
        Q38::ResHc,
        Q38::Xn,
        Q38::Lo,
        Q38::GateFull,
        Q38::Gated,
        Q38::Inj,
        Q38::Cur,
        Q38::AttnOut,
        Q38::FfnMid,
        Q38::Xq,
        Q38::Xq2,
        Q38::Qfull,
        Q38::GateA,
        Q38::Q,
        Q38::K,
        Q38::V,
        Q38::Heads,
        Q38::GdnQkv,
        Q38::GdnConvOut,
        Q38::GdnZ,
        Q38::GdnGq,
        Q38::GdnGk,
        Q38::GdnGv,
        Q38::GdnG,
        Q38::GdnBeta,
        Q38::GdnO,
        Q38::RouterLogits,
        Q38::GateAct,
        Q38::UpAct,
        Q38::Shg,
        Q38::SharedOut,
        Q38::Midq,
    ];
    assert(v@ =~= rt_list());
    v
}

fn make_ple_list() -> (v: Vec<Q38>)
    ensures
        v@ == ple_list(),
{
    let v: Vec<Q38> = vec![
        Q38::PleEmbDev,
        Q38::PleKeyV,
        Q38::PleValV,
        Q38::PleQuery,
        Q38::PleGate,
        Q38::PleNorm,
        Q38::PlePad,
        Q38::PleOut,
    ];
    assert(v@ =~= ple_list());
    v
}

/// Allocates the listed buffers.
pub open spec fn alloc_list(s: Shape, list: Seq<Q38>) -> Seq<Op> {
    Seq::new(
        list.len(),
        |i: int| Op::Alloc { buf: Buf::Rt(list[i]), bytes: rt_bytes(s, list[i]) },
    )
}

fn push_alloc_list(ops: &mut Vec<Op>, s: Shape, list: &Vec<Q38>)
    requires
        buffers_fit(s),
    ensures
        final(ops)@ == old(ops)@ + alloc_list(s, list@),
{
    let mut i: usize = 0;
    while i < list.len()
        invariant
            i <= list@.len(),
            buffers_fit(s),
            ops@ == old(ops)@ + alloc_list(s, list@).take(i as int),
        decreases list@.len() - i,
    {
        ops.push(Op::Alloc { buf: Buf::Rt(list[i]), bytes: rt_bytes(s, list[i]) });
        i = i + 1;
        assert(ops@ =~= old(ops)@ + alloc_list(s, list@).take(i as int));
    }
    assert(ops@ =~= old(ops)@ + alloc_list(s, list@));
}

/// Allocates the recurrent state of a layer on its card, and clears it.
pub open spec fn alloc_gdn(il: usize, g: GdnState) -> Seq<Op> {
    seq![Op::SetDevice(g.dev)] + (match g.ple_hist {
        Some(n) => seq![Op::Alloc { buf: Buf::Gdn(il, GdnBuf::PleHist), bytes: n }],
        None => Seq::empty(),
    }) + seq![
        Op::Alloc { buf: Buf::Gdn(il, GdnBuf::S), bytes: g.s_bytes },
        Op::Alloc { buf: Buf::Gdn(il, GdnBuf::Conv), bytes: g.conv_bytes },
    ] + zero_gdn(il, g)
}

fn push_alloc_gdn(ops: &mut Vec<Op>, il: usize, g: GdnState)
    ensures
        final(ops)@ == old(ops)@ + alloc_gdn(il, g),
{
    ops.push(Op::SetDevice(g.dev));
    if let Some(n) = g.ple_hist {
        ops.push(Op::Alloc { buf: Buf::Gdn(il, GdnBuf::PleHist), bytes: n });
    }
    ops.push(Op::Alloc { buf: Buf::Gdn(il, GdnBuf::S), bytes: g.s_bytes });
    ops.push(Op::Alloc { buf: Buf::Gdn(il, GdnBuf::Conv), bytes: g.conv_bytes });
    push_zero_gdn(ops, il, g);
    assert(ops@ =~= old(ops)@ + alloc_gdn(il, g));
}

/// The sizes of the recurrent states fit their type.
pub open spec fn gdn_states_fit(s: Shape) -> bool {
    &&& s.rows_fit(1)
    &&& 1 <= s.ssm_conv_k
    &&& s.ssm_v_heads * s.ssm_state * s.ssm_state * 4 <= u64::MAX
    &&& (s.ssm_conv_k - 1) * s.conv_dim() * 4 <= u64::MAX
    &&& ple_hist_fits(s)
    &&& ple_hist_cols(&s) * s.hc_dim() * 4 <= u64::MAX
}

pub open spec fn spec_gdn_state_bytes(s: Shape) -> u64 {
    (s.ssm_v_heads * s.ssm_state * s.ssm_state * 4) as u64
}

/// Bytes of a delta-rule state.
#[verifier::when_used_as_spec(spec_gdn_state_bytes)]
pub fn gdn_state_bytes(s: Shape) -> (r: u64)
    requires
        gdn_states_fit(s),
    ensures
        r == spec_gdn_state_bytes(s),
{
    let v: u64 = s.value_dim() as u64;
    proof {
        assert(v * s.ssm_state >= 0) by (nonlinear_arith);
    }
    v * s.ssm_state as u64 * 4
}

pub open spec fn spec_gdn_conv_bytes(s: Shape) -> u64 {
    ((s.ssm_conv_k - 1) * s.conv_dim() * 4) as u64
}

/// Bytes of a conv window.
#[verifier::when_used_as_spec(spec_gdn_conv_bytes)]
pub fn gdn_conv_bytes(s: Shape) -> (r: u64)
    requires
        gdn_states_fit(s),
    ensures
        r == spec_gdn_conv_bytes(s),
{
    let k: u64 = (s.ssm_conv_k - 1) as u64;
    let c: u64 = s.conv_dim() as u64;
    proof {
        assert(k * c >= 0) by (nonlinear_arith);
    }
    k * c * 4
}

impl Model {
    /// The recurrent state of a layer; a full-attention layer has none.
    pub open spec fn gdn_state(self, il: int) -> Option<GdnState> {
        let s = self.shape;
        if (il + 1) % (s.full_attn_interval as int) == 0 {
            None
        } else {
            Some(
                GdnState {
                    dev: self.layer_dev@[il],
                    s_bytes: gdn_state_bytes(s),
                    conv_bytes: gdn_conv_bytes(s),
                    ple_hist: if il == s.ple_layer {
                        Some(wide_bytes(ple_hist_cols(&s), s.hc_dim()))
                    } else {
                        None
                    },
                },
            )
        }
    }

    /// Allocates the recurrent states of the first `n` layers.
    pub open spec fn gdn_alloc_states(self, n: int) -> Seq<Op>
        decreases n,
    {
        if n <= 0 {
            Seq::empty()
        } else {
            self.gdn_alloc_states(n - 1) + match self.gdn_state(n - 1) {
                Some(g) => alloc_gdn((n - 1) as usize, g),
                None => Seq::empty(),
            }
        }
    }

    /// Where the table of the n-gram embedding lies.
    pub open spec fn ple_table_of(self, e: PleEntry) -> PleTable {
        PleTable {
            base: (self.data_offset + e.offset) as u64,
            row_bytes: ple_row_bytes(&self.shape),
            rows: e.rows,
        }
    }
}

/// Allocates the runtime's buffers on the primary card.
pub open spec fn rt_buffers(s: Shape) -> Seq<Op> {
    alloc_list(s, rt_list()) + seq![Op::HostStage { n: (16 * ple_width(s)) as u64 }] + alloc_list(
        s,
        ple_list(),
    )
}

impl Qwen38Rt {
    /// Makes the runtime: a state for each layer with a gated DeltaNet on its
    /// card, the place of the n-gram embedding's table, and the buffers of a
    /// chunk.  `primary` is the card that is current.  Where a layer has the n-gram
    /// embedding and the model no table, the states have been allocated and
    /// nothing else.
    pub fn new(m: &Model, primary: i32, ops: &mut Vec<Op>) -> (r: Result<Qwen38Rt, EngineError>)
        requires
            m.shape.n_exec_layer <= m.layer_dev@.len(),
            m.shape.n_exec_layer <= i32::MAX,
            0 < m.shape.n_exec_layer ==> 0 < m.shape.full_attn_interval,
            gdn_states_fit(m.shape),
            buffers_fit(m.shape),
            0 <= m.shape.ple_layer ==> (m.ple_entry matches Some(e) ==> m.data_offset + e.offset
                <= u64::MAX),
        ensures
            ({
                let states = m.gdn_alloc_states(m.shape.n_exec_layer as int) + seq![
                    Op::SetDevice(primary),
                ];
                if m.shape.ple_layer >= 0 && m.ple_entry is None {
                    &&& r matches Err(e) && e == EngineError::Qwen38NoPleEntry
                    &&& final(ops)@ == old(ops)@ + states
                } else {
                    &&& final(ops)@ == old(ops)@ + states + rt_buffers(m.shape)
                    &&& r matches Ok(rt) && rt.states@ == Seq::new(
                        m.shape.n_exec_layer as nat,
                        |il: int| m.gdn_state(il),
                    ) && rt.ple_table == (if m.shape.ple_layer >= 0 {
                        Some(m.ple_table_of(m.ple_entry->Some_0))
                    } else {
                        None
                    }) && rt.ple_tokens@ == Seq::<u32>::empty() && rt.ple_next_pos == 0
                }
            }),
    {
        let s: Shape = m.shape;
        let n: usize = s.n_exec_layer as usize;
        let mut states: Vec<Option<GdnState>> = Vec::new();
        let mut il: usize = 0;
        assert(ops@ =~= old(ops)@ + m.gdn_alloc_states(0));
        while il < n
            invariant
                il <= n,
                n == s.n_exec_layer,
                n <= m.layer_dev@.len(),
                n <= i32::MAX,
                0 < n ==> 0 < s.full_attn_interval,
                s == m.shape,
                gdn_states_fit(s),
                states@ == Seq::new(il as nat, |i: int| m.gdn_state(i)),
                ops@ == old(ops)@ + m.gdn_alloc_states(il as int),
            decreases n - il,
        {
            if (il as u32 + 1) % s.full_attn_interval == 0 {
                states.push(None);
            } else {
                let ple_hist: Option<u64> = if il as i32 == s.ple_layer {
                    Some(wide_bytes(ple_hist_cols(&s), s.hc_dim()))
                } else {
                    None
                };
                let g: GdnState = GdnState {
                    dev: m.layer_dev[il],
                    s_bytes: gdn_state_bytes(s),
                    conv_bytes: gdn_conv_bytes(s),
                    ple_hist,
                };
                push_alloc_gdn(ops, il, g);
                states.push(Some(g));
            }
            il = il + 1;
            assert(states@ =~= Seq::new(il as nat, |i: int| m.gdn_state(i)));
            assert(ops@ =~= old(ops)@ + m.gdn_alloc_states(il as int));
        }
        ops.push(Op::SetDevice(primary));
        let ple_table: Option<PleTable> = if s.ple_layer >= 0 {
            match m.ple_entry {
                None => {
                    return Err(EngineError::Qwen38NoPleEntry);
                },
                Some(e) => Some(
                    PleTable {
                        base: m.data_offset + e.offset,
                        row_bytes: ple_row_bytes(&s),
                        rows: e.rows,
                    },
                ),
            }
        } else {
            None
        };
        let list: Vec<Q38> = make_rt_list();
        push_alloc_list(ops, s, &list);
        ops.push(Op::HostStage { n: 16 * ple_width(s) as u64 });
        let list: Vec<Q38> = make_ple_list();
        push_alloc_list(ops, s, &list);
        assert(ops@ =~= old(ops)@ + m.gdn_alloc_states(s.n_exec_layer as int) + seq![
            Op::SetDevice(primary),
        ] + rt_buffers(s));
        let ple_tokens: Vec<u32> = Vec::new();
        assert(ple_tokens@ =~= Seq::<u32>::empty());
        Ok(Qwen38Rt { states, ple_table, ple_tokens, ple_next_pos: 0 })
    }
}

/// Saves one buffer of a layer.
pub open spec fn save_buf(il: usize, b: GdnBuf, bytes: u64) -> Seq<Op> {
    seq![
        Op::Alloc { buf: Buf::Saved(il, b), bytes },
        Op::CopyD2d {
            dst: Buf::Saved(il, b),
            dst_off: 0,
            src: Buf::Gdn(il, b),
            src_off: 0,
            bytes,
        },
    ]
}

fn push_save_buf(ops: &mut Vec<Op>, il: usize, b: GdnBuf, bytes: u64)
    ensures
        final(ops)@ == old(ops)@ + save_buf(il, b, bytes),
{
    ops.push(Op::Alloc { buf: Buf::Saved(il, b), bytes });
    ops.push(
        Op::CopyD2d {
            dst: Buf::Saved(il, b),
            dst_off: 0,
            src: Buf::Gdn(il, b),
            src_off: 0,
            bytes,
        },
    );
    assert(ops@ =~= old(ops)@ + save_buf(il, b, bytes));
}

/// Saves the recurrent state of a layer, on its card.
pub open spec fn save_gdn(il: usize, g: GdnState) -> Seq<Op> {
    seq![Op::SetDevice(g.dev)] + save_buf(il, GdnBuf::S, g.s_bytes) + save_buf(
        il,
        GdnBuf::Conv,
        g.conv_bytes,
    ) + match g.ple_hist {
        Some(n) => save_buf(il, GdnBuf::PleHist, n),
        None => Seq::empty(),
    }
}

/// Saves the states of the first `n` layers.
pub open spec fn save_states(states: Seq<Option<GdnState>>, n: int) -> Seq<Op>
    decreases n,
{
    if n <= 0 {
        Seq::empty()
    } else {
        save_states(states, n - 1) + match states[n - 1] {
            Some(g) => save_gdn((n - 1) as usize, g),
            None => Seq::empty(),
        }
    }
}

/// A saved layer: the sizes of what was saved of it.
#[derive(Debug, Clone, Copy, PartialEq, Eq, Structural)]
pub struct SavedGdn {
    pub s_bytes: u64,
    pub conv_bytes: u64,
    pub ple_hist: Option<u64>,
}

/// What is saved of a layer.
pub open spec fn saved_of(g: Option<GdnState>) -> Option<SavedGdn> {
    match g {
        Some(g) => Some(
            SavedGdn { s_bytes: g.s_bytes, conv_bytes: g.conv_bytes, ple_hist: g.ple_hist },
        ),
        None => None,
    }
}

/// A checkpoint: what was saved of each layer, and what the hash of the n-gram
/// embedding remembered.
pub struct Checkpoint {
    pub states: Vec<Option<SavedGdn>>,
    pub ple_tokens: Vec<u32>,
    pub ple_next_pos: u32,
}

impl Checkpoint {
    pub open spec fn mem(self) -> PleMem {
        PleMem { tokens: self.ple_tokens@, next_pos: self.ple_next_pos }
    }
}

/// A copy of some tokens.
fn copy_tokens(v: &Vec<u32>) -> (r: Vec<u32>)
    ensures
        r@ == v@,
{
    let mut r: Vec<u32> = Vec::new();
    for i in 0..v.len()
        invariant
            r@ == v@.take(i as int),
    {
        r.push(v[i]);
        assert(r@ =~= v@.take(i + 1));
    }
    assert(v@.take(v@.len() as int) =~= v@);
    r
}

/// Brings one saved buffer of a layer back.
pub open spec fn restore_buf(il: usize, b: GdnBuf, bytes: u64) -> Op {
    Op::CopyD2d {
        dst: Buf::Gdn(il, b),
        dst_off: 0,
        src: Buf::Saved(il, b),
        src_off: 0,
        bytes,
    }
}

fn make_restore_buf(il: usize, b: GdnBuf, bytes: u64) -> (op: Op)
    ensures
        op == restore_buf(il, b, bytes),
{
    Op::CopyD2d {
        dst: Buf::Gdn(il, b),
        dst_off: 0,
        src: Buf::Saved(il, b),
        src_off: 0,
        bytes,
    }
}

/// Brings the saved state of a layer back, on its card; the history of the n-gram
/// embedding where both sides have one.
pub open spec fn restore_gdn(il: usize, g: GdnState, c: SavedGdn) -> Seq<Op> {
    seq![
        Op::SetDevice(g.dev),
        restore_buf(il, GdnBuf::S, c.s_bytes),
        restore_buf(il, GdnBuf::Conv, c.conv_bytes),
    ] + match (g.ple_hist, c.ple_hist) {
        (Some(_), Some(n)) => seq![restore_buf(il, GdnBuf::PleHist, n)],
        _ => Seq::empty(),
    }
}

/// Brings back the first `n` layers that are both there and saved.
pub open spec fn restore_states(
    states: Seq<Option<GdnState>>,
    ck: Seq<Option<SavedGdn>>,
    n: int,
) -> Seq<Op>
    decreases n,
{
    if n <= 0 {
        Seq::empty()
    } else {
        restore_states(states, ck, n - 1) + match (states[n - 1], ck[n - 1]) {
            (Some(g), Some(c)) => restore_gdn((n - 1) as usize, g, c),
            _ => Seq::empty(),
        }
    }
}

impl Qwen38Rt {
    /// Saves every recurrent state on its card, and what the hash of the n-gram
    /// embedding remembers.
    pub fn ckpt(&self, current: i32, ops: &mut Vec<Op>) -> (ck: Checkpoint)
        ensures
            final(ops)@ == old(ops)@ + save_states(self.states@, self.states@.len() as int)
                + seq![Op::SetDevice(current)],
            ck.states@ == Seq::new(self.states@.len(), |i: int| saved_of(self.states@[i])),
            ck.mem() == self.mem(),
    {
        let mut out: Vec<Option<SavedGdn>> = Vec::new();
        let mut i: usize = 0;
        assert(ops@ =~= old(ops)@ + save_states(self.states@, 0));
        while i < self.states.len()
            invariant
                i <= self.states@.len(),
                ops@ == old(ops)@ + save_states(self.states@, i as int),
                out@ == Seq::new(i as nat, |k: int| saved_of(self.states@[k])),
            decreases self.states@.len() - i,
        {
            match self.states[i] {
                Some(g) => {
                    ops.push(Op::SetDevice(g.dev));
                    push_save_buf(ops, i, GdnBuf::S, g.s_bytes);
                    push_save_buf(ops, i, GdnBuf::Conv, g.conv_bytes);
                    if let Some(n) = g.ple_hist {
                        push_save_buf(ops, i, GdnBuf::PleHist, n);
                    }
                    out.push(
                        Some(
                            SavedGdn {
                                s_bytes: g.s_bytes,
                                conv_bytes: g.conv_bytes,
                                ple_hist: g.ple_hist,
                            },
                        ),
                    );
                },
                None => {
                    out.push(None);
                },
            }
            assert(ops@ =~= old(ops)@ + save_states(self.states@, i + 1));
            i = i + 1;
            assert(out@ =~= Seq::new(i as nat, |k: int| saved_of(self.states@[k])));
        }
        ops.push(Op::SetDevice(current));
        Checkpoint {
            states: out,
            ple_tokens: copy_tokens(&self.ple_tokens),
            ple_next_pos: self.ple_next_pos,
        }
    }

    /// Brings the saved states back, layer by layer, as far as both lists go, and
    /// what the hash of the n-gram embedding remembered.
    pub fn ckpt_restore(&mut self, saved: &Checkpoint, current: i32, ops: &mut Vec<Op>)
        ensures
            final(ops)@ == old(ops)@ + restore_states(
                old(self).states@,
                saved.states@,
                if old(self).states@.len() <= saved.states@.len() {
                    old(self).states@.len() as int
                } else {
                    saved.states@.len() as int
                },
            ) + seq![Op::SetDevice(current)],
            final(self).mem() == saved.mem(),
            final(self).same_but_mem(*old(self)),
    {
        let ck: &Vec<Option<SavedGdn>> = &saved.states;
        let n: usize = if self.states.len() <= ck.len() {
            self.states.len()
        } else {
            ck.len()
        };
        let mut i: usize = 0;
        assert(ops@ =~= old(ops)@ + restore_states(self.states@, ck@, 0));
        while i < n
            invariant
                i <= n,
                n <= self.states@.len(),
                n <= ck@.len(),
                ck@ == saved.states@,
                *self == *old(self),
                ops@ == old(ops)@ + restore_states(self.states@, ck@, i as int),
            decreases n - i,
        {
            match (self.states[i], ck[i]) {
                (Some(g), Some(c)) => {
                    ops.push(Op::SetDevice(g.dev));
                    ops.push(make_restore_buf(i, GdnBuf::S, c.s_bytes));
                    ops.push(make_restore_buf(i, GdnBuf::Conv, c.conv_bytes));
                    if g.ple_hist.is_some() {
                        if let Some(n) = c.ple_hist {
                            ops.push(make_restore_buf(i, GdnBuf::PleHist, n));
                        }
                    }
                },
                _ => {},
            }
            assert(ops@ =~= old(ops)@ + restore_states(self.states@, ck@, i + 1));
            i = i + 1;
        }
        ops.push(Op::SetDevice(current));
        self.ple_tokens = copy_tokens(&saved.ple_tokens);
        self.ple_next_pos = saved.ple_next_pos;
    }
}

} // verus!
