//! A qwen38 batch: chunks of tokens through every layer, and the head.

use crate::engine::blocks::{batch_ok, check_batch, outcome};
use crate::engine::error::EngineError;
use crate::engine::ops::{ops_if, Buf, GdnBuf, Gw, Op, Part, Plan, St, Q38};
use crate::engine::ple::{ple_heads, PleTable};
use crate::engine::qwen38::{GdnState, PleMem, Qwen38Rt, Run, T_MAX};
use crate::engine::qwen38::blocks::{
    attention, combine, eval_attn_layer, eval_gdn_layer, eval_moe, gdn, hc_attn_at, hc_ffn_at,
    hc_full, hc_out_at, moe, push_combine, push_hc_full,
};
use crate::engine::shape::{f32_bytes, times, Attn, LayerW, Model, Qwen38Hc, Qwen38W, Shape};
use crate::engine::state::State;
use vstd::prelude::*;

verus! {

/// The token mixer of a layer: gated DeltaNet or gated attention.
pub open spec fn token_mixer(
    s: Shape,
    il: usize,
    w: Qwen38W,
    state: Option<GdnState>,
    pos0: u32,
    t: u32,
    ctx: u32,
) -> Plan {
    match (w.gdn, w.attn) {
        (Some(g), _) => gdn(s, Part::Layer(il), il, g, state, t),
        (None, Some(a)) => attention(s, Part::Layer(il), il, a, pos0, t, ctx),
        (None, None) => Plan::fail(EngineError::Qwen38NoMixer),
    }
}

/// The experts of a layer, between their stream mix and the way back.
#[verifier::opaque]
pub open spec fn expert_half(
    s: Shape,
    part: Part,
    il: usize,
    l: LayerW,
    w: Qwen38W,
    t: u32,
) -> Plan {
    Plan::of(hc_full(s, hc_ffn_at(part), w.hc_ffn, t, true)).and(moe(s, part, il, l, t)).and(
        Plan::of(combine(s, Buf::Rt(Q38::Cur), t)),
    )
}

/// Appends the experts of a layer.
pub(crate) fn push_expert_half(
    ops: &mut Vec<Op>,
    s: Shape,
    part: Part,
    il: usize,
    l: LayerW,
    w: Qwen38W,
    t: u32,
) -> (r: Result<(), EngineError>)
    requires
        s.rows_fit(t),
    ensures
        expert_half(s, part, il, l, w, t).appended(old(ops)@, final(ops)@, r),
{
    proof {
        reveal(expert_half);
    }
    let ghost plan = expert_half(s, part, il, l, w, t);
    push_hc_full(ops, s, hc_ffn_at(part), w.hc_ffn, t, true);
    let r = eval_moe(ops, s, part, il, l, t);
    if r.is_err() {
        assert(ops@ =~= old(ops)@ + plan.ops);
        return r;
    }
    push_combine(ops, s, Buf::Rt(Q38::Cur), t);
    assert(ops@ =~= old(ops)@ + plan.ops);
    r
}

/// A layer but for its n-gram embedding.
#[verifier::opaque]
pub open spec fn layer_body(
    s: Shape,
    il: usize,
    l: LayerW,
    w: Qwen38W,
    state: Option<GdnState>,
    pos0: u32,
    t: u32,
    ctx: u32,
) -> Plan {
    Plan::of(hc_full(s, hc_attn_at(Part::Layer(il)), w.hc_attn, t, true)).and(
        token_mixer(s, il, w, state, pos0, t, ctx),
    ).and(Plan::of(combine(s, Buf::Rt(Q38::AttnOut), t))).and(
        expert_half(s, Part::Layer(il), il, l, w, t),
    )
}

fn push_layer_body(
    ops: &mut Vec<Op>,
    s: Shape,
    il: usize,
    l: LayerW,
    w: Qwen38W,
    state: Option<GdnState>,
    pos0: u32,
    t: u32,
    ctx: u32,
) -> (r: Result<(), EngineError>)
    requires
        s.rows_fit(t),
        pos0 + t <= u32::MAX,
    ensures
        layer_body(s, il, l, w, state, pos0, t, ctx).appended(old(ops)@, final(ops)@, r),
{
    proof {
        reveal(layer_body);
    }
    let ghost plan = layer_body(s, il, l, w, state, pos0, t, ctx);
    let part: Part = Part::Layer(il);
    push_hc_full(ops, s, hc_attn_at(part), w.hc_attn, t, true);
    let r = if let Some(g) = w.gdn {
        eval_gdn_layer(ops, s, part, il, g, state, t)
    } else if let Some(a) = w.attn {
        eval_attn_layer(ops, s, part, il, a, pos0, t, ctx)
    } else {
        assert(ops@ =~= ops@ + Seq::<Op>::empty());
        Err(EngineError::Qwen38NoMixer)
    };
    if r.is_err() {
        assert(ops@ =~= old(ops)@ + plan.ops);
        return r;
    }
    push_combine(ops, s, Buf::Rt(Q38::AttnOut), t);
    let r = push_expert_half(ops, s, part, il, l, w, t);
    assert(ops@ =~= old(ops)@ + plan.ops);
    r
}

/// The layer has the n-gram embedding.
pub open spec fn is_ple_layer(s: Shape, il: int) -> bool {
    il == s.ple_layer
}

impl Model {
    /// The n-gram embedding before a layer, and the wait that follows it.
    pub open spec fn qwen38_embed(
        self,
        states: Seq<Option<GdnState>>,
        table: Option<PleTable>,
        mem: PleMem,
        chunk: Seq<u32>,
        pos0: u32,
        il: usize,
        skip_ple: bool,
    ) -> Run {
        if is_ple_layer(self.shape, il as int) && !skip_ple {
            let block = self.ple_block(states, table, mem, chunk, pos0, il);
            Run::of(block.plan.and(Plan::of(seq![Op::Sync])), block.mem)
        } else {
            Run::of(Plan::of(Seq::empty()), mem)
        }
    }

    /// A layer on a chunk.
    pub open spec fn qwen38_layer(
        self,
        states: Seq<Option<GdnState>>,
        table: Option<PleTable>,
        mem: PleMem,
        chunk: Seq<u32>,
        pos0: u32,
        ctx: u32,
        il: usize,
        skip_ple: bool,
    ) -> Run {
        let l = self.layers@[il as int];
        match l.attn {
            Attn::Qwen38(w) => {
                let embed = self.qwen38_embed(states, table, mem, chunk, pos0, il, skip_ple);
                Run::of(
                    embed.plan.and(
                        layer_body(
                            self.shape,
                            il,
                            l,
                            w,
                            states[il as int],
                            pos0,
                            chunk.len() as u32,
                            ctx,
                        ),
                    ),
                    embed.mem,
                )
            },
            _ => Run::of(Plan::fail(EngineError::Qwen38WrongAttn), mem),
        }
    }

    /// The first `n` layers on a chunk.
    pub open spec fn qwen38_span(
        self,
        states: Seq<Option<GdnState>>,
        table: Option<PleTable>,
        mem: PleMem,
        chunk: Seq<u32>,
        pos0: u32,
        ctx: u32,
        n: int,
        skip_ple: bool,
    ) -> Run
        decreases n,
    {
        if n <= 0 {
            Run::of(Plan::of(Seq::empty()), mem)
        } else {
            let prev = self.qwen38_span(
                states,
                table,
                mem,
                chunk,
                pos0,
                ctx,
                n - 1,
                skip_ple,
            );
            if prev.plan.end is Err {
                prev
            } else {
                let step = self.qwen38_layer(
                    states,
                    table,
                    prev.mem,
                    chunk,
                    pos0,
                    ctx,
                    (n - 1) as usize,
                    skip_ple,
                );
                Run::of(prev.plan.and(step.plan), step.mem)
            }
        }
    }

    /// The layers that need a recurrent state have a place for one, and the
    /// sizes of `t` rows fit their type.
    pub open spec fn qwen38_ready(self, rt: Qwen38Rt, t: u32, skip_ple: bool) -> bool {
        &&& self.layers@.len() <= i32::MAX
        &&& self.shape.rows_fit(t)
        &&& forall|il: int| #![trigger self.layers@[il]]
            0 <= il < self.layers@.len() && self.needs_state(il, skip_ple) ==> il
                < rt.states@.len()
        &&& self.embeds(skip_ple) ==> {
            &&& self.ple_ready(rt.ple_table, t)
            &&& rt.ple_tokens@.len() + t <= usize::MAX
            &&& self.shape.ple_ngram + t <= usize::MAX
        }
    }

    /// A layer with a gated DeltaNet or the n-gram embedding.
    pub open spec fn needs_state(self, il: int, skip_ple: bool) -> bool {
        self.layers@[il].attn matches Attn::Qwen38(w) && (w.gdn is Some || (is_ple_layer(
            self.shape,
            il,
        ) && !skip_ple))
    }

    /// Some layer has the n-gram embedding.
    pub open spec fn embeds(self, skip_ple: bool) -> bool {
        0 <= self.shape.ple_layer < self.layers@.len() && !skip_ple
    }

    fn push_qwen38_layer(
        &self,
        rt: &mut Qwen38Rt,
        chunk: &[u32],
        pos0: u32,
        ctx: u32,
        il: usize,
        skip_ple: bool,
        ops: &mut Vec<Op>,
    ) -> (r: Result<(), EngineError>)
        requires
            il < self.layers@.len(),
            chunk@.len() <= u32::MAX,
            self.qwen38_ready(*old(rt), chunk@.len() as u32, skip_ple),
            pos0 + chunk@.len() <= u32::MAX,
        ensures
            ({
                let run = self.qwen38_layer(
                    old(rt).states@,
                    old(rt).ple_table,
                    old(rt).mem(),
                    chunk@,
                    pos0,
                    ctx,
                    il,
                    skip_ple,
                );
                &&& run.plan.appended(old(ops)@, final(ops)@, r)
                &&& final(rt).mem() == run.mem
                &&& final(rt).same_but_mem(*old(rt))
            }),
            self.qwen38_ready(*final(rt), chunk@.len() as u32, skip_ple),
    {
        let s: Shape = self.shape;
        let t: u32 = chunk.len() as u32;
        let l: LayerW = self.layers[il];
        let ghost run = self.qwen38_layer(
            rt.states@,
            rt.ple_table,
            rt.mem(),
            chunk@,
            pos0,
            ctx,
            il,
            skip_ple,
        );
        let w: Qwen38W = match l.attn {
            Attn::Qwen38(w) => w,
            _ => {
                assert(ops@ =~= old(ops)@ + Seq::<Op>::empty());
                return Err(EngineError::Qwen38WrongAttn);
            },
        };
        if il as i32 == s.ple_layer && !skip_ple {
            assert(self.needs_state(il as int, skip_ple));
            let r = self.eval_ple(rt, chunk, pos0, il, ops);
            if r.is_err() {
                assert(ops@ =~= old(ops)@ + run.plan.ops);
                return r;
            }
            ops.push(Op::Sync);
        }
        let state: Option<GdnState> = if w.gdn.is_some() {
            assert(self.needs_state(il as int, skip_ple));
            rt.states[il]
        } else if il < rt.states.len() {
            rt.states[il]
        } else {
            None
        };
        let r = push_layer_body(ops, s, il, l, w, state, pos0, t, ctx);
        proof {
            assert(layer_body(s, il, l, w, state, pos0, t, ctx) == layer_body(
                s,
                il,
                l,
                w,
                rt.states@[il as int],
                pos0,
                t,
                ctx,
            )) by {
                reveal(layer_body);
            }
            assert(ops@ =~= old(ops)@ + run.plan.ops);
        }
        r
    }

    /// Appends every layer on a chunk.
    pub fn eval_qwen38_span(
        &self,
        rt: &mut Qwen38Rt,
        chunk: &[u32],
        pos0: u32,
        ctx: u32,
        skip_ple: bool,
        ops: &mut Vec<Op>,
    ) -> (r: Result<(), EngineError>)
        requires
            chunk@.len() <= u32::MAX,
            self.qwen38_ready(*old(rt), chunk@.len() as u32, skip_ple),
            pos0 + chunk@.len() <= u32::MAX,
        ensures
            ({
                let run = self.qwen38_span(
                    old(rt).states@,
                    old(rt).ple_table,
                    old(rt).mem(),
                    chunk@,
                    pos0,
                    ctx,
                    self.layers@.len() as int,
                    skip_ple,
                );
                &&& run.plan.appended(old(ops)@, final(ops)@, r)
                &&& final(rt).mem() == run.mem
                &&& final(rt).same_but_mem(*old(rt))
            }),
            self.qwen38_ready(*final(rt), chunk@.len() as u32, skip_ple),
    {
        let n: usize = self.layers.len();
        let ghost rt0 = *rt;
        let mut il: usize = 0;
        assert(ops@ =~= old(ops)@ + Seq::<Op>::empty());
        while il < n
            invariant
                il <= n,
                n == self.layers@.len(),
                chunk@.len() <= u32::MAX,
                self.qwen38_ready(*rt, chunk@.len() as u32, skip_ple),
                pos0 + chunk@.len() <= u32::MAX,
                rt.same_but_mem(rt0),
                rt0 == *old(rt),
                ({
                    let run = self.qwen38_span(
                        rt0.states@,
                        rt0.ple_table,
                        rt0.mem(),
                        chunk@,
                        pos0,
                        ctx,
                        il as int,
                        skip_ple,
                    );
                    &&& run.plan.end is Ok
                    &&& ops@ == old(ops)@ + run.plan.ops
                    &&& rt.mem() == run.mem
                }),
            decreases n - il,
        {
            let r = self.push_qwen38_layer(rt, chunk, pos0, ctx, il, skip_ple, ops);
            proof {
                let done = self.qwen38_span(
                    rt0.states@,
                    rt0.ple_table,
                    rt0.mem(),
                    chunk@,
                    pos0,
                    ctx,
                    il + 1,
                    skip_ple,
                );
                assert(ops@ =~= old(ops)@ + done.plan.ops);
                assert(done.plan.end == r);
                if r is Err {
                    lemma_span_stopped(
                        *self,
                        rt0.states@,
                        rt0.ple_table,
                        rt0.mem(),
                        chunk@,
                        pos0,
                        ctx,
                        il + 1,
                        n as int,
                        skip_ple,
                    );
                }
            }
            if r.is_err() {
                return r;
            }
            il = il + 1;
        }
        proof {
            let done = self.qwen38_span(
                rt0.states@,
                rt0.ple_table,
                rt0.mem(),
                chunk@,
                pos0,
                ctx,
                n as int,
                skip_ple,
            );
            assert(done.plan.end->Ok_0 == ());
        }
        Ok(())
    }
}

/// Once the layers have stopped, none of the later ones begins.
proof fn lemma_span_stopped(
    m: Model,
    states: Seq<Option<GdnState>>,
    table: Option<PleTable>,
    mem: PleMem,
    chunk: Seq<u32>,
    pos0: u32,
    ctx: u32,
    a: int,
    b: int,
    skip_ple: bool,
)
    requires
        0 <= a <= b,
        m.qwen38_span(states, table, mem, chunk, pos0, ctx, a, skip_ple).plan.end is Err,
    ensures
        m.qwen38_span(states, table, mem, chunk, pos0, ctx, b, skip_ple) == m.qwen38_span(
            states,
            table,
            mem,
            chunk,
            pos0,
            ctx,
            a,
            skip_ple,
        ),
    decreases b - a,
{
    if a < b {
        lemma_span_stopped(m, states, table, mem, chunk, pos0, ctx, a, b - 1, skip_ple);
    }
}

/// Chunk `k` of a batch.
pub open spec fn chunk_of(tokens: Seq<u32>, k: int) -> Seq<u32> {
    let end = if (k + 1) * T_MAX < tokens.len() {
        (k + 1) * T_MAX
    } else {
        tokens.len() as int
    };
    tokens.subrange(k * T_MAX, end)
}

/// Chunks of a batch of `n` tokens.
pub open spec fn n_chunks(n: int) -> int {
    (n + T_MAX - 1) / (T_MAX as int)
}

/// Tokens of the last chunk of a batch of `n`.
pub open spec fn last_chunk(n: int) -> int {
    n - (n_chunks(n) - 1) * T_MAX
}

/// A chunk is embedded, and each of its rows goes to every stream.  What the
/// buffers held before is no longer in use once the device is drained.
pub open spec fn chunk_start(s: Shape, pos: u32, t: u32) -> Seq<Op> {
    seq![
        Op::Sync,
        Op::WriteTokens { pos, n: t as usize },
        Op::Embed {
            out: Buf::Rt(Q38::Cur),
            table: Buf::Global(Gw::TokenEmbd),
            n_embd: s.n_embd,
            n_vocab: s.n_vocab,
            t,
        },
        Op::BroadcastHc {
            out: Buf::Rt(Q38::ResHc),
            x: Buf::Rt(Q38::Cur),
            t,
            n_embd: s.n_embd,
            hc: s.n_hc,
        },
    ]
}

fn push_chunk_start(ops: &mut Vec<Op>, s: Shape, pos: u32, t: u32)
    ensures
        final(ops)@ == old(ops)@ + chunk_start(s, pos, t),
{
    ops.push(Op::Sync);
    ops.push(Op::WriteTokens { pos, n: t as usize });
    ops.push(
        Op::Embed {
            out: Buf::Rt(Q38::Cur),
            table: Buf::Global(Gw::TokenEmbd),
            n_embd: s.n_embd,
            n_vocab: s.n_vocab,
            t,
        },
    );
    ops.push(
        Op::BroadcastHc {
            out: Buf::Rt(Q38::ResHc),
            x: Buf::Rt(Q38::Cur),
            t,
            n_embd: s.n_embd,
            hc: s.n_hc,
        },
    );
    assert(ops@ =~= old(ops)@ + chunk_start(s, pos, t));
}

/// The head on the last `rows` rows of the last chunk: the rows are published for
/// the head and kept as the last rows, and their logits go to the host.
pub open spec fn head_rows(s: Shape, last: u32, rows: u32) -> Seq<Op> {
    seq![
        Op::CopyD2d {
            dst: Buf::State(St::Normed),
            dst_off: 0,
            src: Buf::Rt(Q38::Cur),
            src_off: f32_bytes(times((last - rows) as u32, s.n_embd)),
            bytes: f32_bytes(times(rows, s.n_embd)),
        },
        Op::CopyD2d {
            dst: Buf::State(St::LastRow),
            dst_off: 0,
            src: Buf::Rt(Q38::Cur),
            src_off: f32_bytes(times((last - rows) as u32, s.n_embd)),
            bytes: f32_bytes(times(rows, s.n_embd)),
        },
        Op::HeadLogits { rows },
        Op::Sync,
        Op::ReadLogits { n: (rows * s.n_vocab) as u64 },
    ]
}

fn push_head_rows(ops: &mut Vec<Op>, s: Shape, last: u32, rows: u32)
    requires
        rows <= last <= T_MAX,
        s.rows_fit(last),
    ensures
        final(ops)@ == old(ops)@ + head_rows(s, last, rows),
{
    proof {
        assert((last - rows) * s.n_embd <= last * s.n_embd) by (nonlinear_arith)
            requires
                rows <= last,
        ;
        assert(rows * s.n_embd <= last * s.n_embd) by (nonlinear_arith)
            requires
                rows <= last,
        ;
    }
    let off: u64 = f32_bytes(times(last - rows, s.n_embd));
    let bytes: u64 = f32_bytes(times(rows, s.n_embd));
    ops.push(
        Op::CopyD2d {
            dst: Buf::State(St::Normed),
            dst_off: 0,
            src: Buf::Rt(Q38::Cur),
            src_off: off,
            bytes,
        },
    );
    ops.push(
        Op::CopyD2d {
            dst: Buf::State(St::LastRow),
            dst_off: 0,
            src: Buf::Rt(Q38::Cur),
            src_off: off,
            bytes,
        },
    );
    ops.push(Op::HeadLogits { rows });
    ops.push(Op::Sync);
    proof {
        assert(rows * s.n_vocab <= 16 * s.n_vocab) by (nonlinear_arith)
            requires
                rows <= 16,
                0 <= s.n_vocab,
        ;
    }
    let n: u64 = rows as u64 * s.n_vocab as u64;
    ops.push(Op::ReadLogits { n });
    assert(ops@ =~= old(ops)@ + head_rows(s, last, rows));
}

/// Clears the recurrent state of a layer; its card is current.
pub open spec fn zero_gdn(il: usize, g: GdnState) -> Seq<Op> {
    seq![
        Op::Zero { buf: Buf::Gdn(il, GdnBuf::S), bytes: g.s_bytes },
        Op::Zero { buf: Buf::Gdn(il, GdnBuf::Conv), bytes: g.conv_bytes },
    ] + match g.ple_hist {
        Some(n) => seq![Op::Zero { buf: Buf::Gdn(il, GdnBuf::PleHist), bytes: n }],
        None => Seq::empty(),
    }
}

pub(crate) fn push_zero_gdn(ops: &mut Vec<Op>, il: usize, g: GdnState)
    ensures
        final(ops)@ == old(ops)@ + zero_gdn(il, g),
{
    ops.push(Op::Zero { buf: Buf::Gdn(il, GdnBuf::S), bytes: g.s_bytes });
    ops.push(Op::Zero { buf: Buf::Gdn(il, GdnBuf::Conv), bytes: g.conv_bytes });
    if let Some(n) = g.ple_hist {
        ops.push(Op::Zero { buf: Buf::Gdn(il, GdnBuf::PleHist), bytes: n });
    }
    assert(ops@ =~= old(ops)@ + zero_gdn(il, g));
}

/// Clears the states of the first `n` layers, each on its card.
pub open spec fn reset_gdn(states: Seq<Option<GdnState>>, n: int) -> Seq<Op>
    decreases n,
{
    if n <= 0 {
        Seq::empty()
    } else {
        reset_gdn(states, n - 1) + match states[n - 1] {
            Some(g) => seq![Op::SetDevice(g.dev)] + zero_gdn((n - 1) as usize, g),
            None => Seq::empty(),
        }
    }
}

impl Qwen38Rt {
    /// Clears every recurrent state, and forgets the predecessors.
    pub fn rt_reset(&mut self, current: i32, ops: &mut Vec<Op>)
        ensures
            final(ops)@ == old(ops)@ + reset_gdn(
                old(self).states@,
                old(self).states@.len() as int,
            ) + seq![Op::SetDevice(current)],
            final(self).mem() == (PleMem { tokens: Seq::empty(), next_pos: 0 }),
            final(self).same_but_mem(*old(self)),
    {
        self.ple_tokens.clear();
        self.ple_next_pos = 0;
        let mut i: usize = 0;
        assert(ops@ =~= old(ops)@ + reset_gdn(self.states@, 0));
        while i < self.states.len()
            invariant
                i <= self.states@.len(),
                self.same_but_mem(*old(self)),
                self.mem() == (PleMem { tokens: Seq::empty(), next_pos: 0 }),
                ops@ == old(ops)@ + reset_gdn(self.states@, i as int),
            decreases self.states@.len() - i,
        {
            match self.states[i] {
                Some(g) => {
                    ops.push(Op::SetDevice(g.dev));
                    push_zero_gdn(ops, i, g);
                },
                None => {},
            }
            assert(ops@ =~= old(ops)@ + reset_gdn(self.states@, i + 1));
            i = i + 1;
        }
        ops.push(Op::SetDevice(current));
    }
}

impl Model {
    /// A chunk that starts at position `pos`.
    #[verifier::opaque]
    pub open spec fn qwen38_chunk(
        self,
        states: Seq<Option<GdnState>>,
        table: Option<PleTable>,
        mem: PleMem,
        chunk: Seq<u32>,
        pos: u32,
        ctx: u32,
        skip_ple: bool,
    ) -> Run {
        let span = self.qwen38_span(
            states,
            table,
            mem,
            chunk,
            pos,
            ctx,
            self.layers@.len() as int,
            skip_ple,
        );
        Run::of(
            Plan::of(chunk_start(self.shape, pos, chunk.len() as u32)).and(span.plan),
            span.mem,
        )
    }

    /// The first `n` chunks of a batch.
    pub open spec fn qwen38_chunks(
        self,
        states: Seq<Option<GdnState>>,
        table: Option<PleTable>,
        mem: PleMem,
        tokens: Seq<u32>,
        pos0: u32,
        ctx: u32,
        n: int,
        skip_ple: bool,
    ) -> Run
        decreases n,
    {
        if n <= 0 {
            Run::of(Plan::of(Seq::empty()), mem)
        } else {
            let prev = self.qwen38_chunks(
                states,
                table,
                mem,
                tokens,
                pos0,
                ctx,
                n - 1,
                skip_ple,
            );
            if prev.plan.end is Err {
                prev
            } else {
                let step = self.qwen38_chunk(
                    states,
                    table,
                    prev.mem,
                    chunk_of(tokens, n - 1),
                    (pos0 + (n - 1) * T_MAX) as u32,
                    ctx,
                    skip_ple,
                );
                Run::of(prev.plan.and(step.plan), step.mem)
            }
        }
    }

    /// What follows the chunks: nothing where no row is asked for, else the head
    /// on the last chunk.
    #[verifier::opaque]
    pub open spec fn qwen38_tail(self, n: int, rows: u32) -> Plan {
        if rows == 0 {
            Plan::of(Seq::empty())
        } else if rows > last_chunk(n) {
            Plan::fail(EngineError::Qwen38RowsExceedChunk)
        } else {
            match self.output_hc {
                None => Plan::fail(EngineError::Qwen38NoOutputHc),
                Some(w) => Plan::of(
                    hc_full(self.shape, hc_out_at(), w, last_chunk(n) as u32, false) + head_rows(
                        self.shape,
                        last_chunk(n) as u32,
                        rows,
                    ),
                ),
            }
        }
    }

    /// A batch: where it starts a sequence the states are cleared and the
    /// predecessors forgotten, then come the chunks and the head.
    pub open spec fn qwen38_pass(
        self,
        rt: Qwen38Rt,
        tokens: Seq<u32>,
        pos0: u32,
        rows: u32,
        ctx: u32,
        current: i32,
        skip_ple: bool,
    ) -> Run {
        let mem = if pos0 == 0 {
            PleMem { tokens: Seq::empty(), next_pos: 0 }
        } else {
            rt.mem()
        };
        let chunks = self.qwen38_chunks(
            rt.states@,
            rt.ple_table,
            mem,
            tokens,
            pos0,
            ctx,
            n_chunks(tokens.len() as int),
            skip_ple,
        );
        Run::of(
            Plan::of(
                ops_if(
                    pos0 == 0,
                    reset_gdn(rt.states@, rt.states@.len() as int) + seq![Op::SetDevice(current)],
                ),
            ).and(chunks.plan).and(self.qwen38_tail(tokens.len() as int, rows)),
            chunks.mem,
        )
    }
}

/// What holds of a whole chunk holds of a shorter one.
pub(crate) proof fn lemma_ready_shorter(m: Model, rt: Qwen38Rt, t: u32, u: u32, skip_ple: bool)
    requires
        u <= t,
        m.qwen38_ready(rt, t, skip_ple),
    ensures
        m.qwen38_ready(rt, u, skip_ple),
{
    let s = m.shape;
    lemma_rows_fit_shorter(s, t, u);
    if m.embeds(skip_ple) {
        let h = ple_heads(&s) as int;
        assert(u * h <= t * h) by (nonlinear_arith)
            requires
                u <= t,
                0 <= h,
        ;
    }
}

pub(crate) proof fn lemma_rows_fit_shorter(s: Shape, t: u32, u: u32)
    requires
        u <= t,
        s.rows_fit(t),
    ensures
        s.rows_fit(u),
{
    lemma_times_shorter(t, u, s.n_hc * s.n_embd);
    lemma_times_shorter(t, u, s.n_embd as int);
    lemma_times_shorter(t, u, s.hc_low_rank as int);
    lemma_times_shorter(t, u, s.ssm_k_heads as int);
    lemma_times_shorter(t, u, s.ssm_v_heads as int);
    lemma_times_shorter(t, u, s.ssm_v_heads * s.ssm_state);
    lemma_times_shorter(t, u, s.n_head * s.head_dim);
    lemma_times_shorter(t, u, s.n_head as int);
    lemma_times_shorter(t, u, s.n_head_kv as int);
    lemma_times_shorter(t, u, s.n_ff_exp as int);
    lemma_times_shorter(t, u, s.n_expert_used as int);
    assert(s.n_hc * s.n_embd >= 0) by (nonlinear_arith);
    assert(s.ssm_v_heads * s.ssm_state >= 0) by (nonlinear_arith);
    assert(s.n_head * s.head_dim >= 0) by (nonlinear_arith);
}

proof fn lemma_times_shorter(t: u32, u: u32, n: int)
    ensures
        u <= t && 0 <= n ==> u * n <= t * n,
{
    assert(u <= t && 0 <= n ==> u * n <= t * n) by (nonlinear_arith);
}

/// Once the chunks have stopped, none of the later ones begins.
proof fn lemma_chunks_stopped(
    m: Model,
    states: Seq<Option<GdnState>>,
    table: Option<PleTable>,
    mem: PleMem,
    tokens: Seq<u32>,
    pos0: u32,
    ctx: u32,
    a: int,
    b: int,
    skip_ple: bool,
)
    requires
        0 <= a <= b,
        m.qwen38_chunks(states, table, mem, tokens, pos0, ctx, a, skip_ple).plan.end is Err,
    ensures
        m.qwen38_chunks(states, table, mem, tokens, pos0, ctx, b, skip_ple) == m.qwen38_chunks(
            states,
            table,
            mem,
            tokens,
            pos0,
            ctx,
            a,
            skip_ple,
        ),
    decreases b - a,
{
    if a < b {
        lemma_chunks_stopped(m, states, table, mem, tokens, pos0, ctx, a, b - 1, skip_ple);
    }
}

impl Model {
    fn push_qwen38_tail(&self, last: u32, rows: u32, n: Ghost<int>, ops: &mut Vec<Op>) -> (r:
        Result<bool, EngineError>)
        requires
            last == last_chunk(n@),
            last <= T_MAX,
            self.shape.rows_fit(last),
        ensures
            final(ops)@ == old(ops)@ + self.qwen38_tail(n@, rows).ops,
            r == outcome(self.qwen38_tail(n@, rows), rows),
    {
        let s: Shape = self.shape;
        proof {
            reveal(Model::qwen38_tail);
        }
        let ghost plan = self.qwen38_tail(n@, rows);
        if rows == 0 {
            assert(ops@ =~= old(ops)@ + plan.ops);
            return Ok(false);
        }
        if rows > last {
            assert(ops@ =~= old(ops)@ + plan.ops);
            return Err(EngineError::Qwen38RowsExceedChunk);
        }
        let w: Qwen38Hc = match self.output_hc {
            Some(w) => w,
            None => {
                assert(ops@ =~= old(ops)@ + plan.ops);
                return Err(EngineError::Qwen38NoOutputHc);
            },
        };
        push_hc_full(ops, s, hc_out_at(), w, last, false);
        push_head_rows(ops, s, last, rows);
        assert(ops@ =~= old(ops)@ + plan.ops);
        Ok(true)
    }

    /// Appends a chunk.
    fn eval_qwen38_chunk(
        &self,
        rt: &mut Qwen38Rt,
        chunk: &[u32],
        pos: u32,
        ctx: u32,
        skip_ple: bool,
        ops: &mut Vec<Op>,
    ) -> (r: Result<(), EngineError>)
        requires
            chunk@.len() <= T_MAX,
            self.qwen38_ready(*old(rt), T_MAX as u32, skip_ple),
            pos + chunk@.len() <= u32::MAX,
        ensures
            ({
                let run = self.qwen38_chunk(
                    old(rt).states@,
                    old(rt).ple_table,
                    old(rt).mem(),
                    chunk@,
                    pos,
                    ctx,
                    skip_ple,
                );
                &&& run.plan.appended(old(ops)@, final(ops)@, r)
                &&& final(rt).mem() == run.mem
                &&& final(rt).same_but_mem(*old(rt))
            }),
            self.qwen38_ready(*final(rt), T_MAX as u32, skip_ple),
    {
        proof {
            reveal(Model::qwen38_chunk);
        }
        let ghost run = self.qwen38_chunk(
            rt.states@,
            rt.ple_table,
            rt.mem(),
            chunk@,
            pos,
            ctx,
            skip_ple,
        );
        push_chunk_start(ops, self.shape, pos, chunk.len() as u32);
        proof {
            lemma_ready_shorter(*self, *rt, T_MAX as u32, chunk@.len() as u32, skip_ple);
        }
        let r = self.eval_qwen38_span(rt, chunk, pos, ctx, skip_ple, ops);
        proof {
            assert(ops@ =~= old(ops)@ + run.plan.ops);
            if self.embeds(skip_ple) {
                lemma_span_mem(
                    *self,
                    old(rt).states@,
                    old(rt).ple_table,
                    old(rt).mem(),
                    chunk@,
                    pos,
                    ctx,
                    self.layers@.len() as int,
                    skip_ple,
                );
            }
        }
        r
    }

    /// Appends a batch of tokens.
    pub fn forward_qwen38_inner(
        &self,
        rt: &mut Qwen38Rt,
        tokens: &[u32],
        pos0: u32,
        rows: u32,
        ctx: u32,
        current: i32,
        skip_ple: bool,
        ops: &mut Vec<Op>,
    ) -> (r: Result<bool, EngineError>)
        requires
            0 < tokens@.len(),
            self.qwen38_ready(*old(rt), T_MAX as u32, skip_ple),
            pos0 + tokens@.len() <= u32::MAX,
        ensures
            ({
                let run = self.qwen38_pass(
                    *old(rt),
                    tokens@,
                    pos0,
                    rows,
                    ctx,
                    current,
                    skip_ple,
                );
                &&& final(ops)@ == old(ops)@ + run.plan.ops
                &&& r == outcome(run.plan, rows)
                &&& final(rt).mem() == run.mem
                &&& final(rt).same_but_mem(*old(rt))
            }),
    {
        let ghost rt0 = *rt;
        let ghost run = self.qwen38_pass(rt0, tokens@, pos0, rows, ctx, current, skip_ple);
        if pos0 == 0 {
            rt.rt_reset(current, ops);
        }
        let ghost head = ops_if(
            pos0 == 0,
            reset_gdn(rt0.states@, rt0.states@.len() as int) + seq![Op::SetDevice(current)],
        );
        assert(ops@ =~= old(ops)@ + head);
        let ghost mem0 = rt.mem();
        let n: usize = tokens.len();
        let mut consumed: usize = 0;
        let ghost mut k: int = 0;
        let mut last: u32 = 0;
        let ghost before = ops@;
        let ghost total = n_chunks(n as int);
        assert(ops@ =~= before + self.qwen38_chunks(
            rt0.states@,
            rt0.ple_table,
            mem0,
            tokens@,
            pos0,
            ctx,
            0,
            skip_ple,
        ).plan.ops);
        while consumed < n
            invariant
                consumed <= n,
                n == tokens@.len(),
                0 < n,
                total == n_chunks(n as int),
                0 <= k <= total,
                consumed < n ==> consumed == k * T_MAX,
                consumed == n ==> k == total,
                k > 0 ==> last == chunk_of(tokens@, k - 1).len(),
                self.qwen38_ready(*rt, T_MAX as u32, skip_ple),
                pos0 + n <= u32::MAX,
                rt.same_but_mem(rt0),
                before == old(ops)@ + head,
                head == ops_if(
                    pos0 == 0,
                    reset_gdn(rt0.states@, rt0.states@.len() as int) + seq![
                        Op::SetDevice(current),
                    ],
                ),
                rt0 == *old(rt),
                mem0 == if pos0 == 0 {
                    (PleMem { tokens: Seq::empty(), next_pos: 0 })
                } else {
                    rt0.mem()
                },
                run == self.qwen38_pass(rt0, tokens@, pos0, rows, ctx, current, skip_ple),
                ({
                    let done = self.qwen38_chunks(
                        rt0.states@,
                        rt0.ple_table,
                        mem0,
                        tokens@,
                        pos0,
                        ctx,
                        k,
                        skip_ple,
                    );
                    &&& done.plan.end is Ok
                    &&& ops@ == before + done.plan.ops
                    &&& rt.mem() == done.mem
                }),
            decreases n - consumed,
        {
            let end: usize = if n - consumed > T_MAX {
                consumed + T_MAX
            } else {
                n
            };
            let chunk: &[u32] = &tokens[consumed..end];
            let t: u32 = (end - consumed) as u32;
            assert(chunk@ =~= chunk_of(tokens@, k));
            let ghost old_rt = *rt;
            let r = self.eval_qwen38_chunk(
                rt,
                chunk,
                pos0 + consumed as u32,
                ctx,
                skip_ple,
                ops,
            );
            proof {
                let done = self.qwen38_chunks(
                    rt0.states@,
                    rt0.ple_table,
                    mem0,
                    tokens@,
                    pos0,
                    ctx,
                    k + 1,
                    skip_ple,
                );
                assert(ops@ =~= before + done.plan.ops);
                assert(done.plan.end == r);
                if r is Err {
                    lemma_chunks_stopped(
                        *self,
                        rt0.states@,
                        rt0.ple_table,
                        mem0,
                        tokens@,
                        pos0,
                        ctx,
                        k + 1,
                        total,
                        skip_ple,
                    );
                    assert(ops@ =~= old(ops)@ + run.plan.ops);
                }
                k = k + 1;
            }
            if let Err(e) = r {
                return Err(e);
            }
            last = t;
            consumed = end;
        }
        proof {
            assert(last == last_chunk(n as int));
            lemma_rows_fit_shorter(self.shape, T_MAX as u32, last);
        }
        let r = self.push_qwen38_tail(last, rows, Ghost(n as int), ops);
        assert(ops@ =~= old(ops)@ + run.plan.ops);
        r
    }
}

/// What is remembered stays short.
proof fn lemma_span_mem(
    m: Model,
    states: Seq<Option<GdnState>>,
    table: Option<PleTable>,
    mem: PleMem,
    chunk: Seq<u32>,
    pos0: u32,
    ctx: u32,
    n: int,
    skip_ple: bool,
)
    requires
        1 <= m.shape.ple_ngram,
    ensures
        ({
            let after = m.qwen38_span(states, table, mem, chunk, pos0, ctx, n, skip_ple).mem;
            after.tokens.len() <= mem.tokens.len() || after.tokens.len() < m.shape.ple_ngram
        }),
    decreases n,
{
    if n > 0 {
        lemma_span_mem(m, states, table, mem, chunk, pos0, ctx, n - 1, skip_ple);
    }
}

/// What a call has to meet before anything runs.
pub open spec fn call_ok(n_tokens: nat, pos0: u32, rows: u32, ctx: u32) -> Result<
    (),
    EngineError,
> {
    if n_tokens == 0 {
        Err(EngineError::EmptyBatch)
    } else if rows > T_MAX {
        Err(EngineError::Qwen38RowsExceedVerify)
    } else {
        batch_ok(n_tokens, pos0, ctx)
    }
}

impl Model {
    /// Plans a batch.  Nothing runs where the batch is empty, asks for more rows
    /// than a chunk has, does not fit the context, or finds no runtime; the
    /// runtime stays with the state.
    pub fn forward_qwen38(
        &self,
        st: &mut State,
        tokens: &[u32],
        pos0: u32,
        rows: u32,
        current: i32,
        skip_ple: bool,
        ops: &mut Vec<Op>,
    ) -> (r: Result<bool, EngineError>)
        requires
            old(st).qwen38 matches Some(rt) ==> self.qwen38_ready(rt, T_MAX as u32, skip_ple),
        ensures
            final(st).ctx == old(st).ctx,
            final(st).k3 == old(st).k3,
            final(st).bailing == old(st).bailing,
            match (call_ok(tokens@.len(), pos0, rows, old(st).ctx), old(st).qwen38) {
                (Err(e), _) => r == Err::<bool, EngineError>(e) && final(ops)@ == old(ops)@
                    && final(st).qwen38 == old(st).qwen38,
                (Ok(_), None) => r == Err::<bool, EngineError>(EngineError::Qwen38StateMissing)
                    && final(ops)@ == old(ops)@ && final(st).qwen38 is None,
                (Ok(_), Some(rt)) => {
                    let run = self.qwen38_pass(
                        rt,
                        tokens@,
                        pos0,
                        rows,
                        old(st).ctx,
                        current,
                        skip_ple,
                    );
                    &&& final(ops)@ == old(ops)@ + run.plan.ops
                    &&& r == outcome(run.plan, rows)
                    &&& final(st).qwen38 matches Some(after) && after.mem() == run.mem
                        && after.same_but_mem(rt)
                },
            },
    {
        if tokens.len() == 0 {
            return Err(EngineError::EmptyBatch);
        }
        if rows as usize > T_MAX {
            return Err(EngineError::Qwen38RowsExceedVerify);
        }
        check_batch(tokens.len(), pos0, st.ctx)?;
        let taken = st.qwen38.take();
        match taken {
            None => Err(EngineError::Qwen38StateMissing),
            Some(mut rt) => {
                let r = self.forward_qwen38_inner(
                    &mut rt,
                    tokens,
                    pos0,
                    rows,
                    st.ctx,
                    current,
                    skip_ple,
                    ops,
                );
                st.qwen38 = Some(rt);
                r
            },
        }
    }
}

} // verus!
