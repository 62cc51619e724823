//! Ling 3.0 Flash (bailingmoe3) forward path.
//!
//! A token passes through blocks of five KDA layers and a gated
//! latent-attention layer, with a router that picks groups of experts first.
//! The decay of a KDA layer is projected directly, the latent attention rotates,
//! and its output gate is one value for each head.  One token runs at a time.
//!
//! A copy between cards is not ordered after the kernels of the card it reads,
//! so every such copy waits for that card first.

use crate::engine::bailing::blocks::{
    bailing_ffn, enter, ffn, hop_in, layer, mixer, push_enter, push_hop_in, push_mixer,
    push_rejoin, rejoin,
};
use crate::engine::blocks::{
    alloc_kda, batch_ok, check_batch, last_row_head, outcome, push_alloc_kda, push_last_row_head,
    push_reset, reset_all, KdaState, Place,
};
use crate::engine::error::EngineError;
use crate::engine::ops::{ops_if, Buf, Gw, Op, Plan, Sc, St};
use crate::engine::shape::{
    card_list, f32_bytes, is_card_list, larger, q8k_bytes, Attn, BailingW, LayerW, Model, Shape,
};
use crate::engine::state::State;
use vstd::prelude::*;

pub mod blocks;
pub mod cards;
pub mod hazards;
pub mod laws;
pub mod passes;
pub mod results;
pub mod values;

verus! {

/// Runtime of the Bailing path: recurrent states and scratch.
pub struct BailingRt {
    /// the primary card, fixed when the runtime was made
    pub primary: i32,
    pub states: Vec<Option<KdaState>>,
    /// cards with scratch
    pub scratch: Vec<i32>,
}

impl Model {
    /// The layer whose clamp its shared expert has, where it has one.
    pub open spec fn clamp_of(self, il: usize) -> Option<usize> {
        if il < self.n_clamp {
            Some(il)
        } else {
            None
        }
    }

    /// The plan of a layer of this model.
    pub open spec fn bailing_layer(self, rt: BailingRt, il: usize, pos: u32, ctx: u32) -> Plan {
        let at = Place { il, dev: self.attn_dev(il, rt.primary), primary: rt.primary };
        layer(
            self.shape,
            at,
            self.layers@[il as int],
            rt.scratch@,
            rt.states@[il as int],
            self.clamp_of(il),
            pos,
            ctx,
        )
    }

    /// Appends a layer.
    pub fn eval_bailing_layer(
        &self,
        rt: &BailingRt,
        il: usize,
        pos: u32,
        ctx: u32,
        ops: &mut Vec<Op>,
    ) -> (r: Result<(), EngineError>)
        requires
            il < self.layers@.len(),
            il < rt.states@.len(),
            self.shape.mixers_fit(),
            pos < u32::MAX,
        ensures
            self.bailing_layer(*rt, il, pos, ctx).appended(old(ops)@, final(ops)@, r),
    {
        let s: Shape = self.shape;
        let l: LayerW = self.layers[il];
        let at: Place = Place {
            il,
            dev: self.find_attn_dev(il, rt.primary),
            primary: rt.primary,
        };
        proof {
            reveal(layer);
        }
        let ghost plan = self.bailing_layer(*rt, il, pos, ctx);
        let w: BailingW = match l.attn {
            Attn::Bailing(w) => w,
            _ => {
                assert(ops@ =~= old(ops)@ + Seq::<Op>::empty());
                return Err(EngineError::BailingWrongAttn);
            },
        };
        let state: Option<KdaState> = rt.states[il];
        let clamp: Option<usize> = if il < self.n_clamp {
            Some(il)
        } else {
            None
        };
        push_enter(ops, s, il);
        let ghost p1 = Plan::of(enter(s, il));
        let r = push_hop_in(ops, s, at, &rt.scratch);
        let ghost p2 = p1.and(hop_in(s, at, rt.scratch@));
        assert(ops@ =~= old(ops)@ + p2.ops);
        if r.is_err() {
            return r;
        }
        let r = push_mixer(ops, s, at, w, &rt.scratch, state, pos, ctx);
        let ghost p3 = p2.and(mixer(s, at, w, rt.scratch@, state, pos, ctx));
        assert(ops@ =~= old(ops)@ + p3.ops);
        if r.is_err() {
            return r;
        }
        push_rejoin(ops, s, il);
        let ghost p4 = p3.and(Plan::of(rejoin(s, il)));
        assert(ops@ =~= old(ops)@ + p4.ops);
        let r = bailing_ffn(ops, s, il, l, clamp);
        let ghost p5 = p4.and(ffn(s, il, l, clamp));
        assert(ops@ =~= old(ops)@ + p5.ops);
        if r.is_err() {
            return r;
        }
        ops.push(
            Op::Add {
                out: Buf::State(St::Cur),
                a: Buf::State(St::AfterAttn),
                b: Buf::State(St::FfnOut),
                n: s.n_embd,
            },
        );
        assert(ops@ =~= old(ops)@ + plan.ops);
        Ok(())
    }

    /// The runtime and the model belong together.
    pub open spec fn bailing_ready(self, rt: BailingRt) -> bool {
        &&& self.shape.n_exec_layer <= self.layers@.len()
        &&& self.shape.n_exec_layer <= rt.states@.len()
        &&& self.shape.mixers_fit()
    }

    /// The first `n` layers, one after the other.
    pub open spec fn bailing_layers(self, rt: BailingRt, n: int, pos: u32, ctx: u32) -> Plan
        decreases n,
    {
        if n <= 0 {
            Plan::of(Seq::empty())
        } else {
            self.bailing_layers(rt, n - 1, pos, ctx).and(
                self.bailing_layer(rt, (n - 1) as usize, pos, ctx),
            )
        }
    }

    /// A token: its embedding, every layer, and the primary card current.
    pub open spec fn bailing_token(self, rt: BailingRt, tok: u32, pos: u32, ctx: u32) -> Plan {
        Plan::of(
            seq![
                Op::WriteToken(tok),
                Op::Embed {
                    out: Buf::State(St::Cur),
                    table: Buf::Global(Gw::TokenEmbd),
                    n_embd: self.shape.n_embd,
                    n_vocab: self.shape.n_vocab,
                    t: 1,
                },
            ],
        ).and(self.bailing_layers(rt, self.shape.n_exec_layer as int, pos, ctx)).and(
            Plan::of(seq![Op::SetDevice(rt.primary)]),
        )
    }

    /// The first `n` tokens of a batch.
    pub open spec fn bailing_tokens(
        self,
        rt: BailingRt,
        tokens: Seq<u32>,
        n: int,
        pos0: u32,
        ctx: u32,
    ) -> Plan
        decreases n,
    {
        if n <= 0 {
            Plan::of(Seq::empty())
        } else {
            self.bailing_tokens(rt, tokens, n - 1, pos0, ctx).and(
                self.bailing_token(rt, tokens[n - 1], (pos0 + n - 1) as u32, ctx),
            )
        }
    }

    /// What follows the tokens: nothing where no row is asked for, else the norm
    /// and the head on the last row.
    pub open spec fn bailing_tail(self, rows: u32) -> Plan {
        if rows == 0 {
            Plan::of(Seq::empty())
        } else if rows != 1 {
            Plan::fail(EngineError::BailingOneRow)
        } else if self.output_norm {
            Plan::of(last_row_head(self.shape))
        } else {
            Plan::fail(EngineError::OutputNormMissing)
        }
    }

    /// A batch: where it starts a sequence the states are cleared, then come the
    /// tokens and the head.
    pub open spec fn bailing_pass(
        self,
        rt: BailingRt,
        tokens: Seq<u32>,
        pos0: u32,
        rows: u32,
        ctx: u32,
        current: i32,
    ) -> Plan {
        Plan::of(
            ops_if(pos0 == 0, reset_all(rt.states@, current)) + seq![Op::SetDevice(rt.primary)],
        ).and(self.bailing_tokens(rt, tokens, tokens.len() as int, pos0, ctx)).and(
            self.bailing_tail(rows),
        )
    }

    /// Appends one token.
    fn eval_bailing_token(
        &self,
        rt: &BailingRt,
        tok: u32,
        pos: u32,
        ctx: u32,
        ops: &mut Vec<Op>,
    ) -> (r: Result<(), EngineError>)
        requires
            self.bailing_ready(*rt),
            pos < u32::MAX,
        ensures
            self.bailing_token(*rt, tok, pos, ctx).appended(old(ops)@, final(ops)@, r),
    {
        let s: Shape = self.shape;
        let n_layers: usize = s.n_exec_layer as usize;
        ops.push(Op::WriteToken(tok));
        ops.push(
            Op::Embed {
                out: Buf::State(St::Cur),
                table: Buf::Global(Gw::TokenEmbd),
                n_embd: s.n_embd,
                n_vocab: s.n_vocab,
                t: 1,
            },
        );
        let ghost before = ops@;
        let ghost head = seq![
            Op::WriteToken(tok),
            Op::Embed {
                out: Buf::State(St::Cur),
                table: Buf::Global(Gw::TokenEmbd),
                n_embd: s.n_embd,
                n_vocab: s.n_vocab,
                t: 1,
            },
        ];
        assert(before =~= old(ops)@ + head);
        let ghost plan = self.bailing_token(*rt, tok, pos, ctx);
        let mut il: usize = 0;
        assert(before + self.bailing_layers(*rt, 0, pos, ctx).ops =~= before);
        while il < n_layers
            invariant
                il <= n_layers,
                n_layers == self.shape.n_exec_layer,
                self.bailing_ready(*rt),
                pos < u32::MAX,
                self.bailing_layers(*rt, il as int, pos, ctx).end is Ok,
                ops@ == before + self.bailing_layers(*rt, il as int, pos, ctx).ops,
                before == old(ops)@ + head,
                plan == self.bailing_token(*rt, tok, pos, ctx),
                plan == Plan::of(head).and(
                    self.bailing_layers(*rt, n_layers as int, pos, ctx),
                ).and(Plan::of(seq![Op::SetDevice(rt.primary)])),
            decreases n_layers - il,
        {
            let r = self.eval_bailing_layer(rt, il, pos, ctx, ops);
            proof {
                let done = self.bailing_layers(*rt, il + 1, pos, ctx);
                assert(ops@ =~= before + done.ops);
                assert(done.end == r);
                if r is Err {
                    lemma_bailing_stopped(*self, *rt, il + 1, n_layers as int, pos, ctx);
                    assert(ops@ =~= old(ops)@ + plan.ops);
                }
            }
            if r.is_err() {
                return r;
            }
            il = il + 1;
        }
        ops.push(Op::SetDevice(rt.primary));
        assert(ops@ =~= old(ops)@ + plan.ops);
        Ok(())
    }

    fn push_bailing_tail(&self, rows: u32, ops: &mut Vec<Op>) -> (r: Result<bool, EngineError>)
        ensures
            final(ops)@ == old(ops)@ + self.bailing_tail(rows).ops,
            r == outcome(self.bailing_tail(rows), rows),
    {
        let ghost plan = self.bailing_tail(rows);
        if rows == 0 {
            assert(ops@ =~= old(ops)@ + plan.ops);
            return Ok(false);
        }
        if rows != 1 {
            assert(ops@ =~= old(ops)@ + plan.ops);
            return Err(EngineError::BailingOneRow);
        }
        if !self.output_norm {
            assert(ops@ =~= old(ops)@ + plan.ops);
            return Err(EngineError::OutputNormMissing);
        }
        push_last_row_head(ops, self.shape);
        Ok(true)
    }

    /// Appends a batch of tokens.
    pub fn forward_bailing_inner(
        &self,
        rt: &BailingRt,
        tokens: &[u32],
        pos0: u32,
        rows: u32,
        ctx: u32,
        current: i32,
        ops: &mut Vec<Op>,
    ) -> (r: Result<bool, EngineError>)
        requires
            self.bailing_ready(*rt),
            pos0 + tokens@.len() <= u32::MAX,
        ensures
            final(ops)@ == old(ops)@ + self.bailing_pass(
                *rt,
                tokens@,
                pos0,
                rows,
                ctx,
                current,
            ).ops,
            r == outcome(self.bailing_pass(*rt, tokens@, pos0, rows, ctx, current), rows),
    {
        let ghost plan = self.bailing_pass(*rt, tokens@, pos0, rows, ctx, current);
        if pos0 == 0 {
            rt.reset(current, ops);
        }
        ops.push(Op::SetDevice(rt.primary));
        let ghost head = ops_if(pos0 == 0, reset_all(rt.states@, current)) + seq![
            Op::SetDevice(rt.primary),
        ];
        assert(ops@ =~= old(ops)@ + head);
        let n: usize = tokens.len();
        let mut i: usize = 0;
        let ghost before = ops@;
        assert(ops@ =~= before + self.bailing_tokens(*rt, tokens@, 0, pos0, ctx).ops);
        while i < n
            invariant
                i <= n,
                n == tokens@.len(),
                self.bailing_ready(*rt),
                pos0 + n <= u32::MAX,
                self.bailing_tokens(*rt, tokens@, i as int, pos0, ctx).end is Ok,
                ops@ == before + self.bailing_tokens(*rt, tokens@, i as int, pos0, ctx).ops,
                before == old(ops)@ + head,
                head == ops_if(pos0 == 0, reset_all(rt.states@, current)) + seq![
                    Op::SetDevice(rt.primary),
                ],
                plan == self.bailing_pass(*rt, tokens@, pos0, rows, ctx, current),
            decreases n - i,
        {
            let r = self.eval_bailing_token(rt, tokens[i], pos0 + i as u32, ctx, ops);
            proof {
                let done = self.bailing_tokens(*rt, tokens@, i + 1, pos0, ctx);
                assert(ops@ =~= before + done.ops);
                assert(done.end == r);
                if r is Err {
                    lemma_bailing_tokens_stopped(
                        *self,
                        *rt,
                        tokens@,
                        i + 1,
                        n as int,
                        pos0,
                        ctx,
                    );
                    assert(ops@ =~= old(ops)@ + plan.ops);
                }
            }
            if let Err(e) = r {
                return Err(e);
            }
            i = i + 1;
        }
        let r = self.push_bailing_tail(rows, ops);
        assert(ops@ =~= old(ops)@ + plan.ops);
        r
    }

    /// Plans a batch.  Nothing runs where the batch is empty, does not fit the
    /// context, or finds no runtime.
    pub fn forward_bailing(
        &self,
        st: &State,
        tokens: &[u32],
        pos0: u32,
        rows: u32,
        current: i32,
        ops: &mut Vec<Op>,
    ) -> (r: Result<bool, EngineError>)
        requires
            st.bailing matches Some(rt) ==> self.bailing_ready(rt),
        ensures
            match (batch_ok(tokens@.len(), pos0, st.ctx), st.bailing) {
                (Err(e), _) => r == Err::<bool, EngineError>(e) && final(ops)@ == old(ops)@,
                (Ok(_), None) => r == Err::<bool, EngineError>(EngineError::BailingStateMissing)
                    && final(ops)@ == old(ops)@,
                (Ok(_), Some(rt)) => {
                    let plan = self.bailing_pass(rt, tokens@, pos0, rows, st.ctx, current);
                    final(ops)@ == old(ops)@ + plan.ops && r == outcome(plan, rows)
                },
            },
    {
        check_batch(tokens.len(), pos0, st.ctx)?;
        match &st.bailing {
            None => Err(EngineError::BailingStateMissing),
            Some(rt) => self.forward_bailing_inner(rt, tokens, pos0, rows, st.ctx, current, ops),
        }
    }
}

/// Once the layers have stopped, none of the later ones begins.
proof fn lemma_bailing_stopped(m: Model, rt: BailingRt, a: int, b: int, pos: u32, ctx: u32)
    requires
        0 <= a <= b,
        m.bailing_layers(rt, a, pos, ctx).end is Err,
    ensures
        m.bailing_layers(rt, b, pos, ctx) == m.bailing_layers(rt, a, pos, ctx),
    decreases b - a,
{
    if a < b {
        lemma_bailing_stopped(m, rt, a, b - 1, pos, ctx);
    }
}

/// Once the tokens have stopped, none of the later ones begins.
proof fn lemma_bailing_tokens_stopped(
    m: Model,
    rt: BailingRt,
    tokens: Seq<u32>,
    a: int,
    b: int,
    pos0: u32,
    ctx: u32,
)
    requires
        0 <= a <= b,
        m.bailing_tokens(rt, tokens, a, pos0, ctx).end is Err,
    ensures
        m.bailing_tokens(rt, tokens, b, pos0, ctx) == m.bailing_tokens(rt, tokens, a, pos0, ctx),
    decreases b - a,
{
    if a < b {
        lemma_bailing_tokens_stopped(m, rt, tokens, a, b - 1, pos0, ctx);
    }
}

pub open spec fn spec_widest(s: Shape) -> u32 {
    larger(larger(larger(s.n_embd, s.d_inner()), s.mla_out()), s.n_ff_exp)
}

/// The widest row that is quantized into the shared q8_K scratch.
#[verifier::when_used_as_spec(spec_widest)]
pub fn widest(s: Shape) -> (r: u32)
    requires
        s.mixers_fit(),
    ensures
        r == spec_widest(s),
{
    larger(larger(larger(s.n_embd, s.d_inner()), s.mla_out()), s.n_ff_exp)
}

pub open spec fn spec_scratch_bytes(s: Shape, ctx: u32, b: Sc) -> u64 {
    match b {
        Sc::NormedA => f32_bytes(s.n_embd),
        Sc::AttnOutA => f32_bytes(s.n_embd),
        Sc::Xq => q8k_bytes(widest(s)),
        Sc::Q => f32_bytes(s.d_inner()),
        Sc::K => f32_bytes(s.d_inner()),
        Sc::V => f32_bytes(s.d_inner()),
        Sc::Cq => f32_bytes(s.d_inner()),
        Sc::Ck => f32_bytes(s.d_inner()),
        Sc::Cv => f32_bytes(s.d_inner()),
        Sc::G => f32_bytes(s.d_inner()),
        Sc::Beta => f32_bytes(s.n_head),
        Sc::O => f32_bytes(s.d_inner()),
        Sc::Gate => f32_bytes(s.d_inner()),
        Sc::Mq => f32_bytes(s.mla_q()),
        Sc::KvRaw => f32_bytes(s.kv_raw()),
        Sc::KvNorm => f32_bytes(s.n_kv_lora),
        Sc::QkLow => f32_bytes(s.mla_low()),
        Sc::Heads => f32_bytes(s.mla_out()),
        Sc::Selected => f32_bytes(ctx),
        _ => 0,
    }
}

/// Bytes of a scratch buffer; none of those that this path does not have.
#[verifier::when_used_as_spec(spec_scratch_bytes)]
pub fn scratch_bytes(s: Shape, ctx: u32, b: Sc) -> (r: u64)
    requires
        s.mixers_fit(),
    ensures
        r == spec_scratch_bytes(s, ctx, b),
{
    match b {
        Sc::NormedA => f32_bytes(s.n_embd),
        Sc::AttnOutA => f32_bytes(s.n_embd),
        Sc::Xq => q8k_bytes(widest(s)),
        Sc::Q => f32_bytes(s.d_inner()),
        Sc::K => f32_bytes(s.d_inner()),
        Sc::V => f32_bytes(s.d_inner()),
        Sc::Cq => f32_bytes(s.d_inner()),
        Sc::Ck => f32_bytes(s.d_inner()),
        Sc::Cv => f32_bytes(s.d_inner()),
        Sc::G => f32_bytes(s.d_inner()),
        Sc::Beta => f32_bytes(s.n_head),
        Sc::O => f32_bytes(s.d_inner()),
        Sc::Gate => f32_bytes(s.d_inner()),
        Sc::Mq => f32_bytes(s.mla_q()),
        Sc::KvRaw => f32_bytes(s.kv_raw()),
        Sc::KvNorm => f32_bytes(s.n_kv_lora),
        Sc::QkLow => f32_bytes(s.mla_low()),
        Sc::Heads => f32_bytes(s.mla_out()),
        Sc::Selected => f32_bytes(ctx),
        _ => 0,
    }
}

/// The scratch of a card, in the order it is allocated.
pub open spec fn scratch_list() -> Seq<Sc> {
    seq![
        Sc::NormedA,
        Sc::AttnOutA,
        Sc::Xq,
        Sc::Q,
        Sc::K,
        Sc::V,
        Sc::Cq,
        Sc::Ck,
        Sc::Cv,
        Sc::G,
        Sc::Beta,
        Sc::O,
        Sc::Gate,
        Sc::Mq,
        Sc::KvRaw,
        Sc::KvNorm,
        Sc::QkLow,
        Sc::Heads,
        Sc::Selected,
    ]
}

fn make_scratch_list() -> (v: Vec<Sc>)
    ensures
        v@ == scratch_list(),
{
    let v: Vec<Sc> = vec![
        Sc::NormedA,
        Sc::AttnOutA,
        Sc::Xq,
        Sc::Q,
        Sc::K,
        Sc::V,
        Sc::Cq,
        Sc::Ck,
        Sc::Cv,
        Sc::G,
        Sc::Beta,
        Sc::O,
        Sc::Gate,
        Sc::Mq,
        Sc::KvRaw,
        Sc::KvNorm,
        Sc::QkLow,
        Sc::Heads,
        Sc::Selected,
    ];
    assert(v@ =~= scratch_list());
    v
}

/// Allocates the scratch of a card.
pub open spec fn scratch_ops(s: Shape, dev: i32, ctx: u32) -> Seq<Op> {
    seq![Op::SetDevice(dev)] + Seq::new(
        scratch_list().len(),
        |i: int|
            Op::Alloc {
                buf: Buf::Scratch(dev, scratch_list()[i]),
                bytes: scratch_bytes(s, ctx, scratch_list()[i]),
            },
    )
}

fn push_scratch(ops: &mut Vec<Op>, s: Shape, dev: i32, ctx: u32)
    requires
        s.mixers_fit(),
    ensures
        final(ops)@ == old(ops)@ + scratch_ops(s, dev, ctx),
{
    ops.push(Op::SetDevice(dev));
    let list: Vec<Sc> = make_scratch_list();
    let mut i: usize = 0;
    while i < list.len()
        invariant
            i <= list@.len(),
            list@ == scratch_list(),
            s.mixers_fit(),
            ops@ == old(ops)@ + scratch_ops(s, dev, ctx).take(i + 1),
        decreases list@.len() - i,
    {
        ops.push(
            Op::Alloc { buf: Buf::Scratch(dev, list[i]), bytes: scratch_bytes(s, ctx, list[i]) },
        );
        i = i + 1;
        assert(ops@ =~= old(ops)@ + scratch_ops(s, dev, ctx).take(i + 1));
    }
    assert(ops@ =~= old(ops)@ + scratch_ops(s, dev, ctx));
}

/// The scratch of the first `n` cards.
pub open spec fn scratch_all(s: Shape, cards: Seq<i32>, n: int, ctx: u32) -> Seq<Op>
    decreases n,
{
    if n <= 0 {
        Seq::empty()
    } else {
        scratch_all(s, cards, n - 1, ctx) + scratch_ops(s, cards[n - 1], ctx)
    }
}

impl Model {
    /// The recurrent state of a layer; only a KDA layer has one.
    pub open spec fn bailing_state(self, il: int, primary: i32) -> Option<KdaState> {
        match self.layers@[il].attn {
            Attn::Bailing(w) => if w.kda is Some {
                Some(
                    KdaState {
                        dev: self.attn_dev(il as usize, primary),
                        s_bytes: self.shape.kda_state_bytes(),
                        conv_bytes: self.shape.kda_conv_bytes(),
                    },
                )
            } else {
                None
            },
            _ => None,
        }
    }

    /// Allocates the recurrent states of the first `n` layers.
    pub open spec fn bailing_alloc_states(self, n: int, primary: i32) -> Seq<Op>
        decreases n,
    {
        if n <= 0 {
            Seq::empty()
        } else {
            self.bailing_alloc_states(n - 1, primary) + match self.bailing_state(n - 1, primary) {
                Some(k) => alloc_kda((n - 1) as usize, k),
                None => Seq::empty(),
            }
        }
    }
}

impl BailingRt {
    /// Clears every recurrent state.
    pub fn reset(&self, current: i32, ops: &mut Vec<Op>)
        ensures
            final(ops)@ == old(ops)@ + reset_all(self.states@, current),
    {
        push_reset(ops, &self.states, current);
    }

    /// Makes the runtime: a state for each KDA layer on its card, and scratch on
    /// every card that has a layer and on the primary.  `primary` is the card
    /// that is current.
    pub fn new(m: &Model, ctx: u32, primary: i32, ops: &mut Vec<Op>) -> (rt: BailingRt)
        requires
            m.shape.n_exec_layer <= m.layers@.len(),
            m.shape.kda_states_fit(),
        ensures
            rt.primary == primary,
            rt.states@ == Seq::new(
                m.shape.n_exec_layer as nat,
                |il: int| m.bailing_state(il, primary),
            ),
            is_card_list(m.attn_layer_dev@, primary, rt.scratch@),
            final(ops)@ == old(ops)@ + m.bailing_alloc_states(
                m.shape.n_exec_layer as int,
                primary,
            ) + scratch_all(m.shape, rt.scratch@, rt.scratch@.len() as int, ctx) + seq![
                Op::SetDevice(primary),
            ],
            m.bailing_ready(rt),
    {
        let s: Shape = m.shape;
        let n: usize = s.n_exec_layer as usize;
        let mut states: Vec<Option<KdaState>> = Vec::new();
        let mut il: usize = 0;
        assert(ops@ =~= old(ops)@ + m.bailing_alloc_states(0, primary));
        while il < n
            invariant
                il <= n,
                n == s.n_exec_layer,
                n <= m.layers@.len(),
                s == m.shape,
                s.kda_states_fit(),
                states@ == Seq::new(il as nat, |i: int| m.bailing_state(i, primary)),
                ops@ == old(ops)@ + m.bailing_alloc_states(il as int, primary),
            decreases n - il,
        {
            let is_kda: bool = match m.layers[il].attn {
                Attn::Bailing(w) => w.kda.is_some(),
                _ => false,
            };
            if is_kda {
                let k: KdaState = KdaState {
                    dev: m.find_attn_dev(il, primary),
                    s_bytes: s.kda_state_bytes(),
                    conv_bytes: s.kda_conv_bytes(),
                };
                push_alloc_kda(ops, il, k);
                states.push(Some(k));
            } else {
                states.push(None);
            }
            il = il + 1;
            assert(states@ =~= Seq::new(il as nat, |i: int| m.bailing_state(i, primary)));
            assert(ops@ =~= old(ops)@ + m.bailing_alloc_states(il as int, primary));
        }
        let ghost mid = ops@;
        let scratch: Vec<i32> = card_list(&m.attn_layer_dev, primary);
        let mut i: usize = 0;
        assert(ops@ =~= mid + scratch_all(s, scratch@, 0, ctx));
        while i < scratch.len()
            invariant
                i <= scratch@.len(),
                s.mixers_fit(),
                ops@ == mid + scratch_all(s, scratch@, i as int, ctx),
            decreases scratch@.len() - i,
        {
            push_scratch(ops, s, scratch[i], ctx);
            i = i + 1;
            assert(ops@ =~= mid + scratch_all(s, scratch@, i as int, ctx));
        }
        ops.push(Op::SetDevice(primary));
        BailingRt { primary, states, scratch }
    }
}

} // verus!
