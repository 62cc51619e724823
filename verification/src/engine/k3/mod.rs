//! Kimi-K3 forward path.
//!
//! A token passes through blocks of three KDA layers and a gated
//! latent-attention layer.  On top of that stand attention residuals over depth
//! and experts that run in a latent space.  One token runs at a time; a prompt
//! is a loop over its tokens.
//!
//! The rotary tail of queries and keys is kept but never rotated: the attention
//! gets the identity rotation, and the queries' tail goes through no rotation.

use crate::engine::blocks::{
    alloc_kda, batch_ok, check_batch, last_row_head, outcome, push_alloc_kda, push_last_row_head,
    push_reset, reset_all, KdaState, Place,
};
use crate::engine::error::EngineError;
use crate::engine::k3::blocks::{
    attn_res, banks, enter, entered, ffn, hop_in, k3_ffn, layer, make_attn_res, mixer, push_enter,
    push_hop_in, push_mixer, push_rejoin, rejoin,
};
use crate::engine::ops::{ops_if, Buf, Gw, K3Buf, Op, Plan, Sc, St};
use crate::engine::shape::{
    card_list, f32_bytes, is_card_list, larger, q8k_bytes, Attn, K3W, LayerW, Model, Shape,
};
use crate::engine::state::State;
use vstd::arithmetic::div_mod::{
    lemma_div_basics_2, lemma_div_is_ordered, lemma_div_pos_is_pos, lemma_fundamental_div_mod,
    lemma_fundamental_div_mod_converse,
};
use vstd::prelude::*;

pub mod blocks;
pub mod cards;
pub mod drains;
pub mod hazards;
pub mod laws;
pub mod passes;
pub mod results;
pub mod tensors;
pub mod values;
pub mod widths;

verus! {

/// Runtime of the K3 path: recurrent states, scratch and the checkpoint bank.
pub struct K3Rt {
    /// the primary card, fixed when the runtime was made; which card is current
    /// later says nothing about it
    pub primary: i32,
    pub states: Vec<Option<KdaState>>,
    /// cards with scratch
    pub scratch: Vec<i32>,
    /// checkpoints that are live for the token in flight
    pub n_ckpt: u32,
}

impl Model {
    /// The plan of a layer of this model.
    pub open spec fn k3_layer(
        self,
        rt: K3Rt,
        il: usize,
        n_ckpt: u32,
        pos: u32,
        ctx: u32,
    ) -> Plan {
        let at = Place { il, dev: self.attn_dev(il, rt.primary), primary: rt.primary };
        layer(
            self.shape,
            at,
            self.layers@[il as int],
            rt.scratch@,
            rt.states@[il as int],
            n_ckpt,
            pos,
            ctx,
        )
    }

    /// Live checkpoints after a layer.
    pub open spec fn k3_ckpt_after(self, il: usize, n_ckpt: u32) -> u32 {
        if self.layers@[il as int].attn is K3 {
            entered(self.shape, il, n_ckpt)
        } else {
            n_ckpt
        }
    }

    /// Appends a layer.
    pub fn eval_k3_layer(
        &self,
        rt: &mut K3Rt,
        il: usize,
        pos: u32,
        ctx: u32,
        ops: &mut Vec<Op>,
    ) -> (r: Result<(), EngineError>)
        requires
            il < self.layers@.len(),
            il < old(rt).states@.len(),
            self.shape.mixers_fit(),
            banks(self.shape, il as int) ==> old(rt).n_ckpt < u32::MAX && old(rt).n_ckpt
                * self.shape.n_embd * 4 <= u64::MAX,
            pos < u32::MAX,
        ensures
            self.k3_layer(*old(rt), il, old(rt).n_ckpt, pos, ctx).appended(
                old(ops)@,
                final(ops)@,
                r,
            ),
            *final(rt) == (K3Rt { n_ckpt: self.k3_ckpt_after(il, old(rt).n_ckpt), ..*old(rt) }),
    {
        let s: Shape = self.shape;
        let l: LayerW = self.layers[il];
        let at: Place = Place {
            il,
            dev: self.find_attn_dev(il, rt.primary),
            primary: rt.primary,
        };
        proof {
            reveal(layer);
        }
        let ghost plan = self.k3_layer(*rt, il, rt.n_ckpt, pos, ctx);
        let ghost n0 = rt.n_ckpt;
        let w: K3W = match l.attn {
            Attn::K3(w) => w,
            _ => {
                assert(ops@ =~= old(ops)@ + Seq::<Op>::empty());
                return Err(EngineError::K3WrongAttn);
            },
        };
        let state: Option<KdaState> = rt.states[il];
        let n_ckpt: u32 = push_enter(ops, s, il, rt.n_ckpt);
        rt.n_ckpt = n_ckpt;
        let ghost p1 = Plan::of(enter(s, il, n0));
        let r = push_hop_in(ops, s, at, &rt.scratch);
        let ghost p2 = p1.and(hop_in(s, at, rt.scratch@));
        assert(ops@ =~= old(ops)@ + p2.ops);
        if r.is_err() {
            return r;
        }
        let r = push_mixer(ops, s, at, w, &rt.scratch, state, pos, ctx);
        let ghost p3 = p2.and(mixer(s, at, w, rt.scratch@, state, pos, ctx));
        assert(ops@ =~= old(ops)@ + p3.ops);
        if r.is_err() {
            return r;
        }
        push_rejoin(ops, s, il, n_ckpt);
        let ghost p4 = p3.and(Plan::of(rejoin(s, il, n_ckpt)));
        assert(ops@ =~= old(ops)@ + p4.ops);
        let r = k3_ffn(ops, s, at, l, w, &rt.scratch);
        let ghost p5 = p4.and(ffn(s, at, l, w, rt.scratch@));
        assert(ops@ =~= old(ops)@ + p5.ops);
        if r.is_err() {
            return r;
        }
        ops.push(
            Op::Add {
                out: Buf::State(St::Cur),
                a: Buf::State(St::AfterAttn),
                b: Buf::State(St::FfnOut),
                n: s.n_embd,
            },
        );
        assert(ops@ =~= old(ops)@ + plan.ops);
        Ok(())
    }
}

/// Checkpoints that the layers before `il` bank.
pub open spec fn banked(s: Shape, il: int) -> int {
    if s.attn_res_block == 0 {
        0
    } else {
        (il + s.attn_res_block - 1) / (s.attn_res_block as int)
    }
}

/// Rows of the checkpoint bank: one for each layer that banks, at least one.
pub open spec fn bank_rows(s: Shape) -> int {
    let n = banked(s, s.n_exec_layer as int);
    if n < 1 {
        1
    } else {
        n
    }
}

/// A layer adds to the banked checkpoints exactly where it banks, and there the
/// bank still has a row for it.
pub proof fn bank_has_room(s: Shape, il: int)
    requires
        0 <= il < s.n_exec_layer,
    ensures
        banked(s, 0) == 0,
        banked(s, il + 1) == banked(s, il) + if banks(s, il) {
            1int
        } else {
            0int
        },
        banks(s, il) ==> 0 <= banked(s, il) < bank_rows(s),
        0 <= banked(s, il) <= bank_rows(s),
{
    if s.attn_res_block > 0 {
        let b = s.attn_res_block as int;
        let n = s.n_exec_layer as int;
        let q = il / b;
        let r = il % b;
        lemma_fundamental_div_mod(il, b);
        assert(b * q == q * b) by (nonlinear_arith);
        assert((q + 1) * b == q * b + b) by (nonlinear_arith);
        lemma_div_basics_2(b);
        assert(banked(s, 0) == 0) by {
            lemma_fundamental_div_mod_converse(b - 1, b, 0, b - 1);
        }
        lemma_div_pos_is_pos(il, b);
        if r == 0 {
            lemma_fundamental_div_mod_converse(il + b - 1, b, q, b - 1);
            lemma_fundamental_div_mod_converse(il + b, b, q + 1, 0);
        } else {
            lemma_fundamental_div_mod_converse(il + b - 1, b, q + 1, r - 1);
            lemma_fundamental_div_mod_converse(il + b, b, q + 1, r);
        }
        lemma_div_is_ordered(il + b, n + b - 1, b);
    }
}

impl Model {
    /// The runtime and the model belong together, and the bank's size fits its
    /// type.
    pub open spec fn k3_ready(self, rt: K3Rt) -> bool {
        &&& self.shape.n_exec_layer <= self.layers@.len()
        &&& self.shape.n_exec_layer <= rt.states@.len()
        &&& self.shape.mixers_fit()
        &&& bank_rows(self.shape) * self.shape.n_embd * 4 <= u64::MAX
    }

    /// The first `n` layers, one after the other.
    pub open spec fn k3_layers(self, rt: K3Rt, n: int, pos: u32, ctx: u32) -> Plan
        decreases n,
    {
        if n <= 0 {
            Plan::of(Seq::empty())
        } else {
            self.k3_layers(rt, n - 1, pos, ctx).and(
                self.k3_layer(
                    rt,
                    (n - 1) as usize,
                    banked(self.shape, n - 1) as u32,
                    pos,
                    ctx,
                ),
            )
        }
    }

    /// How many of the first `n` layers begin: all, up to the first that ends in
    /// an error.
    pub open spec fn k3_begun(self, rt: K3Rt, n: int, pos: u32, ctx: u32) -> int
        decreases n,
    {
        if n <= 0 {
            0
        } else if self.k3_layers(rt, n - 1, pos, ctx).end is Err {
            self.k3_begun(rt, n - 1, pos, ctx)
        } else {
            n
        }
    }

    /// Live checkpoints once the first `n` layers have begun and not ended in an
    /// error, or stopped at the one that did.
    pub open spec fn k3_live(self, rt: K3Rt, n: int, pos: u32, ctx: u32) -> u32 {
        let k = self.k3_begun(rt, n, pos, ctx);
        if k == 0 {
            0
        } else {
            self.k3_ckpt_after((k - 1) as usize, banked(self.shape, k - 1) as u32)
        }
    }

    /// A token: its embedding, every layer, and the primary card current.
    pub open spec fn k3_token(self, rt: K3Rt, tok: u32, pos: u32, ctx: u32) -> Plan {
        Plan::of(
            seq![
                Op::WriteToken(tok),
                Op::Embed {
                    out: Buf::State(St::Cur),
                    table: Buf::Global(Gw::TokenEmbd),
                    n_embd: self.shape.n_embd,
                    n_vocab: self.shape.n_vocab,
                    t: 1,
                },
            ],
        ).and(self.k3_layers(rt, self.shape.n_exec_layer as int, pos, ctx)).and(
            Plan::of(seq![Op::SetDevice(rt.primary)]),
        )
    }

    /// The first `n` tokens of a batch.
    pub open spec fn k3_tokens(
        self,
        rt: K3Rt,
        tokens: Seq<u32>,
        n: int,
        pos0: u32,
        ctx: u32,
    ) -> Plan
        decreases n,
    {
        if n <= 0 {
            Plan::of(Seq::empty())
        } else {
            self.k3_tokens(rt, tokens, n - 1, pos0, ctx).and(
                self.k3_token(rt, tokens[n - 1], (pos0 + n - 1) as u32, ctx),
            )
        }
    }

    /// What follows the tokens: nothing where no row is asked for, else the last
    /// mix over the whole bank, the norm and the head on the last row.
    pub open spec fn k3_tail(self, rows: u32) -> Plan {
        let s = self.shape;
        if rows == 0 {
            Plan::of(Seq::empty())
        } else if rows != 1 {
            Plan::fail(EngineError::K3OneRow)
        } else {
            (if s.attn_res_block == 0 {
                Plan::of(Seq::empty())
            } else if !self.output_res_score {
                Plan::fail(EngineError::K3OutputResScoreMissing)
            } else {
                Plan::of(
                    seq![
                        attn_res(
                            s,
                            Buf::State(St::Cur),
                            Buf::Global(Gw::OutputResScore),
                            banked(s, s.n_exec_layer as int) as u32,
                        ),
                        Op::CopyD2d {
                            dst: Buf::State(St::Cur),
                            dst_off: 0,
                            src: Buf::K3(K3Buf::Mixed),
                            src_off: 0,
                            bytes: f32_bytes(s.n_embd),
                        },
                    ],
                )
            }).and(
                if self.output_norm {
                    Plan::of(last_row_head(s))
                } else {
                    Plan::fail(EngineError::OutputNormMissing)
                },
            )
        }
    }

    /// A batch: where it starts a sequence the states are cleared, then come the
    /// tokens and the head.
    pub open spec fn k3_pass(
        self,
        rt: K3Rt,
        tokens: Seq<u32>,
        pos0: u32,
        rows: u32,
        ctx: u32,
        current: i32,
    ) -> Plan {
        Plan::of(
            ops_if(pos0 == 0, reset_all(rt.states@, current)) + seq![Op::SetDevice(rt.primary)],
        ).and(self.k3_tokens(rt, tokens, tokens.len() as int, pos0, ctx)).and(
            self.k3_tail(rows),
        )
    }
}

impl Model {
    /// How many of the first `n` tokens begin.
    pub open spec fn k3_tokens_begun(
        self,
        rt: K3Rt,
        tokens: Seq<u32>,
        n: int,
        pos0: u32,
        ctx: u32,
    ) -> int
        decreases n,
    {
        if n <= 0 {
            0
        } else if self.k3_tokens(rt, tokens, n - 1, pos0, ctx).end is Err {
            self.k3_tokens_begun(rt, tokens, n - 1, pos0, ctx)
        } else {
            n
        }
    }

    /// Live checkpoints after a batch: those of the last token that began.
    pub open spec fn k3_pass_live(self, rt: K3Rt, tokens: Seq<u32>, pos0: u32, ctx: u32) -> u32 {
        let k = self.k3_tokens_begun(rt, tokens, tokens.len() as int, pos0, ctx);
        self.k3_live(rt, self.shape.n_exec_layer as int, (pos0 + k - 1) as u32, ctx)
    }

    /// Appends one token.
    fn eval_k3_token(
        &self,
        rt: &mut K3Rt,
        tok: u32,
        pos: u32,
        ctx: u32,
        ops: &mut Vec<Op>,
    ) -> (r: Result<(), EngineError>)
        requires
            self.k3_ready(*old(rt)),
            pos < u32::MAX,
        ensures
            self.k3_token(*old(rt), tok, pos, ctx).appended(old(ops)@, final(ops)@, r),
            *final(rt) == (K3Rt {
                n_ckpt: self.k3_live(*old(rt), self.shape.n_exec_layer as int, pos, ctx),
                ..*old(rt)
            }),
            r is Ok ==> final(rt).n_ckpt == banked(
                self.shape,
                self.shape.n_exec_layer as int,
            ),
    {
        let s: Shape = self.shape;
        let n_layers: usize = s.n_exec_layer as usize;
        ops.push(Op::WriteToken(tok));
        ops.push(
            Op::Embed {
                out: Buf::State(St::Cur),
                table: Buf::Global(Gw::TokenEmbd),
                n_embd: s.n_embd,
                n_vocab: s.n_vocab,
                t: 1,
            },
        );
        rt.n_ckpt = 0;
        let ghost rt0 = *old(rt);
        let ghost before = ops@;
        let ghost plan = self.k3_token(rt0, tok, pos, ctx);
        let mut il: usize = 0;
        assert(before + self.k3_layers(rt0, 0, pos, ctx).ops =~= before);
        proof {
            if n_layers > 0 {
                bank_has_room(s, 0);
            } else if s.attn_res_block > 0 {
                lemma_fundamental_div_mod_converse(
                    s.attn_res_block - 1,
                    s.attn_res_block as int,
                    0,
                    s.attn_res_block - 1,
                );
            }
        }
        while il < n_layers
            invariant
                il <= n_layers,
                n_layers == s.n_exec_layer,
                s == self.shape,
                self.k3_ready(rt0),
                pos < u32::MAX,
                *rt == (K3Rt { n_ckpt: rt.n_ckpt, ..rt0 }),
                rt.n_ckpt == banked(s, il as int),
                rt.n_ckpt == self.k3_live(rt0, il as int, pos, ctx),
                self.k3_layers(rt0, il as int, pos, ctx).end is Ok,
                ops@ == before + self.k3_layers(rt0, il as int, pos, ctx).ops,
                before == old(ops)@ + seq![
                    Op::WriteToken(tok),
                    Op::Embed {
                        out: Buf::State(St::Cur),
                        table: Buf::Global(Gw::TokenEmbd),
                        n_embd: s.n_embd,
                        n_vocab: s.n_vocab,
                        t: 1,
                    },
                ],
                plan == self.k3_token(rt0, tok, pos, ctx),
                rt0 == *old(rt),
            decreases n_layers - il,
        {
            proof {
                bank_has_room(s, il as int);
                if banks(s, il as int) {
                    assert(rt.n_ckpt * s.n_embd <= bank_rows(s) * s.n_embd) by (nonlinear_arith)
                        requires
                            rt.n_ckpt <= bank_rows(s),
                            0 <= s.n_embd,
                    ;
                }
            }
            let ghost n0 = rt.n_ckpt;
            let ghost mid = ops@;
            let ghost now = *rt;
            assert(self.k3_layer(now, il, n0, pos, ctx) == self.k3_layer(rt0, il, n0, pos, ctx));
            assert(n0 < u32::MAX) by {
                lemma_banked_small(s, il as int);
            }
            let r = self.eval_k3_layer(rt, il, pos, ctx, ops);
            proof {
                let done = self.k3_layers(rt0, il + 1, pos, ctx);
                assert(ops@ =~= before + done.ops);
                assert(done.end == r);
                assert(self.k3_begun(rt0, il + 1, pos, ctx) == il + 1);
                if r is Err {
                    lemma_k3_stopped(*self, rt0, il + 1, n_layers as int, pos, ctx);
                    assert(ops@ =~= old(ops)@ + plan.ops);
                } else {
                    assert(self.layers@[il as int].attn is K3) by {
                        reveal(layer);
                    }
                }
            }
            if r.is_err() {
                return r;
            }
            il = il + 1;
        }
        ops.push(Op::SetDevice(rt.primary));
        assert(ops@ =~= old(ops)@ + plan.ops);
        Ok(())
    }
}

/// No more is banked than layers there are.
pub proof fn lemma_banked_small(s: Shape, il: int)
    requires
        0 <= il,
    ensures
        banked(s, il) <= il,
{
    if s.attn_res_block > 0 {
        let b = s.attn_res_block as int;
        let x = il + b - 1;
        lemma_fundamental_div_mod(x, b);
        let q = x / b;
        assert(q <= il) by (nonlinear_arith)
            requires
                b * q <= il + b - 1,
                b >= 1,
                0 <= il,
        ;
    }
}

/// Once the layers have stopped, none of the later ones begins.
proof fn lemma_k3_stopped(m: Model, rt: K3Rt, a: int, b: int, pos: u32, ctx: u32)
    requires
        0 <= a <= b,
        m.k3_layers(rt, a, pos, ctx).end is Err,
    ensures
        m.k3_layers(rt, b, pos, ctx) == m.k3_layers(rt, a, pos, ctx),
        m.k3_begun(rt, b, pos, ctx) == m.k3_begun(rt, a, pos, ctx),
    decreases b - a,
{
    if a < b {
        lemma_k3_stopped(m, rt, a, b - 1, pos, ctx);
    }
}

/// Once the tokens have stopped, none of the later ones begins.
proof fn lemma_k3_tokens_stopped(
    m: Model,
    rt: K3Rt,
    tokens: Seq<u32>,
    a: int,
    b: int,
    pos0: u32,
    ctx: u32,
)
    requires
        0 <= a <= b,
        m.k3_tokens(rt, tokens, a, pos0, ctx).end is Err,
    ensures
        m.k3_tokens(rt, tokens, b, pos0, ctx) == m.k3_tokens(rt, tokens, a, pos0, ctx),
        m.k3_tokens_begun(rt, tokens, b, pos0, ctx) == m.k3_tokens_begun(
            rt,
            tokens,
            a,
            pos0,
            ctx,
        ),
    decreases b - a,
{
    if a < b {
        lemma_k3_tokens_stopped(m, rt, tokens, a, b - 1, pos0, ctx);
    }
}

/// What a token plans does not depend on the checkpoints that were live before.
proof fn lemma_k3_token_same(m: Model, a: K3Rt, b: K3Rt, n: int, pos: u32, ctx: u32)
    requires
        a.primary == b.primary,
        a.states == b.states,
        a.scratch == b.scratch,
    ensures
        m.k3_layers(a, n, pos, ctx) == m.k3_layers(b, n, pos, ctx),
        m.k3_begun(a, n, pos, ctx) == m.k3_begun(b, n, pos, ctx),
    decreases n,
{
    if n > 0 {
        lemma_k3_token_same(m, a, b, n - 1, pos, ctx);
    }
}

impl Model {
    fn push_k3_tail(&self, rt: &K3Rt, rows: u32, ops: &mut Vec<Op>) -> (r: Result<
        bool,
        EngineError,
    >)
        requires
            rt.n_ckpt == banked(self.shape, self.shape.n_exec_layer as int),
        ensures
            final(ops)@ == old(ops)@ + self.k3_tail(rows).ops,
            r == outcome(self.k3_tail(rows), rows),
    {
        let s: Shape = self.shape;
        let ghost plan = self.k3_tail(rows);
        if rows == 0 {
            assert(ops@ =~= old(ops)@ + plan.ops);
            return Ok(false);
        }
        if rows != 1 {
            assert(ops@ =~= old(ops)@ + plan.ops);
            return Err(EngineError::K3OneRow);
        }
        if s.attn_res_block > 0 {
            if !self.output_res_score {
                assert(ops@ =~= old(ops)@ + plan.ops);
                return Err(EngineError::K3OutputResScoreMissing);
            }
            ops.push(
                make_attn_res(
                    s,
                    Buf::State(St::Cur),
                    Buf::Global(Gw::OutputResScore),
                    rt.n_ckpt,
                ),
            );
            ops.push(
                Op::CopyD2d {
                    dst: Buf::State(St::Cur),
                    dst_off: 0,
                    src: Buf::K3(K3Buf::Mixed),
                    src_off: 0,
                    bytes: f32_bytes(s.n_embd),
                },
            );
        }
        if !self.output_norm {
            assert(ops@ =~= old(ops)@ + plan.ops);
            return Err(EngineError::OutputNormMissing);
        }
        push_last_row_head(ops, s);
        assert(ops@ =~= old(ops)@ + plan.ops);
        Ok(true)
    }

    /// Appends a batch of tokens.
    pub fn forward_k3_inner(
        &self,
        rt: &mut K3Rt,
        tokens: &[u32],
        pos0: u32,
        rows: u32,
        ctx: u32,
        current: i32,
        ops: &mut Vec<Op>,
    ) -> (r: Result<bool, EngineError>)
        requires
            self.k3_ready(*old(rt)),
            0 < tokens@.len(),
            pos0 + tokens@.len() <= u32::MAX,
        ensures
            final(ops)@ == old(ops)@ + self.k3_pass(
                *old(rt),
                tokens@,
                pos0,
                rows,
                ctx,
                current,
            ).ops,
            r == outcome(self.k3_pass(*old(rt), tokens@, pos0, rows, ctx, current), rows),
            *final(rt) == (K3Rt {
                n_ckpt: self.k3_pass_live(*old(rt), tokens@, pos0, ctx),
                ..*old(rt)
            }),
    {
        let ghost rt0 = *old(rt);
        let ghost plan = self.k3_pass(rt0, tokens@, pos0, rows, ctx, current);
        if pos0 == 0 {
            rt.reset(current, ops);
        }
        ops.push(Op::SetDevice(rt.primary));
        let ghost head = ops_if(pos0 == 0, reset_all(rt0.states@, current)) + seq![
            Op::SetDevice(rt0.primary),
        ];
        assert(ops@ =~= old(ops)@ + head);
        let n: usize = tokens.len();
        let mut i: usize = 0;
        let ghost before = ops@;
        assert(ops@ =~= before + self.k3_tokens(rt0, tokens@, 0, pos0, ctx).ops);
        while i < n
            invariant
                i <= n,
                n == tokens@.len(),
                0 < n,
                self.k3_ready(rt0),
                pos0 + n <= u32::MAX,
                *rt == (K3Rt { n_ckpt: rt.n_ckpt, ..rt0 }),
                rt0 == *old(rt),
                i > 0 ==> rt.n_ckpt == banked(self.shape, self.shape.n_exec_layer as int),
                i > 0 ==> rt.n_ckpt == self.k3_live(
                    rt0,
                    self.shape.n_exec_layer as int,
                    (pos0 + i - 1) as u32,
                    ctx,
                ),
                self.k3_tokens(rt0, tokens@, i as int, pos0, ctx).end is Ok,
                ops@ == before + self.k3_tokens(rt0, tokens@, i as int, pos0, ctx).ops,
                before == old(ops)@ + head,
                head == ops_if(pos0 == 0, reset_all(rt0.states@, current)) + seq![
                    Op::SetDevice(rt0.primary),
                ],
                plan == self.k3_pass(rt0, tokens@, pos0, rows, ctx, current),
            decreases n - i,
        {
            let pos: u32 = pos0 + i as u32;
            let ghost now = *rt;
            let ghost nl = self.shape.n_exec_layer as int;
            proof {
                lemma_k3_token_same(*self, now, rt0, nl, pos, ctx);
            }
            assert(self.k3_token(now, tokens@[i as int], pos, ctx) == self.k3_token(
                rt0,
                tokens@[i as int],
                pos,
                ctx,
            ));
            let r = self.eval_k3_token(rt, tokens[i], pos, ctx, ops);
            proof {
                let done = self.k3_tokens(rt0, tokens@, i + 1, pos0, ctx);
                assert(ops@ =~= before + done.ops);
                assert(done.end == r);
                assert(self.k3_live(now, nl, pos, ctx) == self.k3_live(rt0, nl, pos, ctx));
                assert(self.k3_tokens_begun(rt0, tokens@, i + 1, pos0, ctx) == i + 1);
                if r is Err {
                    lemma_k3_tokens_stopped(*self, rt0, tokens@, i + 1, n as int, pos0, ctx);
                    assert(ops@ =~= old(ops)@ + plan.ops);
                }
            }
            if let Err(e) = r {
                return Err(e);
            }
            i = i + 1;
        }
        let r = self.push_k3_tail(rt, rows, ops);
        proof {
            assert(self.k3_tokens_begun(rt0, tokens@, n as int, pos0, ctx) == n);
            assert(ops@ =~= old(ops)@ + plan.ops);
        }
        r
    }

    /// Plans a batch.  Nothing runs where the batch is empty, does not fit the
    /// context, or finds no runtime; the runtime stays with the state.
    pub fn forward_k3(
        &self,
        st: &mut State,
        tokens: &[u32],
        pos0: u32,
        rows: u32,
        current: i32,
        ops: &mut Vec<Op>,
    ) -> (r: Result<bool, EngineError>)
        requires
            old(st).k3 matches Some(rt) ==> self.k3_ready(rt),
        ensures
            match (batch_ok(tokens@.len(), pos0, old(st).ctx), old(st).k3) {
                (Err(e), _) => r == Err::<bool, EngineError>(e) && final(ops)@ == old(ops)@
                    && *final(st) == *old(st),
                (Ok(_), None) => r == Err::<bool, EngineError>(EngineError::K3StateMissing)
                    && final(ops)@ == old(ops)@ && *final(st) == *old(st),
                (Ok(_), Some(rt)) => {
                    let plan = self.k3_pass(rt, tokens@, pos0, rows, old(st).ctx, current);
                    &&& final(ops)@ == old(ops)@ + plan.ops
                    &&& r == outcome(plan, rows)
                    &&& *final(st) == (State {
                        k3: Some(
                            (K3Rt {
                                n_ckpt: self.k3_pass_live(rt, tokens@, pos0, old(st).ctx),
                                ..rt
                            }),
                        ),
                        ..*old(st)
                    })
                },
            },
    {
        check_batch(tokens.len(), pos0, st.ctx)?;
        let taken = st.k3.take();
        match taken {
            None => Err(EngineError::K3StateMissing),
            Some(mut rt) => {
                let r = self.forward_k3_inner(&mut rt, tokens, pos0, rows, st.ctx, current, ops);
                st.k3 = Some(rt);
                r
            },
        }
    }
}

impl K3Rt {
    /// Clears every recurrent state and the count of live checkpoints.
    pub fn reset(&mut self, current: i32, ops: &mut Vec<Op>)
        ensures
            final(ops)@ == old(ops)@ + reset_all(old(self).states@, current),
            *final(self) == (K3Rt { n_ckpt: 0, ..*old(self) }),
    {
        push_reset(ops, &self.states, current);
        self.n_ckpt = 0;
    }
}

pub open spec fn spec_widest(s: Shape) -> u32 {
    larger(
        larger(larger(larger(s.n_embd, s.d_inner()), s.mla_out()), s.n_expert_latent),
        s.n_ff_exp,
    )
}

/// The widest row that is quantized into the shared q8_K scratch.  The output
/// projections quantize rows that are wider than the residual.
#[verifier::when_used_as_spec(spec_widest)]
pub fn widest(s: Shape) -> (r: u32)
    requires
        s.mixers_fit(),
    ensures
        r == spec_widest(s),
{
    larger(
        larger(larger(larger(s.n_embd, s.d_inner()), s.mla_out()), s.n_expert_latent),
        s.n_ff_exp,
    )
}

pub open spec fn spec_scratch_bytes(s: Shape, ctx: u32, b: Sc) -> u64 {
    match b {
        Sc::NormedA => f32_bytes(s.n_embd),
        Sc::AttnOutA => f32_bytes(s.n_embd),
        Sc::FfnNormedA => f32_bytes(s.n_embd),
        Sc::ShexpOut => f32_bytes(s.n_embd),
        Sc::XqFfn => q8k_bytes(s.n_embd),
        Sc::XqMid => q8k_bytes(larger(s.n_ff_shexp, 1)),
        Sc::GateSh => f32_bytes(larger(s.n_ff_shexp, 1)),
        Sc::UpSh => f32_bytes(larger(s.n_ff_shexp, 1)),
        Sc::MidSh => f32_bytes(larger(s.n_ff_shexp, 1)),
        Sc::Xq => q8k_bytes(widest(s)),
        Sc::Q => f32_bytes(s.d_inner()),
        Sc::K => f32_bytes(s.d_inner()),
        Sc::V => f32_bytes(s.d_inner()),
        Sc::Cq => f32_bytes(s.d_inner()),
        Sc::Ck => f32_bytes(s.d_inner()),
        Sc::Cv => f32_bytes(s.d_inner()),
        Sc::G => f32_bytes(s.d_inner()),
        Sc::Beta => f32_bytes(s.n_head),
        Sc::Fa => f32_bytes(s.kda_head_dim),
        Sc::O => f32_bytes(s.d_inner()),
        Sc::Gate => f32_bytes(s.d_inner()),
        Sc::QRank => f32_bytes(s.n_lora_q),
        Sc::QRankNorm => f32_bytes(s.n_lora_q),
        Sc::Mq => f32_bytes(s.mla_q()),
        Sc::KvRaw => f32_bytes(s.kv_raw()),
        Sc::KvNorm => f32_bytes(s.n_kv_lora),
        Sc::QkLow => f32_bytes(s.mla_low()),
        Sc::Heads => f32_bytes(s.mla_out()),
        Sc::Selected => f32_bytes(ctx),
    }
}

/// Bytes of a scratch buffer.
#[verifier::when_used_as_spec(spec_scratch_bytes)]
pub fn scratch_bytes(s: Shape, ctx: u32, b: Sc) -> (r: u64)
    requires
        s.mixers_fit(),
    ensures
        r == spec_scratch_bytes(s, ctx, b),
{
    match b {
        Sc::NormedA => f32_bytes(s.n_embd),
        Sc::AttnOutA => f32_bytes(s.n_embd),
        Sc::FfnNormedA => f32_bytes(s.n_embd),
        Sc::ShexpOut => f32_bytes(s.n_embd),
        Sc::XqFfn => q8k_bytes(s.n_embd),
        Sc::XqMid => q8k_bytes(larger(s.n_ff_shexp, 1)),
        Sc::GateSh => f32_bytes(larger(s.n_ff_shexp, 1)),
        Sc::UpSh => f32_bytes(larger(s.n_ff_shexp, 1)),
        Sc::MidSh => f32_bytes(larger(s.n_ff_shexp, 1)),
        Sc::Xq => q8k_bytes(widest(s)),
        Sc::Q => f32_bytes(s.d_inner()),
        Sc::K => f32_bytes(s.d_inner()),
        Sc::V => f32_bytes(s.d_inner()),
        Sc::Cq => f32_bytes(s.d_inner()),
        Sc::Ck => f32_bytes(s.d_inner()),
        Sc::Cv => f32_bytes(s.d_inner()),
        Sc::G => f32_bytes(s.d_inner()),
        Sc::Beta => f32_bytes(s.n_head),
        Sc::Fa => f32_bytes(s.kda_head_dim),
        Sc::O => f32_bytes(s.d_inner()),
        Sc::Gate => f32_bytes(s.d_inner()),
        Sc::QRank => f32_bytes(s.n_lora_q),
        Sc::QRankNorm => f32_bytes(s.n_lora_q),
        Sc::Mq => f32_bytes(s.mla_q()),
        Sc::KvRaw => f32_bytes(s.kv_raw()),
        Sc::KvNorm => f32_bytes(s.n_kv_lora),
        Sc::QkLow => f32_bytes(s.mla_low()),
        Sc::Heads => f32_bytes(s.mla_out()),
        Sc::Selected => f32_bytes(ctx),
    }
}

/// The scratch of a card, in the order it is allocated.
pub open spec fn scratch_list() -> Seq<Sc> {
    seq![
        Sc::NormedA,
        Sc::AttnOutA,
        Sc::FfnNormedA,
        Sc::ShexpOut,
        Sc::XqFfn,
        Sc::XqMid,
        Sc::GateSh,
        Sc::UpSh,
        Sc::MidSh,
        Sc::Xq,
        Sc::Q,
        Sc::K,
        Sc::V,
        Sc::Cq,
        Sc::Ck,
        Sc::Cv,
        Sc::G,
        Sc::Beta,
        Sc::Fa,
        Sc::O,
        Sc::Gate,
        Sc::QRank,
        Sc::QRankNorm,
        Sc::Mq,
        Sc::KvRaw,
        Sc::KvNorm,
        Sc::QkLow,
        Sc::Heads,
        Sc::Selected,
    ]
}

fn make_scratch_list() -> (v: Vec<Sc>)
    ensures
        v@ == scratch_list(),
{
    let v: Vec<Sc> = vec![
        Sc::NormedA,
        Sc::AttnOutA,
        Sc::FfnNormedA,
        Sc::ShexpOut,
        Sc::XqFfn,
        Sc::XqMid,
        Sc::GateSh,
        Sc::UpSh,
        Sc::MidSh,
        Sc::Xq,
        Sc::Q,
        Sc::K,
        Sc::V,
        Sc::Cq,
        Sc::Ck,
        Sc::Cv,
        Sc::G,
        Sc::Beta,
        Sc::Fa,
        Sc::O,
        Sc::Gate,
        Sc::QRank,
        Sc::QRankNorm,
        Sc::Mq,
        Sc::KvRaw,
        Sc::KvNorm,
        Sc::QkLow,
        Sc::Heads,
        Sc::Selected,
    ];
    assert(v@ =~= scratch_list());
    v
}

/// Allocates the scratch of a card.
pub open spec fn scratch_ops(s: Shape, dev: i32, ctx: u32) -> Seq<Op> {
    seq![Op::SetDevice(dev)] + Seq::new(
        scratch_list().len(),
        |i: int|
            Op::Alloc {
                buf: Buf::Scratch(dev, scratch_list()[i]),
                bytes: scratch_bytes(s, ctx, scratch_list()[i]),
            },
    )
}

fn push_scratch(ops: &mut Vec<Op>, s: Shape, dev: i32, ctx: u32)
    requires
        s.mixers_fit(),
    ensures
        final(ops)@ == old(ops)@ + scratch_ops(s, dev, ctx),
{
    ops.push(Op::SetDevice(dev));
    let list: Vec<Sc> = make_scratch_list();
    let mut i: usize = 0;
    while i < list.len()
        invariant
            i <= list@.len(),
            list@ == scratch_list(),
            s.mixers_fit(),
            ops@ == old(ops)@ + scratch_ops(s, dev, ctx).take(i + 1),
        decreases list@.len() - i,
    {
        ops.push(
            Op::Alloc { buf: Buf::Scratch(dev, list[i]), bytes: scratch_bytes(s, ctx, list[i]) },
        );
        i = i + 1;
        assert(ops@ =~= old(ops)@ + scratch_ops(s, dev, ctx).take(i + 1));
    }
    assert(ops@ =~= old(ops)@ + scratch_ops(s, dev, ctx));
}

/// The scratch of the first `n` cards.
pub open spec fn scratch_all(s: Shape, cards: Seq<i32>, n: int, ctx: u32) -> Seq<Op>
    decreases n,
{
    if n <= 0 {
        Seq::empty()
    } else {
        scratch_all(s, cards, n - 1, ctx) + scratch_ops(s, cards[n - 1], ctx)
    }
}

impl Model {
    /// The recurrent state of a layer; only a KDA layer has one.
    pub open spec fn k3_state(self, il: int, primary: i32) -> Option<KdaState> {
        match self.layers@[il].attn {
            Attn::K3(w) => if w.kda is Some {
                Some(
                    KdaState {
                        dev: self.attn_dev(il as usize, primary),
                        s_bytes: self.shape.kda_state_bytes(),
                        conv_bytes: self.shape.kda_conv_bytes(),
                    },
                )
            } else {
                None
            },
            _ => None,
        }
    }

    /// Allocates the recurrent states of the first `n` layers.
    pub open spec fn k3_alloc_states(self, n: int, primary: i32) -> Seq<Op>
        decreases n,
    {
        if n <= 0 {
            Seq::empty()
        } else {
            self.k3_alloc_states(n - 1, primary) + match self.k3_state(n - 1, primary) {
                Some(k) => alloc_kda((n - 1) as usize, k),
                None => Seq::empty(),
            }
        }
    }
}

/// Allocates what the primary card holds besides scratch.
pub open spec fn k3_primary_ops(s: Shape, primary: i32) -> Seq<Op> {
    seq![
        Op::SetDevice(primary),
        Op::Alloc { buf: Buf::K3(K3Buf::Ckpt), bytes: k3_bytes(s, K3Buf::Ckpt) },
        Op::Alloc { buf: Buf::K3(K3Buf::LatIn), bytes: k3_bytes(s, K3Buf::LatIn) },
        Op::Alloc { buf: Buf::K3(K3Buf::LatOut), bytes: k3_bytes(s, K3Buf::LatOut) },
        Op::Alloc { buf: Buf::K3(K3Buf::Mixed), bytes: k3_bytes(s, K3Buf::Mixed) },
        Op::Alloc { buf: Buf::K3(K3Buf::RoutedOut), bytes: k3_bytes(s, K3Buf::RoutedOut) },
    ]
}

/// Bytes of a buffer of the runtime.
pub open spec fn k3_bytes(s: Shape, b: K3Buf) -> u64 {
    let lat = if s.n_expert_latent > 0 {
        s.n_expert_latent
    } else {
        s.n_embd
    };
    match b {
        K3Buf::Ckpt => (bank_rows(s) * s.n_embd * 4) as u64,
        K3Buf::LatIn => f32_bytes(lat),
        K3Buf::LatOut => f32_bytes(lat),
        K3Buf::Mixed => f32_bytes(s.n_embd),
        K3Buf::RoutedOut => f32_bytes(s.n_embd),
    }
}

impl K3Rt {
    /// Makes the runtime: a state for each KDA layer on its card, scratch on
    /// every card that has a layer and on the primary, and the buffers of the
    /// primary.  `primary` is the card that is current.
    pub fn new(m: &Model, ctx: u32, primary: i32, ops: &mut Vec<Op>) -> (rt: K3Rt)
        requires
            m.shape.n_exec_layer <= m.layers@.len(),
            m.shape.kda_states_fit(),
            bank_rows(m.shape) * m.shape.n_embd * 4 <= u64::MAX,
        ensures
            rt.primary == primary,
            rt.n_ckpt == 0,
            rt.states@ == Seq::new(
                m.shape.n_exec_layer as nat,
                |il: int| m.k3_state(il, primary),
            ),
            is_card_list(m.attn_layer_dev@, primary, rt.scratch@),
            final(ops)@ == old(ops)@ + m.k3_alloc_states(m.shape.n_exec_layer as int, primary)
                + scratch_all(m.shape, rt.scratch@, rt.scratch@.len() as int, ctx)
                + k3_primary_ops(m.shape, primary),
            m.k3_ready(rt),
    {
        let s: Shape = m.shape;
        let n: usize = s.n_exec_layer as usize;
        let mut states: Vec<Option<KdaState>> = Vec::new();
        let mut il: usize = 0;
        assert(ops@ =~= old(ops)@ + m.k3_alloc_states(0, primary));
        while il < n
            invariant
                il <= n,
                n == s.n_exec_layer,
                n <= m.layers@.len(),
                s == m.shape,
                s.kda_states_fit(),
                states@ == Seq::new(il as nat, |i: int| m.k3_state(i, primary)),
                ops@ == old(ops)@ + m.k3_alloc_states(il as int, primary),
            decreases n - il,
        {
            let is_kda: bool = match m.layers[il].attn {
                Attn::K3(w) => w.kda.is_some(),
                _ => false,
            };
            if is_kda {
                let k: KdaState = KdaState {
                    dev: m.find_attn_dev(il, primary),
                    s_bytes: s.kda_state_bytes(),
                    conv_bytes: s.kda_conv_bytes(),
                };
                push_alloc_kda(ops, il, k);
                states.push(Some(k));
            } else {
                states.push(None);
            }
            il = il + 1;
            assert(states@ =~= Seq::new(il as nat, |i: int| m.k3_state(i, primary)));
            assert(ops@ =~= old(ops)@ + m.k3_alloc_states(il as int, primary));
        }
        let ghost mid = ops@;
        let scratch: Vec<i32> = card_list(&m.attn_layer_dev, primary);
        let mut i: usize = 0;
        assert(ops@ =~= mid + scratch_all(s, scratch@, 0, ctx));
        while i < scratch.len()
            invariant
                i <= scratch@.len(),
                s.mixers_fit(),
                ops@ == mid + scratch_all(s, scratch@, i as int, ctx),
            decreases scratch@.len() - i,
        {
            push_scratch(ops, s, scratch[i], ctx);
            i = i + 1;
            assert(ops@ =~= mid + scratch_all(s, scratch@, i as int, ctx));
        }
        let ghost mid2 = ops@;
        ops.push(Op::SetDevice(primary));
        let max_ckpt: u32 = if s.attn_res_block == 0 {
            0
        } else {
            proof {
                lemma_banked_small(s, s.n_exec_layer as int);
                lemma_div_pos_is_pos(
                    s.n_exec_layer + s.attn_res_block - 1,
                    s.attn_res_block as int,
                );
            }
            ((s.n_exec_layer as u64 + (s.attn_res_block - 1) as u64)
                / s.attn_res_block as u64) as u32
        };
        let rows: u32 = larger(max_ckpt, 1);
        assert(rows == bank_rows(s));
        let lat: u32 = if s.n_expert_latent > 0 {
            s.n_expert_latent
        } else {
            s.n_embd
        };
        proof {
            assert(0 <= rows * s.n_embd) by (nonlinear_arith);
        }
        let bank: u64 = rows as u64 * s.n_embd as u64 * 4;
        ops.push(Op::Alloc { buf: Buf::K3(K3Buf::Ckpt), bytes: bank });
        ops.push(Op::Alloc { buf: Buf::K3(K3Buf::LatIn), bytes: f32_bytes(lat) });
        ops.push(Op::Alloc { buf: Buf::K3(K3Buf::LatOut), bytes: f32_bytes(lat) });
        ops.push(Op::Alloc { buf: Buf::K3(K3Buf::Mixed), bytes: f32_bytes(s.n_embd) });
        ops.push(Op::Alloc { buf: Buf::K3(K3Buf::RoutedOut), bytes: f32_bytes(s.n_embd) });
        assert(ops@ =~= mid2 + k3_primary_ops(s, primary));
        K3Rt { primary, states, scratch, n_ckpt: 0 }
    }
}

} // verus!
