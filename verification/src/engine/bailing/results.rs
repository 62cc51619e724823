//! What a whole Bailing batch computes.

use crate::engine::bailing::values::{lasting, layer_computes, layer_does};
use crate::engine::bailing::BailingRt;
use crate::engine::blocks::{reset_all, reset_states};
use crate::engine::formula::{bx, lemma_head, norm};
use crate::engine::k3::results::{cleared, lemma_reset};
use crate::engine::ops::{ops_if, Buf, Gw, KdaBuf, Op, Plan, St};
use crate::engine::shape::Model;
use crate::engine::value::{
    after, lemma_next, lemma_run_add, lemma_run_and, lemma_run_keeps, run, Val, World,
};
use vstd::prelude::*;

verus! {

/// The worlds between the layers of a token: every layer in its turn.
pub open spec fn layers_do(m: Model, primary: i32, pos: int, ctx: int, ws: Seq<World>) -> bool {
    &&& ws.len() == m.shape.n_exec_layer + 1
    &&& forall|il: int|
        #![trigger ws[il]]
        0 <= il < m.shape.n_exec_layer ==> layer_does(
            m,
            primary,
            il as usize,
            pos,
            ctx,
            ws[il],
            ws[il + 1],
        )
}

/// A token enters as its row of the embedding table, and every layer runs on it.
#[verifier::opaque]
pub open spec fn token_does(
    m: Model,
    primary: i32,
    tok: u32,
    pos: int,
    ctx: int,
    w: World,
    z: World,
) -> bool {
    exists|ws: Seq<World>| #[trigger]
        layers_do(m, primary, pos, ctx, ws) && token_enters(m, tok, w, ws[0]) && ws.last() == z
}

pub open spec fn token_enters(m: Model, tok: u32, w: World, z: World) -> bool {
    &&& z.at[Buf::State(St::Cur)] == Val::Embedding {
        ids: bx(Val::Token { id: tok as int }),
        table: Buf::Global(Gw::TokenEmbd),
        n: m.shape.n_embd as int,
        vocab: m.shape.n_vocab as int,
        rows: 1,
    }
    &&& forall|b: Buf| #[trigger] lasting(b) ==> z.at[b] == w.at[b]
}

/// Before position zero the recurrent states are cleared; before any other
/// position they stay.
pub open spec fn batch_enters(rt: BailingRt, pos0: int, w: World, z: World) -> bool {
    forall|b: Buf| #[trigger]
        lasting(b) ==> z.at[b] == match b {
            Buf::Kda(il, x) => if pos0 == 0 && il < rt.states@.len() && rt.states@[il as int] is Some {
                Val::Zeros {
                    bytes: if x == KdaBuf::S {
                        rt.states@[il as int]->Some_0.s_bytes as int
                    } else {
                        rt.states@[il as int]->Some_0.conv_bytes as int
                    },
                }
            } else {
                w.at[b]
            },
            _ => w.at[b],
        }
}

/// The logits of the last token.
pub open spec fn last_logits(m: Model, w: World) -> Val {
    let s = m.shape;
    let x = norm(w.at[Buf::State(St::Cur)], Buf::Global(Gw::OutputNorm), s.n_embd as int, 1);
    Val::Cut { of: bx(Val::Head { x: bx(x), rows: 1 }), off: 0, bytes: s.n_vocab * 4 }
}

/// The worlds between the tokens of a batch: every token in its turn, at its
/// position.
pub open spec fn tokens_do(
    m: Model,
    primary: i32,
    tokens: Seq<u32>,
    pos0: int,
    ctx: int,
    vs: Seq<World>,
) -> bool {
    &&& vs.len() == tokens.len() + 1
    &&& forall|i: int|
        #![trigger vs[i]]
        0 <= i < tokens.len() ==> token_does(
            m,
            primary,
            tokens[i],
            pos0 + i,
            ctx,
            vs[i],
            vs[i + 1],
        )
}

/// Layer `il` of a token does its part.
spec fn nth_layer(m: Model, rt: BailingRt, il: int, pos: u32, ctx: u32, w: World) -> bool {
    layer_does(
        m,
        rt.primary,
        il as usize,
        pos as int,
        ctx as int,
        run(m.bailing_layers(rt, il, pos, ctx).ops, w),
        run(m.bailing_layers(rt, il + 1, pos, ctx).ops, w),
    )
}

proof fn lemma_layers(m: Model, rt: BailingRt, n: int, pos: u32, ctx: u32, w: World)
    requires
        m.bailing_ready(rt),
        0 <= n <= m.shape.n_exec_layer,
        pos < u32::MAX,
        m.bailing_layers(rt, n, pos, ctx).end is Ok,
    ensures
        forall|il: int| 0 <= il < n ==> #[trigger] nth_layer(m, rt, il, pos, ctx, w),
    decreases n,
{
    if n > 0 {
        lemma_layers(m, rt, n - 1, pos, ctx, w);
        let a = m.bailing_layers(rt, n - 1, pos, ctx);
        let b = m.bailing_layer(rt, (n - 1) as usize, pos, ctx);
        lemma_run_and(a, b, w);
        layer_computes(m, rt, (n - 1) as usize, pos, ctx, run(a.ops, w));
        assert(nth_layer(m, rt, n - 1, pos, ctx, w));
    }
}

#[verifier::rlimit(40)]
proof fn lemma_token(m: Model, rt: BailingRt, tok: u32, pos: u32, ctx: u32, w: World)
    requires
        m.bailing_ready(rt),
        pos < u32::MAX,
        m.bailing_token(rt, tok, pos, ctx).end is Ok,
    ensures
        token_does(
            m,
            rt.primary,
            tok,
            pos as int,
            ctx as int,
            w,
            run(m.bailing_token(rt, tok, pos, ctx).ops, w),
        ),
{
    reveal(token_does);
    let n = m.shape.n_exec_layer as int;
    let a = Plan::of(
        seq![
            Op::WriteToken(tok),
            Op::Embed {
                out: Buf::State(St::Cur),
                table: Buf::Global(Gw::TokenEmbd),
                n_embd: m.shape.n_embd,
                n_vocab: m.shape.n_vocab,
                t: 1,
            },
        ],
    );
    let b = m.bailing_layers(rt, n, pos, ctx);
    let c = Plan::of(seq![Op::SetDevice(rt.primary)]);
    lemma_run_and(a, b, w);
    lemma_run_and(a.and(b), c, w);
    let w1 = run(a.ops, w);
    assert(token_enters(m, tok, w, w1)) by {
        reveal_with_fuel(after, 3);
        assert forall|x: Buf| #[trigger] lasting(x) implies w1.at[x] == w.at[x] by {
            lemma_run_keeps(a.ops, a.ops.len() as int, x, w);
        }
    }
    lemma_next(c.ops, 0, run(b.ops, w1));
    lemma_layers(m, rt, n, pos, ctx, w1);
    let ws = Seq::new((n + 1) as nat, |i: int| run(m.bailing_layers(rt, i, pos, ctx).ops, w1));
    assert(ws[0] == w1);
    assert forall|il: int| #![trigger ws[il]] 0 <= il < n implies layer_does(
        m,
        rt.primary,
        il as usize,
        pos as int,
        ctx as int,
        ws[il],
        ws[il + 1],
    ) by {
        assert(nth_layer(m, rt, il, pos, ctx, w1));
    }
    assert(layers_do(m, rt.primary, pos as int, ctx as int, ws));
}

/// Token `i` of a batch does its part.
spec fn nth_token(
    m: Model,
    rt: BailingRt,
    tokens: Seq<u32>,
    i: int,
    pos0: u32,
    ctx: u32,
    w: World,
) -> bool {
    token_does(
        m,
        rt.primary,
        tokens[i],
        pos0 + i,
        ctx as int,
        run(m.bailing_tokens(rt, tokens, i, pos0, ctx).ops, w),
        run(m.bailing_tokens(rt, tokens, i + 1, pos0, ctx).ops, w),
    )
}

proof fn lemma_tokens(
    m: Model,
    rt: BailingRt,
    tokens: Seq<u32>,
    n: int,
    pos0: u32,
    ctx: u32,
    w: World,
)
    requires
        m.bailing_ready(rt),
        0 <= n <= tokens.len(),
        pos0 + tokens.len() <= u32::MAX,
        m.bailing_tokens(rt, tokens, n, pos0, ctx).end is Ok,
    ensures
        forall|i: int| 0 <= i < n ==> #[trigger] nth_token(m, rt, tokens, i, pos0, ctx, w),
    decreases n,
{
    if n > 0 {
        lemma_tokens(m, rt, tokens, n - 1, pos0, ctx, w);
        let a = m.bailing_tokens(rt, tokens, n - 1, pos0, ctx);
        let pos = (pos0 + n - 1) as u32;
        let b = m.bailing_token(rt, tokens[n - 1], pos, ctx);
        lemma_run_and(a, b, w);
        lemma_token(m, rt, tokens[n - 1], pos, ctx, run(a.ops, w));
        assert(nth_token(m, rt, tokens, n - 1, pos0, ctx, w));
    }
}

proof fn lemma_tail(m: Model, w: World)
    requires
        m.bailing_tail(1).end is Ok,
    ensures
        run(m.bailing_tail(1).ops, w).logits == Some(last_logits(m, w)),
{
    lemma_head(m.shape, w);
}

/// A batch runs its tokens one after the other, each at its own position and on
/// what the ones before it left; a batch from position zero clears the recurrent
/// states first.  The host gets the logits of the last token where it asked for
/// them.
#[verifier::rlimit(40)]
pub proof fn pass_computes(
    m: Model,
    rt: BailingRt,
    tokens: Seq<u32>,
    pos0: u32,
    rows: u32,
    ctx: u32,
    current: i32,
    w: World,
)
    requires
        m.bailing_ready(rt),
        pos0 + tokens.len() <= u32::MAX,
        rt.states@.len() <= usize::MAX,
        m.bailing_pass(rt, tokens, pos0, rows, ctx, current).end is Ok,
    ensures
        ({
            let z = run(m.bailing_pass(rt, tokens, pos0, rows, ctx, current).ops, w);
            exists|vs: Seq<World>| #[trigger]
                tokens_do(m, rt.primary, tokens, pos0 as int, ctx as int, vs) && batch_enters(
                    rt,
                    pos0 as int,
                    w,
                    vs[0],
                ) && match rows {
                    0 => z == vs.last(),
                    _ => rows == 1 && z.logits == Some(last_logits(m, vs.last())),
                }
        }),
{
    let first = ops_if(pos0 == 0, reset_all(rt.states@, current));
    let prim = seq![Op::SetDevice(rt.primary)];
    let a = Plan::of(first + prim);
    let n = tokens.len() as int;
    let b = m.bailing_tokens(rt, tokens, n, pos0, ctx);
    let c = m.bailing_tail(rows);
    lemma_run_and(a, b, w);
    lemma_run_and(a.and(b), c, w);
    let w1 = run(a.ops, w);
    lemma_run_add(first, prim, w);
    lemma_next(prim, 0, run(first, w));
    assert(batch_enters(rt, pos0 as int, w, w1)) by {
        assert forall|x: Buf| #[trigger] lasting(x) implies w1.at[x] == if pos0 == 0 {
            cleared(rt.states@, rt.states@.len() as int, x, w)
        } else {
            w.at[x]
        } by {
            if pos0 == 0 {
                let r = reset_states(rt.states@, rt.states@.len() as int);
                let back = seq![Op::SetDevice(current)];
                lemma_run_add(r, back, w);
                lemma_next(back, 0, run(r, w));
                lemma_reset(rt.states@, rt.states@.len() as int, x, w);
            }
        }
    }
    lemma_tokens(m, rt, tokens, n, pos0, ctx, w1);
    let vs = Seq::new((n + 1) as nat, |i: int| run(m.bailing_tokens(rt, tokens, i, pos0, ctx).ops, w1));
    assert(vs[0] == w1);
    assert forall|i: int| #![trigger vs[i]] 0 <= i < n implies token_does(
        m,
        rt.primary,
        tokens[i],
        pos0 + i,
        ctx as int,
        vs[i],
        vs[i + 1],
    ) by {
        assert(nth_token(m, rt, tokens, i, pos0, ctx, w1));
    }
    assert(tokens_do(m, rt.primary, tokens, pos0 as int, ctx as int, vs));
    if rows == 1 {
        lemma_tail(m, vs.last());
    }
}

} // verus!
