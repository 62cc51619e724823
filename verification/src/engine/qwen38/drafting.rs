//! What a draft, and the filling of the drafting block's cache, compute.

use crate::engine::formula::{bx, norm};
use crate::engine::ops::{ops_if, Buf, Factor, Gw, Op, Part, Plan, St, Q38};
use crate::engine::qwen38::batch::head_mixer;
use crate::engine::qwen38::blocks::{combine, hc_attn_at, hc_full, hc_out_at};
use crate::engine::qwen38::mtp::{
    draft_input, fill, fill_input, fill_norms, fill_project, hidden_rows, interleave, mtp_fits,
    mtp_layer, mtp_layer_body,
};
use crate::engine::qwen38::pass::expert_half;
use crate::engine::qwen38::results::{body_does, lasting, lemma_body, mixer_of};
use crate::engine::qwen38::values::{collapsed, lemma_chunk_widths, lemma_mix};
use crate::engine::shape::{f32_bytes, LayerW, Model, MtpW, Qwen38W, Shape};
use crate::engine::value::{
    lemma_next, lemma_run_add, lemma_run_and, lemma_run_keeps, patched, run, Val, World,
};
use vstd::prelude::*;

verus! {

/// The normed rows of the embedding table for ids: the block's own table where it
/// has one.
pub open spec fn known(s: Shape, mtp: MtpW, ids: Val, t: int) -> Val {
    let n = s.n_embd as int;
    norm(
        Val::Embedding {
            ids: bx(ids),
            table: if mtp.tok_embd {
                Buf::Global(Gw::MtpTokEmbd)
            } else {
                Buf::Global(Gw::TokenEmbd)
            },
            n,
            vocab: s.n_vocab as int,
            rows: t,
        },
        Buf::Global(Gw::MtpEnorm),
        n,
        t,
    )
}

/// The mean of normed streams.
pub open spec fn hidden(s: Shape, streams: Val, t: int) -> Val {
    let n = s.n_embd as int;
    let hc = s.n_hc as int;
    Val::StreamMean {
        x: bx(
            Val::StreamNorm {
                x: bx(streams),
                w: Some(Buf::Global(Gw::MtpHnorm)),
                rows: t,
                n,
                hc,
            },
        ),
        rows: t,
        n,
        hc,
    }
}

/// Rows of twice the width: what is known of a token, and what is hidden behind it.
pub open spec fn side_by_side(s: Shape, old: Val, e: Val, h: Val, t: int) -> Val
    decreases t,
{
    let row = s.n_embd * 4;
    if t <= 0 {
        old
    } else {
        let i = t - 1;
        let left = patched(side_by_side(s, old, e, h, i), i * (2 * row), e, i * row, row);
        patched(left, i * (2 * row) + row, h, i * row, row)
    }
}

/// The projection of such rows back to the width of the model, once for every
/// stream.
pub open spec fn projected(s: Shape, x: Val, t: int) -> Val {
    let n = s.n_embd as int;
    Val::Streams {
        x: bx(
            Val::Mul {
                w: Buf::Global(Gw::MtpEhProj),
                x: bx(x),
                n_in: 2 * n,
                n_out: n,
                rows: t,
            },
        ),
        rows: t,
        n,
        hc: s.n_hc as int,
    }
}

/// What a draft starts from: the drafted-after token, and what the streams hid
/// behind it.
pub open spec fn draft_enters(m: Model, mtp: MtpW, token: int, v: World, u: World) -> bool {
    let s = m.shape;
    let e = known(s, mtp, Val::Token { id: token }, 1);
    let h = hidden(s, v.at[Buf::State(St::MtpHidden)], 1);
    let x = side_by_side(s, v.at[Buf::State(St::MtpX)], e, h, 1);
    &&& u.at[Buf::Rt(Q38::ResHc)] == projected(s, x, 1)
    &&& forall|b: Buf| #[trigger] lasting(b) ==> u.at[b] == v.at[b]
}

/// The logits of a draft: by the block's own head where it has one, with the
/// model's softcap, scale and end of the vocabulary.
pub open spec fn draft_logits(m: Model, mtp: MtpW, x: Val) -> Val {
    let n = m.shape.n_embd as int;
    let vocab = m.shape.n_vocab as int;
    if mtp.output_w {
        let a = Val::Mul {
            w: Buf::Global(Gw::MtpOutput),
            x: bx(x),
            n_in: n,
            n_out: vocab,
            rows: 1,
        };
        let b = if m.softcap {
            Val::Capped { x: bx(a), n: vocab }
        } else {
            a
        };
        let c = if m.logit_scale {
            Val::Scaled { x: bx(b), n: vocab, factor: Factor::LogitScale }
        } else {
            b
        };
        if m.n_vocab_out < m.shape.n_vocab {
            Val::TailFilled { x: bx(c), rows: 1, n: vocab, n_out: m.n_vocab_out as int }
        } else {
            c
        }
    } else {
        Val::Head { x: bx(x), rows: 1 }
    }
}

/// A draft ends with the logits of the block's streams, and the streams are what
/// the next draft starts from.
pub open spec fn draft_ends(m: Model, mtp: MtpW, v: World, z: World) -> bool {
    let s = m.shape;
    let n = s.n_embd as int;
    let res = v.at[Buf::Rt(Q38::ResHc)];
    &&& m.output_hc is Some
    &&& ({
        let x = Val::Cut {
            of: bx(collapsed(s, head_mixer(), m.output_hc->Some_0, res, 1)),
            off: 0,
            bytes: n * 4,
        };
        z.logits == Some(
            (Val::Cut {
                of: bx(draft_logits(m, mtp, x)),
                off: 0,
                bytes: s.n_vocab * 4,
            }),
        )
    })
    &&& z.at[Buf::State(St::MtpHidden)] == Val::Cut {
        of: bx(res),
        off: 0,
        bytes: s.n_hc * n * 4,
    }
}

#[verifier::rlimit(40)]
proof fn lemma_draft_input(m: Model, mtp: MtpW, token: u32, v: World)
    requires
        mtp_fits(m.shape, 1),
    ensures
        draft_enters(m, mtp, token as int, v, run(draft_input(m.shape, mtp, token), v)),
{
    let s = m.shape;
    let ops = draft_input(s, mtp, token);
    let a = ops.subrange(0, 5);
    let b = ops.skip(5);
    assert(ops =~= a + b);
    lemma_run_add(a, b, v);
    let v1 = run(a, v);
    let e = known(s, mtp, Val::Token { id: token as int }, 1);
    let h = hidden(s, v.at[Buf::State(St::MtpHidden)], 1);
    assert(v1.at[Buf::State(St::MtpE)] == e && v1.at[Buf::State(St::MtpH)] == h
        && v1.at[Buf::State(St::MtpX)] == v.at[Buf::State(St::MtpX)]) by {
        lemma_next(a, 0, v);
        lemma_next(a, 1, v);
        lemma_next(a, 2, v);
        lemma_next(a, 3, v);
        lemma_next(a, 4, v);
    }
    reveal_with_fuel(side_by_side, 2);
    lemma_next(b, 0, v1);
    lemma_next(b, 1, v1);
    lemma_next(b, 2, v1);
    lemma_next(b, 3, v1);
    assert forall|x: Buf| #[trigger] lasting(x) implies run(ops, v).at[x] == v.at[x] by {
        lemma_run_keeps(ops, ops.len() as int, x, v);
    }
}

#[verifier::rlimit(40)]
proof fn lemma_draft_head(m: Model, mtp: MtpW, v: World)
    ensures
        ({
            let z = run(m.draft_head(mtp), v);
            &&& z.at[Buf::State(St::Logits)] == draft_logits(
                m,
                mtp,
                v.at[Buf::State(St::Normed)],
            )
            &&& z.at[Buf::Rt(Q38::ResHc)] == v.at[Buf::Rt(Q38::ResHc)]
        }),
{
    let s = m.shape;
    let ops = m.draft_head(mtp);
    if mtp.output_w {
        let a = ops.subrange(0, 1);
        let b = ops_if(m.softcap, seq![Op::Softcap { n: s.n_vocab }]);
        let c = ops_if(
            m.logit_scale,
            seq![
                Op::Scale {
                    buf: Buf::State(St::Logits),
                    n: s.n_vocab,
                    factor: Factor::LogitScale,
                },
            ],
        );
        let d = ops_if(
            m.n_vocab_out < s.n_vocab,
            seq![Op::FillRowTail { rows: 1, n: s.n_vocab, n_out: m.n_vocab_out }],
        );
        assert(ops =~= a + b + c + d);
        lemma_run_add(a, b, v);
        lemma_run_add(a + b, c, v);
        lemma_run_add(a + b + c, d, v);
        let v1 = run(a, v);
        let v2 = run(b, v1);
        let v3 = run(c, v2);
        lemma_next(a, 0, v);
        if m.softcap {
            lemma_next(b, 0, v1);
        }
        if m.logit_scale {
            lemma_next(c, 0, v2);
        }
        if m.n_vocab_out < s.n_vocab {
            lemma_next(d, 0, v3);
        }
    } else {
        lemma_next(ops, 0, v);
    }
}

#[verifier::rlimit(40)]
proof fn lemma_draft_tail(m: Model, mtp: MtpW, v: World)
    requires
        mtp_fits(m.shape, 1),
        m.draft_tail(mtp).end is Ok,
    ensures
        draft_ends(m, mtp, v, run(m.draft_tail(mtp).ops, v)),
{
    let s = m.shape;
    let w = m.output_hc->Some_0;
    lemma_chunk_widths(s, 1);
    let a = hc_full(s, hc_out_at(), w, 1, false);
    let b = seq![
        Op::CopyD2d {
            dst: Buf::State(St::Normed),
            dst_off: 0,
            src: Buf::Rt(Q38::Cur),
            src_off: 0,
            bytes: f32_bytes(s.n_embd),
        },
    ];
    let c = m.draft_head(mtp);
    let d = seq![
        Op::Sync,
        Op::ReadLogits { n: s.n_vocab as u64 },
        Op::CopyD2d {
            dst: Buf::State(St::MtpHidden),
            dst_off: 0,
            src: Buf::Rt(Q38::ResHc),
            src_off: 0,
            bytes: f32_bytes(s.hc_dim()),
        },
    ];
    assert(m.draft_tail(mtp).ops == a + b + c + d);
    lemma_run_add(a, b, v);
    lemma_run_add(a + b, c, v);
    lemma_run_add(a + b + c, d, v);
    let v1 = run(a, v);
    let v2 = run(b, v1);
    let v3 = run(c, v2);
    assert(hc_out_at() == head_mixer());
    lemma_mix(s, head_mixer(), w, 1, false, v);
    lemma_next(b, 0, v1);
    lemma_draft_head(m, mtp, v2);
    lemma_next(d, 0, v3);
    lemma_next(d, 1, v3);
    lemma_next(d, 2, v3);
}

proof fn lemma_mtp_body(
    s: Shape,
    l: LayerW,
    w: Qwen38W,
    pos0: u32,
    t: u32,
    ctx: u32,
    v: World,
)
    requires
        s.rows_fit(t),
        mtp_layer_body(s, l, w, pos0, t, ctx).end is Ok,
    ensures
        body_does(
            s,
            Part::Mtp,
            s.n_exec_layer as usize,
            l,
            w,
            None,
            t as int,
            pos0 as int,
            ctx as int,
            v,
            run(mtp_layer_body(s, l, w, pos0, t, ctx).ops, v),
        ),
{
    let il = s.n_exec_layer as usize;
    let a = Plan::of(hc_full(s, hc_attn_at(Part::Mtp), w.hc_attn, t, true));
    let b = mixer_of(s, Part::Mtp, il, None, w.attn, None, pos0, t, ctx);
    let c = Plan::of(combine(s, Buf::Rt(Q38::AttnOut), t));
    let d = expert_half(s, Part::Mtp, il, l, w, t);
    assert(mtp_layer_body(s, l, w, pos0, t, ctx) == a.and(b).and(c).and(d));
    lemma_body(s, Part::Mtp, il, l, w, None, None, pos0, t, ctx, v);
}

/// A draft projects the normed embedding of its token, side by side with the mean
/// of the normed streams that the position before left, runs the drafting block's
/// layer on it, in the place behind the last layer, and gives its logits.
#[verifier::rlimit(40)]
pub proof fn draft_computes(
    m: Model,
    mtp: MtpW,
    l: LayerW,
    token: u32,
    pos: u32,
    ctx: u32,
    v: World,
)
    requires
        mtp_fits(m.shape, 1),
        m.draft(mtp, l, token, pos, ctx).end is Ok,
    ensures
        l.attn is Qwen38,
        exists|u: World, y: World| #[trigger]
            draft_enters(m, mtp, token as int, v, u) && #[trigger] draft_ends(
                m,
                mtp,
                y,
                run(m.draft(mtp, l, token, pos, ctx).ops, v),
            ) && body_does(
                m.shape,
                Part::Mtp,
                m.shape.n_exec_layer as usize,
                l,
                l.attn->Qwen38_0,
                None,
                1,
                pos as int,
                ctx as int,
                u,
                y,
            ),
{
    let s = m.shape;
    let a = Plan::of(draft_input(s, mtp, token));
    let b = mtp_layer(s, l, pos, ctx);
    let c = m.draft_tail(mtp);
    lemma_run_and(a, b, v);
    lemma_run_and(a.and(b), c, v);
    let u = run(a.ops, v);
    let y = run(b.ops, u);
    lemma_draft_input(m, mtp, token, v);
    lemma_mtp_body(s, l, l.attn->Qwen38_0, pos, 1, ctx, u);
    lemma_draft_tail(m, mtp, y);
    assert(draft_enters(m, mtp, token as int, v, u));
    assert(draft_ends(m, mtp, y, run(m.draft(mtp, l, token, pos, ctx).ops, v)));
}

/// What filling starts from: for every row its token, and the streams of the row
/// before it; for the first, what was kept.  The streams of the last row are kept.
pub open spec fn fill_enters(s: Shape, mtp: MtpW, t: int, v: World, u: World) -> bool {
    let d = s.n_hc * s.n_embd;
    let res = v.at[Buf::Rt(Q38::ResHc)];
    let first = Val::Cut { of: v.get(Buf::State(St::MtpHidden)), off: 0, bytes: d * 4 };
    let streams = if t > 1 {
        patched(first, d * 4, res, 0, (t - 1) * d * 4)
    } else {
        first
    };
    let e = known(s, mtp, v.at[Buf::State(St::Tok)], t);
    let h = hidden(s, streams, t);
    let x = side_by_side(s, v.at[Buf::State(St::MtpX)], e, h, t);
    &&& u.at[Buf::Rt(Q38::ResHc)] == projected(s, x, t)
    &&& u.at[Buf::State(St::MtpHidden)] == Val::Cut {
        of: bx(res),
        off: (t - 1) * d * 4,
        bytes: d * 4,
    }
    &&& forall|b: Buf| #[trigger]
        lasting(b) && b != Buf::State(St::MtpHidden) ==> u.at[b] == v.at[b]
}

#[verifier::rlimit(40)]
proof fn lemma_interleave(s: Shape, n: int, t: u32, v: World)
    requires
        mtp_fits(s, t),
        0 <= n <= t,
    ensures
        ({
            let z = run(interleave(s, n), v);
            &&& z.at[Buf::State(St::MtpX)] == side_by_side(
                s,
                v.at[Buf::State(St::MtpX)],
                v.at[Buf::State(St::MtpE)],
                v.at[Buf::State(St::MtpH)],
                n,
            )
            &&& forall|b: Buf| b != Buf::State(St::MtpX) ==> #[trigger] z.at[b] == v.at[b]
        }),
    decreases n,
{
    if n > 0 {
        lemma_interleave(s, n - 1, t, v);
        let front = interleave(s, n - 1);
        let ops = interleave(s, n);
        let pair = ops.skip(front.len() as int);
        assert(ops =~= front + pair);
        lemma_run_add(front, pair, v);
        let v1 = run(front, v);
        let i = n - 1;
        let row = s.n_embd * 4;
        assert(i * 2 * row == i * (2 * row)) by (nonlinear_arith);
        assert(0 <= i * row && 0 <= i * (2 * row) && i * (2 * row) + 2 * row <= 2 * (t * s.n_embd) * 4)
            by (nonlinear_arith)
            requires
                0 <= i < t,
                row == s.n_embd * 4,
        ;
        assert(i * (2 * row) == 2 * (i * row)) by (nonlinear_arith);
        lemma_next(pair, 0, v1);
        lemma_next(pair, 1, v1);
    }
}

#[verifier::rlimit(40)]
proof fn lemma_fill_streams(s: Shape, n: u32, v: World)
    requires
        mtp_fits(s, n),
        1 <= n,
    ensures
        ({
            let z = run(hidden_rows(s, n), v);
            let d = s.n_hc * s.n_embd;
            let first = Val::Cut { of: v.get(Buf::State(St::MtpHidden)), off: 0, bytes: d * 4 };
            z.at[Buf::Rt(Q38::Xn)] == if n > 1 {
                patched(first, d * 4, v.at[Buf::Rt(Q38::ResHc)], 0, (n - 1) * d * 4)
            } else {
                first
            }
        }),
{
    lemma_chunk_widths(s, n);
    lemma_chunk_widths(s, 1);
    let d = s.n_hc * s.n_embd;
    assert(0 <= (n - 1) * d <= n * d) by (nonlinear_arith)
        requires
            1 <= n,
            0 <= d,
    ;
    let ops = hidden_rows(s, n);
    lemma_next(ops, 0, v);
    if n > 1 {
        lemma_next(ops, 1, v);
    }
}

proof fn lemma_fill_norms(s: Shape, mtp: MtpW, n: u32, v: World)
    ensures
        ({
            let z = run(fill_norms(s, mtp, n), v);
            &&& z.at[Buf::State(St::MtpE)] == known(
                s,
                mtp,
                v.at[Buf::State(St::Tok)],
                n as int,
            )
            &&& z.at[Buf::State(St::MtpH)] == hidden(s, v.at[Buf::Rt(Q38::Xn)], n as int)
        }),
{
    let ops = fill_norms(s, mtp, n);
    lemma_next(ops, 0, v);
    lemma_next(ops, 1, v);
    lemma_next(ops, 2, v);
    lemma_next(ops, 3, v);
}

#[verifier::rlimit(40)]
proof fn lemma_fill_project(s: Shape, n: u32, v: World)
    requires
        mtp_fits(s, n),
        1 <= n,
    ensures
        ({
            let z = run(fill_project(s, n), v);
            let d = s.n_hc * s.n_embd;
            &&& z.at[Buf::Rt(Q38::ResHc)] == projected(s, v.at[Buf::State(St::MtpX)], n as int)
            &&& z.at[Buf::State(St::MtpHidden)] == (Val::Cut {
                of: v.get(Buf::Rt(Q38::ResHc)),
                off: (n - 1) * d * 4,
                bytes: d * 4,
            })
        }),
{
    lemma_chunk_widths(s, n);
    lemma_chunk_widths(s, 1);
    let d = s.n_hc * s.n_embd;
    assert(0 <= (n - 1) * d <= n * d) by (nonlinear_arith)
        requires
            1 <= n,
            0 <= d,
    ;
    let ops = fill_project(s, n);
    lemma_next(ops, 0, v);
    lemma_next(ops, 1, v);
    lemma_next(ops, 2, v);
    lemma_next(ops, 3, v);
}

#[verifier::rlimit(40)]
proof fn lemma_fill_input(s: Shape, mtp: MtpW, n: u32, v: World)
    requires
        mtp_fits(s, n),
        1 <= n,
    ensures
        fill_enters(s, mtp, n as int, v, run(fill_input(s, mtp, n), v)),
{
    let a = hidden_rows(s, n);
    let b = fill_norms(s, mtp, n);
    let c = interleave(s, n as int);
    let d = fill_project(s, n);
    lemma_run_add(a, b, v);
    lemma_run_add(a + b, c, v);
    lemma_run_add(a + b + c, d, v);
    let v1 = run(a, v);
    let v2 = run(b, v1);
    let v3 = run(c, v2);
    let res = Buf::Rt(Q38::ResHc);
    let tok = Buf::State(St::Tok);
    let x = Buf::State(St::MtpX);
    lemma_fill_streams(s, n, v);
    lemma_run_keeps(a, a.len() as int, res, v);
    lemma_run_keeps(a, a.len() as int, tok, v);
    lemma_run_keeps(a, a.len() as int, x, v);
    lemma_fill_norms(s, mtp, n, v1);
    lemma_run_keeps(b, b.len() as int, res, v1);
    lemma_run_keeps(b, b.len() as int, x, v1);
    lemma_interleave(s, n as int, n, v2);
    lemma_fill_project(s, n, v3);
    assert forall|y: Buf| #[trigger]
        lasting(y) && y != Buf::State(St::MtpHidden) implies run(d, v3).at[y] == v.at[y] by {
        lemma_run_keeps(a, a.len() as int, y, v);
        lemma_run_keeps(b, b.len() as int, y, v1);
        assert(v3.at[y] == v2.at[y]);
        lemma_run_keeps(d, d.len() as int, y, v3);
    }
}

/// Filling the drafting block's cache runs the block's layer over a chunk, every
/// row on its token side by side with the streams of the row before.
pub proof fn fill_computes(s: Shape, mtp: MtpW, n: u32, pos0: u32, ctx: u32, v: World)
    requires
        1 <= n,
        mtp_fits(s, n),
        fill(s, mtp, n, pos0, ctx).end is Ok,
    ensures
        mtp.layer.attn is Qwen38,
        exists|u: World| #[trigger]
            fill_enters(s, mtp, n as int, v, u) && body_does(
                s,
                Part::Mtp,
                s.n_exec_layer as usize,
                mtp.layer,
                mtp.layer.attn->Qwen38_0,
                None,
                n as int,
                pos0 as int,
                ctx as int,
                u,
                run(fill(s, mtp, n, pos0, ctx).ops, v),
            ),
{
    let a = Plan::of(fill_input(s, mtp, n));
    let w = mtp.layer.attn->Qwen38_0;
    let b = mtp_layer_body(s, mtp.layer, w, pos0, n, ctx);
    lemma_run_and(a, b, v);
    let u = run(a.ops, v);
    lemma_fill_input(s, mtp, n, v);
    lemma_mtp_body(s, mtp.layer, w, pos0, n, ctx, u);
    assert(fill_enters(s, mtp, n as int, v, u));
}

} // verus!
