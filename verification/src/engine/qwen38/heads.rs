//! How the heads, the caches and the projections of a qwen38 pass fit each other,
//! and which layers run.

use crate::engine::ops::{Buf, Gw, Op, Part, St};
use crate::engine::qwen38::GdnState;
use crate::engine::qwen38::blocks::{attention, attn_core, attn_kv, attn_out, attn_query, gdn};
use crate::engine::qwen38::mtp::{draft_input, fill_project, mtp_fits, mtp_layer_body};
use crate::engine::qwen38::pass::{call_ok, expert_half, layer_body};
use crate::engine::shape::{LayerW, MatKind, MtpW, Qwen38Attn, Qwen38W, Shape};
use vstd::prelude::*;

verus! {

/// Operation `j` of a list puts rows of `heads` heads into a cache.
pub open spec fn fills(
    ops: Seq<Op>,
    j: int,
    cache: Buf,
    t: u32,
    heads: u32,
    dim: u32,
    ctx: u32,
    pos: u32,
) -> bool {
    0 <= j < ops.len() && (ops[j] matches Op::GqaKvAppend {
        cache: c,
        t: rows,
        heads: h,
        dim: d,
        ctx: n,
        pos: p,
        ..
    } && c == cache && rows == t && h == heads && d == dim && n == ctx && p == pos)
}

/// Attention reads caches as the same chunk filled them: with as many key and value
/// heads, as wide, in the same context, and up to the same positions; and as many as
/// the model has.
pub proof fn attention_reads_what_it_filled(
    s: Shape,
    part: Part,
    il: usize,
    w: Qwen38Attn,
    pos0: u32,
    t: u32,
    ctx: u32,
    i: int,
)
    requires
        0 <= i < attention(s, part, il, w, pos0, t, ctx).ops.len(),
    ensures
        attention(s, part, il, w, pos0, t, ctx).ops[i] matches Op::GqaAttention {
            k,
            v,
            t: rows,
            heads,
            kv_heads,
            dim,
            ctx: c,
            pos,
            ..
        } ==> {
            let ops = attention(s, part, il, w, pos0, t, ctx).ops;
            &&& k == Buf::KCache(il) && v == Buf::VCache(il)
            &&& heads == s.n_head && kv_heads == s.n_head_kv && dim == s.head_dim
            &&& c == ctx && pos == pos0 && rows == t
            &&& exists|j: int| j < i && #[trigger] fills(ops, j, k, t, kv_heads, dim, c, pos)
            &&& exists|j: int| j < i && #[trigger] fills(ops, j, v, t, kv_heads, dim, c, pos)
        },
{
    reveal(attention);
    let ops = attention(s, part, il, w, pos0, t, ctx).ops;
    let a = attn_query(s, part, w, t);
    let k = attn_kv(s, part, t);
    let c = attn_core(s, part, il, pos0, t, ctx);
    let o = attn_out(s, part, w, t);
    if ops[i] is GqaAttention {
        let n = (a.len() + k.len()) as int;
        assert(ops =~= a + k + c + o);
        if i < n {
            assert(ops[i] == (a + k)[i]);
        } else if i < n + c.len() {
            assert(ops[i] == c[i - n]);
        } else {
            assert(ops[i] == o[i - n - c.len()]);
        }
        assert(ops[n + 4] == c[4]);
        assert(ops[n + 5] == c[5]);
        assert(fills(ops, n + 4, Buf::KCache(il), t, s.n_head_kv, s.head_dim, ctx, pos0));
        assert(fills(ops, n + 5, Buf::VCache(il), t, s.n_head_kv, s.head_dim, ctx, pos0));
    }
}

/// The projection of a draft reads exactly the two rows that were put side by side
/// in front of it.
pub proof fn draft_projects_both_rows(s: Shape, mtp: MtpW, token: u32, i: int)
    requires
        mtp_fits(s, 1),
        0 <= i < draft_input(s, mtp, token).len(),
    ensures
        draft_input(s, mtp, token)[i] matches Op::MatmulQ8 { w, x, in_dim, out_dim, t, .. } ==> {
            let ops = draft_input(s, mtp, token);
            &&& w == Buf::Global(Gw::MtpEhProj)
            &&& i >= 2
            &&& ops[i - 2] matches Op::CopyD2d { dst, dst_off, bytes, .. } && dst == x && dst_off
                == 0 && (ops[i - 1] matches Op::CopyD2d { dst: d2, dst_off: o2, bytes: b2, .. }
                && d2 == x && o2 == bytes && in_dim * 4 == bytes + b2)
            &&& in_dim == 2 * s.n_embd && out_dim == s.n_embd && t == 1
        },
{
}

/// The projection of a fill reads two rows of the model's width for every token.
pub proof fn fill_projects_both_rows(s: Shape, n: u32)
    requires
        mtp_fits(s, n),
    ensures
        fill_project(s, n)[0] == (Op::MatmulQ8 {
            out: Buf::State(St::Cur),
            w: Buf::Global(Gw::MtpEhProj),
            x: Buf::State(St::MtpX),
            in_dim: (s.n_embd + s.n_embd) as u32,
            out_dim: s.n_embd,
            t: n,
        }),
{
}

/// A call is taken up exactly where it has tokens, asks for no more rows than a
/// chunk has, and stays in the context.
pub proof fn call_is_taken(n: nat, pos0: u32, rows: u32, ctx: u32)
    ensures
        call_ok(n, pos0, rows, ctx) is Ok <==> n > 0 && rows <= 16 && pos0 + n <= ctx,
{
}

/// The attention of a layer runs.
pub open spec fn attention_runs(s: Shape, w: Qwen38Attn, pos0: int, t: int) -> bool {
    &&& w.wk == MatKind::Q8 && w.wv == MatKind::Q8
    &&& w.has_indexer && s.qsa_ratio > 0 ==> pos0 + t <= s.n_idx_topk + s.qsa_ratio - 1
}

/// Attention runs exactly where its keys and values multiply plain rows and the
/// chunk stays in the window in which every cell would be picked.
pub proof fn attention_runs_in_its_window(
    s: Shape,
    part: Part,
    il: usize,
    w: Qwen38Attn,
    pos0: u32,
    t: u32,
    ctx: u32,
)
    ensures
        attention(s, part, il, w, pos0, t, ctx).end is Ok <==> attention_runs(
            s,
            w,
            pos0 as int,
            t as int,
        ),
{
    reveal(attention);
}

/// A layer runs exactly where its mixer and its experts do: a DeltaNet with its
/// state, or else attention, and then experts.
pub proof fn body_runs(
    s: Shape,
    il: usize,
    l: LayerW,
    w: Qwen38W,
    state: Option<GdnState>,
    pos0: u32,
    t: u32,
    ctx: u32,
)
    ensures
        layer_body(s, il, l, w, state, pos0, t, ctx).end is Ok <==> l.ffn is Moe && match w.gdn {
            Some(_) => state is Some,
            None => w.attn matches Some(a) && attention_runs(s, a, pos0 as int, t as int),
        },
        mtp_layer_body(s, l, w, pos0, t, ctx).end is Ok <==> l.ffn is Moe && (w.attn matches Some(
            a,
        ) && attention_runs(s, a, pos0 as int, t as int)),
{
    reveal(layer_body);
    reveal(expert_half);
    reveal(gdn);
    reveal(attention);
}

} // verus!
