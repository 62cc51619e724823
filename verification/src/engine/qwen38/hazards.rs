//! What a qwen38 pass writes, and when the host waits.

use crate::engine::hazard::{
    all_fed, is_weight, lemma_fed, lemma_sound_add, lemma_sound_and, sound, tidy,
};
use crate::engine::ops::{ops_if, Buf, Op, Part, Plan, Q38, St};
use crate::engine::ple::{
    ple_heads, ple_hist_cols, ple_row, read_heads, read_row, read_tokens, PleTable,
};
use crate::engine::qwen38::blocks::{
    attention, attn_core, attn_kv, attn_out, attn_query, combine, gdn,
    gdn_input, gdn_out, gdn_project, gdn_recurrence, hc_attn_at, hc_collapse, hc_down, hc_ffn_at,
    hc_full, hc_gate, hc_inject, hc_mix, hc_norm, hc_out_at, hc_up, moe, moe_route, moe_routed,
    moe_shared, quant_rows, HcAt,
};
use crate::engine::qwen38::embed::{ple_conv, ple_device, ple_front, ple_residual, ple_roll};
use crate::engine::qwen38::mtp::{
    draft_input, fill, fill_input, fill_norms, fill_project, hidden_rows, interleave, mtp_layer,
    mtp_layer_body,
};
use crate::engine::qwen38::pass::{
    chunk_of, chunk_start, expert_half, head_rows, is_ple_layer, last_chunk, layer_body, n_chunks,
    reset_gdn, token_mixer, zero_gdn,
};
use crate::engine::qwen38::{GdnState, PleMem, Qwen38Rt, T_MAX};
use crate::engine::shape::{
    either, f32_bytes, Attn, Ffn, LayerW, MatKind, Model, MtpW, PleHash, Qwen38Attn, Qwen38Gdn, Qwen38Hc,
    Qwen38W, Shape,
};
use vstd::prelude::*;

verus! {

/// Gated attention quantizes neither its input nor its heads: its outer
/// projections multiply the values themselves.
pub open spec fn attn_matches(w: Qwen38Attn) -> bool {
    w.wq == MatKind::Q8 && w.out == MatKind::Q8
}

/// The encodings of a layer's gated attention match, where it mixes by it.
pub open spec fn attn_layer_matches(l: LayerW) -> bool {
    l.attn matches Attn::Qwen38(w) ==> (w.gdn is None ==> (w.attn matches Some(a)
        ==> attn_matches(a)))
}

/// The encodings of every layer's gated attention match.
pub open spec fn attn_all_match(m: Model) -> bool {
    forall|il: int| 0 <= il < m.layers@.len() ==> attn_layer_matches(#[trigger] m.layers@[il])
}

/// The encodings of the drafting block's gated attention match.
pub open spec fn mtp_matches(l: LayerW) -> bool {
    l.attn matches Attn::Qwen38(w) ==> (w.attn matches Some(a) ==> attn_matches(a))
}

/// The buffers of a stream mixer are weights.
spec fn of_weights(at: HcAt) -> bool {
    is_weight(at.norm) && is_weight(at.down) && is_weight(at.up) && is_weight(at.inject)
}

proof fn lemma_gate_sound(s: Shape, at: HcAt, w: Qwen38Hc, t: u32, matched: bool)
    requires
        of_weights(at),
    ensures
        sound(hc_gate(s, at, w, t), matched),
{
    let a = quant_rows(w.down, Buf::Rt(Q38::Xq), Buf::Rt(Q38::Xn), s.hc_dim(), t);
    let b = hc_down(s, at, w, t);
    lemma_fed(b, w.down, Buf::Rt(Q38::Xn), Buf::Rt(Q38::Xq), s.hc_dim(), t, matched);
    let c = quant_rows(w.up, Buf::Rt(Q38::Xq2), Buf::Rt(Q38::Lo), s.hc_low_rank, t);
    let d = hc_up(s, at, w, t);
    lemma_fed(d, w.up, Buf::Rt(Q38::Lo), Buf::Rt(Q38::Xq2), s.hc_low_rank, t, matched);
    lemma_sound_add(a + b, c + d, matched);
    assert(hc_gate(s, at, w, t) =~= a + b + (c + d));
}

proof fn lemma_full_sound(s: Shape, at: HcAt, w: Qwen38Hc, t: u32, inject: bool, matched: bool)
    requires
        of_weights(at),
    ensures
        sound(hc_full(s, at, w, t, inject), matched),
{
    let a = hc_norm(s, at.norm, t, true);
    assert(sound(a, matched));
    let b = hc_gate(s, at, w, t);
    lemma_gate_sound(s, at, w, t, matched);
    let c = ops_if(inject && w.inject_bytes > 4, hc_inject(s, at, t));
    assert(sound(c, matched));
    let d = hc_collapse(s, t);
    assert(sound(d, matched));
    lemma_sound_add(b, c, matched);
    lemma_sound_add(b + c, d, matched);
    lemma_sound_add(a, hc_mix(s, at, w, t, inject), matched);
}

proof fn lemma_gdn_sound(
    s: Shape,
    part: Part,
    il: usize,
    w: Qwen38Gdn,
    state: Option<GdnState>,
    t: u32,
    matched: bool,
)
    ensures
        sound(gdn(s, part, il, w, state, t).ops, matched),
{
    reveal(gdn);
    let q = gdn_input(s, w, t);
    let a = gdn_project(s, part, w, t);
    lemma_fed(a, either(w.wqkv, w.wz), Buf::Rt(Q38::Cur), Buf::Rt(Q38::Xq2), s.n_embd, t, matched);
    let b = gdn_recurrence(s, part, il, t);
    assert(sound(b, matched));
    let c = quant_rows(
        w.ssm_out,
        Buf::Rt(Q38::Midq),
        Buf::Rt(Q38::GdnO),
        s.value_dim(),
        t,
    );
    let d = gdn_out(s, part, w, t);
    lemma_fed(d, w.ssm_out, Buf::Rt(Q38::GdnO), Buf::Rt(Q38::Midq), s.value_dim(), t, matched);
    lemma_sound_add(q + a, b, matched);
    lemma_sound_add(q + a + b, c + d, matched);
    if state is Some {
        assert(gdn(s, part, il, w, state, t).ops =~= q + a + b + (c + d));
    }
}

proof fn lemma_attention_sound(
    s: Shape,
    part: Part,
    il: usize,
    w: Qwen38Attn,
    pos0: u32,
    t: u32,
    ctx: u32,
    matched: bool,
)
    requires
        matched ==> attn_matches(w),
    ensures
        sound(attention(s, part, il, w, pos0, t, ctx).ops, matched),
{
    reveal(attention);
    let a = attn_query(s, part, w, t);
    assert(sound(a, matched));
    let b = attn_kv(s, part, t);
    assert(sound(b, matched));
    let c = attn_core(s, part, il, pos0, t, ctx);
    assert(sound(c, matched));
    let e = attn_out(s, part, w, t);
    assert(sound(e, matched));
    lemma_sound_add(a, b, matched);
    lemma_sound_add(a + b, c, matched);
    lemma_sound_add(a + b + c, e, matched);
}

proof fn lemma_moe_sound(s: Shape, part: Part, il: usize, l: LayerW, t: u32, matched: bool)
    ensures
        sound(moe(s, part, il, l, t).ops, matched),
{
    if let Ffn::Moe { shexp } = l.ffn {
        let a = moe_route(s, part, t);
        assert(sound(a, matched));
        let ops = moe(s, part, il, l, t).ops;
        let c = moe_routed(s, part, il, t);
        assert(c[1] == Op::Sync);
        assert(sound(c, matched));
        let b = ops.subrange(a.len() as int, ops.len() - c.len());
        assert(sound(moe_shared(s, part, t), matched));
        if shexp {
            assert(b =~= moe_shared(s, part, t));
        } else {
            assert(b.len() == 1);
        }
        assert(sound(b, matched));
        lemma_sound_add(a, b, matched);
        lemma_sound_add(a + b, c, matched);
        assert(ops =~= a + b + c);
    }
}

proof fn lemma_experts_sound(
    s: Shape,
    part: Part,
    il: usize,
    l: LayerW,
    w: Qwen38W,
    t: u32,
    matched: bool,
)
    ensures
        sound(expert_half(s, part, il, l, w, t).ops, matched),
{
    reveal(expert_half);
    let a = Plan::of(hc_full(s, hc_ffn_at(part), w.hc_ffn, t, true));
    lemma_full_sound(s, hc_ffn_at(part), w.hc_ffn, t, true, matched);
    let b = moe(s, part, il, l, t);
    lemma_moe_sound(s, part, il, l, t, matched);
    let c = Plan::of(combine(s, Buf::Rt(Q38::Cur), t));
    assert(sound(c.ops, matched));
    lemma_sound_and(a, b, matched);
    lemma_sound_and(a.and(b), c, matched);
}

proof fn lemma_body_sound(
    s: Shape,
    il: usize,
    l: LayerW,
    w: Qwen38W,
    state: Option<GdnState>,
    pos0: u32,
    t: u32,
    ctx: u32,
    matched: bool,
)
    requires
        matched ==> (w.gdn is None ==> (w.attn matches Some(a) ==> attn_matches(a))),
    ensures
        sound(layer_body(s, il, l, w, state, pos0, t, ctx).ops, matched),
{
    reveal(layer_body);
    let part = Part::Layer(il);
    let a = Plan::of(hc_full(s, hc_attn_at(part), w.hc_attn, t, true));
    lemma_full_sound(s, hc_attn_at(part), w.hc_attn, t, true, matched);
    let b = token_mixer(s, il, w, state, pos0, t, ctx);
    match (w.gdn, w.attn) {
        (Some(g), _) => lemma_gdn_sound(s, part, il, g, state, t, matched),
        (None, Some(x)) => lemma_attention_sound(s, part, il, x, pos0, t, ctx, matched),
        _ => {},
    }
    let c = Plan::of(combine(s, Buf::Rt(Q38::AttnOut), t));
    assert(sound(c.ops, matched));
    let d = expert_half(s, part, il, l, w, t);
    lemma_experts_sound(s, part, il, l, w, t, matched);
    lemma_sound_and(a, b, matched);
    lemma_sound_and(a.and(b), c, matched);
    lemma_sound_and(a.and(b).and(c), d, matched);
}

proof fn lemma_read_heads_sound(
    hash: PleHash,
    s: Shape,
    table: PleTable,
    hist: Seq<u32>,
    chunk: Seq<u32>,
    tt: int,
    n: int,
    matched: bool,
)
    ensures
        sound(read_heads(hash, s, table, hist, chunk, tt, n).ops, matched),
    decreases n,
{
    if n > 0 {
        lemma_read_heads_sound(hash, s, table, hist, chunk, tt, n - 1, matched);
        let a = read_heads(hash, s, table, hist, chunk, tt, n - 1);
        let b = read_row(
            table,
            ple_row(hash, s, hist + chunk, hist.len() + tt, n - 1) as u64,
            tt * ple_heads(&s) + n - 1,
        );
        assert(sound(b.ops, matched));
        lemma_sound_and(a, b, matched);
    }
}

proof fn lemma_read_tokens_sound(
    hash: PleHash,
    s: Shape,
    table: PleTable,
    hist: Seq<u32>,
    chunk: Seq<u32>,
    n: int,
    matched: bool,
)
    ensures
        sound(read_tokens(hash, s, table, hist, chunk, n).ops, matched),
    decreases n,
{
    if n > 0 {
        lemma_read_tokens_sound(hash, s, table, hist, chunk, n - 1, matched);
        lemma_read_heads_sound(hash, s, table, hist, chunk, n - 1, ple_heads(&s) as int, matched);
        lemma_sound_and(
            read_tokens(hash, s, table, hist, chunk, n - 1),
            read_heads(hash, s, table, hist, chunk, n - 1, ple_heads(&s) as int),
            matched,
        );
    }
}

proof fn lemma_ple_device_sound(
    s: Shape,
    part: Part,
    il: usize,
    state: Option<GdnState>,
    t: u32,
    matched: bool,
)
    ensures
        sound(ple_device(s, part, il, state, t).ops, matched),
{
    let a = Plan::of(ple_front(s, part, t));
    assert(sound(a.ops, matched));
    let b = ple_conv(s, part, il, t);
    assert(sound(b, matched));
    let c = ops_if(ple_hist_cols(&s) > 0 && t > 0, ple_roll(s, il, t));
    assert(sound(c, matched));
    let d = ple_residual(s, t);
    assert(sound(d, matched));
    lemma_sound_add(b, c, matched);
    lemma_sound_add(b + c, d, matched);
    if state is Some && state->Some_0.ple_hist is Some {
        lemma_sound_and(a, Plan::of(b + c + d), matched);
    } else {
        let none = Seq::<Op>::empty();
        assert(a.ops + none =~= a.ops);
    }
}

proof fn lemma_layer_sound(
    m: Model,
    rt: Qwen38Rt,
    mem: PleMem,
    chunk: Seq<u32>,
    pos0: u32,
    ctx: u32,
    il: usize,
    skip_ple: bool,
    matched: bool,
)
    requires
        matched ==> attn_layer_matches(m.layers@[il as int]),
    ensures
        sound(
            m.qwen38_layer(
                rt.states@,
                rt.ple_table,
                mem,
                chunk,
                pos0,
                ctx,
                il,
                skip_ple,
            ).plan.ops,
            matched,
        ),
{
    let s = m.shape;
    let t = chunk.len() as u32;
    let l = m.layers@[il as int];
    if let Attn::Qwen38(w) = l.attn {
        let state = rt.states@[il as int];
        let e = m.qwen38_embed(rt.states@, rt.ple_table, mem, chunk, pos0, il, skip_ple);
        if is_ple_layer(s, il as int) && !skip_ple {
            let sync = Plan::of(seq![Op::Sync]);
            assert(sound(sync.ops, matched));
            let block = m.ple_block(rt.states@, rt.ple_table, mem, chunk, pos0, il);
            if let Some(table) = rt.ple_table {
                if w.ple {
                    let n = chunk.len() as int;
                    let from = mem.at(pos0).tokens;
                    lemma_read_tokens_sound(m.ple_hash, s, table, from, chunk, n, matched);
                    lemma_ple_device_sound(s, Part::Layer(il), il, state, t, matched);
                    lemma_sound_and(
                        read_tokens(m.ple_hash, s, table, from, chunk, n),
                        ple_device(s, Part::Layer(il), il, state, t),
                        matched,
                    );
                }
            }
            assert(sound(block.plan.ops, matched));
            lemma_sound_and(block.plan, sync, matched);
        }
        assert(sound(e.plan.ops, matched));
        let b = layer_body(s, il, l, w, state, pos0, t, ctx);
        lemma_body_sound(s, il, l, w, state, pos0, t, ctx, matched);
        lemma_sound_and(e.plan, b, matched);
    }
}

proof fn lemma_span_sound(
    m: Model,
    rt: Qwen38Rt,
    mem: PleMem,
    chunk: Seq<u32>,
    pos0: u32,
    ctx: u32,
    n: int,
    skip_ple: bool,
    matched: bool,
)
    requires
        n <= m.layers@.len(),
        matched ==> attn_all_match(m),
    ensures
        sound(
            m.qwen38_span(
                rt.states@,
                rt.ple_table,
                mem,
                chunk,
                pos0,
                ctx,
                n,
                skip_ple,
            ).plan.ops,
            matched,
        ),
    decreases n,
{
    if n > 0 {
        lemma_span_sound(m, rt, mem, chunk, pos0, ctx, n - 1, skip_ple, matched);
        let prev = m.qwen38_span(
            rt.states@,
            rt.ple_table,
            mem,
            chunk,
            pos0,
            ctx,
            n - 1,
            skip_ple,
        );
        let il = (n - 1) as usize;
        lemma_layer_sound(m, rt, prev.mem, chunk, pos0, ctx, il, skip_ple, matched);
        let step = m.qwen38_layer(
            rt.states@,
            rt.ple_table,
            prev.mem,
            chunk,
            pos0,
            ctx,
            il,
            skip_ple,
        );
        lemma_sound_and(prev.plan, step.plan, matched);
    }
}

proof fn lemma_chunk_sound(
    m: Model,
    rt: Qwen38Rt,
    mem: PleMem,
    chunk: Seq<u32>,
    pos: u32,
    ctx: u32,
    skip_ple: bool,
    matched: bool,
)
    requires
        matched ==> attn_all_match(m),
    ensures
        sound(
            m.qwen38_chunk(rt.states@, rt.ple_table, mem, chunk, pos, ctx, skip_ple).plan.ops,
            matched,
        ),
{
    reveal(Model::qwen38_chunk);
    let nl = m.layers@.len() as int;
    let a = Plan::of(chunk_start(m.shape, pos, chunk.len() as u32));
    assert(a.ops[0] == Op::Sync);
    assert(sound(a.ops, matched));
    lemma_span_sound(m, rt, mem, chunk, pos, ctx, nl, skip_ple, matched);
    lemma_sound_and(
        a,
        m.qwen38_span(rt.states@, rt.ple_table, mem, chunk, pos, ctx, nl, skip_ple).plan,
        matched,
    );
}

proof fn lemma_chunks_sound(
    m: Model,
    rt: Qwen38Rt,
    mem: PleMem,
    tokens: Seq<u32>,
    pos0: u32,
    ctx: u32,
    n: int,
    skip_ple: bool,
    matched: bool,
)
    requires
        matched ==> attn_all_match(m),
    ensures
        sound(
            m.qwen38_chunks(
                rt.states@,
                rt.ple_table,
                mem,
                tokens,
                pos0,
                ctx,
                n,
                skip_ple,
            ).plan.ops,
            matched,
        ),
    decreases n,
{
    if n > 0 {
        lemma_chunks_sound(m, rt, mem, tokens, pos0, ctx, n - 1, skip_ple, matched);
        let prev = m.qwen38_chunks(
            rt.states@,
            rt.ple_table,
            mem,
            tokens,
            pos0,
            ctx,
            n - 1,
            skip_ple,
        );
        let chunk = chunk_of(tokens, n - 1);
        let pos = (pos0 + (n - 1) * T_MAX) as u32;
        let step = m.qwen38_chunk(
            rt.states@,
            rt.ple_table,
            prev.mem,
            chunk,
            pos,
            ctx,
            skip_ple,
        );
        lemma_chunk_sound(m, rt, prev.mem, chunk, pos, ctx, skip_ple, matched);
        lemma_sound_and(prev.plan, step.plan, matched);
    }
}

proof fn lemma_reset_sound(states: Seq<Option<GdnState>>, n: int, matched: bool)
    ensures
        sound(reset_gdn(states, n), matched),
    decreases n,
{
    if n > 0 {
        lemma_reset_sound(states, n - 1, matched);
        let mine = match states[n - 1] {
            Some(g) => seq![Op::SetDevice(g.dev)] + zero_gdn((n - 1) as usize, g),
            None => Seq::empty(),
        };
        assert(sound(mine, matched));
        lemma_sound_add(reset_gdn(states, n - 1), mine, matched);
    }
}

/// In a batch no kernel writes a weight, or a buffer that it also reads, and the
/// host waits for the device right before it fills the token buffer of a chunk and
/// before it reads the selected experts or the logits back.  Where the encodings of
/// the gated attention match, every matmul over quantized rows multiplies the
/// quantization of its own input.
pub proof fn pass_is_sound(
    m: Model,
    rt: Qwen38Rt,
    tokens: Seq<u32>,
    pos0: u32,
    rows: u32,
    ctx: u32,
    current: i32,
    skip_ple: bool,
)
    ensures
        tidy(m.qwen38_pass(rt, tokens, pos0, rows, ctx, current, skip_ple).plan.ops),
        attn_all_match(m) ==> all_fed(
            m.qwen38_pass(rt, tokens, pos0, rows, ctx, current, skip_ple).plan.ops,
        ),
{
    let matched = attn_all_match(m);
    let n = rt.states@.len() as int;
    lemma_reset_sound(rt.states@, n, matched);
    let back = seq![Op::SetDevice(current)];
    assert(sound(back, matched));
    lemma_sound_add(reset_gdn(rt.states@, n), back, matched);
    let a = Plan::of(ops_if(pos0 == 0, reset_gdn(rt.states@, n) + back));
    assert(sound(a.ops, matched));
    let mem = if pos0 == 0 {
        PleMem { tokens: Seq::empty(), next_pos: 0 }
    } else {
        rt.mem()
    };
    let k = n_chunks(tokens.len() as int);
    lemma_chunks_sound(m, rt, mem, tokens, pos0, ctx, k, skip_ple, matched);
    let b = m.qwen38_chunks(
        rt.states@,
        rt.ple_table,
        mem,
        tokens,
        pos0,
        ctx,
        k,
        skip_ple,
    ).plan;
    let c = m.qwen38_tail(tokens.len() as int, rows);
    assert(sound(c.ops, matched)) by {
        reveal(Model::qwen38_tail);
        let last = last_chunk(tokens.len() as int) as u32;
        if let Some(w) = m.output_hc {
            lemma_full_sound(m.shape, hc_out_at(), w, last, false, matched);
            let h = head_rows(m.shape, last, rows);
            assert(h[3] == Op::Sync);
            assert(sound(h, matched));
            lemma_sound_add(hc_full(m.shape, hc_out_at(), w, last, false), h, matched);
        }
    }
    lemma_sound_and(a, b, matched);
    lemma_sound_and(a.and(b), c, matched);
}

proof fn lemma_mtp_body_sound(
    s: Shape,
    l: LayerW,
    w: Qwen38W,
    pos0: u32,
    t: u32,
    ctx: u32,
    matched: bool,
)
    requires
        matched ==> (w.attn matches Some(a) ==> attn_matches(a)),
    ensures
        sound(mtp_layer_body(s, l, w, pos0, t, ctx).ops, matched),
{
    let il = s.n_exec_layer as usize;
    let a = Plan::of(hc_full(s, hc_attn_at(Part::Mtp), w.hc_attn, t, true));
    lemma_full_sound(s, hc_attn_at(Part::Mtp), w.hc_attn, t, true, matched);
    let c = Plan::of(combine(s, Buf::Rt(Q38::AttnOut), t));
    assert(sound(c.ops, matched));
    let d = expert_half(s, Part::Mtp, il, l, w, t);
    lemma_experts_sound(s, Part::Mtp, il, l, w, t, matched);
    match w.attn {
        None => {
            let none = Seq::<Op>::empty();
            assert(a.ops + none =~= a.ops);
        },
        Some(x) => {
            let b = attention(s, Part::Mtp, il, x, pos0, t, ctx);
            lemma_attention_sound(s, Part::Mtp, il, x, pos0, t, ctx, matched);
            lemma_sound_and(a, b, matched);
            lemma_sound_and(a.and(b), c, matched);
            lemma_sound_and(a.and(b).and(c), d, matched);
        },
    }
}

/// The same holds of a draft.
pub proof fn draft_is_sound(m: Model, mtp: MtpW, l: LayerW, token: u32, pos: u32, ctx: u32)
    ensures
        tidy(m.draft(mtp, l, token, pos, ctx).ops),
        mtp_matches(l) ==> all_fed(m.draft(mtp, l, token, pos, ctx).ops),
{
    let matched = mtp_matches(l);
    let s = m.shape;
    let a = Plan::of(draft_input(s, mtp, token));
    assert(sound(a.ops, matched));
    let b = mtp_layer(s, l, pos, ctx);
    if let Attn::Qwen38(w) = l.attn {
        lemma_mtp_body_sound(s, l, w, pos, 1, ctx, matched);
    }
    let c = m.draft_tail(mtp);
    if let Some(w) = m.output_hc {
        let c0 = hc_full(s, hc_out_at(), w, 1, false);
        lemma_full_sound(s, hc_out_at(), w, 1, false, matched);
        let c1 = seq![
            Op::CopyD2d {
                dst: Buf::State(St::Normed),
                dst_off: 0,
                src: Buf::Rt(Q38::Cur),
                src_off: 0,
                bytes: f32_bytes(s.n_embd),
            },
        ];
        assert(sound(c1, matched));
        let c2 = m.draft_head(mtp);
        assert(sound(c2, matched));
        let c3 = seq![
            Op::Sync,
            Op::ReadLogits { n: s.n_vocab as u64 },
            Op::CopyD2d {
                dst: Buf::State(St::MtpHidden),
                dst_off: 0,
                src: Buf::Rt(Q38::ResHc),
                src_off: 0,
                bytes: f32_bytes(s.hc_dim()),
            },
        ];
        assert(c3[0] == Op::Sync);
        assert(sound(c3, matched));
        lemma_sound_add(c0, c1, matched);
        lemma_sound_add(c0 + c1, c2, matched);
        lemma_sound_add(c0 + c1 + c2, c3, matched);
    }
    lemma_sound_and(a, b, matched);
    lemma_sound_and(a.and(b), c, matched);
}

proof fn lemma_interleave_sound(s: Shape, n: int, matched: bool)
    ensures
        sound(interleave(s, n), matched),
    decreases n,
{
    if n > 0 {
        lemma_interleave_sound(s, n - 1, matched);
        let ops = interleave(s, n);
        let front = interleave(s, n - 1);
        let pair = ops.skip(front.len() as int);
        assert(pair.len() == 2);
        assert(sound(pair, matched));
        lemma_sound_add(front, pair, matched);
        assert(ops =~= front + pair);
    }
}

/// The same holds of the filling of the drafting block's cache.
pub proof fn fill_is_sound(s: Shape, mtp: MtpW, n: u32, pos0: u32, ctx: u32)
    ensures
        tidy(fill(s, mtp, n, pos0, ctx).ops),
        mtp_matches(mtp.layer) ==> all_fed(fill(s, mtp, n, pos0, ctx).ops),
{
    let matched = mtp_matches(mtp.layer);
    let a0 = hidden_rows(s, n);
    assert(sound(a0, matched));
    let a1 = fill_norms(s, mtp, n);
    assert(sound(a1, matched));
    let a2 = interleave(s, n as int);
    lemma_interleave_sound(s, n as int, matched);
    let a3 = fill_project(s, n);
    assert(sound(a3, matched));
    lemma_sound_add(a0, a1, matched);
    lemma_sound_add(a0 + a1, a2, matched);
    lemma_sound_add(a0 + a1 + a2, a3, matched);
    let a = Plan::of(fill_input(s, mtp, n));
    match mtp.layer.attn {
        Attn::Qwen38(w) => {
            lemma_mtp_body_sound(s, mtp.layer, w, pos0, n, ctx, matched);
            lemma_sound_and(a, mtp_layer_body(s, mtp.layer, w, pos0, n, ctx), matched);
        },
        _ => {
            let none = Seq::<Op>::empty();
            assert(a.ops + none =~= a.ops);
        },
    }
}

} // verus!
