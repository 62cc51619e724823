//! What holds of a whole qwen38 batch, and of the runtime that it runs on.

use crate::engine::access::{all_touch, lemma_all_touch_add, touches};
use crate::engine::blocks::lemma_and_associates;
use crate::engine::error::EngineError;
use crate::engine::ops::{ops_if, Buf, GdnBuf, Op, Part, Plan, Q38};
use crate::engine::ple::{ple_heads, ple_row, read_heads, read_row, read_tokens, PleTable};
use crate::engine::qwen38::{GdnState, PleMem, Qwen38Rt, T_MAX};
use crate::engine::qwen38::blocks::{attention, hc_full, hc_out_at};
use crate::engine::qwen38::embed::{ple_device, ple_width};
use crate::engine::qwen38::laws::{
    hc_quants, layer_quants, lemma_and_within, lemma_body_within, lemma_full_within,
    lemma_ple_device_within, lemma_rows, qwen38_room, qwen38_sizes, states_sized,
};
use crate::engine::qwen38::pass::{
    chunk_of, chunk_start, head_rows, is_ple_layer, last_chunk, layer_body, lemma_ready_shorter,
    lemma_rows_fit_shorter, n_chunks, reset_gdn, zero_gdn,
};
use crate::engine::qwen38::runtime::{
    alloc_gdn, alloc_list, ple_list, rt_buffers, rt_list, Checkpoint,
};
use crate::engine::room::{allocates, within};
use crate::engine::shape::{Attn, Model, PleHash, Qwen38Attn, Shape};
use vstd::prelude::*;

verus! {

/// The quantized rows of every layer and of the head fit.
pub open spec fn model_quants(m: Model) -> bool {
    &&& forall|il: int| #![trigger m.layers@[il]]
        0 <= il < m.layers@.len() ==> (m.layers@[il].attn matches Attn::Qwen38(w) ==> layer_quants(
            m.shape,
            w,
        ))
    &&& m.output_hc matches Some(w) ==> hc_quants(m.shape, w)
}

proof fn lemma_read_heads_touch(
    hash: PleHash,
    s: Shape,
    table: PleTable,
    hist: Seq<u32>,
    chunk: Seq<u32>,
    tt: int,
    n: int,
    p: spec_fn(Buf, int) -> bool,
)
    ensures
        all_touch(read_heads(hash, s, table, hist, chunk, tt, n).ops, p),
    decreases n,
{
    if n > 0 {
        lemma_read_heads_touch(hash, s, table, hist, chunk, tt, n - 1, p);
        let a = read_heads(hash, s, table, hist, chunk, tt, n - 1);
        let b = read_row(
            table,
            ple_row(hash, s, hist + chunk, hist.len() + tt, n - 1) as u64,
            tt * ple_heads(&s) + n - 1,
        );
        assert(all_touch(b.ops, p));
        lemma_and_within(a, b, p);
    }
}

proof fn lemma_read_tokens_touch(
    hash: PleHash,
    s: Shape,
    table: PleTable,
    hist: Seq<u32>,
    chunk: Seq<u32>,
    n: int,
    p: spec_fn(Buf, int) -> bool,
)
    ensures
        all_touch(read_tokens(hash, s, table, hist, chunk, n).ops, p),
    decreases n,
{
    if n > 0 {
        lemma_read_tokens_touch(hash, s, table, hist, chunk, n - 1, p);
        lemma_read_heads_touch(hash, s, table, hist, chunk, n - 1, ple_heads(&s) as int, p);
        lemma_and_within(
            read_tokens(hash, s, table, hist, chunk, n - 1),
            read_heads(hash, s, table, hist, chunk, n - 1, ple_heads(&s) as int),
            p,
        );
    }
}

/// What the laws on sizes ask of a batch's model and runtime.
pub open spec fn fits_runtime(m: Model, rt: Qwen38Rt, skip_ple: bool) -> bool {
    &&& m.qwen38_ready(rt, 16, skip_ple)
    &&& qwen38_sizes(m.shape)
    &&& states_sized(rt.states@, m.shape)
    &&& rt.states@.len() <= usize::MAX
    &&& model_quants(m)
}

proof fn lemma_embed_within(
    m: Model,
    rt: Qwen38Rt,
    mem: PleMem,
    chunk: Seq<u32>,
    pos0: u32,
    il: usize,
    skip_ple: bool,
)
    requires
        fits_runtime(m, rt, skip_ple),
        chunk.len() <= 16,
        il < m.layers@.len(),
        m.layers@[il as int].attn is Qwen38,
    ensures
        all_touch(
            m.qwen38_embed(rt.states@, rt.ple_table, mem, chunk, pos0, il, skip_ple).plan.ops,
            within(qwen38_room(rt.states@, m.shape)),
        ),
{
    let s = m.shape;
    let p = within(qwen38_room(rt.states@, s));
    let t = chunk.len() as u32;
    if is_ple_layer(s, il as int) && !skip_ple {
        assert(m.needs_state(il as int, skip_ple));
        assert(m.embeds(skip_ple));
        lemma_ready_shorter(m, rt, 16, t, skip_ple);
        let sync = Plan::of(seq![Op::Sync]);
        assert(touches(sync.ops[0], p));
        assert(all_touch(sync.ops, p));
        let block = m.ple_block(rt.states@, rt.ple_table, mem, chunk, pos0, il);
        if let Some(table) = rt.ple_table {
            let w = m.layers@[il as int].attn->Qwen38_0;
            if w.ple {
                let from = mem.at(pos0);
                let rows = read_tokens(
                    m.ple_hash,
                    s,
                    table,
                    from.tokens,
                    chunk,
                    chunk.len() as int,
                );
                lemma_read_tokens_touch(
                    m.ple_hash,
                    s,
                    table,
                    from.tokens,
                    chunk,
                    chunk.len() as int,
                    p,
                );
                let dev = ple_device(s, Part::Layer(il), il, rt.states@[il as int], t);
                lemma_ple_device_within(rt.states@, s, Part::Layer(il), il, t);
                lemma_and_within(rows, dev, p);
            }
        }
        assert(all_touch(block.plan.ops, p));
        lemma_and_within(block.plan, sync, p);
    }
}

proof fn lemma_span_within(
    m: Model,
    rt: Qwen38Rt,
    mem: PleMem,
    chunk: Seq<u32>,
    pos0: u32,
    ctx: u32,
    n: int,
    skip_ple: bool,
)
    requires
        fits_runtime(m, rt, skip_ple),
        chunk.len() <= 16,
        0 <= n <= m.layers@.len(),
    ensures
        all_touch(
            m.qwen38_span(
                rt.states@,
                rt.ple_table,
                mem,
                chunk,
                pos0,
                ctx,
                n,
                skip_ple,
            ).plan.ops,
            within(qwen38_room(rt.states@, m.shape)),
        ),
    decreases n,
{
    let s = m.shape;
    let p = within(qwen38_room(rt.states@, s));
    let t = chunk.len() as u32;
    if n > 0 {
        lemma_span_within(m, rt, mem, chunk, pos0, ctx, n - 1, skip_ple);
        let prev = m.qwen38_span(
            rt.states@,
            rt.ple_table,
            mem,
            chunk,
            pos0,
            ctx,
            n - 1,
            skip_ple,
        );
        let il = (n - 1) as usize;
        let l = m.layers@[n - 1];
        if l.attn is Qwen38 {
            let w = l.attn->Qwen38_0;
            let embed = m.qwen38_embed(
                rt.states@,
                rt.ple_table,
                prev.mem,
                chunk,
                pos0,
                il,
                skip_ple,
            );
            lemma_embed_within(m, rt, prev.mem, chunk, pos0, il, skip_ple);
            let body = layer_body(s, il, l, w, rt.states@[il as int], pos0, t, ctx);
            assert(w.gdn is Some ==> m.needs_state(n - 1, skip_ple));
            lemma_rows_fit_shorter(s, 16, t);
            lemma_body_within(rt.states@, s, il, l, w, pos0, ctx, t);
            lemma_and_within(embed.plan, body, p);
            lemma_and_within(prev.plan, embed.plan.and(body), p);
        } else {
            lemma_and_within(prev.plan, Plan::fail(EngineError::Qwen38WrongAttn), p);
        }
    }
}

proof fn lemma_chunk_len(tokens: Seq<u32>, k: int)
    requires
        0 <= k < n_chunks(tokens.len() as int),
    ensures
        0 < chunk_of(tokens, k).len() <= 16,
{
}

proof fn lemma_chunks_within(
    m: Model,
    rt: Qwen38Rt,
    mem: PleMem,
    tokens: Seq<u32>,
    pos0: u32,
    ctx: u32,
    n: int,
    skip_ple: bool,
)
    requires
        fits_runtime(m, rt, skip_ple),
        0 <= n <= n_chunks(tokens.len() as int),
    ensures
        all_touch(
            m.qwen38_chunks(
                rt.states@,
                rt.ple_table,
                mem,
                tokens,
                pos0,
                ctx,
                n,
                skip_ple,
            ).plan.ops,
            within(qwen38_room(rt.states@, m.shape)),
        ),
    decreases n,
{
    let s = m.shape;
    let p = within(qwen38_room(rt.states@, s));
    if n > 0 {
        reveal(Model::qwen38_chunk);
        lemma_chunks_within(m, rt, mem, tokens, pos0, ctx, n - 1, skip_ple);
        let prev = m.qwen38_chunks(
            rt.states@,
            rt.ple_table,
            mem,
            tokens,
            pos0,
            ctx,
            n - 1,
            skip_ple,
        );
        let chunk = chunk_of(tokens, n - 1);
        lemma_chunk_len(tokens, n - 1);
        let pos = (pos0 + (n - 1) * T_MAX) as u32;
        let a = Plan::of(chunk_start(s, pos, chunk.len() as u32));
        lemma_start_within(rt.states@, s, pos, chunk.len() as u32);
        let b = m.qwen38_span(
            rt.states@,
            rt.ple_table,
            prev.mem,
            chunk,
            pos,
            ctx,
            m.layers@.len() as int,
            skip_ple,
        ).plan;
        lemma_span_within(
            m,
            rt,
            prev.mem,
            chunk,
            pos,
            ctx,
            m.layers@.len() as int,
            skip_ple,
        );
        lemma_and_within(a, b, p);
        lemma_and_within(prev.plan, a.and(b), p);
    }
}

proof fn lemma_start_within(states: Seq<Option<GdnState>>, s: Shape, pos: u32, t: u32)
    requires
        t <= 16,
        qwen38_sizes(s),
    ensures
        all_touch(chunk_start(s, pos, t), within(qwen38_room(states, s))),
{
    let p = within(qwen38_room(states, s));
    lemma_rows(t);
    assert(s.n_hc * s.n_embd >= 0) by (nonlinear_arith);
    let ops = chunk_start(s, pos, t);
    assert(touches(ops[0], p));
    assert(touches(ops[1], p));
    assert(touches(ops[2], p));
    assert(touches(ops[3], p));
}

proof fn lemma_tail_within(m: Model, rt: Qwen38Rt, n: int, rows: u32, skip_ple: bool)
    requires
        fits_runtime(m, rt, skip_ple),
        0 < n,
    ensures
        all_touch(m.qwen38_tail(n, rows).ops, within(qwen38_room(rt.states@, m.shape))),
{
    reveal(Model::qwen38_tail);
    let s = m.shape;
    let p = within(qwen38_room(rt.states@, s));
    let last = last_chunk(n) as u32;
    if 0 < rows && rows <= last_chunk(n) {
        if let Some(w) = m.output_hc {
            lemma_rows_fit_shorter(s, 16, last);
            let a = hc_full(s, hc_out_at(), w, last, false);
            lemma_full_within(rt.states@, s, hc_out_at(), w, false, last);
            let b = head_rows(s, last, rows);
            assert((last - rows) * s.n_embd <= last * s.n_embd) by (nonlinear_arith)
                requires
                    rows <= last,
                    0 <= s.n_embd,
            ;
            assert(rows * s.n_embd <= last * s.n_embd) by (nonlinear_arith)
                requires
                    rows <= last,
                    0 <= s.n_embd,
            ;
            assert((last - rows) * s.n_embd + rows * s.n_embd == last * s.n_embd)
                by (nonlinear_arith)
                requires
                    rows <= last,
            ;
            assert(last * s.n_embd <= 16 * s.n_embd) by (nonlinear_arith)
                requires
                    last <= 16,
                    0 <= s.n_embd,
            ;
            assert(0 <= (last - rows) * s.n_embd) by (nonlinear_arith)
                requires
                    rows <= last,
            ;
            assert(touches(b[0], p));
            assert(touches(b[1], p));
            assert(touches(b[2], p));
            assert(touches(b[3], p));
            assert(touches(b[4], p));
            assert(all_touch(b, p));
            lemma_all_touch_add(a, b, p);
        }
    }
}

proof fn lemma_reset_within(m: Model, rt: Qwen38Rt, n: int)
    requires
        0 <= n <= rt.states@.len() <= usize::MAX,
    ensures
        all_touch(reset_gdn(rt.states@, n), within(qwen38_room(rt.states@, m.shape))),
    decreases n,
{
    let p = within(qwen38_room(rt.states@, m.shape));
    if n > 0 {
        lemma_reset_within(m, rt, n - 1);
        let mine = match rt.states@[n - 1] {
            Some(g) => {
                let z = zero_gdn((n - 1) as usize, g);
                assert(touches(z[0], p));
                assert(touches(z[1], p));
                if g.ple_hist is Some {
                    assert(touches(z[2], p));
                }
                assert(all_touch(z, p));
                let to = seq![Op::SetDevice(g.dev)];
                assert(touches(to[0], p));
                assert(all_touch(to, p));
                lemma_all_touch_add(to, z, p);
                to + z
            },
            None => Seq::empty(),
        };
        lemma_all_touch_add(reset_gdn(rt.states@, n - 1), mine, p);
    }
}

/// Everything that a batch runs stays inside the buffers of its runtime, which are
/// made for a chunk, however long the batch is.
pub proof fn pass_stays_in_bounds(
    m: Model,
    rt: Qwen38Rt,
    tokens: Seq<u32>,
    pos0: u32,
    rows: u32,
    ctx: u32,
    current: i32,
    skip_ple: bool,
)
    requires
        0 < tokens.len(),
        fits_runtime(m, rt, skip_ple),
    ensures
        all_touch(
            m.qwen38_pass(rt, tokens, pos0, rows, ctx, current, skip_ple).plan.ops,
            within(qwen38_room(rt.states@, m.shape)),
        ),
{
    let p = within(qwen38_room(rt.states@, m.shape));
    let mem = if pos0 == 0 {
        PleMem { tokens: Seq::empty(), next_pos: 0 }
    } else {
        rt.mem()
    };
    let r = reset_gdn(rt.states@, rt.states@.len() as int);
    lemma_reset_within(m, rt, rt.states@.len() as int);
    let back = seq![Op::SetDevice(current)];
    assert(touches(back[0], p));
    assert(all_touch(back, p));
    lemma_all_touch_add(r, back, p);
    let a = Plan::of(ops_if(pos0 == 0, r + back));
    assert(all_touch(a.ops, p));
    let n = n_chunks(tokens.len() as int);
    let b = m.qwen38_chunks(
        rt.states@,
        rt.ple_table,
        mem,
        tokens,
        pos0,
        ctx,
        n,
        skip_ple,
    ).plan;
    lemma_chunks_within(m, rt, mem, tokens, pos0, ctx, n, skip_ple);
    lemma_and_within(a, b, p);
    let c = m.qwen38_tail(tokens.len() as int, rows);
    lemma_tail_within(m, rt, tokens.len() as int, rows, skip_ple);
    lemma_and_within(a.and(b), c, p);
}

/// The attention of a layer with an indexer answers only inside the window in
/// which the sparse selection would pick every cell; past it, it runs nothing and
/// says so.
pub proof fn attention_stays_dense(
    s: Shape,
    part: Part,
    il: usize,
    w: Qwen38Attn,
    pos0: u32,
    t: u32,
    ctx: u32,
)
    requires
        w.has_indexer,
        0 < s.qsa_ratio,
    ensures
        pos0 + t <= s.n_idx_topk + s.qsa_ratio - 1 || (attention(
            s,
            part,
            il,
            w,
            pos0,
            t,
            ctx,
        ).ops.len() == 0 && attention(s, part, il, w, pos0, t, ctx).end is Err),
        attention(s, part, il, w, pos0, t, ctx).end is Ok ==> pos0 + t <= s.n_idx_topk
            + s.qsa_ratio - 1,
{
    reveal(attention);
}

/// The runtime is the one made for the model.
pub open spec fn made_for(m: Model, rt: Qwen38Rt) -> bool {
    rt.states@ == Seq::new(m.shape.n_exec_layer as nat, |il: int| m.gdn_state(il))
}

/// The runtime made for a model has the sizes that a batch relies on.
pub proof fn made_states_are_sized(m: Model, rt: Qwen38Rt)
    requires
        made_for(m, rt),
    ensures
        states_sized(rt.states@, m.shape),
{
}

proof fn lemma_lists_whole(x: Q38)
    ensures
        rt_list().contains(x) || ple_list().contains(x),
{
    let l = rt_list();
    let e = ple_list();
    match x {
        Q38::ResHc => assert(l[0] == x),
        Q38::Xn => assert(l[1] == x),
        Q38::Lo => assert(l[2] == x),
        Q38::GateFull => assert(l[3] == x),
        Q38::Gated => assert(l[4] == x),
        Q38::Inj => assert(l[5] == x),
        Q38::Cur => assert(l[6] == x),
        Q38::AttnOut => assert(l[7] == x),
        Q38::FfnMid => assert(l[8] == x),
        Q38::Xq => assert(l[9] == x),
        Q38::Xq2 => assert(l[10] == x),
        Q38::Qfull => assert(l[11] == x),
        Q38::GateA => assert(l[12] == x),
        Q38::Q => assert(l[13] == x),
        Q38::K => assert(l[14] == x),
        Q38::V => assert(l[15] == x),
        Q38::Heads => assert(l[16] == x),
        Q38::GdnQkv => assert(l[17] == x),
        Q38::GdnConvOut => assert(l[18] == x),
        Q38::GdnZ => assert(l[19] == x),
        Q38::GdnGq => assert(l[20] == x),
        Q38::GdnGk => assert(l[21] == x),
        Q38::GdnGv => assert(l[22] == x),
        Q38::GdnG => assert(l[23] == x),
        Q38::GdnBeta => assert(l[24] == x),
        Q38::GdnO => assert(l[25] == x),
        Q38::RouterLogits => assert(l[26] == x),
        Q38::GateAct => assert(l[27] == x),
        Q38::UpAct => assert(l[28] == x),
        Q38::Shg => assert(l[29] == x),
        Q38::SharedOut => assert(l[30] == x),
        Q38::Midq => assert(l[31] == x),
        Q38::PleEmbDev => assert(e[0] == x),
        Q38::PleKeyV => assert(e[1] == x),
        Q38::PleValV => assert(e[2] == x),
        Q38::PleQuery => assert(e[3] == x),
        Q38::PleGate => assert(e[4] == x),
        Q38::PleNorm => assert(e[5] == x),
        Q38::PlePad => assert(e[6] == x),
        Q38::PleOut => assert(e[7] == x),
    }
}

proof fn lemma_states_has(m: Model, n: int, il: int, x: GdnBuf, bytes: u64)
    requires
        0 <= il < n <= m.shape.n_exec_layer,
        m.gdn_state(il) matches Some(g) && bytes == match x {
            GdnBuf::S => g.s_bytes,
            GdnBuf::Conv => g.conv_bytes,
            GdnBuf::PleHist => g.ple_hist->Some_0,
        } && (x == GdnBuf::PleHist ==> g.ple_hist is Some),
    ensures
        m.gdn_alloc_states(n).contains(Op::Alloc { buf: Buf::Gdn(il as usize, x), bytes }),
    decreases n,
{
    let op = Op::Alloc { buf: Buf::Gdn(il as usize, x), bytes };
    let prev = m.gdn_alloc_states(n - 1);
    let now = m.gdn_alloc_states(n);
    if il == n - 1 {
        let g = m.gdn_state(il)->Some_0;
        let mine = alloc_gdn(il as usize, g);
        let more: int = if g.ple_hist is Some {
            1
        } else {
            0
        };
        let j: int = match x {
            GdnBuf::S => 1 + more,
            GdnBuf::Conv => 2 + more,
            GdnBuf::PleHist => 1,
        };
        assert(mine[j] == op);
        assert(now == prev + mine);
        assert(now[prev.len() + j] == op);
    } else {
        lemma_states_has(m, n - 1, il, x, bytes);
        let j = choose|j: int| 0 <= j < prev.len() && prev[j] == op;
        assert(now[j] == op);
    }
}

/// Making the runtime allocates every buffer that it is later said to have, with
/// all its room.
pub proof fn every_buffer_is_allocated(m: Model, rt: Qwen38Rt, primary: i32, b: Buf)
    requires
        made_for(m, rt),
        qwen38_room(rt.states@, m.shape)(b) matches Some(c) && c >= 0,
    ensures
        allocates(
            m.gdn_alloc_states(m.shape.n_exec_layer as int) + seq![Op::SetDevice(primary)]
                + rt_buffers(m.shape),
            qwen38_room(rt.states@, m.shape),
            b,
        ),
{
    let s = m.shape;
    let c = qwen38_room(rt.states@, s)(b)->Some_0;
    let op = Op::Alloc { buf: b, bytes: c as u64 };
    let one = m.gdn_alloc_states(s.n_exec_layer as int);
    let to = seq![Op::SetDevice(primary)];
    let x1 = alloc_list(s, rt_list());
    let x2 = seq![Op::HostStage { n: (16 * ple_width(s)) as u64 }];
    let x3 = alloc_list(s, ple_list());
    let all = one + to + rt_buffers(s);
    match b {
        Buf::Rt(x) => {
            lemma_lists_whole(x);
            if rt_list().contains(x) {
                let j = choose|j: int| 0 <= j < rt_list().len() && rt_list()[j] == x;
                assert(x1[j] == op);
                assert(all[one.len() + 1 + j] == op);
            } else {
                let j = choose|j: int| 0 <= j < ple_list().len() && ple_list()[j] == x;
                assert(x3[j] == op);
                assert(all[one.len() + 1 + x1.len() + 1 + j] == op);
            }
        },
        Buf::Gdn(il, x) => {
            lemma_states_has(m, s.n_exec_layer as int, il as int, x, c as u64);
            let j = choose|j: int| 0 <= j < one.len() && one[j] == op;
            assert(all[j] == op);
        },
        _ => {},
    }
}

proof fn lemma_chunks_prefix(
    m: Model,
    states: Seq<Option<GdnState>>,
    table: Option<PleTable>,
    mem: PleMem,
    a: Seq<u32>,
    b: Seq<u32>,
    pos0: u32,
    ctx: u32,
    n: int,
    skip_ple: bool,
)
    requires
        a.len() % 16 == 0,
        0 <= n <= a.len() / 16,
    ensures
        m.qwen38_chunks(states, table, mem, a + b, pos0, ctx, n, skip_ple) == m.qwen38_chunks(
            states,
            table,
            mem,
            a,
            pos0,
            ctx,
            n,
            skip_ple,
        ),
    decreases n,
{
    if n > 0 {
        lemma_chunks_prefix(m, states, table, mem, a, b, pos0, ctx, n - 1, skip_ple);
        assert(chunk_of(a + b, n - 1) =~= chunk_of(a, n - 1));
    }
}

proof fn lemma_chunks_cut(
    m: Model,
    states: Seq<Option<GdnState>>,
    table: Option<PleTable>,
    mem: PleMem,
    a: Seq<u32>,
    b: Seq<u32>,
    pos0: u32,
    ctx: u32,
    k: int,
    skip_ple: bool,
)
    requires
        a.len() % 16 == 0,
        pos0 + a.len() + b.len() <= u32::MAX,
        0 <= k <= n_chunks(b.len() as int),
        m.qwen38_chunks(
            states,
            table,
            mem,
            a,
            pos0,
            ctx,
            a.len() as int / 16,
            skip_ple,
        ).plan.end is Ok,
    ensures
        ({
            let one = m.qwen38_chunks(
                states,
                table,
                mem,
                a,
                pos0,
                ctx,
                a.len() as int / 16,
                skip_ple,
            );
            let two = m.qwen38_chunks(
                states,
                table,
                one.mem,
                b,
                (pos0 + a.len()) as u32,
                ctx,
                k,
                skip_ple,
            );
            let whole = m.qwen38_chunks(
                states,
                table,
                mem,
                a + b,
                pos0,
                ctx,
                a.len() as int / 16 + k,
                skip_ple,
            );
            whole.plan == one.plan.and(two.plan) && whole.mem == two.mem
        }),
    decreases k,
{
    let na = a.len() as int / 16;
    let one = m.qwen38_chunks(states, table, mem, a, pos0, ctx, na, skip_ple);
    let at = (pos0 + a.len()) as u32;
    if k > 0 {
        lemma_chunks_cut(m, states, table, mem, a, b, pos0, ctx, k - 1, skip_ple);
        let prev = m.qwen38_chunks(states, table, one.mem, b, at, ctx, k - 1, skip_ple);
        assert(chunk_of(a + b, na + k - 1) =~= chunk_of(b, k - 1));
        let step = m.qwen38_chunk(
            states,
            table,
            prev.mem,
            chunk_of(b, k - 1),
            (at + (k - 1) * T_MAX) as u32,
            ctx,
            skip_ple,
        );
        assert((pos0 + (na + k - 1) * T_MAX) as u32 == (at + (k - 1) * T_MAX) as u32);
        lemma_and_associates(one.plan, prev.plan, step.plan);
    } else {
        lemma_chunks_prefix(m, states, table, mem, a, b, pos0, ctx, na, skip_ple);
        let none = m.qwen38_chunks(states, table, one.mem, b, at, ctx, 0, skip_ple);
        assert(one.plan.ops + none.plan.ops =~= one.plan.ops);
        assert(one.plan.end->Ok_0 == ());
    }
}

/// A prompt may be cut after whole chunks: where its first part runs well, the two
/// parts in two calls run exactly what the whole runs in one, and remember the
/// same.
pub proof fn a_prompt_may_be_cut(
    m: Model,
    rt: Qwen38Rt,
    after: Qwen38Rt,
    a: Seq<u32>,
    b: Seq<u32>,
    pos0: u32,
    rows: u32,
    ctx: u32,
    current: i32,
    skip_ple: bool,
)
    requires
        0 < a.len(),
        a.len() % 16 == 0,
        0 < b.len(),
        pos0 + a.len() + b.len() <= u32::MAX,
        m.qwen38_pass(rt, a, pos0, 0, ctx, current, skip_ple).plan.end is Ok,
        after.same_but_mem(rt),
        after.mem() == m.qwen38_pass(rt, a, pos0, 0, ctx, current, skip_ple).mem,
    ensures
        ({
            let whole = m.qwen38_pass(rt, a + b, pos0, rows, ctx, current, skip_ple);
            let one = m.qwen38_pass(rt, a, pos0, 0, ctx, current, skip_ple);
            let two = m.qwen38_pass(
                after,
                b,
                (pos0 + a.len()) as u32,
                rows,
                ctx,
                current,
                skip_ple,
            );
            &&& whole.plan.ops == one.plan.ops + two.plan.ops
            &&& whole.plan.end == two.plan.end
            &&& whole.mem == two.mem
        }),
{
    reveal(Model::qwen38_tail);
    let mem = if pos0 == 0 {
        PleMem { tokens: Seq::empty(), next_pos: 0 }
    } else {
        rt.mem()
    };
    let na = a.len() as int / 16;
    let nb = n_chunks(b.len() as int);
    let at = (pos0 + a.len()) as u32;
    assert(n_chunks(a.len() as int) == na);
    assert(n_chunks((a + b).len() as int) == na + nb);
    assert(last_chunk((a + b).len() as int) == last_chunk(b.len() as int));
    let start = Plan::of(
        ops_if(
            pos0 == 0,
            reset_gdn(rt.states@, rt.states@.len() as int) + seq![Op::SetDevice(current)],
        ),
    );
    let ca = m.qwen38_chunks(rt.states@, rt.ple_table, mem, a, pos0, ctx, na, skip_ple);
    lemma_chunks_cut(m, rt.states@, rt.ple_table, mem, a, b, pos0, ctx, nb, skip_ple);
    let cb = m.qwen38_chunks(rt.states@, rt.ple_table, ca.mem, b, at, ctx, nb, skip_ple);
    let tail = m.qwen38_tail(b.len() as int, rows);
    let none = Seq::<Op>::empty();
    let one = m.qwen38_pass(rt, a, pos0, 0, ctx, current, skip_ple);
    let two = m.qwen38_pass(after, b, at, rows, ctx, current, skip_ple);
    let whole = m.qwen38_pass(rt, a + b, pos0, rows, ctx, current, skip_ple);
    assert(whole.plan == start.and(ca.plan.and(cb.plan)).and(tail));
    assert(one.plan.ops =~= start.ops + ca.plan.ops);
    assert(two.plan.ops =~= cb.plan.and(tail).ops);
    assert(whole.plan.ops =~= start.ops + ca.plan.ops + cb.plan.and(tail).ops);
}

/// A checkpoint, any passes after it, and a restore: every pass that follows is
/// planned as if those in between had never run.  The hash of the n-gram embedding
/// finds the predecessors that it had at the checkpoint.
pub proof fn a_rejected_draft_leaves_no_trace(
    m: Model,
    before: Qwen38Rt,
    saved: Checkpoint,
    drafted: Qwen38Rt,
    after: Qwen38Rt,
    tokens: Seq<u32>,
    pos0: u32,
    rows: u32,
    ctx: u32,
    current: i32,
    skip_ple: bool,
)
    requires
        saved.mem() == before.mem(),
        drafted.same_but_mem(before),
        after.mem() == saved.mem(),
        after.same_but_mem(drafted),
    ensures
        after.mem().at(pos0) == before.mem().at(pos0),
        m.qwen38_pass(after, tokens, pos0, rows, ctx, current, skip_ple) == m.qwen38_pass(
            before,
            tokens,
            pos0,
            rows,
            ctx,
            current,
            skip_ple,
        ),
{
}

} // verus!
