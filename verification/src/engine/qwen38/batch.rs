//! What the layers, the chunks and the tail of a qwen38 batch compute.

use crate::engine::formula::bx;
use crate::engine::ops::{ops_if, Buf, GdnBuf, Gw, Op, Part, Plan, St, Q38};
use crate::engine::ple::{kept, ple_heads, read_tokens, PleTable};
use crate::engine::qwen38::{GdnState, PleMem, Qwen38Rt, Run, T_MAX};
use crate::engine::qwen38::blocks::{hc_full, hc_out_at, HcAt};
use crate::engine::qwen38::embed::ple_device;
use crate::engine::qwen38::pass::{
    chunk_of, chunk_start, head_rows, is_ple_layer, last_chunk, layer_body, n_chunks, reset_gdn,
    token_mixer, zero_gdn,
};
use crate::engine::qwen38::results::{
    body_does, grams_join, lasting, lemma_body, lemma_gram_widths, lemma_grams, lemma_grams_keep,
    lemma_read_tokens, mixer_of, rows_staged,
};
use crate::engine::qwen38::values::{collapsed, lemma_chunk_widths, lemma_mix};
use crate::engine::shape::{Model, Qwen38Hc, Shape};
use crate::engine::value::{
    lemma_next, lemma_run_add, lemma_run_and, lemma_run_keeps, run, Val, World,
};
use vstd::prelude::*;

verus! {

/// What a layer does before its mixer: the layer that has the n-gram embedding
/// adds the embedding of the chunk, read behind the tokens `hist`.
pub open spec fn layer_enters(
    m: Model,
    table: Option<PleTable>,
    hist: Seq<u32>,
    chunk: Seq<u32>,
    il: usize,
    skip_ple: bool,
    v: World,
    u: World,
) -> bool {
    let s = m.shape;
    if il as int == s.ple_layer && !skip_ple {
        &&& table is Some
        &&& exists|rows: Val| #[trigger]
            rows_staged(m.ple_hash, s, table->Some_0, hist, chunk, rows) && grams_join(
                s,
                Part::Layer(il),
                il,
                chunk.len() as int,
                rows,
                v,
                u,
            )
        &&& u.at[Buf::Rt(Q38::Inj)] == v.at[Buf::Rt(Q38::Inj)]
        &&& u.at[Buf::Rt(Q38::Xq2)] == v.at[Buf::Rt(Q38::Xq2)]
        &&& forall|b: Buf| #[trigger]
            lasting(b) && b != Buf::Gdn(il, GdnBuf::PleHist) ==> u.at[b] == v.at[b]
    } else {
        u == v
    }
}

/// A layer, from what was there before it to what is there after it.
#[verifier::opaque]
pub open spec fn layer_does(
    m: Model,
    table: Option<PleTable>,
    hist: Seq<u32>,
    chunk: Seq<u32>,
    pos: int,
    ctx: int,
    il: usize,
    skip_ple: bool,
    v: World,
    z: World,
) -> bool {
    let l = m.layers@[il as int];
    &&& l.attn is Qwen38
    &&& exists|u: World| #[trigger]
        layer_enters(m, table, hist, chunk, il, skip_ple, v, u) && body_does(
            m.shape,
            Part::Layer(il),
            il,
            l,
            l.attn->Qwen38_0,
            l.attn->Qwen38_0.gdn,
            chunk.len() as int,
            pos,
            ctx,
            u,
            z,
        )
}

/// The worlds between the layers of a chunk: every layer in its turn.
pub open spec fn layers_do(
    m: Model,
    table: Option<PleTable>,
    hist: Seq<u32>,
    chunk: Seq<u32>,
    pos: int,
    ctx: int,
    skip_ple: bool,
    ws: Seq<World>,
) -> bool {
    &&& ws.len() == m.layers@.len() + 1
    &&& forall|il: int|
        #![trigger ws[il]]
        0 <= il < m.layers@.len() ==> layer_does(
            m,
            table,
            hist,
            chunk,
            pos,
            ctx,
            il as usize,
            skip_ple,
            ws[il],
            ws[il + 1],
        )
}

/// The tokens of a chunk enter as rows of the embedding table, once for every
/// stream.
pub open spec fn chunk_enters(m: Model, pos: int, t: int, v: World, z: World) -> bool {
    let n = m.shape.n_embd as int;
    let rows = Val::Embedding {
        ids: bx(Val::Tokens { pos, n: t }),
        table: Buf::Global(Gw::TokenEmbd),
        n,
        vocab: m.shape.n_vocab as int,
        rows: t,
    };
    &&& z.at[Buf::Rt(Q38::ResHc)] == Val::Streams {
        x: bx(rows),
        rows: t,
        n,
        hc: m.shape.n_hc as int,
    }
    &&& forall|b: Buf| #[trigger] lasting(b) ==> z.at[b] == v.at[b]
}

/// What the hash remembers behind a chunk: the tokens that can still be in an
/// n-gram, where a layer has the embedding.
pub open spec fn remembers(
    m: Model,
    mem: PleMem,
    chunk: Seq<u32>,
    pos: int,
    skip_ple: bool,
    next: PleMem,
) -> bool {
    if 0 <= m.shape.ple_layer < m.layers@.len() && !skip_ple {
        let all = mem.at(pos as u32).tokens + chunk;
        let n = m.shape.ple_ngram - 1;
        &&& next.next_pos == pos + chunk.len()
        &&& next.tokens == if all.len() <= n {
            all
        } else {
            all.subrange(all.len() - n, all.len() as int)
        }
    } else {
        next == mem
    }
}

/// A chunk, from what was there before it to what is there after it.
#[verifier::opaque]
pub open spec fn chunk_does(
    m: Model,
    table: Option<PleTable>,
    mem: PleMem,
    chunk: Seq<u32>,
    pos: int,
    ctx: int,
    skip_ple: bool,
    v: World,
    z: World,
    next: PleMem,
) -> bool {
    &&& remembers(m, mem, chunk, pos, skip_ple, next)
    &&& exists|ws: Seq<World>| #[trigger]
        layers_do(m, table, mem.at(pos as u32).tokens, chunk, pos, ctx, skip_ple, ws)
            && chunk_enters(m, pos, chunk.len() as int, v, ws[0]) && ws.last() == z
}

#[verifier::rlimit(40)]
proof fn lemma_layer(
    m: Model,
    rt: Qwen38Rt,
    mem: PleMem,
    chunk: Seq<u32>,
    pos: u32,
    ctx: u32,
    il: usize,
    skip_ple: bool,
    v: World,
)
    requires
        chunk.len() <= 16,
        il < m.layers@.len(),
        m.shape.rows_fit(chunk.len() as u32),
        il as int == m.shape.ple_layer && !skip_ple ==> m.ple_ready(
            rt.ple_table,
            chunk.len() as u32,
        ),
        m.qwen38_layer(rt.states@, rt.ple_table, mem, chunk, pos, ctx, il, skip_ple).plan.end is Ok,
    ensures
        layer_does(
            m,
            rt.ple_table,
            mem.at(pos).tokens,
            chunk,
            pos as int,
            ctx as int,
            il,
            skip_ple,
            v,
            run(
                m.qwen38_layer(
                    rt.states@,
                    rt.ple_table,
                    mem,
                    chunk,
                    pos,
                    ctx,
                    il,
                    skip_ple,
                ).plan.ops,
                v,
            ),
        ),
{
    reveal(layer_does);
    let s = m.shape;
    let t = chunk.len() as u32;
    let l = m.layers@[il as int];
    let w = l.attn->Qwen38_0;
    let state = rt.states@[il as int];
    let embed = m.qwen38_embed(rt.states@, rt.ple_table, mem, chunk, pos, il, skip_ple);
    let body = layer_body(s, il, l, w, state, pos, t, ctx);
    lemma_run_and(embed.plan, body, v);
    let u = run(embed.plan.ops, v);
    let hist = mem.at(pos).tokens;
    assert(layer_enters(m, rt.ple_table, hist, chunk, il, skip_ple, v, u)) by {
        if is_ple_layer(s, il as int) && !skip_ple {
            let table = rt.ple_table->Some_0;
            let rows = read_tokens(m.ple_hash, s, table, hist, chunk, chunk.len() as int);
            let dev = ple_device(s, Part::Layer(il), il, state, t);
            let sync = Plan::of(seq![Op::Sync]);
            assert(embed.plan == rows.and(dev).and(sync));
            lemma_run_and(rows, dev, v);
            lemma_run_and(rows.and(dev), sync, v);
            let v1 = run(rows.ops, v);
            let v2 = run(dev.ops, v1);
            lemma_next(sync.ops, 0, v2);
            lemma_gram_widths(s, t);
            lemma_read_tokens(m.ple_hash, s, table, hist, chunk, chunk.len() as int, v);
            lemma_grams(s, Part::Layer(il), il, state, t, v1);
            assert(rows_staged(m.ple_hash, s, table, hist, chunk, v1.stage));
            assert(grams_join(s, Part::Layer(il), il, t as int, v1.stage, v, v2));
            lemma_grams_keep(s, Part::Layer(il), il, state, t, Buf::Rt(Q38::Inj));
            lemma_grams_keep(s, Part::Layer(il), il, state, t, Buf::Rt(Q38::Xq2));
            lemma_run_keeps(dev.ops, dev.ops.len() as int, Buf::Rt(Q38::Inj), v1);
            lemma_run_keeps(dev.ops, dev.ops.len() as int, Buf::Rt(Q38::Xq2), v1);
            assert forall|b: Buf| #[trigger]
                lasting(b) && b != Buf::Gdn(il, GdnBuf::PleHist) implies u.at[b] == v.at[b] by {
                lemma_grams_keep(s, Part::Layer(il), il, state, t, b);
                lemma_run_keeps(dev.ops, dev.ops.len() as int, b, v1);
            }
        }
    }
    reveal(layer_body);
    assert(token_mixer(s, il, w, state, pos, t, ctx) == mixer_of(
        s,
        Part::Layer(il),
        il,
        w.gdn,
        w.attn,
        state,
        pos,
        t,
        ctx,
    ));
    lemma_body(s, Part::Layer(il), il, l, w, w.gdn, state, pos, t, ctx, u);
}

proof fn lemma_span_mem(
    m: Model,
    rt: Qwen38Rt,
    mem: PleMem,
    chunk: Seq<u32>,
    pos: u32,
    ctx: u32,
    n: int,
    skip_ple: bool,
)
    requires
        0 <= n <= m.layers@.len(),
        pos + chunk.len() <= u32::MAX,
        0 < chunk.len(),
        m.layers@.len() <= i32::MAX,
        m.qwen38_span(rt.states@, rt.ple_table, mem, chunk, pos, ctx, n, skip_ple).plan.end is Ok,
    ensures
        ({
            let next = m.qwen38_span(
                rt.states@,
                rt.ple_table,
                mem,
                chunk,
                pos,
                ctx,
                n,
                skip_ple,
            ).mem;
            if 0 <= m.shape.ple_layer < n && !skip_ple {
                &&& next.tokens == kept(m.shape, mem.at(pos).tokens, chunk)
                &&& next.next_pos == pos + chunk.len()
            } else {
                next == mem
            }
        }),
    decreases n,
{
    if n > 0 {
        lemma_span_mem(m, rt, mem, chunk, pos, ctx, n - 1, skip_ple);
    }
}

/// Layer `il` of a chunk does its part.
spec fn nth_layer(
    m: Model,
    rt: Qwen38Rt,
    mem: PleMem,
    chunk: Seq<u32>,
    pos: u32,
    ctx: u32,
    skip_ple: bool,
    v: World,
    il: int,
) -> bool {
    layer_does(
        m,
        rt.ple_table,
        mem.at(pos).tokens,
        chunk,
        pos as int,
        ctx as int,
        il as usize,
        skip_ple,
        between(m, rt, mem, chunk, pos, ctx, skip_ple, v, il),
        between(m, rt, mem, chunk, pos, ctx, skip_ple, v, il + 1),
    )
}

#[verifier::rlimit(40)]
proof fn lemma_span(
    m: Model,
    rt: Qwen38Rt,
    mem: PleMem,
    chunk: Seq<u32>,
    pos: u32,
    ctx: u32,
    n: int,
    skip_ple: bool,
    v: World,
)
    requires
        0 < chunk.len() <= 16,
        0 <= n <= m.layers@.len(),
        m.layers@.len() <= i32::MAX,
        m.shape.rows_fit(chunk.len() as u32),
        pos + chunk.len() <= u32::MAX,
        m.embeds(skip_ple) ==> m.ple_ready(rt.ple_table, chunk.len() as u32),
        m.qwen38_span(rt.states@, rt.ple_table, mem, chunk, pos, ctx, n, skip_ple).plan.end is Ok,
    ensures
        forall|il: int|
            0 <= il < n ==> #[trigger] nth_layer(m, rt, mem, chunk, pos, ctx, skip_ple, v, il),
    decreases n,
{
    if n > 0 {
        let il = (n - 1) as usize;
        let prev = m.qwen38_span(
            rt.states@,
            rt.ple_table,
            mem,
            chunk,
            pos,
            ctx,
            n - 1,
            skip_ple,
        );
        lemma_span(m, rt, mem, chunk, pos, ctx, n - 1, skip_ple, v);
        lemma_span_mem(m, rt, mem, chunk, pos, ctx, n - 1, skip_ple);
        let step = m.qwen38_layer(
            rt.states@,
            rt.ple_table,
            prev.mem,
            chunk,
            pos,
            ctx,
            il,
            skip_ple,
        );
        lemma_run_and(prev.plan, step.plan, v);
        let u = run(prev.plan.ops, v);
        lemma_layer(m, rt, prev.mem, chunk, pos, ctx, il, skip_ple, u);
        let z = run(step.plan.ops, u);
        if prev.mem != mem {
            lemma_hist_unused(
                m,
                rt.ple_table,
                prev.mem.at(pos).tokens,
                mem.at(pos).tokens,
                chunk,
                pos as int,
                ctx as int,
                il,
                skip_ple,
                u,
                z,
            );
        }
        assert(nth_layer(m, rt, mem, chunk, pos, ctx, skip_ple, v, n - 1));
    }
}

/// Only the layer with the embedding looks at the tokens before a chunk.
#[verifier::rlimit(40)]
proof fn lemma_hist_unused(
    m: Model,
    table: Option<PleTable>,
    a: Seq<u32>,
    b: Seq<u32>,
    chunk: Seq<u32>,
    pos: int,
    ctx: int,
    il: usize,
    skip_ple: bool,
    v: World,
    z: World,
)
    requires
        il as int != m.shape.ple_layer || skip_ple,
        layer_does(m, table, a, chunk, pos, ctx, il, skip_ple, v, z),
    ensures
        layer_does(m, table, b, chunk, pos, ctx, il, skip_ple, v, z),
{
    reveal(layer_does);
    let l = m.layers@[il as int];
    let w = l.attn->Qwen38_0;
    let t = chunk.len() as int;
    let u = choose|u: World| #[trigger]
        layer_enters(m, table, a, chunk, il, skip_ple, v, u) && body_does(
            m.shape,
            Part::Layer(il),
            il,
            l,
            w,
            w.gdn,
            t,
            pos,
            ctx,
            u,
            z,
        );
    assert(layer_enters(m, table, b, chunk, il, skip_ple, v, u));
}

proof fn lemma_chunk_start(m: Model, pos: u32, t: u32, v: World)
    ensures
        chunk_enters(m, pos as int, t as int, v, run(chunk_start(m.shape, pos, t), v)),
{
    let a = chunk_start(m.shape, pos, t);
    lemma_next(a, 0, v);
    lemma_next(a, 1, v);
    lemma_next(a, 2, v);
    lemma_next(a, 3, v);
    assert forall|b: Buf| #[trigger] lasting(b) implies run(a, v).at[b] == v.at[b] by {
        lemma_run_keeps(a, a.len() as int, b, v);
    }
}

proof fn lemma_chunk_mem(
    m: Model,
    rt: Qwen38Rt,
    mem: PleMem,
    chunk: Seq<u32>,
    pos: u32,
    ctx: u32,
    skip_ple: bool,
)
    requires
        0 < chunk.len(),
        m.layers@.len() <= i32::MAX,
        pos + chunk.len() <= u32::MAX,
        m.qwen38_span(
            rt.states@,
            rt.ple_table,
            mem,
            chunk,
            pos,
            ctx,
            m.layers@.len() as int,
            skip_ple,
        ).plan.end is Ok,
    ensures
        remembers(
            m,
            mem,
            chunk,
            pos as int,
            skip_ple,
            m.qwen38_span(
                rt.states@,
                rt.ple_table,
                mem,
                chunk,
                pos,
                ctx,
                m.layers@.len() as int,
                skip_ple,
            ).mem,
        ),
{
    lemma_span_mem(m, rt, mem, chunk, pos, ctx, m.layers@.len() as int, skip_ple);
    let all = mem.at(pos).tokens + chunk;
    let k = m.shape.ple_ngram - 1;
    if all.len() > k && k >= 0 {
        assert(all.skip(all.len() - k) =~= all.subrange(all.len() - k, all.len() as int));
    }
    if k < 0 {
        assert(all.skip(all.len() - k) =~= all.subrange(all.len() - k, all.len() as int));
    }
}

/// The world before layer `i` of a chunk.
spec fn between(
    m: Model,
    rt: Qwen38Rt,
    mem: PleMem,
    chunk: Seq<u32>,
    pos: u32,
    ctx: u32,
    skip_ple: bool,
    v: World,
    i: int,
) -> World {
    run(
        m.qwen38_span(rt.states@, rt.ple_table, mem, chunk, pos, ctx, i, skip_ple).plan.ops,
        v,
    )
}

#[verifier::rlimit(40)]
proof fn lemma_chunk_layers(
    m: Model,
    rt: Qwen38Rt,
    mem: PleMem,
    chunk: Seq<u32>,
    pos: u32,
    ctx: u32,
    skip_ple: bool,
    v: World,
)
    requires
        0 < chunk.len() <= 16,
        m.layers@.len() <= i32::MAX,
        m.shape.rows_fit(chunk.len() as u32),
        pos + chunk.len() <= u32::MAX,
        m.embeds(skip_ple) ==> m.ple_ready(rt.ple_table, chunk.len() as u32),
        m.qwen38_span(
            rt.states@,
            rt.ple_table,
            mem,
            chunk,
            pos,
            ctx,
            m.layers@.len() as int,
            skip_ple,
        ).plan.end is Ok,
    ensures
        layers_do(
            m,
            rt.ple_table,
            mem.at(pos).tokens,
            chunk,
            pos as int,
            ctx as int,
            skip_ple,
            Seq::new(
                m.layers@.len() + 1,
                |i: int| between(m, rt, mem, chunk, pos, ctx, skip_ple, v, i),
            ),
        ),
{
    let n = m.layers@.len() as int;
    lemma_span(m, rt, mem, chunk, pos, ctx, n, skip_ple, v);
    let ws = Seq::new(
        m.layers@.len() + 1,
        |i: int| between(m, rt, mem, chunk, pos, ctx, skip_ple, v, i),
    );
    assert forall|il: int| #![trigger ws[il]] 0 <= il < n implies layer_does(
        m,
        rt.ple_table,
        mem.at(pos).tokens,
        chunk,
        pos as int,
        ctx as int,
        il as usize,
        skip_ple,
        ws[il],
        ws[il + 1],
    ) by {
        assert(nth_layer(m, rt, mem, chunk, pos, ctx, skip_ple, v, il));
    }
}

#[verifier::rlimit(40)]
proof fn lemma_chunk(
    m: Model,
    rt: Qwen38Rt,
    mem: PleMem,
    chunk: Seq<u32>,
    pos: u32,
    ctx: u32,
    skip_ple: bool,
    v: World,
)
    requires
        0 < chunk.len() <= 16,
        m.layers@.len() <= i32::MAX,
        m.shape.rows_fit(chunk.len() as u32),
        pos + chunk.len() <= u32::MAX,
        m.embeds(skip_ple) ==> m.ple_ready(rt.ple_table, chunk.len() as u32),
        m.qwen38_chunk(rt.states@, rt.ple_table, mem, chunk, pos, ctx, skip_ple).plan.end is Ok,
    ensures
        ({
            let c = m.qwen38_chunk(rt.states@, rt.ple_table, mem, chunk, pos, ctx, skip_ple);
            chunk_does(
                m,
                rt.ple_table,
                mem,
                chunk,
                pos as int,
                ctx as int,
                skip_ple,
                v,
                run(c.plan.ops, v),
                c.mem,
            )
        }),
{
    let n = m.layers@.len() as int;
    let a = chunk_start(m.shape, pos, chunk.len() as u32);
    let v1 = run(a, v);
    lemma_chunk_is(m, rt, mem, chunk, pos, ctx, skip_ple, v);
    lemma_chunk_start(m, pos, chunk.len() as u32, v);
    lemma_chunk_mem(m, rt, mem, chunk, pos, ctx, skip_ple);
    lemma_chunk_layers(m, rt, mem, chunk, pos, ctx, skip_ple, v1);
    let ws = Seq::new(
        m.layers@.len() + 1,
        |i: int| between(m, rt, mem, chunk, pos, ctx, skip_ple, v1, i),
    );
    let c = m.qwen38_chunk(rt.states@, rt.ple_table, mem, chunk, pos, ctx, skip_ple);
    assert(ws[0] == between(m, rt, mem, chunk, pos, ctx, skip_ple, v1, 0));
    assert(ws.last() == between(m, rt, mem, chunk, pos, ctx, skip_ple, v1, n));
    lemma_join(
        m,
        rt.ple_table,
        mem,
        chunk,
        pos as int,
        ctx as int,
        skip_ple,
        v,
        run(c.plan.ops, v),
        c.mem,
        ws,
    );
}

proof fn lemma_join(
    m: Model,
    table: Option<PleTable>,
    mem: PleMem,
    chunk: Seq<u32>,
    pos: int,
    ctx: int,
    skip_ple: bool,
    v: World,
    z: World,
    next: PleMem,
    ws: Seq<World>,
)
    requires
        remembers(m, mem, chunk, pos, skip_ple, next),
        layers_do(m, table, mem.at(pos as u32).tokens, chunk, pos, ctx, skip_ple, ws),
        chunk_enters(m, pos, chunk.len() as int, v, ws[0]),
        ws.last() == z,
    ensures
        chunk_does(m, table, mem, chunk, pos, ctx, skip_ple, v, z, next),
{
    reveal(chunk_does);
}

/// A chunk starts, and then its layers run.
proof fn lemma_chunk_is(
    m: Model,
    rt: Qwen38Rt,
    mem: PleMem,
    chunk: Seq<u32>,
    pos: u32,
    ctx: u32,
    skip_ple: bool,
    v: World,
)
    ensures
        ({
            let n = m.layers@.len() as int;
            let c = m.qwen38_chunk(rt.states@, rt.ple_table, mem, chunk, pos, ctx, skip_ple);
            let span = m.qwen38_span(
                rt.states@,
                rt.ple_table,
                mem,
                chunk,
                pos,
                ctx,
                n,
                skip_ple,
            );
            let v1 = run(chunk_start(m.shape, pos, chunk.len() as u32), v);
            &&& c.mem == span.mem
            &&& c.plan.end == span.plan.end
            &&& run(c.plan.ops, v) == between(m, rt, mem, chunk, pos, ctx, skip_ple, v1, n)
            &&& between(m, rt, mem, chunk, pos, ctx, skip_ple, v1, 0) == v1
        }),
{
    reveal(Model::qwen38_chunk);
    let n = m.layers@.len() as int;
    let span = m.qwen38_span(rt.states@, rt.ple_table, mem, chunk, pos, ctx, n, skip_ple);
    lemma_run_and(
        Plan::of(chunk_start(m.shape, pos, chunk.len() as u32)),
        span.plan,
        v,
    );
}

/// Whole chunks of sixteen tokens, and one for what is left.
pub open spec fn is_chunk(tokens: Seq<u32>, k: int, chunk: Seq<u32>) -> bool {
    &&& 0 < chunk.len() <= 16
    &&& chunk.len() == 16 || 16 * k + chunk.len() == tokens.len()
    &&& 16 * k + chunk.len() <= tokens.len()
    &&& chunk == tokens.subrange(16 * k, 16 * k + chunk.len())
}

/// The worlds and the memories between the chunks of a batch: every chunk in its
/// turn, at its position.
pub open spec fn chunks_do(
    m: Model,
    table: Option<PleTable>,
    tokens: Seq<u32>,
    pos0: int,
    ctx: int,
    skip_ple: bool,
    vs: Seq<World>,
    mems: Seq<PleMem>,
) -> bool {
    &&& vs.len() == mems.len() >= 1
    &&& 16 * (vs.len() - 2) < tokens.len() <= 16 * (vs.len() - 1)
    &&& forall|k: int|
        #![trigger vs[k]]
        0 <= k < vs.len() - 1 ==> chunk_step(
            m,
            table,
            tokens,
            k,
            pos0,
            ctx,
            skip_ple,
            vs[k],
            vs[k + 1],
            mems[k],
            mems[k + 1],
        )
}

/// Chunk `k` of a batch runs, at its position.
#[verifier::opaque]
pub open spec fn chunk_step(
    m: Model,
    table: Option<PleTable>,
    tokens: Seq<u32>,
    k: int,
    pos0: int,
    ctx: int,
    skip_ple: bool,
    v: World,
    z: World,
    mem: PleMem,
    next: PleMem,
) -> bool {
    exists|chunk: Seq<u32>| #[trigger]
        is_chunk(tokens, k, chunk) && chunk_does(
            m,
            table,
            mem,
            chunk,
            pos0 + 16 * k,
            ctx,
            skip_ple,
            v,
            z,
            next,
        )
}

proof fn lemma_is_chunk(tokens: Seq<u32>, k: int)
    requires
        0 <= k < n_chunks(tokens.len() as int),
    ensures
        is_chunk(tokens, k, chunk_of(tokens, k)),
{
    let c = chunk_of(tokens, k);
    if (k + 1) * 16 < tokens.len() {
        assert(c =~= tokens.subrange(16 * k, 16 * k + 16));
    } else {
        assert(c =~= tokens.subrange(16 * k, tokens.len() as int));
    }
}

spec fn chunks_run(
    m: Model,
    rt: Qwen38Rt,
    mem: PleMem,
    tokens: Seq<u32>,
    pos0: u32,
    ctx: u32,
    skip_ple: bool,
    k: int,
) -> Run {
    m.qwen38_chunks(rt.states@, rt.ple_table, mem, tokens, pos0, ctx, k, skip_ple)
}

/// Chunk `k` of a batch does its part.
spec fn nth_chunk(
    m: Model,
    rt: Qwen38Rt,
    mem: PleMem,
    tokens: Seq<u32>,
    pos0: u32,
    ctx: u32,
    skip_ple: bool,
    v: World,
    k: int,
) -> bool {
    let a = chunks_run(m, rt, mem, tokens, pos0, ctx, skip_ple, k);
    let b = chunks_run(m, rt, mem, tokens, pos0, ctx, skip_ple, k + 1);
    chunk_step(
        m,
        rt.ple_table,
        tokens,
        k,
        pos0 as int,
        ctx as int,
        skip_ple,
        run(a.plan.ops, v),
        run(b.plan.ops, v),
        a.mem,
        b.mem,
    )
}

#[verifier::rlimit(40)]
proof fn lemma_chunks(
    m: Model,
    rt: Qwen38Rt,
    mem: PleMem,
    tokens: Seq<u32>,
    pos0: u32,
    ctx: u32,
    n: int,
    skip_ple: bool,
    v: World,
)
    requires
        m.qwen38_ready(rt, 16, skip_ple),
        0 <= n <= n_chunks(tokens.len() as int),
        pos0 + tokens.len() <= u32::MAX,
        chunks_run(m, rt, mem, tokens, pos0, ctx, skip_ple, n).plan.end is Ok,
    ensures
        forall|k: int|
            0 <= k < n ==> #[trigger] nth_chunk(
                m,
                rt,
                mem,
                tokens,
                pos0,
                ctx,
                skip_ple,
                v,
                k,
            ),
    decreases n,
{
    if n > 0 {
        let k = n - 1;
        lemma_chunks(m, rt, mem, tokens, pos0, ctx, k, skip_ple, v);
        let prev = chunks_run(m, rt, mem, tokens, pos0, ctx, skip_ple, k);
        let chunk = chunk_of(tokens, k);
        let pos = (pos0 + k * T_MAX) as u32;
        lemma_is_chunk(tokens, k);
        let step = m.qwen38_chunk(
            rt.states@,
            rt.ple_table,
            prev.mem,
            chunk,
            pos,
            ctx,
            skip_ple,
        );
        lemma_run_and(prev.plan, step.plan, v);
        lemma_smaller(m, rt, chunk.len() as u32, skip_ple);
        lemma_chunk(m, rt, prev.mem, chunk, pos, ctx, skip_ple, run(prev.plan.ops, v));
        assert(nth_chunk(m, rt, mem, tokens, pos0, ctx, skip_ple, v, k)) by {
            reveal(chunk_step);
        }
    }
}

/// What fits a whole chunk fits a smaller one.
proof fn lemma_smaller(m: Model, rt: Qwen38Rt, t: u32, skip_ple: bool)
    requires
        t <= 16,
        m.qwen38_ready(rt, 16, skip_ple),
    ensures
        m.shape.rows_fit(t),
        m.embeds(skip_ple) ==> m.ple_ready(rt.ple_table, t),
{
    lemma_fits_less(m.shape, t);
    lemma_le(t as int, ple_heads(&m.shape) as int);
}

proof fn lemma_le(t: int, x: int)
    requires
        t <= 16,
    ensures
        0 <= x ==> t * x <= 16 * x,
{
    if 0 <= x {
        assert(t * x <= 16 * x) by (nonlinear_arith)
            requires
                t <= 16,
                0 <= x,
        ;
    }
}

/// The weights of the mixer in front of the output head.
pub open spec fn head_mixer() -> HcAt {
    HcAt {
        norm: Buf::Global(Gw::OutputHcNorm),
        down: Buf::Global(Gw::OutputHcDown),
        up: Buf::Global(Gw::OutputHcUp),
        inject: Buf::Global(Gw::OutputHcInject),
    }
}

/// The last `rows` rows of the last chunk, of `last` tokens, behind the last
/// mixer.
pub open spec fn last_rows(m: Model, w: Qwen38Hc, res: Val, last: int, rows: int) -> Val {
    let n = m.shape.n_embd as int;
    Val::Cut {
        of: bx(collapsed(m.shape, head_mixer(), w, res, last)),
        off: (last - rows) * n * 4,
        bytes: rows * n * 4,
    }
}

/// The host gets the logits of the last `rows` tokens of a batch of `n`.
pub open spec fn tail_does(m: Model, n: int, rows: int, v: World, z: World) -> bool {
    let last = (n - 1) % 16 + 1;
    if rows == 0 {
        z == v
    } else {
        &&& rows <= last
        &&& m.output_hc is Some
        &&& ({
            let x = last_rows(
                m,
                m.output_hc->Some_0,
                v.at[Buf::Rt(Q38::ResHc)],
                last,
                rows,
            );
            &&& z.at[Buf::State(St::LastRow)] == x
            &&& z.logits == Some(
                (Val::Cut {
                    of: bx(Val::Head { x: bx(x), rows }),
                    off: 0,
                    bytes: rows * m.shape.n_vocab * 4,
                }),
            )
        })
    }
}

/// Before position zero the recurrent states are cleared; before any other
/// position they stay.
pub open spec fn batch_enters(rt: Qwen38Rt, pos0: int, w: World, z: World) -> bool {
    forall|b: Buf| #[trigger]
        lasting(b) ==> z.at[b] == if pos0 == 0 {
            cleared(rt.states@, rt.states@.len() as int, b, w)
        } else {
            w.at[b]
        }
}

/// What the states of the first `n` layers hold once they are cleared.
pub open spec fn cleared(states: Seq<Option<GdnState>>, n: int, b: Buf, w: World) -> Val {
    match b {
        Buf::Gdn(il, x) => if il < n && states[il as int] is Some {
            let g = states[il as int]->Some_0;
            match x {
                GdnBuf::S => Val::Zeros { bytes: g.s_bytes as int },
                GdnBuf::Conv => Val::Zeros { bytes: g.conv_bytes as int },
                GdnBuf::PleHist => match g.ple_hist {
                    Some(k) => Val::Zeros { bytes: k as int },
                    None => w.at[b],
                },
            }
        } else {
            w.at[b]
        },
        _ => w.at[b],
    }
}

#[verifier::rlimit(40)]
proof fn lemma_reset(states: Seq<Option<GdnState>>, n: int, b: Buf, w: World)
    requires
        0 <= n <= states.len(),
        states.len() <= usize::MAX,
    ensures
        run(reset_gdn(states, n), w).at[b] == cleared(states, n, b, w),
    decreases n,
{
    if n > 0 {
        lemma_reset(states, n - 1, b, w);
        let front = reset_gdn(states, n - 1);
        let mine = match states[n - 1] {
            Some(g) => seq![Op::SetDevice(g.dev)] + zero_gdn((n - 1) as usize, g),
            None => Seq::empty(),
        };
        lemma_run_add(front, mine, w);
        let v = run(front, w);
        if let Some(g) = states[n - 1] {
            let il = (n - 1) as usize;
            assert(mine[0] == Op::SetDevice(g.dev));
            assert(mine[1] == Op::Zero { buf: Buf::Gdn(il, GdnBuf::S), bytes: g.s_bytes });
            assert(mine[2] == Op::Zero { buf: Buf::Gdn(il, GdnBuf::Conv), bytes: g.conv_bytes });
            lemma_next(mine, 0, v);
            lemma_next(mine, 1, v);
            lemma_next(mine, 2, v);
            if let Some(k) = g.ple_hist {
                assert(mine.len() == 4);
                assert(mine[3] == Op::Zero { buf: Buf::Gdn(il, GdnBuf::PleHist), bytes: k });
                lemma_next(mine, 3, v);
            } else {
                assert(mine.len() == 3);
            }
        } else {
            assert(front + mine =~= front);
        }
    }
}

#[verifier::rlimit(40)]
proof fn lemma_head_rows(m: Model, w: Qwen38Hc, last: u32, rows: u32, v: World)
    requires
        0 < rows <= last <= 16,
        m.shape.rows_fit(16),
        m.shape.rows_fit(last),
    ensures
        ({
            let s = m.shape;
            let z = run(
                hc_full(s, hc_out_at(), w, last, false) + head_rows(s, last, rows),
                v,
            );
            let x = last_rows(m, w, v.at[Buf::Rt(Q38::ResHc)], last as int, rows as int);
            &&& z.at[Buf::State(St::LastRow)] == x
            &&& z.logits == Some(
                (Val::Cut {
                    of: bx(Val::Head { x: bx(x), rows: rows as int }),
                    off: 0,
                    bytes: rows * s.n_vocab * 4,
                }),
            )
        }),
{
    let s = m.shape;
    let a = hc_full(s, hc_out_at(), w, last, false);
    let b = head_rows(s, last, rows);
    lemma_run_add(a, b, v);
    let v1 = run(a, v);
    assert(hc_out_at() == head_mixer());
    lemma_mix(s, head_mixer(), w, last, false, v);
    lemma_chunk_widths(s, 16);
    assert(0 <= (last - rows) * s.n_embd <= 16 * s.n_embd) by (nonlinear_arith)
        requires
            0 < rows <= last <= 16,
    ;
    assert(0 <= rows * s.n_embd <= 16 * s.n_embd) by (nonlinear_arith)
        requires
            0 < rows <= 16,
    ;
    assert(0 <= rows * s.n_vocab <= 16 * s.n_vocab) by (nonlinear_arith)
        requires
            0 < rows <= 16,
    ;
    lemma_next(b, 0, v1);
    lemma_next(b, 1, v1);
    lemma_next(b, 2, v1);
    lemma_next(b, 3, v1);
    lemma_next(b, 4, v1);
}

proof fn lemma_tail(m: Model, n: int, rows: u32, v: World)
    requires
        0 < n,
        m.shape.rows_fit(16),
        m.qwen38_tail(n, rows).end is Ok,
    ensures
        tail_does(m, n, rows as int, v, run(m.qwen38_tail(n, rows).ops, v)),
{
    reveal(Model::qwen38_tail);
    let last = last_chunk(n);
    assert(last == (n - 1) % 16 + 1 && 0 < last <= 16);
    if rows > 0 {
        lemma_fits_less(m.shape, last as u32);
        lemma_head_rows(m, m.output_hc->Some_0, last as u32, rows, v);
    }
}

#[verifier::rlimit(40)]
proof fn lemma_fits_less(s: Shape, t: u32)
    requires
        t <= 16,
        s.rows_fit(16),
    ensures
        s.rows_fit(t),
{
    lemma_le(t as int, s.n_hc * s.n_embd);
    lemma_le(t as int, s.n_embd as int);
    lemma_le(t as int, s.hc_low_rank as int);
    lemma_le(t as int, s.ssm_k_heads as int);
    lemma_le(t as int, s.ssm_v_heads as int);
    lemma_le(t as int, s.ssm_v_heads * s.ssm_state);
    lemma_le(t as int, s.n_head * s.head_dim);
    lemma_le(t as int, s.n_head as int);
    lemma_le(t as int, s.n_head_kv as int);
    lemma_le(t as int, s.n_ff_exp as int);
    lemma_le(t as int, s.n_expert_used as int);
    assert(0 <= s.n_hc * s.n_embd) by (nonlinear_arith);
    assert(0 <= s.ssm_v_heads * s.ssm_state) by (nonlinear_arith);
    assert(0 <= s.n_head * s.head_dim) by (nonlinear_arith);
}

/// What a batch starts with: nothing remembered at position zero.
pub open spec fn starts_with(rt: Qwen38Rt, pos0: int) -> PleMem {
    if pos0 == 0 {
        PleMem { tokens: Seq::empty(), next_pos: 0 }
    } else {
        PleMem { tokens: rt.ple_tokens@, next_pos: rt.ple_next_pos }
    }
}

/// A batch runs in chunks, one after the other, each at its own position and on
/// what the ones before it left; a batch from position zero clears the recurrent
/// states and forgets the tokens before it.  The host gets the logits of the rows
/// it asked for.
#[verifier::rlimit(40)]
pub proof fn pass_computes(
    m: Model,
    rt: Qwen38Rt,
    tokens: Seq<u32>,
    pos0: u32,
    rows: u32,
    ctx: u32,
    current: i32,
    skip_ple: bool,
    w: World,
)
    requires
        0 < tokens.len(),
        m.qwen38_ready(rt, 16, skip_ple),
        pos0 + tokens.len() <= u32::MAX,
        rt.states@.len() <= usize::MAX,
        m.qwen38_pass(rt, tokens, pos0, rows, ctx, current, skip_ple).plan.end is Ok,
    ensures
        ({
            let p = m.qwen38_pass(rt, tokens, pos0, rows, ctx, current, skip_ple);
            exists|vs: Seq<World>, mems: Seq<PleMem>| #[trigger]
                chunks_do(
                    m,
                    rt.ple_table,
                    tokens,
                    pos0 as int,
                    ctx as int,
                    skip_ple,
                    vs,
                    mems,
                ) && batch_enters(rt, pos0 as int, w, vs[0]) && mems[0] == starts_with(
                    rt,
                    pos0 as int,
                ) && tail_does(m, tokens.len() as int, rows as int, vs.last(), run(p.plan.ops, w))
                    && p.mem == mems.last()
        }),
{
    let n = tokens.len() as int;
    let total = n_chunks(n);
    let mem = starts_with(rt, pos0 as int);
    let first = ops_if(
        pos0 == 0,
        reset_gdn(rt.states@, rt.states@.len() as int) + seq![Op::SetDevice(current)],
    );
    let w1 = run(first, w);
    lemma_pass_is(m, rt, tokens, pos0, rows, ctx, current, skip_ple, w);
    lemma_batch_enters(rt, pos0, current, w);
    lemma_chunk_worlds(m, rt, mem, tokens, pos0, ctx, skip_ple, w1);
    let vs = worlds(m, rt, mem, tokens, pos0, ctx, skip_ple, w1);
    let mems = memories(m, rt, mem, tokens, pos0, ctx, skip_ple);
    assert(vs.last() == vs[total]);
    assert(mems.last() == mems[total]);
    lemma_tail(m, n, rows, vs.last());
}

/// The worlds between the chunks of a batch.
spec fn worlds(
    m: Model,
    rt: Qwen38Rt,
    mem: PleMem,
    tokens: Seq<u32>,
    pos0: u32,
    ctx: u32,
    skip_ple: bool,
    w: World,
) -> Seq<World> {
    Seq::new(
        (n_chunks(tokens.len() as int) + 1) as nat,
        |i: int| run(chunks_run(m, rt, mem, tokens, pos0, ctx, skip_ple, i).plan.ops, w),
    )
}

spec fn memories(
    m: Model,
    rt: Qwen38Rt,
    mem: PleMem,
    tokens: Seq<u32>,
    pos0: u32,
    ctx: u32,
    skip_ple: bool,
) -> Seq<PleMem> {
    Seq::new(
        (n_chunks(tokens.len() as int) + 1) as nat,
        |i: int| chunks_run(m, rt, mem, tokens, pos0, ctx, skip_ple, i).mem,
    )
}

proof fn lemma_batch_enters(rt: Qwen38Rt, pos0: u32, current: i32, w: World)
    requires
        rt.states@.len() <= usize::MAX,
    ensures
        ({
            let r = reset_gdn(rt.states@, rt.states@.len() as int);
            let first = ops_if(pos0 == 0, r + seq![Op::SetDevice(current)]);
            batch_enters(rt, pos0 as int, w, run(first, w))
        }),
{
    let r = reset_gdn(rt.states@, rt.states@.len() as int);
    let back = seq![Op::SetDevice(current)];
    lemma_run_add(r, back, w);
    lemma_next(back, 0, run(r, w));
    assert forall|x: Buf| #[trigger] lasting(x) implies run(r, w).at[x] == cleared(
        rt.states@,
        rt.states@.len() as int,
        x,
        w,
    ) by {
        lemma_reset(rt.states@, rt.states@.len() as int, x, w);
    }
}

#[verifier::rlimit(40)]
proof fn lemma_chunk_worlds(
    m: Model,
    rt: Qwen38Rt,
    mem: PleMem,
    tokens: Seq<u32>,
    pos0: u32,
    ctx: u32,
    skip_ple: bool,
    w: World,
)
    requires
        0 < tokens.len(),
        m.qwen38_ready(rt, 16, skip_ple),
        pos0 + tokens.len() <= u32::MAX,
        chunks_run(
            m,
            rt,
            mem,
            tokens,
            pos0,
            ctx,
            skip_ple,
            n_chunks(tokens.len() as int),
        ).plan.end is Ok,
    ensures
        ({
            let vs = worlds(m, rt, mem, tokens, pos0, ctx, skip_ple, w);
            let mems = memories(m, rt, mem, tokens, pos0, ctx, skip_ple);
            &&& chunks_do(m, rt.ple_table, tokens, pos0 as int, ctx as int, skip_ple, vs, mems)
            &&& vs[0] == w
            &&& mems[0] == mem
        }),
{
    let total = n_chunks(tokens.len() as int);
    lemma_chunks(m, rt, mem, tokens, pos0, ctx, total, skip_ple, w);
    let vs = worlds(m, rt, mem, tokens, pos0, ctx, skip_ple, w);
    let mems = memories(m, rt, mem, tokens, pos0, ctx, skip_ple);
    assert(vs[0] == run(chunks_run(m, rt, mem, tokens, pos0, ctx, skip_ple, 0).plan.ops, w));
    assert forall|k: int| #![trigger vs[k]] 0 <= k < vs.len() - 1 implies chunk_step(
        m,
        rt.ple_table,
        tokens,
        k,
        pos0 as int,
        ctx as int,
        skip_ple,
        vs[k],
        vs[k + 1],
        mems[k],
        mems[k + 1],
    ) by {
        assert(nth_chunk(m, rt, mem, tokens, pos0, ctx, skip_ple, w, k));
    }
}

/// A batch clears what it has to, runs its chunks, and then its tail.
proof fn lemma_pass_is(
    m: Model,
    rt: Qwen38Rt,
    tokens: Seq<u32>,
    pos0: u32,
    rows: u32,
    ctx: u32,
    current: i32,
    skip_ple: bool,
    w: World,
)
    requires
        m.qwen38_pass(rt, tokens, pos0, rows, ctx, current, skip_ple).plan.end is Ok,
    ensures
        ({
            let p = m.qwen38_pass(rt, tokens, pos0, rows, ctx, current, skip_ple);
            let n = tokens.len() as int;
            let b = chunks_run(
                m,
                rt,
                starts_with(rt, pos0 as int),
                tokens,
                pos0,
                ctx,
                skip_ple,
                n_chunks(n),
            );
            let r = reset_gdn(rt.states@, rt.states@.len() as int);
            let first = ops_if(pos0 == 0, r + seq![Op::SetDevice(current)]);
            &&& b.plan.end is Ok
            &&& m.qwen38_tail(n, rows).end is Ok
            &&& p.mem == b.mem
            &&& run(p.plan.ops, w) == run(
                m.qwen38_tail(n, rows).ops,
                run(b.plan.ops, run(first, w)),
            )
        }),
{
    let n = tokens.len() as int;
    let mem = starts_with(rt, pos0 as int);
    let r = reset_gdn(rt.states@, rt.states@.len() as int);
    let a = Plan::of(ops_if(pos0 == 0, r + seq![Op::SetDevice(current)]));
    let b = chunks_run(m, rt, mem, tokens, pos0, ctx, skip_ple, n_chunks(n));
    let c = m.qwen38_tail(n, rows);
    lemma_run_and(a, b.plan, w);
    lemma_run_and(a.and(b.plan), c, w);
}

} // verus!
