//! On which card each operation of a Bailing batch runs.

use crate::engine::access::{
    card_after, lemma_local_add, lemma_stays_add, lemma_stays_local, local, op_on, stays,
};
use crate::engine::bailing::blocks::{
    enter, ffn, hop_in, kda_half, kda_project, layer, mixer, mla_half, mla_query, rejoin, route,
    routed_half, shared_half,
};
use crate::engine::bailing::passes::made_for;
use crate::engine::bailing::BailingRt;
use crate::engine::blocks::{
    dense_ffn, kda_recurrence, matw, mla_core, project_out, quant_for, reset_all, reset_states,
    zero_kda, KdaState, Place,
};
use crate::engine::home::{
    is_mixer_weight, lemma_back, lemma_local_and, lemma_mla_core_stays, lemma_project_out_local,
    lemma_quant_stays, lemma_recurrence_stays, lemma_there_and_back, mixer_home,
};
use crate::engine::ops::{ops_if, Buf, Gw, Op, Plan, Rope, Sc, St, Wt};
use crate::engine::shape::{Attn, BailingW, Ffn, KdaW, LayerW, MlaW, Model, Shape};
use vstd::prelude::*;

verus! {

/// Where each buffer stands: a layer's mixer, its cache and its recurrent state on
/// the layer's card, all else on the primary.
pub open spec fn bailing_home(m: Model, primary: i32) -> spec_fn(Buf) -> i32 {
    |b: Buf|
        match b {
            Buf::Scratch(d, _) => d,
            Buf::Kda(il, _) => m.attn_dev(il, primary),
            Buf::KCache(il) => m.attn_dev(il, primary),
            Buf::VCache(il) => m.attn_dev(il, primary),
            Buf::Layer(il, w) => if is_mixer_weight(w) {
                m.attn_dev(il, primary)
            } else {
                primary
            },
            _ => primary,
        }
}

/// The place of a layer.
pub open spec fn place_of(m: Model, rt: BailingRt, il: usize) -> Place {
    Place { il, dev: m.attn_dev(il, rt.primary), primary: rt.primary }
}

proof fn lemma_enter_stays(m: Model, rt: BailingRt, il: usize)
    ensures
        stays(enter(m.shape, il), bailing_home(m, rt.primary), rt.primary),
{
    let home = bailing_home(m, rt.primary);
    let ops = enter(m.shape, il);
    assert(op_on(ops[0], home, rt.primary));
}

proof fn lemma_hop_local(m: Model, rt: BailingRt, at: Place)
    requires
        at == place_of(m, rt, at.il),
    ensures
        local(hop_in(m.shape, at, rt.scratch@).ops, bailing_home(m, rt.primary), rt.primary),
        hop_in(m.shape, at, rt.scratch@).end is Ok ==> card_after(
            hop_in(m.shape, at, rt.scratch@).ops,
            rt.primary,
        ) == at.dev,
{
    let home = bailing_home(m, rt.primary);
    let ops = hop_in(m.shape, at, rt.scratch@).ops;
    if ops.len() > 0 {
        let a = seq![ops[0], ops[1]];
        let b = seq![Op::SetDevice(at.dev)];
        assert(op_on(a[0], home, rt.primary));
        assert(stays(a, home, rt.primary));
        lemma_stays_local(a, home, rt.primary);
        lemma_back(home, rt.primary, at.dev);
        lemma_local_add(a, b, home, rt.primary);
        assert(ops =~= a + b);
    } else {
        lemma_stays_local(ops, home, rt.primary);
    }
}

proof fn lemma_kda_project_stays(m: Model, rt: BailingRt, at: Place, w: KdaW)
    requires
        at == place_of(m, rt, at.il),
    ensures
        stays(kda_project(m.shape, at, w), bailing_home(m, rt.primary), at.dev),
{
    let home = bailing_home(m, rt.primary);
    let s = m.shape;
    let q = quant_for(w.wq, at.sc(Sc::Xq), at.xin(), s.n_embd);
    lemma_quant_stays(home, w.wq, at.sc(Sc::Xq), at.xin(), s.n_embd, at.dev);
    let ops = kda_project(s, at, w);
    let rest = ops.skip(q.len() as int);
    assert(op_on(rest[0], home, at.dev));
    assert(op_on(rest[1], home, at.dev));
    assert(op_on(rest[2], home, at.dev));
    assert(op_on(rest[3], home, at.dev));
    assert(op_on(rest[4], home, at.dev));
    assert(op_on(rest[5], home, at.dev));
    assert(stays(rest, home, at.dev));
    lemma_stays_add(q, rest, home, at.dev);
    assert(ops =~= q + rest);
}

proof fn lemma_mixer_home(m: Model, rt: BailingRt, at: Place)
    requires
        at == place_of(m, rt, at.il),
    ensures
        mixer_home(bailing_home(m, rt.primary), at),
{
}

proof fn lemma_kda_half_local(m: Model, rt: BailingRt, at: Place, w: KdaW, state: Option<KdaState>)
    requires
        at == place_of(m, rt, at.il),
    ensures
        ({
            let p = kda_half(m.shape, at, w, rt.scratch@, state);
            &&& local(p.ops, bailing_home(m, rt.primary), at.dev)
            &&& p.end is Ok ==> card_after(p.ops, at.dev) == at.primary
        }),
{
    let home = bailing_home(m, rt.primary);
    let s = m.shape;
    lemma_mixer_home(m, rt, at);
    lemma_kda_project_stays(m, rt, at, w);
    lemma_recurrence_stays(home, s, at);
    let a = kda_project(s, at, w);
    lemma_stays_local(a, home, at.dev);
    let b = kda_recurrence(s, at);
    let c = seq![
        matw(
            at.sc(Sc::Gate),
            at.wt(Wt::KdaWg),
            w.wg,
            at.xin(),
            at.sc(Sc::Xq),
            s.n_embd,
            s.d_inner(),
            1,
        ),
        Op::SigmoidGate { buf: at.sc(Sc::O), gate: at.sc(Sc::Gate), n: s.d_inner() },
    ];
    assert(op_on(c[0], home, at.dev));
    assert(op_on(c[1], home, at.dev));
    assert(stays(c, home, at.dev));
    lemma_stays_add(a, b, home, at.dev);
    lemma_stays_add(a + b, c, home, at.dev);
    lemma_stays_local(a + b + c, home, at.dev);
    lemma_project_out_local(home, s, at, w.out, Wt::KdaOut, Sc::O, s.d_inner());
    lemma_local_add(
        a + b + c,
        project_out(s, at, w.out, Wt::KdaOut, Sc::O, s.d_inner()),
        home,
        at.dev,
    );
    let none = Seq::<Op>::empty();
    lemma_stays_local(none, home, at.dev);
}

proof fn lemma_mla_half_local(m: Model, rt: BailingRt, at: Place, w: MlaW, pos: u32, ctx: u32)
    requires
        at == place_of(m, rt, at.il),
    ensures
        ({
            let p = mla_half(m.shape, at, w, rt.scratch@, pos, ctx);
            &&& local(p.ops, bailing_home(m, rt.primary), at.dev)
            &&& p.end is Ok ==> card_after(p.ops, at.dev) == at.primary
        }),
{
    let home = bailing_home(m, rt.primary);
    let s = m.shape;
    lemma_mixer_home(m, rt, at);
    let a = mla_query(s, at, pos);
    assert(op_on(a[0], home, at.dev));
    assert(op_on(a[1], home, at.dev));
    assert(stays(a, home, at.dev));
    let b = mla_core(s, at, pos, ctx, Rope::Model);
    lemma_mla_core_stays(home, s, at, pos, ctx, Rope::Model);
    let c = quant_for(w.gate, at.sc(Sc::Xq), at.xin(), s.n_embd);
    lemma_quant_stays(home, w.gate, at.sc(Sc::Xq), at.xin(), s.n_embd, at.dev);
    let d = seq![
        matw(
            at.sc(Sc::Gate),
            at.wt(Wt::MlaGate),
            w.gate,
            at.xin(),
            at.sc(Sc::Xq),
            s.n_embd,
            s.n_head,
            1,
        ),
        Op::RowSigmoidScale {
            buf: at.sc(Sc::Heads),
            gate: at.sc(Sc::Gate),
            rows: s.n_head,
            dim: s.value_mla,
        },
    ];
    assert(op_on(d[0], home, at.dev));
    assert(op_on(d[1], home, at.dev));
    assert(stays(d, home, at.dev));
    lemma_stays_add(a, b, home, at.dev);
    lemma_stays_add(a + b, c, home, at.dev);
    lemma_stays_add(a + b + c, d, home, at.dev);
    lemma_stays_local(a + b + c + d, home, at.dev);
    lemma_project_out_local(home, s, at, w.out, Wt::MlaOut, Sc::Heads, s.mla_out());
    lemma_local_add(
        a + b + c + d,
        project_out(s, at, w.out, Wt::MlaOut, Sc::Heads, s.mla_out()),
        home,
        at.dev,
    );
    let none = Seq::<Op>::empty();
    lemma_stays_local(none, home, at.dev);
}

proof fn lemma_rejoin_stays(m: Model, rt: BailingRt, il: usize)
    ensures
        stays(rejoin(m.shape, il), bailing_home(m, rt.primary), rt.primary),
{
    let home = bailing_home(m, rt.primary);
    let ops = rejoin(m.shape, il);
    assert(op_on(ops[0], home, rt.primary));
    assert(op_on(ops[1], home, rt.primary));
}

proof fn lemma_ffn_stays(m: Model, rt: BailingRt, il: usize, l: LayerW, clamp: Option<usize>)
    ensures
        stays(ffn(m.shape, il, l, clamp).ops, bailing_home(m, rt.primary), rt.primary),
{
    let home = bailing_home(m, rt.primary);
    let s = m.shape;
    let prim = rt.primary;
    match l.ffn {
        Ffn::Dense => {
            let ops = dense_ffn(s, il);
            assert(op_on(ops[0], home, prim));
            assert(op_on(ops[1], home, prim));
            assert(op_on(ops[2], home, prim));
            assert(op_on(ops[3], home, prim));
        },
        Ffn::Moe { shexp } => {
            let a = route(s, il);
            assert(op_on(a[0], home, prim));
            assert(op_on(a[1], home, prim));
            assert(stays(a, home, prim));
            let b = shared_half(s, il, shexp, clamp);
            assert(op_on(b[0], home, prim));
            if shexp {
                assert(op_on(b[1], home, prim));
                assert(op_on(b[2], home, prim));
                assert(op_on(b[3], home, prim));
            }
            assert(stays(b, home, prim));
            let c = routed_half(s, il);
            assert(op_on(c[0], home, prim));
            assert(op_on(c[1], home, prim));
            assert(op_on(c[2], home, prim));
            assert(op_on(c[3], home, prim));
            assert(stays(c, home, prim));
            lemma_stays_add(a, b, home, prim);
            lemma_stays_add(a + b, c, home, prim);
        },
        Ffn::Other => {},
    }
}

/// A layer starts on the primary card, and every kernel of it runs while the card
/// is current on which its buffers stand; where it ends well, the primary card is
/// current again.
pub proof fn layer_runs_on_its_cards(m: Model, rt: BailingRt, il: usize, pos: u32, ctx: u32)
    ensures
        ({
            let p = m.bailing_layer(rt, il, pos, ctx);
            &&& local(p.ops, bailing_home(m, rt.primary), rt.primary)
            &&& p.end is Ok ==> card_after(p.ops, rt.primary) == rt.primary
        }),
{
    let home = bailing_home(m, rt.primary);
    let s = m.shape;
    let at = place_of(m, rt, il);
    let l = m.layers@[il as int];
    let cards = rt.scratch@;
    let prim = rt.primary;
    let state = rt.states@[il as int];
    match l.attn {
        Attn::Bailing(w) => {
            let a = Plan::of(enter(s, il));
            lemma_enter_stays(m, rt, il);
            lemma_stays_local(a.ops, home, prim);
            let b = hop_in(s, at, cards);
            lemma_hop_local(m, rt, at);
            let c = mixer(s, at, w, cards, state, pos, ctx);
            lemma_mixer_local(m, rt, at, w, state, pos, ctx);
            let d = Plan::of(rejoin(s, il));
            lemma_rejoin_stays(m, rt, il);
            lemma_stays_local(d.ops, home, prim);
            let e = ffn(s, il, l, m.clamp_of(il));
            lemma_ffn_stays(m, rt, il, l, m.clamp_of(il));
            lemma_stays_local(e.ops, home, prim);
            let f = Plan::of(seq![join(s)]);
            lemma_join_local(m, rt);
            lemma_there_and_back(a, b, c, d, e, f, home, prim, at.dev);
            assert(m.bailing_layer(rt, il, pos, ctx) == a.and(b).and(c).and(d).and(e).and(f))
                by {
                reveal(layer);
            }
        },
        _ => {
            lemma_stays_local(Seq::<Op>::empty(), home, prim);
            assert(m.bailing_layer(rt, il, pos, ctx).ops =~= Seq::<Op>::empty()) by {
                reveal(layer);
            }
        },
    }
}

/// The residual after the feed-forward half.
spec fn join(s: Shape) -> Op {
    Op::Add {
        out: Buf::State(St::Cur),
        a: Buf::State(St::AfterAttn),
        b: Buf::State(St::FfnOut),
        n: s.n_embd,
    }
}

proof fn lemma_join_local(m: Model, rt: BailingRt)
    ensures
        local(seq![join(m.shape)], bailing_home(m, rt.primary), rt.primary),
        card_after(seq![join(m.shape)], rt.primary) == rt.primary,
{
    let home = bailing_home(m, rt.primary);
    let ops = seq![join(m.shape)];
    assert(op_on(ops[0], home, rt.primary));
    assert(stays(ops, home, rt.primary));
    lemma_stays_local(ops, home, rt.primary);
}

proof fn lemma_mixer_local(
    m: Model,
    rt: BailingRt,
    at: Place,
    w: BailingW,
    state: Option<KdaState>,
    pos: u32,
    ctx: u32,
)
    requires
        at == place_of(m, rt, at.il),
    ensures
        ({
            let p = mixer(m.shape, at, w, rt.scratch@, state, pos, ctx);
            &&& local(p.ops, bailing_home(m, rt.primary), at.dev)
            &&& p.end is Ok ==> card_after(p.ops, at.dev) == at.primary
        }),
{
    match (w.kda, w.mla) {
        (Some(kda), _) => {
            lemma_kda_half_local(m, rt, at, kda, state);
        },
        (None, Some(mla)) => {
            lemma_mla_half_local(m, rt, at, mla, pos, ctx);
        },
        _ => {
            lemma_stays_local(Seq::<Op>::empty(), bailing_home(m, rt.primary), at.dev);
        },
    }
}

proof fn lemma_reset_local(m: Model, rt: BailingRt, n: int, start: i32)
    requires
        made_for(m, rt),
        0 <= n <= rt.states@.len(),
    ensures
        local(reset_states(rt.states@, n), bailing_home(m, rt.primary), start),
    decreases n,
{
    let home = bailing_home(m, rt.primary);
    if n > 0 {
        lemma_reset_local(m, rt, n - 1, start);
        let prev = reset_states(rt.states@, n - 1);
        let from = card_after(prev, start);
        if let Some(k) = rt.states@[n - 1] {
            let il = (n - 1) as usize;
            let to = seq![Op::SetDevice(k.dev)];
            lemma_back(home, from, k.dev);
            let z = zero_kda(il, k);
            assert(op_on(z[0], home, k.dev));
            assert(op_on(z[1], home, k.dev));
            assert(op_on(z[2], home, k.dev));
            assert(op_on(z[3], home, k.dev));
            assert(stays(z, home, k.dev));
            lemma_stays_local(z, home, k.dev);
            lemma_local_add(to, z, home, from);
            lemma_local_add(prev, to + z, home, start);
        } else {
            let none = Seq::<Op>::empty();
            lemma_stays_local(none, home, from);
            lemma_local_add(prev, none, home, start);
        }
    } else {
        lemma_stays_local(Seq::<Op>::empty(), home, start);
    }
}

proof fn lemma_layers_local(m: Model, rt: BailingRt, n: int, pos: u32, ctx: u32)
    ensures
        ({
            let p = m.bailing_layers(rt, n, pos, ctx);
            &&& local(p.ops, bailing_home(m, rt.primary), rt.primary)
            &&& p.end is Ok ==> card_after(p.ops, rt.primary) == rt.primary
        }),
    decreases n,
{
    let home = bailing_home(m, rt.primary);
    if n > 0 {
        lemma_layers_local(m, rt, n - 1, pos, ctx);
        let il = (n - 1) as usize;
        layer_runs_on_its_cards(m, rt, il, pos, ctx);
        lemma_local_and(
            m.bailing_layers(rt, n - 1, pos, ctx),
            m.bailing_layer(rt, il, pos, ctx),
            home,
            rt.primary,
        );
    } else {
        lemma_stays_local(Seq::<Op>::empty(), home, rt.primary);
    }
}

proof fn lemma_tokens_local(m: Model, rt: BailingRt, tokens: Seq<u32>, n: int, pos0: u32, ctx: u32)
    ensures
        ({
            let p = m.bailing_tokens(rt, tokens, n, pos0, ctx);
            &&& local(p.ops, bailing_home(m, rt.primary), rt.primary)
            &&& p.end is Ok ==> card_after(p.ops, rt.primary) == rt.primary
        }),
    decreases n,
{
    let home = bailing_home(m, rt.primary);
    let prim = rt.primary;
    if n > 0 {
        lemma_tokens_local(m, rt, tokens, n - 1, pos0, ctx);
        let pos = (pos0 + n - 1) as u32;
        let a = Plan::of(
            seq![
                Op::WriteToken(tokens[n - 1]),
                Op::Embed {
                    out: Buf::State(St::Cur),
                    table: Buf::Global(Gw::TokenEmbd),
                    n_embd: m.shape.n_embd,
                    n_vocab: m.shape.n_vocab,
                    t: 1,
                },
            ],
        );
        assert(op_on(a.ops[0], home, prim));
        assert(op_on(a.ops[1], home, prim));
        assert(stays(a.ops, home, prim));
        lemma_stays_local(a.ops, home, prim);
        let b = m.bailing_layers(rt, m.shape.n_exec_layer as int, pos, ctx);
        lemma_layers_local(m, rt, m.shape.n_exec_layer as int, pos, ctx);
        lemma_local_and(a, b, home, prim);
        let c = Plan::of(seq![Op::SetDevice(prim)]);
        lemma_back(home, prim, prim);
        lemma_local_and(a.and(b), c, home, prim);
        lemma_local_and(
            m.bailing_tokens(rt, tokens, n - 1, pos0, ctx),
            m.bailing_token(rt, tokens[n - 1], pos, ctx),
            home,
            prim,
        );
    } else {
        lemma_stays_local(Seq::<Op>::empty(), home, prim);
    }
}

proof fn lemma_tail_stays(m: Model, rt: BailingRt, rows: u32)
    ensures
        stays(m.bailing_tail(rows).ops, bailing_home(m, rt.primary), rt.primary),
{
    let home = bailing_home(m, rt.primary);
    let ops = m.bailing_tail(rows).ops;
    assert forall|i: int| 0 <= i < ops.len() implies !(#[trigger] ops[i] is SetDevice) && op_on(
        ops[i],
        home,
        rt.primary,
    ) by {}
}

/// Whatever card is current when a batch starts, every kernel of it runs on the
/// card of its buffers, and a batch that ends well leaves the primary card
/// current.
pub proof fn pass_runs_on_its_cards(
    m: Model,
    rt: BailingRt,
    tokens: Seq<u32>,
    pos0: u32,
    rows: u32,
    ctx: u32,
    current: i32,
)
    requires
        made_for(m, rt),
    ensures
        ({
            let p = m.bailing_pass(rt, tokens, pos0, rows, ctx, current);
            &&& local(p.ops, bailing_home(m, rt.primary), current)
            &&& p.end is Ok ==> card_after(p.ops, current) == rt.primary
        }),
{
    let home = bailing_home(m, rt.primary);
    let prim = rt.primary;
    let r = reset_states(rt.states@, rt.states@.len() as int);
    lemma_reset_local(m, rt, rt.states@.len() as int, current);
    let back = seq![Op::SetDevice(current)];
    lemma_back(home, card_after(r, current), current);
    lemma_local_add(r, back, home, current);
    let none = Seq::<Op>::empty();
    lemma_stays_local(none, home, current);
    let first = ops_if(pos0 == 0, reset_all(rt.states@, current));
    assert(local(first, home, current));
    let to = seq![Op::SetDevice(prim)];
    lemma_back(home, card_after(first, current), prim);
    lemma_local_add(first, to, home, current);
    let a = Plan::of(first + to);
    let b = m.bailing_tokens(rt, tokens, tokens.len() as int, pos0, ctx);
    lemma_tokens_local(m, rt, tokens, tokens.len() as int, pos0, ctx);
    lemma_local_and(a, b, home, current);
    let c = m.bailing_tail(rows);
    lemma_tail_stays(m, rt, rows);
    lemma_stays_local(c.ops, home, prim);
    lemma_local_and(a.and(b), c, home, current);
}

} // verus!
