//! On which card the shared pieces run.

use crate::engine::access::{
    card_after, lemma_local_add, lemma_stays_add, lemma_stays_local, local, op_on, stays,
};
use crate::engine::blocks::{kda_recurrence, matw, mla_core, project_out, quant_for, Place};
use crate::engine::ops::{Buf, KdaBuf, Op, Plan, Rope, Sc, St, Wt};
use crate::engine::shape::{f32_bytes, MatKind, Shape};
use vstd::prelude::*;

verus! {

/// The weights of the token mixers.
pub open spec fn is_mixer_weight(w: Wt) -> bool {
    match w {
        Wt::KdaWq | Wt::KdaWk | Wt::KdaWv | Wt::KdaWg | Wt::KdaFa | Wt::KdaFb | Wt::KdaBeta => true,
        Wt::KdaA | Wt::KdaDtBias | Wt::KdaConvQ | Wt::KdaConvK | Wt::KdaConvV => true,
        Wt::KdaNorm | Wt::KdaOut | Wt::MlaQ | Wt::MlaQa | Wt::MlaQaNorm | Wt::MlaQb => true,
        Wt::MlaKvA | Wt::MlaKvANorm | Wt::MlaKb | Wt::MlaVb | Wt::MlaGate | Wt::MlaOut => true,
        _ => false,
    }
}

/// What a layer's mixer works on stands on the layer's card, and the state of the
/// engine on the primary.
pub open spec fn mixer_home(home: spec_fn(Buf) -> i32, at: Place) -> bool {
    &&& forall|b: Sc| #[trigger] home(Buf::Scratch(at.dev, b)) == at.dev
    &&& forall|b: Sc| #[trigger] home(Buf::Scratch(at.primary, b)) == at.primary
    &&& forall|b: KdaBuf| #[trigger] home(Buf::Kda(at.il, b)) == at.dev
    &&& home(Buf::KCache(at.il)) == at.dev
    &&& home(Buf::VCache(at.il)) == at.dev
    &&& forall|w: Wt| is_mixer_weight(w) ==> #[trigger] home(Buf::Layer(at.il, w)) == at.dev
    &&& forall|b: St| #[trigger] home(Buf::State(b)) == at.primary
}

pub proof fn lemma_quant_stays(
    home: spec_fn(Buf) -> i32,
    kind: MatKind,
    out: Buf,
    x: Buf,
    n: u32,
    card: i32,
)
    requires
        home(out) == card,
        home(x) == card,
    ensures
        stays(quant_for(kind, out, x, n), home, card),
{
}

pub proof fn lemma_recurrence_stays(home: spec_fn(Buf) -> i32, s: Shape, at: Place)
    requires
        mixer_home(home, at),
    ensures
        stays(kda_recurrence(s, at), home, at.dev),
{
    let ops = kda_recurrence(s, at);
    assert(op_on(ops[0], home, at.dev));
    assert(op_on(ops[1], home, at.dev));
    assert(op_on(ops[2], home, at.dev));
    assert(op_on(ops[3], home, at.dev));
    assert(op_on(ops[4], home, at.dev));
    assert(op_on(ops[5], home, at.dev));
    assert(op_on(ops[6], home, at.dev));
}

pub proof fn lemma_mla_core_stays(
    home: spec_fn(Buf) -> i32,
    s: Shape,
    at: Place,
    pos: u32,
    ctx: u32,
    rope: Rope,
)
    requires
        mixer_home(home, at),
    ensures
        stays(mla_core(s, at, pos, ctx, rope), home, at.dev),
{
    let ops = mla_core(s, at, pos, ctx, rope);
    assert(op_on(ops[0], home, at.dev));
    assert(op_on(ops[1], home, at.dev));
    assert(op_on(ops[2], home, at.dev));
    assert(op_on(ops[3], home, at.dev));
    assert(op_on(ops[4], home, at.dev));
    assert(op_on(ops[5], home, at.dev));
}

/// The output projection starts on the layer's card and ends on the primary.
pub proof fn lemma_project_out_local(
    home: spec_fn(Buf) -> i32,
    s: Shape,
    at: Place,
    kind: MatKind,
    w: Wt,
    x: Sc,
    in_dim: u32,
)
    requires
        mixer_home(home, at),
        is_mixer_weight(w),
    ensures
        local(project_out(s, at, kind, w, x, in_dim), home, at.dev),
        card_after(project_out(s, at, kind, w, x, in_dim), at.dev) == at.primary,
{
    let q = quant_for(kind, at.sc(Sc::Xq), at.sc(x), in_dim);
    lemma_quant_stays(home, kind, at.sc(Sc::Xq), at.sc(x), in_dim, at.dev);
    let ops = project_out(s, at, kind, w, x, in_dim);
    if at.dev != at.primary {
        let head = seq![
            matw(
                at.sc(Sc::AttnOutA),
                at.wt(w),
                kind,
                at.sc(x),
                at.sc(Sc::Xq),
                in_dim,
                s.n_embd,
                1,
            ),
        ];
        let mid = seq![Op::Sync];
        let across = seq![
            Op::CopyAcross {
                dst: Buf::State(St::AttnOut),
                src: at.sc(Sc::AttnOutA),
                bytes: f32_bytes(s.n_embd),
            },
        ];
        let back = seq![Op::SetDevice(at.primary)];
        assert(op_on(head[0], home, at.dev));
        assert(stays(head, home, at.dev));
        assert(stays(mid, home, at.dev));
        assert(stays(across, home, at.dev));
        lemma_stays_add(q, head, home, at.dev);
        lemma_stays_add(q + head, mid, home, at.dev);
        lemma_stays_add(q + head + mid, across, home, at.dev);
        lemma_stays_local(q + head + mid + across, home, at.dev);
        lemma_back(home, at.dev, at.primary);
        lemma_local_add(q + head + mid + across, back, home, at.dev);
        assert(ops =~= q + head + mid + across + back);
    } else {
        let one = seq![
            matw(
                Buf::State(St::AttnOut),
                at.wt(w),
                kind,
                at.sc(x),
                at.sc(Sc::Xq),
                in_dim,
                s.n_embd,
                1,
            ),
        ];
        assert(op_on(one[0], home, at.dev));
        assert(stays(one, home, at.dev));
        lemma_stays_add(q, one, home, at.dev);
        lemma_stays_local(q + one, home, at.dev);
        assert(ops =~= q + one);
    }
}

/// Making a card current runs anywhere.
pub proof fn lemma_back(home: spec_fn(Buf) -> i32, from: i32, to: i32)
    ensures
        local(seq![Op::SetDevice(to)], home, from),
        card_after(seq![Op::SetDevice(to)], from) == to,
{
    let ops = seq![Op::SetDevice(to)];
    assert(op_on(ops[0], home, from));
}

/// One plan after another, each where its buffers stand.
pub proof fn lemma_local_and(a: Plan, b: Plan, home: spec_fn(Buf) -> i32, start: i32)
    requires
        local(a.ops, home, start),
        a.end is Ok ==> local(b.ops, home, card_after(a.ops, start)),
    ensures
        local(a.and(b).ops, home, start),
        a.end is Ok ==> card_after(a.and(b).ops, start) == card_after(
            b.ops,
            card_after(a.ops, start),
        ),
{
    if a.end is Ok {
        lemma_local_add(a.ops, b.ops, home, start);
    }
}

/// Six plans in a row: the first and the last three on the primary card, the
/// second over to a card, the third there and back.
pub proof fn lemma_there_and_back(
    a: Plan,
    b: Plan,
    c: Plan,
    d: Plan,
    e: Plan,
    f: Plan,
    home: spec_fn(Buf) -> i32,
    prim: i32,
    dev: i32,
)
    requires
        local(a.ops, home, prim),
        card_after(a.ops, prim) == prim,
        local(b.ops, home, prim),
        b.end is Ok ==> card_after(b.ops, prim) == dev,
        local(c.ops, home, dev),
        c.end is Ok ==> card_after(c.ops, dev) == prim,
        local(d.ops, home, prim),
        card_after(d.ops, prim) == prim,
        local(e.ops, home, prim),
        e.end is Ok ==> card_after(e.ops, prim) == prim,
        local(f.ops, home, prim),
        card_after(f.ops, prim) == prim,
    ensures
        ({
            let p = a.and(b).and(c).and(d).and(e).and(f);
            &&& local(p.ops, home, prim)
            &&& p.end is Ok ==> card_after(p.ops, prim) == prim
        }),
{
    lemma_local_and(a, b, home, prim);
    lemma_local_and(a.and(b), c, home, prim);
    lemma_local_and(a.and(b).and(c), d, home, prim);
    lemma_local_and(a.and(b).and(c).and(d), e, home, prim);
    lemma_local_and(a.and(b).and(c).and(d).and(e), f, home, prim);
}

} // verus!
