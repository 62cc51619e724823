//! The pieces that families share stay inside their buffers and on their card.

use crate::engine::access::{all_touch, lemma_all_touch_add, touches};
use crate::engine::blocks::{kda_recurrence, matw, mla_core, project_out, quant_for, Place};
use crate::engine::ops::{Buf, KdaBuf, Op, Rope, Sc, St, Wt};
use crate::engine::shape::{f32_bytes, q8k_bytes, MatKind, Shape};
use vstd::prelude::*;

verus! {

/// The bytes touched in a buffer end inside it, where its room is known.  A buffer
/// that does not exist has less than no room, so that nothing fits.
pub open spec fn within(room: spec_fn(Buf) -> Option<int>) -> spec_fn(Buf, int) -> bool {
    |b: Buf, n: int| room(b) matches Some(c) ==> n <= c
}

/// The room that the mixers of a layer rely on.
pub open spec fn mixer_room(
    room: spec_fn(Buf) -> Option<int>,
    s: Shape,
    at: Place,
    ctx: u32,
) -> bool {
    let d = 4 * (s.n_head * s.kda_head_dim);
    &&& room(at.sc(Sc::NormedA)) == Some(4 * s.n_embd)
    &&& room(at.sc(Sc::AttnOutA)) == Some(4 * s.n_embd)
    &&& room(at.sc(Sc::Q)) == Some(d)
    &&& room(at.sc(Sc::K)) == Some(d)
    &&& room(at.sc(Sc::V)) == Some(d)
    &&& room(at.sc(Sc::Cq)) == Some(d)
    &&& room(at.sc(Sc::Ck)) == Some(d)
    &&& room(at.sc(Sc::Cv)) == Some(d)
    &&& room(at.sc(Sc::G)) == Some(d)
    &&& room(at.sc(Sc::O)) == Some(d)
    &&& room(at.sc(Sc::Gate)) == Some(d)
    &&& room(at.sc(Sc::Beta)) == Some(4 * s.n_head)
    &&& room(at.sc(Sc::Mq)) == Some(4 * (s.n_head * s.qk_dim))
    &&& room(at.sc(Sc::KvRaw)) == Some(4 * (s.n_kv_lora + s.qk_rope))
    &&& room(at.sc(Sc::KvNorm)) == Some(4 * s.n_kv_lora)
    &&& room(at.sc(Sc::QkLow)) == Some(4 * (s.n_head * s.n_kv_lora))
    &&& room(at.sc(Sc::Heads)) == Some(4 * (s.n_head * s.value_mla))
    &&& room(at.sc(Sc::Selected)) == Some(4 * ctx)
    &&& room(at.sc(Sc::Xq)) is Some
    &&& q8k_bytes(s.n_embd) <= room(at.sc(Sc::Xq))->Some_0
    &&& q8k_bytes(s.d_inner()) <= room(at.sc(Sc::Xq))->Some_0
    &&& q8k_bytes(s.mla_out()) <= room(at.sc(Sc::Xq))->Some_0
    &&& forall|b: St| (#[trigger] room(Buf::State(b))) is None
    &&& forall|il: usize, w: Wt| (#[trigger] room(Buf::Layer(il, w))) is None
    &&& forall|il: usize| (#[trigger] room(Buf::KCache(il))) is None
    &&& forall|il: usize| (#[trigger] room(Buf::VCache(il))) is None
}

/// The room of a layer's recurrent state.
pub open spec fn kda_room(room: spec_fn(Buf) -> Option<int>, s: Shape, il: usize) -> bool {
    let conv = (s.ssm_conv_k - 1) * (s.n_head * s.kda_head_dim) * 4;
    &&& room(Buf::Kda(il, KdaBuf::S)) == Some(s.n_head * s.kda_head_dim * s.kda_head_dim * 4)
    &&& room(Buf::Kda(il, KdaBuf::ConvQ)) == Some(conv)
    &&& room(Buf::Kda(il, KdaBuf::ConvK)) == Some(conv)
    &&& room(Buf::Kda(il, KdaBuf::ConvV)) == Some(conv)
}

/// A list of operations allocates a buffer with all the room it has.
pub open spec fn allocates(ops: Seq<Op>, room: spec_fn(Buf) -> Option<int>, b: Buf) -> bool {
    room(b) matches Some(c) && exists|i: int|
        0 <= i < ops.len() && #[trigger] ops[i] == (Op::Alloc { buf: b, bytes: c as u64 })
}

pub proof fn lemma_q8k_grows(a: u32, b: u32)
    requires
        a <= b,
    ensures
        q8k_bytes(a) <= q8k_bytes(b),
{
}

pub proof fn lemma_quant_within(
    room: spec_fn(Buf) -> Option<int>,
    kind: MatKind,
    out: Buf,
    x: Buf,
    n: u32,
)
    requires
        room(out) matches Some(c) ==> q8k_bytes(n) <= c,
        room(x) matches Some(c) ==> 4 * n <= c,
    ensures
        all_touch(quant_for(kind, out, x, n), within(room)),
{
}

pub proof fn lemma_recurrence_within(
    room: spec_fn(Buf) -> Option<int>,
    s: Shape,
    at: Place,
    ctx: u32,
)
    requires
        s.kda_states_fit(),
        mixer_room(room, s, at, ctx),
        kda_room(room, s, at.il),
    ensures
        all_touch(kda_recurrence(s, at), within(room)),
{
    let p = within(room);
    let ops = kda_recurrence(s, at);
    assert(ops.len() == 7);
    assert(touches(ops[0], p));
    assert(touches(ops[1], p));
    assert(touches(ops[2], p));
    assert(touches(ops[3], p));
    assert(touches(ops[4], p));
    assert(touches(ops[5], p));
    assert(touches(ops[6], p));
}

pub proof fn lemma_mla_core_within(
    room: spec_fn(Buf) -> Option<int>,
    s: Shape,
    at: Place,
    pos: u32,
    ctx: u32,
    rope: Rope,
)
    requires
        s.mixers_fit(),
        mixer_room(room, s, at, ctx),
        s.qk_nope + s.qk_rope <= s.qk_dim,
        pos < ctx,
    ensures
        all_touch(mla_core(s, at, pos, ctx, rope), within(room)),
{
    let p = within(room);
    let ops = mla_core(s, at, pos, ctx, rope);
    assert(s.n_head * (s.qk_nope + s.qk_rope) <= s.n_head * s.qk_dim) by (nonlinear_arith)
        requires
            s.qk_nope + s.qk_rope <= s.qk_dim,
            0 <= s.n_head,
    ;
    assert(ops.len() == 6);
    assert(touches(ops[0], p));
    assert(touches(ops[1], p));
    assert(touches(ops[2], p));
    let visible = (pos + 1) as u32;
    assert(visible <= ctx);
    assert(touches(ops[3], p));
    assert(touches(ops[4], p));
    assert(touches(ops[5], p));
}

pub proof fn lemma_project_out_within(
    room: spec_fn(Buf) -> Option<int>,
    s: Shape,
    at: Place,
    ctx: u32,
    kind: MatKind,
    w: Wt,
    x: Sc,
    in_dim: u32,
)
    requires
        s.mixers_fit(),
        mixer_room(room, s, at, ctx),
        room(at.sc(x)) == Some(4 * in_dim),
        q8k_bytes(in_dim) <= room(at.sc(Sc::Xq))->Some_0,
    ensures
        all_touch(project_out(s, at, kind, w, x, in_dim), within(room)),
{
    let p = within(room);
    lemma_quant_within(room, kind, at.sc(Sc::Xq), at.sc(x), in_dim);
    let tail = if at.dev != at.primary {
        let head = seq![
            matw(
                at.sc(Sc::AttnOutA),
                at.wt(w),
                kind,
                at.sc(x),
                at.sc(Sc::Xq),
                in_dim,
                s.n_embd,
                1,
            ),
        ];
        let mid = seq![Op::Sync];
        let end = seq![
            Op::CopyAcross {
                dst: Buf::State(St::AttnOut),
                src: at.sc(Sc::AttnOutA),
                bytes: f32_bytes(s.n_embd),
            },
            Op::SetDevice(at.primary),
        ];
        assert(touches(head[0], p));
        assert(all_touch(head, p));
        assert(all_touch(mid, p));
        assert(touches(end[0], p));
        assert(all_touch(end, p));
        lemma_all_touch_add(head, mid, p);
        lemma_all_touch_add(head + mid, end, p);
        let all = project_out(s, at, kind, w, x, in_dim).skip(
            quant_for(kind, at.sc(Sc::Xq), at.sc(x), in_dim).len() as int,
        );
        assert(all =~= head + mid + end);
        all
    } else {
        let one = seq![
            matw(
                Buf::State(St::AttnOut),
                at.wt(w),
                kind,
                at.sc(x),
                at.sc(Sc::Xq),
                in_dim,
                s.n_embd,
                1,
            ),
        ];
        assert(touches(one[0], p));
        assert(all_touch(one, p));
        one
    };
    lemma_all_touch_add(quant_for(kind, at.sc(Sc::Xq), at.sc(x), in_dim), tail, p);
    assert(project_out(s, at, kind, w, x, in_dim) =~= quant_for(
        kind,
        at.sc(Sc::Xq),
        at.sc(x),
        in_dim,
    ) + tail);
}

} // verus!
