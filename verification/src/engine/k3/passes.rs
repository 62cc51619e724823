//! What holds of a whole K3 batch, and of the runtime that it runs on.

use crate::engine::access::{all_touch, lemma_all_touch_add, lemma_f32s, touches};
use crate::engine::blocks::{
    alloc_kda, last_row_head, lemma_and_associates, reset_all, reset_states, zero_kda,
};
use crate::engine::error::EngineError;
use crate::engine::k3::{
    bank_rows, banked, k3_primary_ops, lemma_banked_small, scratch_all, scratch_bytes, scratch_list,
    scratch_ops, K3Rt,
};
use crate::engine::k3::blocks::{attn_res, layer};
use crate::engine::k3::laws::{
    is_mla, k3_room, k3_sizes, layer_stays_in_bounds, lemma_and_within, mla_sizes,
};
use crate::engine::ops::{ops_if, Buf, Gw, K3Buf, KdaBuf, Op, Plan, Sc, St};
use crate::engine::room::{allocates, within};
use crate::engine::shape::{f32_bytes, is_card_list, Model, Shape};
use vstd::prelude::*;

verus! {

/// The runtime is the one made for the model on this primary card.
pub open spec fn made_for(m: Model, rt: K3Rt) -> bool {
    &&& m.shape.n_exec_layer <= m.layers@.len()
    &&& rt.states@ == Seq::new(
        m.shape.n_exec_layer as nat,
        |il: int| m.k3_state(il, rt.primary),
    )
    &&& is_card_list(m.attn_layer_dev@, rt.primary, rt.scratch@)
}

/// The latent-attention layers fit the scratch.
pub open spec fn mla_layers_fit(m: Model) -> bool {
    forall|il: int|
        0 <= il < m.shape.n_exec_layer && is_mla(#[trigger] m.layers@[il]) ==> mla_sizes(m.shape)
}

proof fn lemma_reset_within(m: Model, rt: K3Rt, ctx: u32, n: int)
    requires
        made_for(m, rt),
        0 <= n <= rt.states@.len(),
    ensures
        all_touch(reset_states(rt.states@, n), within(k3_room(rt, m.shape, ctx))),
    decreases n,
{
    let p = within(k3_room(rt, m.shape, ctx));
    if n > 0 {
        lemma_reset_within(m, rt, ctx, n - 1);
        if let Some(k) = rt.states@[n - 1] {
            let il = (n - 1) as usize;
            let one = seq![Op::SetDevice(k.dev)];
            let z = zero_kda(il, k);
            assert(touches(one[0], p));
            assert(all_touch(one, p));
            assert(touches(z[0], p));
            assert(touches(z[1], p));
            assert(touches(z[2], p));
            assert(touches(z[3], p));
            assert(all_touch(z, p));
            lemma_all_touch_add(one, z, p);
            lemma_all_touch_add(reset_states(rt.states@, n - 1), one + z, p);
        } else {
            let none = Seq::<Op>::empty();
            assert(all_touch(none, p));
            lemma_all_touch_add(reset_states(rt.states@, n - 1), none, p);
        }
    }
}

proof fn lemma_layers_within(m: Model, rt: K3Rt, pos: u32, ctx: u32, n: int)
    requires
        made_for(m, rt),
        k3_sizes(m.shape),
        mla_layers_fit(m),
        0 <= n <= m.shape.n_exec_layer,
        pos < ctx,
    ensures
        all_touch(m.k3_layers(rt, n, pos, ctx).ops, within(k3_room(rt, m.shape, ctx))),
    decreases n,
{
    let p = within(k3_room(rt, m.shape, ctx));
    if n > 0 {
        lemma_layers_within(m, rt, pos, ctx, n - 1);
        let il = (n - 1) as usize;
        layer_stays_in_bounds(m, rt, il, pos, ctx);
        lemma_and_within(
            m.k3_layers(rt, n - 1, pos, ctx),
            m.k3_layer(rt, il, banked(m.shape, n - 1) as u32, pos, ctx),
            p,
        );
    }
}

proof fn lemma_tokens_within(m: Model, rt: K3Rt, tokens: Seq<u32>, pos0: u32, ctx: u32, n: int)
    requires
        made_for(m, rt),
        k3_sizes(m.shape),
        mla_layers_fit(m),
        0 <= n <= tokens.len(),
        pos0 + tokens.len() <= ctx,
    ensures
        all_touch(m.k3_tokens(rt, tokens, n, pos0, ctx).ops, within(k3_room(rt, m.shape, ctx))),
    decreases n,
{
    let p = within(k3_room(rt, m.shape, ctx));
    if n > 0 {
        lemma_tokens_within(m, rt, tokens, pos0, ctx, n - 1);
        let pos = (pos0 + n - 1) as u32;
        let a = Plan::of(
            seq![
                Op::WriteToken(tokens[n - 1]),
                Op::Embed {
                    out: Buf::State(St::Cur),
                    table: Buf::Global(Gw::TokenEmbd),
                    n_embd: m.shape.n_embd,
                    n_vocab: m.shape.n_vocab,
                    t: 1,
                },
            ],
        );
        assert(touches(a.ops[0], p));
        assert(touches(a.ops[1], p));
        assert(all_touch(a.ops, p));
        let b = m.k3_layers(rt, m.shape.n_exec_layer as int, pos, ctx);
        lemma_layers_within(m, rt, pos, ctx, m.shape.n_exec_layer as int);
        lemma_and_within(a, b, p);
        let c = Plan::of(seq![Op::SetDevice(rt.primary)]);
        assert(touches(c.ops[0], p));
        assert(all_touch(c.ops, p));
        lemma_and_within(a.and(b), c, p);
        lemma_and_within(
            m.k3_tokens(rt, tokens, n - 1, pos0, ctx),
            m.k3_token(rt, tokens[n - 1], pos, ctx),
            p,
        );
    }
}

proof fn lemma_tail_within(m: Model, rt: K3Rt, rows: u32, ctx: u32)
    requires
        k3_sizes(m.shape),
    ensures
        all_touch(m.k3_tail(rows).ops, within(k3_room(rt, m.shape, ctx))),
{
    let s = m.shape;
    let p = within(k3_room(rt, s, ctx));
    let head = last_row_head(s);
    assert(touches(head[0], p));
    assert(touches(head[1], p));
    assert(touches(head[2], p));
    assert(touches(head[3], p));
    assert(all_touch(head, p));
    if s.attn_res_block > 0 {
        let n = banked(s, s.n_exec_layer as int) as u32;
        lemma_banked_small(s, s.n_exec_layer as int);
        vstd::arithmetic::div_mod::lemma_div_pos_is_pos(
            s.n_exec_layer + s.attn_res_block - 1,
            s.attn_res_block as int,
        );
        assert(n * s.n_embd <= bank_rows(s) * s.n_embd) by (nonlinear_arith)
            requires
                n <= bank_rows(s),
                0 <= s.n_embd,
        ;
        lemma_f32s(n, s.n_embd as int);
        let mix = seq![
            attn_res(s, Buf::State(St::Cur), Buf::Global(Gw::OutputResScore), n),
            Op::CopyD2d {
                dst: Buf::State(St::Cur),
                dst_off: 0,
                src: Buf::K3(K3Buf::Mixed),
                src_off: 0,
                bytes: f32_bytes(s.n_embd),
            },
        ];
        assert(touches(mix[0], p));
        assert(touches(mix[1], p));
        assert(all_touch(mix, p));
        lemma_all_touch_add(mix, head, p);
        let none = Seq::<Op>::empty();
        assert(mix + none =~= mix);
    } else {
        let none = Seq::<Op>::empty();
        assert(none + head =~= head);
        assert(none + none =~= none);
    }
}

/// Everything that a batch runs stays inside the buffers of the runtime made for
/// the model.
pub proof fn pass_stays_in_bounds(
    m: Model,
    rt: K3Rt,
    tokens: Seq<u32>,
    pos0: u32,
    rows: u32,
    ctx: u32,
    current: i32,
)
    requires
        made_for(m, rt),
        k3_sizes(m.shape),
        mla_layers_fit(m),
        pos0 + tokens.len() <= ctx,
    ensures
        all_touch(
            m.k3_pass(rt, tokens, pos0, rows, ctx, current).ops,
            within(k3_room(rt, m.shape, ctx)),
        ),
{
    let p = within(k3_room(rt, m.shape, ctx));
    let r = reset_states(rt.states@, rt.states@.len() as int);
    lemma_reset_within(m, rt, ctx, rt.states@.len() as int);
    let back = seq![Op::SetDevice(current)];
    assert(touches(back[0], p));
    assert(all_touch(back, p));
    lemma_all_touch_add(r, back, p);
    let first = ops_if(pos0 == 0, reset_all(rt.states@, current));
    assert(all_touch(first, p));
    let prim = seq![Op::SetDevice(rt.primary)];
    assert(touches(prim[0], p));
    assert(all_touch(prim, p));
    lemma_all_touch_add(first, prim, p);
    let a = Plan::of(first + prim);
    let b = m.k3_tokens(rt, tokens, tokens.len() as int, pos0, ctx);
    lemma_tokens_within(m, rt, tokens, pos0, ctx, tokens.len() as int);
    lemma_and_within(a, b, p);
    let c = m.k3_tail(rows);
    lemma_tail_within(m, rt, rows, ctx);
    lemma_and_within(a.and(b), c, p);
}

/// With the runtime made for the model no layer misses its scratch or its
/// recurrent state.
pub proof fn nothing_is_missing(m: Model, rt: K3Rt, il: usize, n_ckpt: u32, pos: u32, ctx: u32)
    requires
        made_for(m, rt),
        il < m.shape.n_exec_layer,
    ensures
        m.k3_layer(rt, il, n_ckpt, pos, ctx).end matches Err(e) ==> e != EngineError::K3NoScratch
            && e != EngineError::K3NoOwnerScratch && e != EngineError::K3KdaStateMissing,
{
    reveal(layer);
    let dev = m.attn_dev(il, rt.primary);
    if il < m.attn_layer_dev@.len() {
        assert(m.attn_layer_dev@[il as int] == dev);
        assert(m.attn_layer_dev@.contains(dev));
    }
    assert(rt.scratch@.contains(dev));
    assert(rt.scratch@.contains(rt.primary));
}

proof fn lemma_scratch_list_whole(x: Sc)
    ensures
        scratch_list().contains(x),
{
    let l = scratch_list();
    match x {
        Sc::NormedA => assert(l[0] == x),
        Sc::AttnOutA => assert(l[1] == x),
        Sc::FfnNormedA => assert(l[2] == x),
        Sc::ShexpOut => assert(l[3] == x),
        Sc::XqFfn => assert(l[4] == x),
        Sc::XqMid => assert(l[5] == x),
        Sc::GateSh => assert(l[6] == x),
        Sc::UpSh => assert(l[7] == x),
        Sc::MidSh => assert(l[8] == x),
        Sc::Xq => assert(l[9] == x),
        Sc::Q => assert(l[10] == x),
        Sc::K => assert(l[11] == x),
        Sc::V => assert(l[12] == x),
        Sc::Cq => assert(l[13] == x),
        Sc::Ck => assert(l[14] == x),
        Sc::Cv => assert(l[15] == x),
        Sc::G => assert(l[16] == x),
        Sc::Beta => assert(l[17] == x),
        Sc::Fa => assert(l[18] == x),
        Sc::O => assert(l[19] == x),
        Sc::Gate => assert(l[20] == x),
        Sc::QRank => assert(l[21] == x),
        Sc::QRankNorm => assert(l[22] == x),
        Sc::Mq => assert(l[23] == x),
        Sc::KvRaw => assert(l[24] == x),
        Sc::KvNorm => assert(l[25] == x),
        Sc::QkLow => assert(l[26] == x),
        Sc::Heads => assert(l[27] == x),
        Sc::Selected => assert(l[28] == x),
    }
}

proof fn lemma_scratch_has(s: Shape, cards: Seq<i32>, n: int, ctx: u32, k: int, x: Sc)
    requires
        0 <= k < n <= cards.len(),
    ensures
        scratch_all(s, cards, n, ctx).contains(
            Op::Alloc { buf: Buf::Scratch(cards[k], x), bytes: scratch_bytes(s, ctx, x) },
        ),
    decreases n,
{
    let op = Op::Alloc { buf: Buf::Scratch(cards[k], x), bytes: scratch_bytes(s, ctx, x) };
    let prev = scratch_all(s, cards, n - 1, ctx);
    let mine = scratch_ops(s, cards[n - 1], ctx);
    if k == n - 1 {
        lemma_scratch_list_whole(x);
        let j = choose|j: int| 0 <= j < scratch_list().len() && scratch_list()[j] == x;
        assert(mine[j + 1] == op);
        assert((prev + mine)[prev.len() + j + 1] == op);
    } else {
        lemma_scratch_has(s, cards, n - 1, ctx, k, x);
        let j = choose|j: int| 0 <= j < prev.len() && prev[j] == op;
        assert((prev + mine)[j] == op);
    }
}

proof fn lemma_states_has(m: Model, primary: i32, n: int, il: int, x: KdaBuf)
    requires
        0 <= il < n <= m.shape.n_exec_layer,
        m.k3_state(il, primary) is Some,
    ensures
        m.k3_alloc_states(n, primary).contains(
            Op::Alloc {
                buf: Buf::Kda(il as usize, x),
                bytes: if x == KdaBuf::S {
                    m.shape.kda_state_bytes()
                } else {
                    m.shape.kda_conv_bytes()
                },
            },
        ),
    decreases n,
{
    let op = Op::Alloc {
        buf: Buf::Kda(il as usize, x),
        bytes: if x == KdaBuf::S {
            m.shape.kda_state_bytes()
        } else {
            m.shape.kda_conv_bytes()
        },
    };
    let prev = m.k3_alloc_states(n - 1, primary);
    let now = m.k3_alloc_states(n, primary);
    if il == n - 1 {
        let k = m.k3_state(il, primary)->Some_0;
        let mine = alloc_kda(il as usize, k);
        let j: int = match x {
            KdaBuf::S => 1,
            KdaBuf::ConvQ => 2,
            KdaBuf::ConvK => 3,
            KdaBuf::ConvV => 4,
        };
        assert(mine[j] == op);
        assert(now == prev + mine);
        assert(now[prev.len() + j] == op);
    } else {
        lemma_states_has(m, primary, n - 1, il, x);
        let j = choose|j: int| 0 <= j < prev.len() && prev[j] == op;
        assert(now[j] == op);
    }
}

/// Making the runtime allocates every buffer that it is later said to have, with
/// all its room.
pub proof fn every_buffer_is_allocated(m: Model, rt: K3Rt, ctx: u32, b: Buf)
    requires
        made_for(m, rt),
        k3_room(rt, m.shape, ctx)(b) matches Some(c) && c >= 0,
    ensures
        allocates(
            m.k3_alloc_states(m.shape.n_exec_layer as int, rt.primary) + scratch_all(
                m.shape,
                rt.scratch@,
                rt.scratch@.len() as int,
                ctx,
            ) + k3_primary_ops(m.shape, rt.primary),
            k3_room(rt, m.shape, ctx),
            b,
        ),
{
    let s = m.shape;
    let c = k3_room(rt, s, ctx)(b)->Some_0;
    let op = Op::Alloc { buf: b, bytes: c as u64 };
    let one = m.k3_alloc_states(s.n_exec_layer as int, rt.primary);
    let two = scratch_all(s, rt.scratch@, rt.scratch@.len() as int, ctx);
    let three = k3_primary_ops(s, rt.primary);
    let all = one + two + three;
    match b {
        Buf::Scratch(d, x) => {
            let k = choose|k: int| 0 <= k < rt.scratch@.len() && rt.scratch@[k] == d;
            lemma_scratch_has(s, rt.scratch@, rt.scratch@.len() as int, ctx, k, x);
            let j = choose|j: int| 0 <= j < two.len() && two[j] == op;
            assert(all[one.len() + j] == op);
        },
        Buf::Kda(il, x) => {
            lemma_states_has(m, rt.primary, s.n_exec_layer as int, il as int, x);
            let j = choose|j: int| 0 <= j < one.len() && one[j] == op;
            assert(all[j] == op);
        },
        Buf::K3(x) => {
            let j: int = match x {
                K3Buf::Ckpt => 1,
                K3Buf::LatIn => 2,
                K3Buf::LatOut => 3,
                K3Buf::Mixed => 4,
                K3Buf::RoutedOut => 5,
            };
            assert(three[j] == op);
            assert(all[one.len() + two.len() + j] == op);
        },
        _ => {},
    }
}

proof fn lemma_tokens_cut(
    m: Model,
    rt: K3Rt,
    a: Seq<u32>,
    b: Seq<u32>,
    k: int,
    pos0: u32,
    ctx: u32,
)
    requires
        0 <= k <= b.len(),
        pos0 + a.len() + b.len() <= u32::MAX,
    ensures
        m.k3_tokens(rt, a + b, a.len() + k, pos0, ctx) == m.k3_tokens(
            rt,
            a,
            a.len() as int,
            pos0,
            ctx,
        ).and(m.k3_tokens(rt, b, k, (pos0 + a.len()) as u32, ctx)),
    decreases k,
{
    let first = m.k3_tokens(rt, a, a.len() as int, pos0, ctx);
    let at = (pos0 + a.len()) as u32;
    if k > 0 {
        lemma_tokens_cut(m, rt, a, b, k - 1, pos0, ctx);
        let prev = m.k3_tokens(rt, b, k - 1, at, ctx);
        let step = m.k3_token(rt, b[k - 1], (at + k - 1) as u32, ctx);
        assert((a + b)[a.len() + k - 1] == b[k - 1]);
        assert(m.k3_tokens(rt, a + b, a.len() + k, pos0, ctx) == first.and(prev).and(step));
        lemma_and_associates(first, prev, step);
    } else {
        lemma_tokens_prefix(m, rt, a, b, a.len() as int, pos0, ctx);
        let none = m.k3_tokens(rt, b, 0, at, ctx);
        assert(first.ops + none.ops =~= first.ops);
        if first.end is Ok {
            assert(first.end->Ok_0 == ());
        }
    }
}

proof fn lemma_tokens_prefix(
    m: Model,
    rt: K3Rt,
    a: Seq<u32>,
    b: Seq<u32>,
    n: int,
    pos0: u32,
    ctx: u32,
)
    requires
        0 <= n <= a.len(),
    ensures
        m.k3_tokens(rt, a + b, n, pos0, ctx) == m.k3_tokens(rt, a, n, pos0, ctx),
    decreases n,
{
    if n > 0 {
        lemma_tokens_prefix(m, rt, a, b, n - 1, pos0, ctx);
        assert((a + b)[n - 1] == a[n - 1]);
    }
}

/// A prompt may be cut: where its first part runs well, the two parts in two calls
/// run what the whole runs in one, but for the primary card being made current
/// once more at the cut.
pub proof fn a_prompt_may_be_cut(
    m: Model,
    rt: K3Rt,
    a: Seq<u32>,
    b: Seq<u32>,
    pos0: u32,
    rows: u32,
    ctx: u32,
    current: i32,
)
    requires
        0 < a.len(),
        pos0 + a.len() + b.len() <= u32::MAX,
        m.k3_pass(rt, a, pos0, 0, ctx, current).end is Ok,
    ensures
        ({
            let whole = m.k3_pass(rt, a + b, pos0, rows, ctx, current);
            let one = m.k3_pass(rt, a, pos0, 0, ctx, current);
            let two = m.k3_pass(rt, b, (pos0 + a.len()) as u32, rows, ctx, rt.primary);
            &&& whole.ops == one.ops + two.ops.skip(1)
            &&& two.ops[0] == Op::SetDevice(rt.primary)
            &&& whole.end == two.end
        }),
{
    let whole = m.k3_pass(rt, a + b, pos0, rows, ctx, current);
    let one = m.k3_pass(rt, a, pos0, 0, ctx, current);
    let at = (pos0 + a.len()) as u32;
    let two = m.k3_pass(rt, b, at, rows, ctx, rt.primary);
    lemma_tokens_cut(m, rt, a, b, b.len() as int, pos0, ctx);
    let start = Plan::of(
        ops_if(pos0 == 0, reset_all(rt.states@, current)) + seq![Op::SetDevice(rt.primary)],
    );
    let ta = m.k3_tokens(rt, a, a.len() as int, pos0, ctx);
    let tb = m.k3_tokens(rt, b, b.len() as int, at, ctx);
    let tail = m.k3_tail(rows);
    assert((a + b).len() == a.len() + b.len());
    assert(whole == start.and(ta.and(tb)).and(tail));
    assert(one.ops =~= start.ops + ta.ops);
    assert(two.ops =~= seq![Op::SetDevice(rt.primary)] + tb.and(tail).ops);
    assert(two.ops.skip(1) =~= tb.and(tail).ops);
    assert(whole.ops =~= start.ops + ta.ops + tb.and(tail).ops);
}

} // verus!
