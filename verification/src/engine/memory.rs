//! What copies and clears do to the contents of buffers.

use crate::engine::blocks::{alloc_kda, reset_states, zero_kda, KdaState};
use crate::engine::ops::{Buf, GdnBuf, KdaBuf, Op, Part, Q38};
use crate::engine::ple::ple_hist_cols;
use crate::engine::qwen38::GdnState;
use crate::engine::qwen38::embed::{ple_conv, ple_fits, ple_roll, wide_bytes};
use crate::engine::qwen38::pass::{reset_gdn, zero_gdn};
use crate::engine::qwen38::runtime::{
    alloc_gdn, restore_buf, restore_gdn, restore_states, save_buf, save_gdn, save_states, saved_of,
    SavedGdn,
};
use crate::engine::shape::{f32_bytes, times, Shape};
use vstd::prelude::*;

verus! {

/// Bytes that are all zero.
pub open spec fn zeros(n: int) -> Seq<u8> {
    Seq::new(n as nat, |i: int| 0u8)
}

/// A sequence with a part of it overwritten.
pub open spec fn overwrite(old: Seq<u8>, at: int, part: Seq<u8>) -> Seq<u8> {
    old.take(at) + part + old.skip(at + part.len())
}

/// A fresh buffer at the place of some bytes.  What it holds is left open: nothing
/// is known of the bytes that were there.
pub open spec fn fresh(there: Seq<u8>, n: int) -> Seq<u8> {
    Seq::new(n as nat, |i: int| there[i])
}

/// The contents of the buffers after an operation that only copies, clears or
/// allocates.
pub open spec fn effect(op: Op, mem: Map<Buf, Seq<u8>>) -> Map<Buf, Seq<u8>> {
    match op {
        Op::Alloc { buf, bytes } => mem.insert(buf, fresh(mem[buf], bytes as int)),
        Op::Zero { buf, bytes } => mem.insert(buf, overwrite(mem[buf], 0, zeros(bytes as int))),
        Op::CopyD2d { dst, dst_off, src, src_off, bytes } => mem.insert(
            dst,
            overwrite(
                mem[dst],
                dst_off as int,
                mem[src].subrange(src_off as int, src_off + bytes),
            ),
        ),
        _ => mem,
    }
}

/// The contents of the buffers after a list of such operations.
pub open spec fn run(ops: Seq<Op>, mem: Map<Buf, Seq<u8>>) -> Map<Buf, Seq<u8>>
    decreases ops.len(),
{
    if ops.len() == 0 {
        mem
    } else {
        effect(ops.last(), run(ops.drop_last(), mem))
    }
}

pub(crate) proof fn lemma_run_add(a: Seq<Op>, b: Seq<Op>, mem: Map<Buf, Seq<u8>>)
    ensures
        run(a + b, mem) == run(b, run(a, mem)),
    decreases b.len(),
{
    if b.len() == 0 {
        assert(a + b =~= a);
    } else {
        lemma_run_add(a, b.drop_last(), mem);
        assert((a + b).drop_last() =~= a + b.drop_last());
        assert((a + b).last() == b.last());
    }
}

pub(crate) proof fn lemma_run_one(op: Op, mem: Map<Buf, Seq<u8>>)
    ensures
        run(seq![op], mem) == effect(op, mem),
{
    let ops = seq![op];
    assert(ops.drop_last() =~= Seq::empty());
    assert(run(ops.drop_last(), mem) == mem);
    assert(ops.last() == op);
}

pub(crate) proof fn lemma_run_first(op: Op, rest: Seq<Op>, mem: Map<Buf, Seq<u8>>)
    ensures
        run(seq![op] + rest, mem) == run(rest, effect(op, mem)),
{
    lemma_run_add(seq![op], rest, mem);
    lemma_run_one(op, mem);
}

proof fn lemma_save_buf(il: usize, b: GdnBuf, bytes: u64, mem: Map<Buf, Seq<u8>>)
    requires
        mem[Buf::Gdn(il, b)].len() == bytes,
    ensures
        run(save_buf(il, b, bytes), mem)[Buf::Saved(il, b)] == mem[Buf::Gdn(il, b)],
        forall|x: Buf|
            x != Buf::Saved(il, b) ==> #[trigger] run(save_buf(il, b, bytes), mem)[x] == mem[x],
{
    let ops = save_buf(il, b, bytes);
    let rest = seq![ops[1]];
    assert(ops =~= seq![ops[0]] + rest);
    lemma_run_first(ops[0], rest, mem);
    let mid = effect(ops[0], mem);
    lemma_run_one(ops[1], mid);
    assert(overwrite(
        mid[Buf::Saved(il, b)],
        0,
        mid[Buf::Gdn(il, b)].subrange(0, 0 + bytes),
    ) =~= mem[Buf::Gdn(il, b)]);
}

/// A buffer of a layer's recurrent state.
pub open spec fn state_buf(states: Seq<Option<GdnState>>, il: int, b: GdnBuf) -> bool {
    0 <= il < states.len() && (states[il] matches Some(g) && (b == GdnBuf::PleHist
        ==> g.ple_hist is Some))
}

/// Its size.
pub open spec fn state_len(g: GdnState, b: GdnBuf) -> u64 {
    match b {
        GdnBuf::S => g.s_bytes,
        GdnBuf::Conv => g.conv_bytes,
        GdnBuf::PleHist => g.ple_hist->Some_0,
    }
}

/// Every buffer of a recurrent state has its size.
pub open spec fn states_hold(states: Seq<Option<GdnState>>, mem: Map<Buf, Seq<u8>>) -> bool {
    forall|il: int, b: GdnBuf|
        state_buf(states, il, b) ==> (#[trigger] mem[Buf::Gdn(il as usize, b)]).len() == state_len(
            states[il]->Some_0,
            b,
        )
}

proof fn lemma_save_gdn(il: usize, g: GdnState, mem: Map<Buf, Seq<u8>>)
    requires
        mem[Buf::Gdn(il, GdnBuf::S)].len() == g.s_bytes,
        mem[Buf::Gdn(il, GdnBuf::Conv)].len() == g.conv_bytes,
        g.ple_hist matches Some(n) ==> mem[Buf::Gdn(il, GdnBuf::PleHist)].len() == n,
    ensures
        ({
            let after = run(save_gdn(il, g), mem);
            &&& after[Buf::Saved(il, GdnBuf::S)] == mem[Buf::Gdn(il, GdnBuf::S)]
            &&& after[Buf::Saved(il, GdnBuf::Conv)] == mem[Buf::Gdn(il, GdnBuf::Conv)]
            &&& g.ple_hist is Some ==> after[Buf::Saved(il, GdnBuf::PleHist)]
                == mem[Buf::Gdn(il, GdnBuf::PleHist)]
            &&& forall|x: Buf|
                !(x matches Buf::Saved(k, _) && k == il) ==> #[trigger] after[x] == mem[x]
        }),
{
    let a = save_buf(il, GdnBuf::S, g.s_bytes);
    let b = save_buf(il, GdnBuf::Conv, g.conv_bytes);
    let to = Op::SetDevice(g.dev);
    let c = match g.ple_hist {
        Some(n) => save_buf(il, GdnBuf::PleHist, n),
        None => Seq::empty(),
    };
    assert(save_gdn(il, g) =~= seq![to] + (a + b + c));
    lemma_run_first(to, a + b + c, mem);
    lemma_save_buf(il, GdnBuf::S, g.s_bytes, mem);
    let m1 = run(a, mem);
    lemma_save_buf(il, GdnBuf::Conv, g.conv_bytes, m1);
    let m2 = run(b, m1);
    lemma_run_add(a, b, mem);
    lemma_run_add(a + b, c, mem);
    if let Some(n) = g.ple_hist {
        lemma_save_buf(il, GdnBuf::PleHist, n, m2);
    }
}

proof fn lemma_save_states(states: Seq<Option<GdnState>>, n: int, mem: Map<Buf, Seq<u8>>)
    requires
        0 <= n <= states.len() <= usize::MAX,
        states_hold(states, mem),
    ensures
        ({
            let after = run(save_states(states, n), mem);
            &&& forall|il: int, b: GdnBuf|
                il < n && #[trigger] state_buf(states, il, b) ==> after[Buf::Saved(
                    il as usize,
                    b,
                )] == mem[Buf::Gdn(il as usize, b)]
            &&& forall|x: Buf| !(x is Saved) ==> #[trigger] after[x] == mem[x]
        }),
    decreases n,
{
    if n > 0 {
        lemma_save_states(states, n - 1, mem);
        let prev = save_states(states, n - 1);
        let mid = run(prev, mem);
        let il = (n - 1) as usize;
        match states[n - 1] {
            Some(g) => {
                assert(state_buf(states, n - 1, GdnBuf::S));
                assert(state_buf(states, n - 1, GdnBuf::Conv));
                assert(mid[Buf::Gdn(il, GdnBuf::S)] == mem[Buf::Gdn(il, GdnBuf::S)]);
                assert(mid[Buf::Gdn(il, GdnBuf::Conv)] == mem[Buf::Gdn(il, GdnBuf::Conv)]);
                if g.ple_hist is Some {
                    assert(state_buf(states, n - 1, GdnBuf::PleHist));
                    assert(mid[Buf::Gdn(il, GdnBuf::PleHist)] == mem[Buf::Gdn(
                        il,
                        GdnBuf::PleHist,
                    )]);
                }
                lemma_save_gdn(il, g, mid);
                lemma_run_add(prev, save_gdn(il, g), mem);
                let after = run(save_gdn(il, g), mid);
                assert forall|k: int, b: GdnBuf| k < n && #[trigger] state_buf(states, k, b) implies after[
                Buf::Saved(k as usize, b)] == mem[Buf::Gdn(k as usize, b)] by {
                    if k == n - 1 {
                        match b {
                            GdnBuf::S => {},
                            GdnBuf::Conv => {},
                            GdnBuf::PleHist => {},
                        }
                    } else {
                        assert(k as usize != il);
                        assert(after[Buf::Saved(k as usize, b)] == mid[Buf::Saved(k as usize, b)]);
                    }
                }
            },
            None => {
                assert(prev + Seq::<Op>::empty() =~= prev);
            },
        }
    }
}

proof fn lemma_restore_buf(il: usize, b: GdnBuf, bytes: u64, mem: Map<Buf, Seq<u8>>)
    requires
        mem[Buf::Saved(il, b)].len() == bytes,
        mem[Buf::Gdn(il, b)].len() == bytes,
    ensures
        effect(restore_buf(il, b, bytes), mem)[Buf::Gdn(il, b)] == mem[Buf::Saved(il, b)],
        forall|x: Buf|
            x != Buf::Gdn(il, b) ==> #[trigger] effect(restore_buf(il, b, bytes), mem)[x]
                == mem[x],
{
    assert(overwrite(
        mem[Buf::Gdn(il, b)],
        0,
        mem[Buf::Saved(il, b)].subrange(0, 0 + bytes),
    ) =~= mem[Buf::Saved(il, b)]);
}

proof fn lemma_restore_gdn(il: usize, g: GdnState, c: SavedGdn, mem: Map<Buf, Seq<u8>>)
    requires
        saved_of(Some(g)) == Some(c),
        mem[Buf::Gdn(il, GdnBuf::S)].len() == g.s_bytes,
        mem[Buf::Saved(il, GdnBuf::S)].len() == g.s_bytes,
        mem[Buf::Gdn(il, GdnBuf::Conv)].len() == g.conv_bytes,
        mem[Buf::Saved(il, GdnBuf::Conv)].len() == g.conv_bytes,
        g.ple_hist matches Some(n) ==> mem[Buf::Gdn(il, GdnBuf::PleHist)].len() == n
            && mem[Buf::Saved(il, GdnBuf::PleHist)].len() == n,
    ensures
        ({
            let after = run(restore_gdn(il, g, c), mem);
            &&& after[Buf::Gdn(il, GdnBuf::S)] == mem[Buf::Saved(il, GdnBuf::S)]
            &&& after[Buf::Gdn(il, GdnBuf::Conv)] == mem[Buf::Saved(il, GdnBuf::Conv)]
            &&& g.ple_hist is Some ==> after[Buf::Gdn(il, GdnBuf::PleHist)]
                == mem[Buf::Saved(il, GdnBuf::PleHist)]
            &&& forall|x: Buf|
                !(x matches Buf::Gdn(k, _) && k == il) ==> #[trigger] after[x] == mem[x]
        }),
{
    let to = Op::SetDevice(g.dev);
    let a = restore_buf(il, GdnBuf::S, c.s_bytes);
    let b = restore_buf(il, GdnBuf::Conv, c.conv_bytes);
    let rest = match (g.ple_hist, c.ple_hist) {
        (Some(_), Some(n)) => seq![restore_buf(il, GdnBuf::PleHist, n)],
        _ => Seq::empty(),
    };
    let ops = restore_gdn(il, g, c);
    assert(ops =~= seq![to] + (seq![a] + (seq![b] + rest)));
    lemma_run_first(to, seq![a] + (seq![b] + rest), mem);
    lemma_run_first(a, seq![b] + rest, mem);
    lemma_restore_buf(il, GdnBuf::S, c.s_bytes, mem);
    let m1 = effect(a, mem);
    lemma_run_first(b, rest, m1);
    lemma_restore_buf(il, GdnBuf::Conv, c.conv_bytes, m1);
    let m2 = effect(b, m1);
    if let Some(n) = g.ple_hist {
        lemma_restore_buf(il, GdnBuf::PleHist, n, m2);
        lemma_run_one(restore_buf(il, GdnBuf::PleHist, n), m2);
    }
}

/// Every saved buffer has its size.
pub open spec fn saves_hold(states: Seq<Option<GdnState>>, mem: Map<Buf, Seq<u8>>) -> bool {
    forall|il: int, b: GdnBuf|
        state_buf(states, il, b) ==> (#[trigger] mem[Buf::Saved(il as usize, b)]).len()
            == state_len(states[il]->Some_0, b)
}

proof fn lemma_restore_states(
    states: Seq<Option<GdnState>>,
    ck: Seq<Option<SavedGdn>>,
    n: int,
    mem: Map<Buf, Seq<u8>>,
)
    requires
        0 <= n <= states.len() <= usize::MAX,
        ck == Seq::new(states.len(), |i: int| saved_of(states[i])),
        states_hold(states, mem),
        saves_hold(states, mem),
    ensures
        ({
            let after = run(restore_states(states, ck, n), mem);
            &&& forall|il: int, b: GdnBuf|
                il < n && #[trigger] state_buf(states, il, b) ==> after[Buf::Gdn(il as usize, b)]
                    == mem[Buf::Saved(il as usize, b)]
            &&& forall|x: Buf| #![trigger after[x]]
                !(x matches Buf::Gdn(k, _) && k < n) ==> after[x] == mem[x]
        }),
    decreases n,
{
    if n > 0 {
        lemma_restore_states(states, ck, n - 1, mem);
        let prev = restore_states(states, ck, n - 1);
        let mid = run(prev, mem);
        let il = (n - 1) as usize;
        match states[n - 1] {
            Some(g) => {
                let c = ck[n - 1]->Some_0;
                assert(state_buf(states, n - 1, GdnBuf::S));
                assert(state_buf(states, n - 1, GdnBuf::Conv));
                assert(mid[Buf::Gdn(il, GdnBuf::S)] == mem[Buf::Gdn(il, GdnBuf::S)]);
                assert(mid[Buf::Gdn(il, GdnBuf::Conv)] == mem[Buf::Gdn(il, GdnBuf::Conv)]);
                assert(mid[Buf::Saved(il, GdnBuf::S)] == mem[Buf::Saved(il, GdnBuf::S)]);
                assert(mid[Buf::Saved(il, GdnBuf::Conv)] == mem[Buf::Saved(il, GdnBuf::Conv)]);
                if g.ple_hist is Some {
                    assert(state_buf(states, n - 1, GdnBuf::PleHist));
                    assert(mid[Buf::Gdn(il, GdnBuf::PleHist)] == mem[Buf::Gdn(
                        il,
                        GdnBuf::PleHist,
                    )]);
                    assert(mid[Buf::Saved(il, GdnBuf::PleHist)] == mem[Buf::Saved(
                        il,
                        GdnBuf::PleHist,
                    )]);
                }
                lemma_restore_gdn(il, g, c, mid);
                lemma_run_add(prev, restore_gdn(il, g, c), mem);
                let after = run(restore_gdn(il, g, c), mid);
                assert forall|k: int, b: GdnBuf| k < n && #[trigger] state_buf(states, k, b) implies after[
                Buf::Gdn(k as usize, b)] == mem[Buf::Saved(k as usize, b)] by {
                    assert(mid[Buf::Saved(k as usize, b)] == mem[Buf::Saved(k as usize, b)]);
                    if k == n - 1 {
                        match b {
                            GdnBuf::S => {},
                            GdnBuf::Conv => {},
                            GdnBuf::PleHist => {},
                        }
                    } else {
                        assert(k as usize != il);
                        assert(after[Buf::Gdn(k as usize, b)] == mid[Buf::Gdn(k as usize, b)]);
                    }
                }
            },
            None => {
                assert(prev + Seq::<Op>::empty() =~= prev);
            },
        }
    }
}

/// A restore undoes whatever happened to the recurrent states since they were
/// saved: saving leaves the states as they are, and once they are restored they
/// hold what they held when they were saved.  In between anything may have been
/// written to them.
pub proof fn restore_undoes(
    states: Seq<Option<GdnState>>,
    before: Map<Buf, Seq<u8>>,
    later: Map<Buf, Seq<u8>>,
    current: i32,
)
    requires
        states.len() <= usize::MAX,
        states_hold(states, before),
        states_hold(states, later),
        ({
            let saved = run(
                save_states(states, states.len() as int) + seq![Op::SetDevice(current)],
                before,
            );
            forall|x: Buf| x is Saved ==> #[trigger] later[x] == saved[x]
        }),
    ensures
        ({
            let saved = run(
                save_states(states, states.len() as int) + seq![Op::SetDevice(current)],
                before,
            );
            let ck = Seq::new(states.len(), |i: int| saved_of(states[i]));
            let restored = run(
                restore_states(states, ck, states.len() as int) + seq![Op::SetDevice(current)],
                later,
            );
            forall|il: int, b: GdnBuf| #[trigger]
                state_buf(states, il, b) ==> saved[Buf::Gdn(il as usize, b)] == before[Buf::Gdn(
                    il as usize,
                    b,
                )] && restored[Buf::Gdn(il as usize, b)] == before[Buf::Gdn(il as usize, b)]
        }),
{
    let n = states.len() as int;
    let ck = Seq::new(states.len(), |i: int| saved_of(states[i]));
    let back = Op::SetDevice(current);
    lemma_save_states(states, n, before);
    lemma_run_add(save_states(states, n), seq![back], before);
    lemma_run_one(back, run(save_states(states, n), before));
    let saved = run(save_states(states, n) + seq![back], before);
    assert(saves_hold(states, later)) by {
        assert forall|il: int, b: GdnBuf| state_buf(states, il, b) implies (#[trigger] later[
        Buf::Saved(il as usize, b)]).len() == state_len(states[il]->Some_0, b) by {
            assert(later[Buf::Saved(il as usize, b)] == saved[Buf::Saved(il as usize, b)]);
            assert(before[Buf::Gdn(il as usize, b)].len() == state_len(states[il]->Some_0, b));
        }
    }
    lemma_restore_states(states, ck, n, later);
    lemma_run_add(restore_states(states, ck, n), seq![back], later);
    lemma_run_one(back, run(restore_states(states, ck, n), later));
    let restored = run(restore_states(states, ck, n) + seq![back], later);
    assert forall|il: int, b: GdnBuf| #[trigger] state_buf(states, il, b) implies saved[Buf::Gdn(
        il as usize,
        b,
    )] == before[Buf::Gdn(il as usize, b)] && restored[Buf::Gdn(il as usize, b)] == before[
    Buf::Gdn(il as usize, b)] by {
        assert(later[Buf::Saved(il as usize, b)] == saved[Buf::Saved(il as usize, b)]);
    }
}

/// The history of the dilated conv rolls: after a chunk it holds the newest rows
/// of what it held before with the chunk's rows behind, whether the chunk is
/// shorter than the history or longer.
pub proof fn history_rolls(
    s: Shape,
    part: Part,
    il: usize,
    t: u32,
    mem: Map<Buf, Seq<u8>>,
)
    requires
        ple_fits(s, t),
        mem[Buf::Gdn(il, GdnBuf::PleHist)].len() == wide_bytes(ple_hist_cols(&s), s.hc_dim()),
        mem[Buf::Rt(Q38::PleNorm)].len() >= f32_bytes(times(t, s.hc_dim())),
        mem[Buf::Rt(Q38::PlePad)].len() >= wide_bytes(ple_hist_cols(&s), s.hc_dim()) + f32_bytes(
            times(t, s.hc_dim()),
        ),
    ensures
        ({
            let rows = mem[Buf::Rt(Q38::PleNorm)].take(f32_bytes(times(t, s.hc_dim())) as int);
            let copies = seq![ple_conv(s, part, il, t)[0], ple_conv(s, part, il, t)[1]];
            let after = run(copies + ple_roll(s, il, t), mem);
            after[Buf::Gdn(il, GdnBuf::PleHist)] == (mem[Buf::Gdn(il, GdnBuf::PleHist)]
                + rows).skip(rows.len() as int)
        }),
{
    let h = wide_bytes(ple_hist_cols(&s), s.hc_dim()) as int;
    let r = f32_bytes(times(t, s.hc_dim())) as int;
    let hist = mem[Buf::Gdn(il, GdnBuf::PleHist)];
    let rows = mem[Buf::Rt(Q38::PleNorm)].take(r);
    let ops = ple_conv(s, part, il, t);
    let roll = ple_roll(s, il, t);
    let a = ops[0];
    let b = ops[1];
    let c = roll[0];
    assert(seq![a, b] + roll =~= seq![a] + (seq![b] + seq![c]));
    lemma_run_first(a, seq![b] + seq![c], mem);
    let m1 = effect(a, mem);
    lemma_run_first(b, seq![c], m1);
    let m2 = effect(b, m1);
    lemma_run_one(c, m2);
    let pad = m2[Buf::Rt(Q38::PlePad)];
    assert(m1[Buf::Rt(Q38::PlePad)].take(h) =~= hist);
    assert(m1[Buf::Rt(Q38::PleNorm)].subrange(0, 0 + r) =~= rows);
    assert(pad.take(h + r) =~= hist + rows);
    assert(pad.subrange(r, r + h) =~= (hist + rows).skip(r));
    assert(overwrite(hist, 0, pad.subrange(r, r + h)) =~= (hist + rows).skip(r));
}

/// Rolling by one chunk and then another is rolling by both at once.
pub proof fn rolling_composes(hist: Seq<u8>, a: Seq<u8>, b: Seq<u8>)
    ensures
        ((hist + a).skip(a.len() as int) + b).skip(b.len() as int) == (hist + (a + b)).skip(
            (a + b).len() as int,
        ),
{
    assert(((hist + a).skip(a.len() as int) + b).skip(b.len() as int) =~= (hist + (a + b)).skip(
        (a + b).len() as int,
    ));
}

proof fn lemma_zero(buf: Buf, bytes: u64, mem: Map<Buf, Seq<u8>>)
    requires
        mem[buf].len() == bytes,
    ensures
        effect(Op::Zero { buf, bytes }, mem)[buf] == zeros(bytes as int),
        forall|x: Buf|
            x != buf ==> #[trigger] effect(Op::Zero { buf, bytes }, mem)[x] == mem[x],
{
    assert(overwrite(mem[buf], 0, zeros(bytes as int)) =~= zeros(bytes as int));
}

/// Size of a buffer of a KDA layer's state.
pub open spec fn kda_len(k: KdaState, b: KdaBuf) -> u64 {
    if b == KdaBuf::S {
        k.s_bytes
    } else {
        k.conv_bytes
    }
}

/// Every buffer of a KDA layer's state has its size.
pub open spec fn kda_hold(states: Seq<Option<KdaState>>, mem: Map<Buf, Seq<u8>>) -> bool {
    forall|il: int, b: KdaBuf|
        0 <= il < states.len() && states[il] is Some ==> (#[trigger] mem[Buf::Kda(
            il as usize,
            b,
        )]).len() == kda_len(states[il]->Some_0, b)
}

proof fn lemma_zero_kda(il: usize, k: KdaState, mem: Map<Buf, Seq<u8>>)
    requires
        forall|b: KdaBuf| (#[trigger] mem[Buf::Kda(il, b)]).len() == kda_len(k, b),
    ensures
        ({
            let after = run(seq![Op::SetDevice(k.dev)] + zero_kda(il, k), mem);
            &&& forall|b: KdaBuf| #[trigger]
                after[Buf::Kda(il, b)] == zeros(kda_len(k, b) as int)
            &&& forall|x: Buf|
                !(x matches Buf::Kda(j, _) && j == il) ==> #[trigger] after[x] == mem[x]
        }),
{
    let z = zero_kda(il, k);
    assert(z =~= seq![z[0]] + (seq![z[1]] + (seq![z[2]] + seq![z[3]])));
    lemma_run_first(Op::SetDevice(k.dev), z, mem);
    lemma_run_first(z[0], seq![z[1]] + (seq![z[2]] + seq![z[3]]), mem);
    lemma_zero(Buf::Kda(il, KdaBuf::S), k.s_bytes, mem);
    let m1 = effect(z[0], mem);
    lemma_run_first(z[1], seq![z[2]] + seq![z[3]], m1);
    lemma_zero(Buf::Kda(il, KdaBuf::ConvQ), k.conv_bytes, m1);
    let m2 = effect(z[1], m1);
    lemma_run_first(z[2], seq![z[3]], m2);
    lemma_zero(Buf::Kda(il, KdaBuf::ConvK), k.conv_bytes, m2);
    let m3 = effect(z[2], m2);
    lemma_run_one(z[3], m3);
    lemma_zero(Buf::Kda(il, KdaBuf::ConvV), k.conv_bytes, m3);
    let m4 = effect(z[3], m3);
    assert forall|b: KdaBuf| #[trigger] m4[Buf::Kda(il, b)] == zeros(kda_len(k, b) as int) by {
        match b {
            KdaBuf::S => {},
            KdaBuf::ConvQ => {},
            KdaBuf::ConvK => {},
            KdaBuf::ConvV => {},
        }
    }
}

/// A reset clears every KDA layer's state, and nothing else.
pub proof fn reset_clears_kda(states: Seq<Option<KdaState>>, n: int, mem: Map<Buf, Seq<u8>>)
    requires
        0 <= n <= states.len() <= usize::MAX,
        kda_hold(states, mem),
    ensures
        ({
            let after = run(reset_states(states, n), mem);
            &&& forall|il: int, b: KdaBuf|
                0 <= il < n && states[il] is Some ==> #[trigger] after[Buf::Kda(il as usize, b)]
                    == zeros(kda_len(states[il]->Some_0, b) as int)
            &&& forall|x: Buf| #![trigger after[x]]
                !(x matches Buf::Kda(k, _) && k < n) ==> after[x] == mem[x]
        }),
    decreases n,
{
    if n > 0 {
        reset_clears_kda(states, n - 1, mem);
        let prev = reset_states(states, n - 1);
        let mid = run(prev, mem);
        let il = (n - 1) as usize;
        match states[n - 1] {
            Some(k) => {
                assert forall|b: KdaBuf| (#[trigger] mid[Buf::Kda(il, b)]).len() == kda_len(
                    k,
                    b,
                ) by {
                    assert(mid[Buf::Kda(il, b)] == mem[Buf::Kda(il, b)]);
                }
                let mine = seq![Op::SetDevice(k.dev)] + zero_kda(il, k);
                lemma_zero_kda(il, k, mid);
                lemma_run_add(prev, mine, mem);
                let after = run(mine, mid);
                assert forall|i: int, b: KdaBuf|
                    0 <= i < n && states[i] is Some implies #[trigger] after[Buf::Kda(
                    i as usize,
                    b,
                )] == zeros(kda_len(states[i]->Some_0, b) as int) by {
                    if i < n - 1 {
                        assert(i as usize != il);
                        assert(after[Buf::Kda(i as usize, b)] == mid[Buf::Kda(i as usize, b)]);
                    }
                }
            },
            None => {
                assert(prev + Seq::<Op>::empty() =~= prev);
            },
        }
    }
}

proof fn lemma_zero_gdn(il: usize, g: GdnState, mem: Map<Buf, Seq<u8>>)
    requires
        mem[Buf::Gdn(il, GdnBuf::S)].len() == g.s_bytes,
        mem[Buf::Gdn(il, GdnBuf::Conv)].len() == g.conv_bytes,
        g.ple_hist matches Some(n) ==> mem[Buf::Gdn(il, GdnBuf::PleHist)].len() == n,
    ensures
        ({
            let after = run(seq![Op::SetDevice(g.dev)] + zero_gdn(il, g), mem);
            &&& after[Buf::Gdn(il, GdnBuf::S)] == zeros(g.s_bytes as int)
            &&& after[Buf::Gdn(il, GdnBuf::Conv)] == zeros(g.conv_bytes as int)
            &&& g.ple_hist matches Some(n) ==> after[Buf::Gdn(il, GdnBuf::PleHist)] == zeros(
                n as int,
            )
            &&& forall|x: Buf|
                !(x matches Buf::Gdn(j, _) && j == il) ==> #[trigger] after[x] == mem[x]
        }),
{
    let z = zero_gdn(il, g);
    let rest = z.skip(2);
    assert(z =~= seq![z[0]] + (seq![z[1]] + rest));
    lemma_run_first(Op::SetDevice(g.dev), z, mem);
    lemma_run_first(z[0], seq![z[1]] + rest, mem);
    lemma_zero(Buf::Gdn(il, GdnBuf::S), g.s_bytes, mem);
    let m1 = effect(z[0], mem);
    lemma_run_first(z[1], rest, m1);
    lemma_zero(Buf::Gdn(il, GdnBuf::Conv), g.conv_bytes, m1);
    let m2 = effect(z[1], m1);
    if let Some(n) = g.ple_hist {
        assert(rest =~= seq![Op::Zero { buf: Buf::Gdn(il, GdnBuf::PleHist), bytes: n }]);
        lemma_run_one(Op::Zero { buf: Buf::Gdn(il, GdnBuf::PleHist), bytes: n }, m2);
        lemma_zero(Buf::Gdn(il, GdnBuf::PleHist), n, m2);
    }
}

/// A reset clears every recurrent state of a gated DeltaNet, and nothing else.
pub proof fn reset_clears_gdn(states: Seq<Option<GdnState>>, n: int, mem: Map<Buf, Seq<u8>>)
    requires
        0 <= n <= states.len() <= usize::MAX,
        states_hold(states, mem),
    ensures
        ({
            let after = run(reset_gdn(states, n), mem);
            &&& forall|il: int, b: GdnBuf|
                il < n && #[trigger] state_buf(states, il, b) ==> after[Buf::Gdn(il as usize, b)]
                    == zeros(state_len(states[il]->Some_0, b) as int)
            &&& forall|x: Buf| #![trigger after[x]]
                !(x matches Buf::Gdn(k, _) && k < n) ==> after[x] == mem[x]
        }),
    decreases n,
{
    if n > 0 {
        reset_clears_gdn(states, n - 1, mem);
        let prev = reset_gdn(states, n - 1);
        let mid = run(prev, mem);
        let il = (n - 1) as usize;
        match states[n - 1] {
            Some(g) => {
                assert(state_buf(states, n - 1, GdnBuf::S));
                assert(state_buf(states, n - 1, GdnBuf::Conv));
                assert(mid[Buf::Gdn(il, GdnBuf::S)] == mem[Buf::Gdn(il, GdnBuf::S)]);
                assert(mid[Buf::Gdn(il, GdnBuf::Conv)] == mem[Buf::Gdn(il, GdnBuf::Conv)]);
                if g.ple_hist is Some {
                    assert(state_buf(states, n - 1, GdnBuf::PleHist));
                    assert(mid[Buf::Gdn(il, GdnBuf::PleHist)] == mem[Buf::Gdn(
                        il,
                        GdnBuf::PleHist,
                    )]);
                }
                let mine = seq![Op::SetDevice(g.dev)] + zero_gdn(il, g);
                lemma_zero_gdn(il, g, mid);
                lemma_run_add(prev, mine, mem);
                let after = run(mine, mid);
                assert forall|k: int, b: GdnBuf| k < n && #[trigger] state_buf(states, k, b) implies after[
                Buf::Gdn(k as usize, b)] == zeros(state_len(states[k]->Some_0, b) as int) by {
                    if k == n - 1 {
                        match b {
                            GdnBuf::S => {},
                            GdnBuf::Conv => {},
                            GdnBuf::PleHist => {},
                        }
                    } else {
                        assert(k as usize != il);
                        assert(after[Buf::Gdn(k as usize, b)] == mid[Buf::Gdn(k as usize, b)]);
                    }
                }
            },
            None => {
                assert(prev + Seq::<Op>::empty() =~= prev);
            },
        }
    }
}

/// The state that is made for a KDA layer is clear, and nothing else changes.
pub proof fn made_kda_state_is_clear(il: usize, k: KdaState, mem: Map<Buf, Seq<u8>>)
    ensures
        ({
            let after = run(alloc_kda(il, k), mem);
            &&& after[Buf::Kda(il, KdaBuf::S)] == zeros(k.s_bytes as int)
            &&& after[Buf::Kda(il, KdaBuf::ConvQ)] == zeros(k.conv_bytes as int)
            &&& after[Buf::Kda(il, KdaBuf::ConvK)] == zeros(k.conv_bytes as int)
            &&& after[Buf::Kda(il, KdaBuf::ConvV)] == zeros(k.conv_bytes as int)
            &&& forall|x: Buf|
                !(x matches Buf::Kda(j, _) && j == il) ==> #[trigger] after[x] == mem[x]
        }),
{
    let all = alloc_kda(il, k);
    let z = zero_kda(il, k);
    let a1 = Op::Alloc { buf: Buf::Kda(il, KdaBuf::S), bytes: k.s_bytes };
    let a2 = Op::Alloc { buf: Buf::Kda(il, KdaBuf::ConvQ), bytes: k.conv_bytes };
    let a3 = Op::Alloc { buf: Buf::Kda(il, KdaBuf::ConvK), bytes: k.conv_bytes };
    let a4 = Op::Alloc { buf: Buf::Kda(il, KdaBuf::ConvV), bytes: k.conv_bytes };
    let to = Op::SetDevice(k.dev);
    assert(all =~= seq![to] + (seq![a1] + (seq![a2] + (seq![a3] + (seq![a4] + z)))));
    lemma_run_first(to, seq![a1] + (seq![a2] + (seq![a3] + (seq![a4] + z))), mem);
    lemma_run_first(a1, seq![a2] + (seq![a3] + (seq![a4] + z)), mem);
    let m1 = effect(a1, mem);
    lemma_run_first(a2, seq![a3] + (seq![a4] + z), m1);
    let m2 = effect(a2, m1);
    lemma_run_first(a3, seq![a4] + z, m2);
    let m3 = effect(a3, m2);
    lemma_run_first(a4, z, m3);
    let m4 = effect(a4, m3);
    assert forall|b: KdaBuf| (#[trigger] m4[Buf::Kda(il, b)]).len() == kda_len(k, b) by {
        match b {
            KdaBuf::S => {},
            KdaBuf::ConvQ => {},
            KdaBuf::ConvK => {},
            KdaBuf::ConvV => {},
        }
    }
    lemma_zero_kda(il, k, m4);
    lemma_run_first(to, z, m4);
    let after = run(z, m4);
    assert(after[Buf::Kda(il, KdaBuf::S)] == zeros(kda_len(k, KdaBuf::S) as int));
    assert(after[Buf::Kda(il, KdaBuf::ConvQ)] == zeros(kda_len(k, KdaBuf::ConvQ) as int));
    assert(after[Buf::Kda(il, KdaBuf::ConvK)] == zeros(kda_len(k, KdaBuf::ConvK) as int));
    assert(after[Buf::Kda(il, KdaBuf::ConvV)] == zeros(kda_len(k, KdaBuf::ConvV) as int));
}

/// The state that is made for a gated DeltaNet layer is clear, its history with it
/// where it has one, and nothing else changes.
pub proof fn made_gdn_state_is_clear(il: usize, g: GdnState, mem: Map<Buf, Seq<u8>>)
    ensures
        ({
            let after = run(alloc_gdn(il, g), mem);
            &&& after[Buf::Gdn(il, GdnBuf::S)] == zeros(g.s_bytes as int)
            &&& after[Buf::Gdn(il, GdnBuf::Conv)] == zeros(g.conv_bytes as int)
            &&& g.ple_hist matches Some(n) ==> after[Buf::Gdn(il, GdnBuf::PleHist)] == zeros(
                n as int,
            )
            &&& forall|x: Buf|
                !(x matches Buf::Gdn(j, _) && j == il) ==> #[trigger] after[x] == mem[x]
        }),
{
    let all = alloc_gdn(il, g);
    let z = zero_gdn(il, g);
    let to = Op::SetDevice(g.dev);
    let a1 = Op::Alloc { buf: Buf::Gdn(il, GdnBuf::S), bytes: g.s_bytes };
    let a2 = Op::Alloc { buf: Buf::Gdn(il, GdnBuf::Conv), bytes: g.conv_bytes };
    let tail = seq![a1] + (seq![a2] + z);
    let m0 = match g.ple_hist {
        Some(n) => effect(Op::Alloc { buf: Buf::Gdn(il, GdnBuf::PleHist), bytes: n }, mem),
        None => mem,
    };
    match g.ple_hist {
        Some(n) => {
            let a0 = Op::Alloc { buf: Buf::Gdn(il, GdnBuf::PleHist), bytes: n };
            assert(all =~= seq![to] + (seq![a0] + tail));
            lemma_run_first(to, seq![a0] + tail, mem);
            lemma_run_first(a0, tail, mem);
        },
        None => {
            assert(all =~= seq![to] + tail);
            lemma_run_first(to, tail, mem);
        },
    }
    lemma_run_first(a1, seq![a2] + z, m0);
    let m1 = effect(a1, m0);
    lemma_run_first(a2, z, m1);
    let m2 = effect(a2, m1);
    lemma_zero_gdn(il, g, m2);
    lemma_run_first(to, z, m2);
}

} // verus!
