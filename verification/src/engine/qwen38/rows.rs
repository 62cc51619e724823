//! How the drafting block lays out the rows of a chunk.

use crate::engine::memory::{effect, lemma_run_add, lemma_run_first, lemma_run_one, overwrite, run};
use crate::engine::ops::{Buf, Op, Q38, St};
use crate::engine::qwen38::mtp::{fill_project, hidden_rows, interleave, mtp_fits, stream_bytes};
use crate::engine::shape::{f32_bytes, Shape};
use vstd::prelude::*;

verus! {

/// Row `i` of a buffer of rows of `n` bytes.
pub open spec fn row_of(b: Seq<u8>, i: int, n: int) -> Seq<u8> {
    b.subrange(i * n, i * n + n)
}

/// The streams that the rows of a chunk get stand one row later than the chunk's
/// own: first those kept from before it, then the chunk's, all but the last.
pub proof fn streams_come_one_row_late(s: Shape, n: u32, mem: Map<Buf, Seq<u8>>)
    requires
        1 <= n,
        mtp_fits(s, n),
        mem[Buf::State(St::MtpHidden)].len() >= stream_bytes(s, 1),
        mem[Buf::Rt(Q38::ResHc)].len() >= (n - 1) * stream_bytes(s, 1),
        mem[Buf::Rt(Q38::Xn)].len() >= n * stream_bytes(s, 1),
    ensures
        ({
            let row = stream_bytes(s, 1) as int;
            let after = run(hidden_rows(s, n), mem)[Buf::Rt(Q38::Xn)];
            after.take(n * row) == mem[Buf::State(St::MtpHidden)].take(row)
                + mem[Buf::Rt(Q38::ResHc)].take((n - 1) * row)
        }),
{
    let row = stream_bytes(s, 1) as int;
    let d = s.n_hc * s.n_embd;
    assert(0 <= d) by (nonlinear_arith)
        requires
            d == s.n_hc * s.n_embd,
    ;
    assert(row == 4 * d);
    assert((n - 1) * row + row == n * row) by (nonlinear_arith);
    assert(0 <= (n - 1) * row) by (nonlinear_arith)
        requires
            1 <= n,
            0 <= row,
    ;
    assert((n - 1) * d * 4 == (n - 1) * row) by (nonlinear_arith)
        requires
            row == 4 * d,
    ;
    assert((n - 1) * d <= n * d) by (nonlinear_arith)
        requires
            0 <= d,
    ;
    assert(stream_bytes(s, (n - 1) as u32) == (n - 1) * row);
    let hidden = mem[Buf::State(St::MtpHidden)];
    let own = mem[Buf::Rt(Q38::ResHc)];
    let xn = mem[Buf::Rt(Q38::Xn)];
    let ops = hidden_rows(s, n);
    let a = ops[0];
    let m1 = effect(a, mem);
    let x1 = m1[Buf::Rt(Q38::Xn)];
    assert(x1.take(row) =~= hidden.take(row));
    if n == 1 {
        assert(ops =~= seq![a]);
        lemma_run_one(a, mem);
        assert(own.take(0) =~= Seq::<u8>::empty());
        assert(1 * row == row);
        assert(hidden.take(row) + own.take(0) =~= hidden.take(row));
    } else {
        let b = ops[1];
        assert(ops =~= seq![a] + seq![b]);
        lemma_run_first(a, seq![b], mem);
        lemma_run_one(b, m1);
        let x2 = effect(b, m1)[Buf::Rt(Q38::Xn)];
        assert(own.subrange(0, 0 + (n - 1) * row) =~= own.take((n - 1) * row));
        assert(x2 == overwrite(x1, row, own.take((n - 1) * row)));
        assert(x2.take(n * row) =~= hidden.take(row) + own.take((n - 1) * row));
    }
}

/// The streams of a chunk's last row are kept for the chunk that follows.
pub proof fn last_streams_are_kept(s: Shape, n: u32, mem: Map<Buf, Seq<u8>>)
    requires
        1 <= n,
        mtp_fits(s, n),
        mem[Buf::State(St::MtpHidden)].len() >= stream_bytes(s, 1),
        mem[Buf::Rt(Q38::ResHc)].len() >= n * stream_bytes(s, 1),
    ensures
        ({
            let row = stream_bytes(s, 1) as int;
            let after = run(fill_project(s, n), mem)[Buf::State(St::MtpHidden)];
            after.take(row) == row_of(mem[Buf::Rt(Q38::ResHc)], n - 1, row)
        }),
{
    let row = stream_bytes(s, 1) as int;
    let d = s.n_hc * s.n_embd;
    assert(0 <= d) by (nonlinear_arith)
        requires
            d == s.n_hc * s.n_embd,
    ;
    assert(row == 4 * d);
    assert((n - 1) * row + row == n * row) by (nonlinear_arith);
    assert(0 <= (n - 1) * row) by (nonlinear_arith)
        requires
            1 <= n,
            0 <= row,
    ;
    assert((n - 1) * d * 4 == (n - 1) * row) by (nonlinear_arith)
        requires
            row == 4 * d,
    ;
    assert((n - 1) * d <= n * d) by (nonlinear_arith)
        requires
            0 <= d,
    ;
    assert(stream_bytes(s, (n - 1) as u32) == (n - 1) * row);
    let ops = fill_project(s, n);
    let rest = seq![ops[1], ops[2], ops[3]];
    assert(ops =~= seq![ops[0]] + rest);
    lemma_run_first(ops[0], rest, mem);
    let tail = seq![ops[2], ops[3]];
    assert(rest =~= seq![ops[1]] + tail);
    lemma_run_first(ops[1], tail, mem);
    let m1 = effect(ops[1], mem);
    assert(tail =~= seq![ops[2]] + seq![ops[3]]);
    lemma_run_first(ops[2], seq![ops[3]], m1);
    lemma_run_one(ops[3], m1);
    assert(m1[Buf::State(St::MtpHidden)].take(row) =~= row_of(
        mem[Buf::Rt(Q38::ResHc)],
        n - 1,
        row,
    ));
}

/// The first `n` rows stand side by side: the embedding of each, and behind it
/// the collapsed streams.
pub open spec fn side_by_side(x: Seq<u8>, e: Seq<u8>, h: Seq<u8>, n: int, row: int) -> bool {
    forall|i: int|
        0 <= i < n ==> #[trigger] row_of(x, 2 * i, row) == row_of(e, i, row) && row_of(
            x,
            2 * i + 1,
            row,
        ) == row_of(h, i, row)
}

/// Each row of the projection's input is the row's embedding and then its
/// collapsed streams.
pub proof fn rows_stand_side_by_side(s: Shape, n: int, t: u32, mem: Map<Buf, Seq<u8>>)
    requires
        0 <= n <= t,
        mtp_fits(s, t),
        mem[Buf::State(St::MtpE)].len() >= n * f32_bytes(s.n_embd),
        mem[Buf::State(St::MtpH)].len() >= n * f32_bytes(s.n_embd),
        mem[Buf::State(St::MtpX)].len() >= 2 * n * f32_bytes(s.n_embd),
    ensures
        ({
            let after = run(interleave(s, n), mem);
            let e = mem[Buf::State(St::MtpE)];
            let h = mem[Buf::State(St::MtpH)];
            &&& after[Buf::State(St::MtpE)] == e
            &&& after[Buf::State(St::MtpH)] == h
            &&& after[Buf::State(St::MtpX)].len() == mem[Buf::State(St::MtpX)].len()
            &&& side_by_side(
                after[Buf::State(St::MtpX)],
                e,
                h,
                n,
                f32_bytes(s.n_embd) as int,
            )
        }),
    decreases n,
{
    if n > 0 {
        let row = f32_bytes(s.n_embd) as int;
        let i = n - 1;
        let e = mem[Buf::State(St::MtpE)];
        let h = mem[Buf::State(St::MtpH)];
        assert(0 <= i * row) by (nonlinear_arith)
            requires
                0 <= i,
                0 <= row,
        ;
        assert(i * row + row == n * row) by (nonlinear_arith)
            requires
                i == n - 1,
        ;
        assert(i * 2 * row == 2 * (i * row)) by (nonlinear_arith);
        assert(2 * i * row == 2 * (i * row)) by (nonlinear_arith);
        assert(2 * n * row == 2 * (n * row)) by (nonlinear_arith);
        assert((2 * i) * row == 2 * (i * row)) by (nonlinear_arith);
        assert((2 * i + 1) * row == 2 * (i * row) + row) by (nonlinear_arith);
        assert(n * row <= t * row) by (nonlinear_arith)
            requires
                n <= t,
                0 <= row,
        ;
        assert(t * row == t * s.n_embd * 4) by (nonlinear_arith)
            requires
                row == s.n_embd * 4,
        ;
        rows_stand_side_by_side(s, n - 1, t, mem);
        let front = interleave(s, n - 1);
        let ops = interleave(s, n);
        let a = Op::CopyD2d {
            dst: Buf::State(St::MtpX),
            dst_off: (i * 2 * row) as u64,
            src: Buf::State(St::MtpE),
            src_off: (i * row) as u64,
            bytes: row as u64,
        };
        let b = Op::CopyD2d {
            dst: Buf::State(St::MtpX),
            dst_off: (i * 2 * row + row) as u64,
            src: Buf::State(St::MtpH),
            src_off: (i * row) as u64,
            bytes: row as u64,
        };
        assert(ops =~= front + (seq![a] + seq![b]));
        lemma_run_add(front, seq![a] + seq![b], mem);
        let m0 = run(front, mem);
        lemma_run_first(a, seq![b], m0);
        let m1 = effect(a, m0);
        lemma_run_one(b, m1);
        let m2 = effect(b, m1);
        let x0 = m0[Buf::State(St::MtpX)];
        let x1 = m1[Buf::State(St::MtpX)];
        let x2 = m2[Buf::State(St::MtpX)];
        assert(x1 == overwrite(x0, 2 * (i * row), row_of(e, i, row)));
        assert(x1.len() == x0.len());
        assert(x2 == overwrite(x1, 2 * (i * row) + row, row_of(h, i, row)));
        assert(x2.len() == x0.len());
        assert forall|k: int| 0 <= k < n implies #[trigger] row_of(x2, 2 * k, row) == row_of(
            e,
            k,
            row,
        ) && row_of(x2, 2 * k + 1, row) == row_of(h, k, row) by {
            assert((2 * k) * row == 2 * (k * row)) by (nonlinear_arith);
            assert((2 * k + 1) * row == 2 * (k * row) + row) by (nonlinear_arith);
            assert(0 <= k * row) by (nonlinear_arith)
                requires
                    0 <= k,
                    0 <= row,
            ;
            if k < i {
                assert(k * row + row <= i * row) by (nonlinear_arith)
                    requires
                        k + 1 <= i,
                        0 <= row,
                ;
                assert(row_of(x2, 2 * k, row) =~= row_of(x0, 2 * k, row));
                assert(row_of(x2, 2 * k + 1, row) =~= row_of(x0, 2 * k + 1, row));
            } else {
                assert(row_of(x2, 2 * k, row) =~= row_of(e, k, row));
                assert(row_of(x2, 2 * k + 1, row) =~= row_of(h, k, row));
            }
        }
    }
}

} // verus!
