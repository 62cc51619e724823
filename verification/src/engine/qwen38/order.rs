//! How launches and copies of the n-gram embedding and of the drafting block
//! keep their order.
//!
//! Kernels run on one stream, copies between buffers on another, and nothing
//! orders the two but a wait of the host.

use crate::engine::hazard::{reads, writes};
use crate::engine::ops::{Buf, Op, Part, St};
use crate::engine::qwen38::embed::ple_device;
use crate::engine::qwen38::mtp::{fill_input, fill_norms, fill_project, hidden_rows, interleave};
use crate::engine::qwen38::GdnState;
use crate::engine::shape::{MtpW, Shape};
use vstd::prelude::*;

verus! {

/// A kernel launch, or a group of them.
pub open spec fn is_launch(op: Op) -> bool {
    match op {
        Op::SetDevice(_) => false,
        Op::Sync => false,
        Op::Alloc { .. } => false,
        Op::Zero { .. } => false,
        Op::CopyD2d { .. } => false,
        Op::CopyAcross { .. } => false,
        Op::WriteToken(_) => false,
        Op::WriteTokens { .. } => false,
        Op::PleRow { .. } => false,
        Op::HostStage { .. } => false,
        Op::PleStage { .. } => false,
        Op::ReadLogits { .. } => false,
        _ => true,
    }
}

/// The host waits somewhere between two operations.
pub open spec fn wait_between(ops: Seq<Op>, j: int, i: int) -> bool {
    exists|k: int| j < k < i && #[trigger] ops[k] == Op::Sync
}

/// A copy touches what a launch wrote, or overwrites what it read.
pub open spec fn copy_meets(launch: Op, copy: Op) -> bool {
    copy matches Op::CopyD2d { dst, src, .. } && (writes(launch, src) || writes(launch, dst)
        || reads(launch, dst))
}

/// A launch overwrites what a copy read or wrote.
pub open spec fn launch_meets(copy: Op, launch: Op) -> bool {
    copy matches Op::CopyD2d { dst, src, .. } && (writes(launch, src) || writes(launch, dst))
}

/// Between a launch and a later copy that touches what the launch wrote, or
/// overwrites what it read, the host waits.
pub open spec fn copies_wait(ops: Seq<Op>) -> bool {
    forall|j: int, i: int|
        0 <= j < i < ops.len() && is_launch(#[trigger] ops[j]) && copy_meets(
            ops[j],
            #[trigger] ops[i],
        ) ==> wait_between(ops, j, i)
}

/// Between a copy and a later launch that overwrites what the copy read or wrote,
/// the host waits.
pub open spec fn launches_wait(ops: Seq<Op>) -> bool {
    forall|j: int, i: int|
        0 <= j < i < ops.len() && is_launch(#[trigger] ops[i]) && launch_meets(
            #[trigger] ops[j],
            ops[i],
        ) ==> wait_between(ops, j, i)
}

/// In the n-gram embedding the host waits wherever a kernel and a copy could
/// meet in a buffer.
pub proof fn embedding_keeps_its_order(
    s: Shape,
    part: Part,
    il: usize,
    state: Option<GdnState>,
    t: u32,
)
    ensures
        copies_wait(ple_device(s, part, il, state, t).ops),
        launches_wait(ple_device(s, part, il, state, t).ops),
{
    let ops = ple_device(s, part, il, state, t).ops;
    assert(ops[7] == Op::Sync);
    assert(ops[10] == Op::Sync);
}

/// A copy of a row's embedding or of its collapsed streams into the projection's
/// input.
spec fn is_pairing(op: Op) -> bool {
    op matches Op::CopyD2d { dst, src, .. } && dst == Buf::State(St::MtpX) && (src == Buf::State(
        St::MtpE,
    ) || src == Buf::State(St::MtpH))
}

proof fn lemma_interleave_pairs(s: Shape, n: int)
    ensures
        forall|i: int|
            0 <= i < interleave(s, n).len() ==> is_pairing(#[trigger] interleave(s, n)[i]),
    decreases n,
{
    if n > 0 {
        lemma_interleave_pairs(s, n - 1);
        let front = interleave(s, n - 1);
        let ops = interleave(s, n);
        assert forall|i: int| 0 <= i < ops.len() implies is_pairing(#[trigger] ops[i]) by {
            if i < front.len() {
                assert(ops[i] == front[i]);
            }
        }
    }
}

/// Where the drafting block's cache is filled, no kernel on the way to the
/// block's layer overwrites what a copy may still read or write: the streams are
/// replaced only after the host has waited for the copies that keep them.
pub proof fn streams_are_kept_before_they_go(s: Shape, mtp: MtpW, n: u32)
    ensures
        launches_wait(fill_input(s, mtp, n)),
{
    let a = hidden_rows(s, n);
    let b = fill_norms(s, mtp, n);
    let c = interleave(s, n as int);
    let d = fill_project(s, n);
    let ops = fill_input(s, mtp, n);
    lemma_interleave_pairs(s, n as int);
    let nb = a.len() as int;
    let nc = nb + b.len();
    let nd = nc + c.len();
    assert(ops.len() == nd + 4);
    assert forall|i: int| 0 <= i < nb implies ops[i] == #[trigger] a[i] by {}
    assert forall|i: int| nb <= i < nc implies #[trigger] ops[i] == b[i - nb] by {}
    assert forall|i: int| nc <= i < nd implies #[trigger] ops[i] == c[i - nc] by {}
    assert forall|i: int| nd <= i < nd + 4 implies #[trigger] ops[i] == d[i - nd] by {}
    assert(ops[nd + 2] == Op::Sync);
    assert forall|j: int, i: int|
        0 <= j < i < ops.len() && is_launch(#[trigger] ops[i]) && launch_meets(
            #[trigger] ops[j],
            ops[i],
        ) implies wait_between(ops, j, i) by {
        if nc <= j < nd {
            assert(is_pairing(c[j - nc]));
        }
        if nc <= i < nd {
            assert(is_pairing(c[i - nc]));
        }
    }
}

} // verus!
