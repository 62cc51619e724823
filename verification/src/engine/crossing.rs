//! Copies between cards, and the waits in front of them.

use crate::engine::access::{drained, lemma_drained_add};
use crate::engine::blocks::{project_out, quant_for, reset_states, zero_kda, KdaState, Place};
use crate::engine::ops::{Op, Plan, Sc, Wt};
use crate::engine::shape::{MatKind, Shape};
use vstd::prelude::*;

verus! {

pub proof fn lemma_and_drained(a: Plan, b: Plan)
    requires
        drained(a.ops),
        drained(b.ops),
    ensures
        drained(a.and(b).ops),
{
    lemma_drained_add(a.ops, b.ops);
}

/// A list without copies between cards.
pub open spec fn no_crossing(ops: Seq<Op>) -> bool {
    forall|i: int| 0 <= i < ops.len() ==> !(#[trigger] ops[i] is CopyAcross)
}

pub proof fn lemma_project_out_drained(
    s: Shape,
    at: Place,
    kind: MatKind,
    w: Wt,
    x: Sc,
    in_dim: u32,
)
    ensures
        drained(project_out(s, at, kind, w, x, in_dim)),
{
    let ops = project_out(s, at, kind, w, x, in_dim);
    let q = quant_for(kind, at.sc(Sc::Xq), at.sc(x), in_dim);
    if at.dev != at.primary {
        assert(ops.len() == q.len() + 4);
        assert(ops[q.len() as int + 1] == Op::Sync);
        assert(ops[q.len() as int + 2] is CopyAcross);
        assert forall|i: int| 0 <= i < ops.len() && #[trigger] ops[i] is CopyAcross implies i > 0
            && ops[i - 1] == Op::Sync by {}
    } else {
        assert(no_crossing(ops));
    }
}

pub proof fn lemma_reset_drained(states: Seq<Option<KdaState>>, n: int)
    ensures
        drained(reset_states(states, n)),
    decreases n,
{
    if n > 0 {
        lemma_reset_drained(states, n - 1);
        let mine = match states[n - 1] {
            Some(k) => seq![Op::SetDevice(k.dev)] + zero_kda((n - 1) as usize, k),
            None => Seq::empty(),
        };
        assert(drained(mine));
        lemma_drained_add(reset_states(states, n - 1), mine);
    }
}

} // verus!
