//! Which batches are taken up, and which layers run.

use crate::engine::bailing::blocks::layer as bailing_layer_plan;
use crate::engine::bailing::BailingRt;
use crate::engine::blocks::batch_ok;
use crate::engine::error::EngineError;
use crate::engine::k3::blocks::layer as k3_layer_plan;
use crate::engine::k3::K3Rt;
use crate::engine::shape::{Attn, Model};
use vstd::prelude::*;

verus! {

/// A batch is taken up exactly where it has tokens and ends in the context; a batch
/// without tokens is told so first.
pub proof fn batch_is_taken(n: nat, pos0: u32, ctx: u32)
    ensures
        batch_ok(n, pos0, ctx) is Ok <==> 0 < n && pos0 + n <= ctx,
        n == 0 <==> batch_ok(n, pos0, ctx) == Err::<(), EngineError>(EngineError::EmptyBatch),
        n > 0 && pos0 + n > ctx <==> batch_ok(n, pos0, ctx) == Err::<(), EngineError>(
            EngineError::PositionExceedsContext,
        ),
{
}

/// The card of a layer's attention half.
pub open spec fn card_of(m: Model, il: int, primary: i32) -> i32 {
    if il < m.attn_layer_dev@.len() {
        m.attn_layer_dev@[il]
    } else {
        primary
    }
}

/// A K3 layer runs exactly where its card has scratch, its mixer is there, with its
/// state where it has one, and its feed-forward half is dense or has latent experts.
pub proof fn k3_layer_runs(m: Model, rt: K3Rt, il: usize, k: u32, pos: u32, ctx: u32)
    ensures
        m.k3_layer(rt, il, k, pos, ctx).end is Ok <==> {
            let l = m.layers@[il as int];
            let here = rt.scratch@.contains(card_of(m, il as int, rt.primary));
            &&& l.attn matches Attn::K3(a)
            &&& here
            &&& a.kda is Some ==> rt.states@[il as int] is Some
            &&& a.kda is Some || a.mla is Some
            &&& l.ffn is Dense || (l.ffn is Moe && a.routed is Some && rt.scratch@.contains(
                rt.primary,
            ))
        },
{
    reveal(k3_layer_plan);
}

/// A Bailing layer runs exactly where its card has scratch, its mixer is there, with
/// its state where it has one, and its feed-forward half is dense or has experts.
pub proof fn bailing_layer_runs(m: Model, rt: BailingRt, il: usize, pos: u32, ctx: u32)
    ensures
        m.bailing_layer(rt, il, pos, ctx).end is Ok <==> {
            let l = m.layers@[il as int];
            let here = rt.scratch@.contains(card_of(m, il as int, rt.primary));
            &&& l.attn matches Attn::Bailing(a)
            &&& here
            &&& a.kda is Some ==> rt.states@[il as int] is Some
            &&& a.kda is Some || a.mla is Some
            &&& l.ffn is Dense || l.ffn is Moe
        },
{
    reveal(bailing_layer_plan);
}

} // verus!
