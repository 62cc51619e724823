//! The weights in the file are as wide as the rows that a layer multiplies them with.

use crate::engine::blocks::{dense_ffn, mla_core, Place};
use crate::engine::k3::blocks::{kda_project, mla_query, route, routed_half};
use crate::engine::k3::tensors::{
    dense_wants, expert_wants, kda_wants, layer_wants, mla_wants, Wanted,
};
use crate::engine::ops::{Buf, Op, Rope, Wt};
use crate::engine::shape::{KdaW, RoutedW, Shape};
use crate::text::decimal;
use vstd::prelude::*;

verus! {

/// What the file calls a weight of a layer.
pub open spec fn file_part(w: Wt) -> Option<Seq<char>> {
    match w {
        Wt::AttnNorm => Some("attn_norm.weight"@),
        Wt::FfnNorm => Some("ffn_norm.weight"@),
        Wt::KdaWq => Some("attn_q.weight"@),
        Wt::KdaWk => Some("attn_k.weight"@),
        Wt::KdaWv => Some("attn_v.weight"@),
        Wt::KdaWg => Some("ssm_g.weight"@),
        Wt::KdaFa => Some("ssm_f_a.weight"@),
        Wt::KdaFb => Some("ssm_f_b.weight"@),
        Wt::KdaBeta => Some("ssm_beta.weight"@),
        Wt::MlaQa => Some("attn_q_a.weight"@),
        Wt::MlaQaNorm => Some("attn_q_a_norm.weight"@),
        Wt::MlaQb => Some("attn_q_b.weight"@),
        Wt::MlaKvA => Some("attn_kv_a_mqa.weight"@),
        Wt::MlaGate => Some("attn_gate.weight"@),
        Wt::FfnGate => Some("ffn_gate.weight"@),
        Wt::FfnUp => Some("ffn_up.weight"@),
        Wt::FfnDown => Some("ffn_down.weight"@),
        Wt::GateInp => Some("ffn_gate_inp.weight"@),
        Wt::RoutedDown => Some("ffn_routed_down.weight"@),
        Wt::RoutedUp => Some("ffn_routed_up.weight"@),
        Wt::RoutedNorm => Some("ffn_routed_norm.weight"@),
        _ => None,
    }
}

/// The weight that a kernel multiplies a row with, and how wide it takes it to be.
pub open spec fn factor(op: Op) -> Option<(Buf, Seq<u64>)> {
    match op {
        Op::MatmulQ8 { w, in_dim, out_dim, .. } => Some((w, seq![in_dim as u64, out_dim as u64])),
        Op::MatmulKq { w, in_dim, out_dim, .. } => Some((w, seq![in_dim as u64, out_dim as u64])),
        Op::MatmulF32 { w, in_dim, out_dim, .. } => Some((w, seq![in_dim as u64, out_dim as u64])),
        Op::RmsNorm { w, n, .. } => Some((w, seq![n as u64])),
        _ => None,
    }
}

/// A kernel takes its weight to be as wide as the file is asked to hold it.
pub open spec fn as_wide_as_wanted(s: Shape, il: usize, kda: bool, op: Op) -> bool {
    match factor(op) {
        Some((Buf::Layer(at, w), dims)) => {
            &&& at == il
            &&& file_part(w) is Some
            &&& layer_wants(s, il as u32, kda).contains(
                Wanted {
                    name: "blk."@ + decimal(il as nat) + "."@ + file_part(w)->Some_0,
                    dims,
                },
            )
        },
        _ => true,
    }
}

/// All kernels of a list do.
pub open spec fn all_as_wide(s: Shape, il: usize, kda: bool, ops: Seq<Op>) -> bool {
    forall|i: int| 0 <= i < ops.len() ==> as_wide_as_wanted(s, il, kda, #[trigger] ops[i])
}

proof fn lemma_mixer_wanted(s: Shape, il: u32, kda: bool, j: int)
    ensures
        kda && 0 <= j < kda_wants(s, il).len() ==> layer_wants(s, il, kda).contains(
            kda_wants(s, il)[j],
        ),
        !kda && 0 <= j < mla_wants(s, il).len() ==> layer_wants(s, il, kda).contains(
            mla_wants(s, il)[j],
        ),
{
    let base: int = 2 + if s.attn_res_block > 0 {
        2int
    } else {
        0int
    };
    let all = layer_wants(s, il, kda);
    if kda && 0 <= j < kda_wants(s, il).len() {
        assert(all[base + j] == kda_wants(s, il)[j]);
    }
    if !kda && 0 <= j < mla_wants(s, il).len() {
        assert(all[base + j] == mla_wants(s, il)[j]);
    }
}

proof fn lemma_ffn_wanted(s: Shape, il: u32, kda: bool, j: int)
    ensures
        il < s.n_leading_dense && 0 <= j < 3 ==> layer_wants(s, il, kda).contains(
            dense_wants(s, il)[j],
        ),
        il >= s.n_leading_dense && 0 <= j < 11 ==> layer_wants(s, il, kda).contains(
            expert_wants(s, il)[j],
        ),
{
    let base: int = 3 + (if s.attn_res_block > 0 {
        2int
    } else {
        0int
    }) + (if kda {
        13int
    } else {
        8int
    });
    let all = layer_wants(s, il, kda);
    if il < s.n_leading_dense && 0 <= j < 3 {
        assert(all[base + j] == dense_wants(s, il)[j]);
    }
    if il >= s.n_leading_dense && 0 <= j < 11 {
        assert(all[base + j] == expert_wants(s, il)[j]);
    }
}

/// The projections of a delta-rule mixer take every weight as the file is asked to
/// hold it.
pub proof fn kda_weights_are_wanted(s: Shape, at: Place, w: KdaW)
    requires
        s.mixers_fit(),
        at.il <= u32::MAX,
    ensures
        all_as_wide(s, at.il, true, kda_project(s, at, w)),
{
    let il = at.il as u32;
    lemma_mixer_wanted(s, il, true, 0);
    lemma_mixer_wanted(s, il, true, 1);
    lemma_mixer_wanted(s, il, true, 2);
    lemma_mixer_wanted(s, il, true, 6);
    lemma_mixer_wanted(s, il, true, 7);
    lemma_mixer_wanted(s, il, true, 8);
    lemma_mixer_wanted(s, il, true, 11);
}

/// So do the projections of the latent attention.
pub proof fn mla_weights_are_wanted(s: Shape, at: Place, pos: u32, ctx: u32, rope: Rope)
    requires
        s.mixers_fit(),
        at.il <= u32::MAX,
    ensures
        all_as_wide(s, at.il, false, mla_query(s, at)),
        all_as_wide(s, at.il, false, mla_core(s, at, pos, ctx, rope)),
{
    let il = at.il as u32;
    lemma_mixer_wanted(s, il, false, 0);
    lemma_mixer_wanted(s, il, false, 1);
    lemma_mixer_wanted(s, il, false, 2);
    lemma_mixer_wanted(s, il, false, 3);
}

/// So does a dense feed-forward half.
pub proof fn dense_weights_are_wanted(s: Shape, il: usize, kda: bool)
    requires
        il < s.n_leading_dense,
    ensures
        all_as_wide(s, il, kda, dense_ffn(s, il)),
{
    lemma_ffn_wanted(s, il as u32, kda, 0);
    lemma_ffn_wanted(s, il as u32, kda, 1);
    lemma_ffn_wanted(s, il as u32, kda, 2);
}

/// So do the router and the projections into the latent space and back.
pub proof fn expert_weights_are_wanted(s: Shape, at: Place, kda: bool, w: RoutedW)
    requires
        s.n_leading_dense <= at.il <= u32::MAX,
        s.n_expert_latent > 0,
    ensures
        all_as_wide(s, at.il, kda, route(s, at.il)),
        all_as_wide(s, at.il, kda, routed_half(s, at, w)),
{
    let il = at.il as u32;
    lemma_ffn_wanted(s, il, kda, 0);
    lemma_ffn_wanted(s, il, kda, 2);
    lemma_ffn_wanted(s, il, kda, 3);
    lemma_ffn_wanted(s, il, kda, 4);
}

} // verus!
