//! The tensors that a Kimi-K3 model has to hold, with the dims that its
//! configuration implies, and what of them a model file lacks.

use crate::engine::shape::Shape;
use crate::expert::{Gguf, TensorInfo};
use crate::text::{decimal, list_text, push_decimal, push_list, same};
use vstd::prelude::*;

verus! {

/// A wanted tensor: its name, and its leading dims where they matter.
pub ghost struct Wanted {
    pub name: Seq<char>,
    pub dims: Seq<u64>,
}

/// A wanted tensor: its name, and its leading dims where they matter.
pub struct Want {
    pub name: String,
    pub dims: Vec<u64>,
}

impl View for Want {
    type V = Wanted;

    open spec fn view(&self) -> Wanted {
        Wanted { name: self.name@, dims: self.dims@ }
    }
}

/// What the list says.
pub open spec fn listed(v: Seq<Want>) -> Seq<Wanted> {
    v.map_values(|w: Want| w@)
}

/// The full name of a part of a layer.
pub open spec fn part_name(il: u32, part: Seq<char>) -> Seq<char> {
    "blk."@ + decimal(il as nat) + "."@ + part
}

/// The wanted tensor of a layer.
pub open spec fn in_layer(il: u32, part: Seq<char>, dims: Seq<u64>) -> Wanted {
    Wanted { name: part_name(il, part), dims }
}

/// No dims that matter.
fn any() -> (r: Vec<u64>)
    ensures
        r@ == Seq::<u64>::empty(),
{
    Vec::new()
}

fn one(a: u64) -> (r: Vec<u64>)
    ensures
        r@ == seq![a],
{
    let mut r: Vec<u64> = Vec::new();
    r.push(a);
    assert(r@ =~= seq![a]);
    r
}

fn two(a: u64, b: u64) -> (r: Vec<u64>)
    ensures
        r@ == seq![a, b],
{
    let mut r: Vec<u64> = Vec::new();
    r.push(a);
    r.push(b);
    assert(r@ =~= seq![a, b]);
    r
}

fn three(a: u64, b: u64, c: u64) -> (r: Vec<u64>)
    ensures
        r@ == seq![a, b, c],
{
    let mut r: Vec<u64> = Vec::new();
    r.push(a);
    r.push(b);
    r.push(c);
    assert(r@ =~= seq![a, b, c]);
    r
}

/// A product of two widths.
fn product(a: u32, b: u32) -> (r: u64)
    ensures
        r == a * b,
{
    assert(a * b <= 0xffff_ffff * 0xffff_ffff) by (nonlinear_arith)
        requires
            a <= 0xffff_ffff,
            b <= 0xffff_ffff,
    ;
    a as u64 * b as u64
}

/// The full name of a part of a layer.
fn layer_part(il: u32, part: &str) -> (r: String)
    ensures
        r@ == part_name(il, part@),
{
    let mut name = String::new();
    name.append("blk.");
    push_decimal(&mut name, il as u64);
    name.append(".");
    name.append(part);
    assert(name@ =~= part_name(il, part@));
    name
}

fn push_in_layer(out: &mut Vec<Want>, il: u32, part: &str, dims: Vec<u64>)
    ensures
        listed(final(out)@) == listed(old(out)@).push(in_layer(il, part@, dims@)),
{
    let name = layer_part(il, part);
    out.push(Want { name, dims });
    assert(listed(out@) =~= listed(old(out)@).push(in_layer(il, part@, dims@)));
}

fn push_whole(out: &mut Vec<Want>, name: &str, dims: Vec<u64>)
    ensures
        listed(final(out)@) == listed(old(out)@).push(Wanted { name: name@, dims: dims@ }),
{
    let name = name.to_string();
    out.push(Want { name, dims });
    assert(listed(out@) =~= listed(old(out)@).push(Wanted { name: name@, dims: dims@ }));
}

/// The norms around a layer.
pub open spec fn norm_wants(s: Shape, il: u32) -> Seq<Wanted> {
    let n_embd = s.n_embd as u64;
    seq![
        in_layer(il, "attn_norm.weight"@, seq![n_embd]),
        in_layer(il, "ffn_norm.weight"@, seq![n_embd]),
    ]
}

fn push_norm_wants(out: &mut Vec<Want>, s: Shape, il: u32)
    ensures
        listed(final(out)@) == listed(old(out)@) + norm_wants(s, il),
{
    let n_embd: u64 = s.n_embd as u64;
    push_in_layer(out, il, "attn_norm.weight", one(n_embd));
    push_in_layer(out, il, "ffn_norm.weight", one(n_embd));
    assert(listed(out@) =~= listed(old(out)@) + norm_wants(s, il));
}

/// The scores of the residuals over depth.
pub open spec fn score_wants(s: Shape, il: u32) -> Seq<Wanted> {
    let n_embd = s.n_embd as u64;
    seq![
        in_layer(il, "attn_res_score.weight"@, seq![n_embd]),
        in_layer(il, "ffn_res_score.weight"@, seq![n_embd]),
    ]
}

fn push_score_wants(out: &mut Vec<Want>, s: Shape, il: u32)
    ensures
        listed(final(out)@) == listed(old(out)@) + score_wants(s, il),
{
    let n_embd: u64 = s.n_embd as u64;
    push_in_layer(out, il, "attn_res_score.weight", one(n_embd));
    push_in_layer(out, il, "ffn_res_score.weight", one(n_embd));
    assert(listed(out@) =~= listed(old(out)@) + score_wants(s, il));
}

/// A KDA mixer.
pub open spec fn kda_wants(s: Shape, il: u32) -> Seq<Wanted> {
    let n_embd = s.n_embd as u64;
    let d_inner = (s.n_head * s.kda_head_dim) as u64;
    let conv = s.ssm_conv_k as u64;
    let head = s.kda_head_dim as u64;
    let n_head = s.n_head as u64;
    seq![
        in_layer(il, "attn_q.weight"@, seq![n_embd, d_inner]),
        in_layer(il, "attn_k.weight"@, seq![n_embd, d_inner]),
        in_layer(il, "attn_v.weight"@, seq![n_embd, d_inner]),
        in_layer(il, "ssm_conv1d_q.weight"@, seq![conv]),
        in_layer(il, "ssm_conv1d_k.weight"@, seq![conv]),
        in_layer(il, "ssm_conv1d_v.weight"@, seq![conv]),
        in_layer(il, "ssm_f_a.weight"@, seq![n_embd, head]),
        in_layer(il, "ssm_f_b.weight"@, seq![head, d_inner]),
        in_layer(il, "ssm_beta.weight"@, seq![n_embd, n_head]),
        in_layer(il, "ssm_a"@, seq![n_head]),
        in_layer(il, "ssm_dt.bias"@, seq![d_inner]),
        in_layer(il, "ssm_g.weight"@, seq![n_embd, d_inner]),
        in_layer(il, "ssm_norm.weight"@, seq![head]),
    ]
}

fn push_kda_wants(out: &mut Vec<Want>, s: Shape, il: u32)
    ensures
        listed(final(out)@) == listed(old(out)@) + kda_wants(s, il),
{
    let n_embd: u64 = s.n_embd as u64;
    let d_inner: u64 = product(s.n_head, s.kda_head_dim);
    let conv: u64 = s.ssm_conv_k as u64;
    let head: u64 = s.kda_head_dim as u64;
    let n_head: u64 = s.n_head as u64;
    push_in_layer(out, il, "attn_q.weight", two(n_embd, d_inner));
    push_in_layer(out, il, "attn_k.weight", two(n_embd, d_inner));
    push_in_layer(out, il, "attn_v.weight", two(n_embd, d_inner));
    push_in_layer(out, il, "ssm_conv1d_q.weight", one(conv));
    push_in_layer(out, il, "ssm_conv1d_k.weight", one(conv));
    push_in_layer(out, il, "ssm_conv1d_v.weight", one(conv));
    push_in_layer(out, il, "ssm_f_a.weight", two(n_embd, head));
    push_in_layer(out, il, "ssm_f_b.weight", two(head, d_inner));
    push_in_layer(out, il, "ssm_beta.weight", two(n_embd, n_head));
    push_in_layer(out, il, "ssm_a", one(n_head));
    push_in_layer(out, il, "ssm_dt.bias", one(d_inner));
    push_in_layer(out, il, "ssm_g.weight", two(n_embd, d_inner));
    push_in_layer(out, il, "ssm_norm.weight", one(head));
    assert(listed(out@) =~= listed(old(out)@) + kda_wants(s, il));
}

/// A latent-attention mixer.
pub open spec fn mla_wants(s: Shape, il: u32) -> Seq<Wanted> {
    let n_embd = s.n_embd as u64;
    let lora_q = s.n_lora_q as u64;
    let q = (s.n_head * s.qk_dim) as u64;
    let kv_raw = (s.n_kv_lora + s.qk_rope) as u64;
    let kv_lora = s.n_kv_lora as u64;
    let nope = s.qk_nope as u64;
    let n_head = s.n_head as u64;
    let value = s.value_mla as u64;
    let mla_out = (s.n_head * s.value_mla) as u64;
    seq![
        in_layer(il, "attn_q_a.weight"@, seq![n_embd, lora_q]),
        in_layer(il, "attn_q_a_norm.weight"@, seq![lora_q]),
        in_layer(il, "attn_q_b.weight"@, seq![lora_q, q]),
        in_layer(il, "attn_kv_a_mqa.weight"@, seq![n_embd, kv_raw]),
        in_layer(il, "attn_kv_a_norm.weight"@, seq![kv_lora]),
        in_layer(il, "attn_k_b.weight"@, seq![nope, kv_lora, n_head]),
        in_layer(il, "attn_v_b.weight"@, seq![kv_lora, value, n_head]),
        in_layer(il, "attn_gate.weight"@, seq![n_embd, mla_out]),
    ]
}

fn push_mla_wants(out: &mut Vec<Want>, s: Shape, il: u32)
    ensures
        listed(final(out)@) == listed(old(out)@) + mla_wants(s, il),
{
    let n_embd: u64 = s.n_embd as u64;
    let lora_q: u64 = s.n_lora_q as u64;
    let q: u64 = product(s.n_head, s.qk_dim);
    let kv_raw: u64 = s.n_kv_lora as u64 + s.qk_rope as u64;
    let kv_lora: u64 = s.n_kv_lora as u64;
    let nope: u64 = s.qk_nope as u64;
    let n_head: u64 = s.n_head as u64;
    let value: u64 = s.value_mla as u64;
    let mla_out: u64 = product(s.n_head, s.value_mla);
    push_in_layer(out, il, "attn_q_a.weight", two(n_embd, lora_q));
    push_in_layer(out, il, "attn_q_a_norm.weight", one(lora_q));
    push_in_layer(out, il, "attn_q_b.weight", two(lora_q, q));
    push_in_layer(out, il, "attn_kv_a_mqa.weight", two(n_embd, kv_raw));
    push_in_layer(out, il, "attn_kv_a_norm.weight", one(kv_lora));
    push_in_layer(out, il, "attn_k_b.weight", three(nope, kv_lora, n_head));
    push_in_layer(out, il, "attn_v_b.weight", three(kv_lora, value, n_head));
    push_in_layer(out, il, "attn_gate.weight", two(n_embd, mla_out));
    assert(listed(out@) =~= listed(old(out)@) + mla_wants(s, il));
}

/// A mixer's way out.
pub open spec fn out_wants(s: Shape, il: u32) -> Seq<Wanted> {
    let mla_out = (s.n_head * s.value_mla) as u64;
    let n_embd = s.n_embd as u64;
    seq![
        in_layer(il, "attn_output.weight"@, seq![mla_out, n_embd]),
    ]
}

fn push_out_wants(out: &mut Vec<Want>, s: Shape, il: u32)
    ensures
        listed(final(out)@) == listed(old(out)@) + out_wants(s, il),
{
    let mla_out: u64 = product(s.n_head, s.value_mla);
    let n_embd: u64 = s.n_embd as u64;
    push_in_layer(out, il, "attn_output.weight", two(mla_out, n_embd));
    assert(listed(out@) =~= listed(old(out)@) + out_wants(s, il));
}

/// A dense feed-forward half.
pub open spec fn dense_wants(s: Shape, il: u32) -> Seq<Wanted> {
    let n_embd = s.n_embd as u64;
    let ff = s.n_ff_dense as u64;
    seq![
        in_layer(il, "ffn_gate.weight"@, seq![n_embd, ff]),
        in_layer(il, "ffn_up.weight"@, seq![n_embd, ff]),
        in_layer(il, "ffn_down.weight"@, seq![ff, n_embd]),
    ]
}

fn push_dense_wants(out: &mut Vec<Want>, s: Shape, il: u32)
    ensures
        listed(final(out)@) == listed(old(out)@) + dense_wants(s, il),
{
    let n_embd: u64 = s.n_embd as u64;
    let ff: u64 = s.n_ff_dense as u64;
    push_in_layer(out, il, "ffn_gate.weight", two(n_embd, ff));
    push_in_layer(out, il, "ffn_up.weight", two(n_embd, ff));
    push_in_layer(out, il, "ffn_down.weight", two(ff, n_embd));
    assert(listed(out@) =~= listed(old(out)@) + dense_wants(s, il));
}

/// A feed-forward half of experts; the shared expert may have any dims.
pub open spec fn expert_wants(s: Shape, il: u32) -> Seq<Wanted> {
    let n_embd = s.n_embd as u64;
    let n_expert = s.n_expert as u64;
    let latent = s.n_expert_latent as u64;
    let ff = s.n_ff_exp as u64;
    seq![
        in_layer(il, "ffn_gate_inp.weight"@, seq![n_embd, n_expert]),
        in_layer(il, "exp_probs_b.bias"@, seq![n_expert]),
        in_layer(il, "ffn_routed_down.weight"@, seq![n_embd, latent]),
        in_layer(il, "ffn_routed_up.weight"@, seq![latent, n_embd]),
        in_layer(il, "ffn_routed_norm.weight"@, seq![latent]),
        in_layer(il, "ffn_gate_exps.weight"@, seq![latent, ff, n_expert]),
        in_layer(il, "ffn_up_exps.weight"@, seq![latent, ff, n_expert]),
        in_layer(il, "ffn_down_exps.weight"@, seq![ff, latent, n_expert]),
        in_layer(il, "ffn_gate_shexp.weight"@, Seq::<u64>::empty()),
        in_layer(il, "ffn_up_shexp.weight"@, Seq::<u64>::empty()),
        in_layer(il, "ffn_down_shexp.weight"@, Seq::<u64>::empty()),
    ]
}

fn push_expert_wants(out: &mut Vec<Want>, s: Shape, il: u32)
    ensures
        listed(final(out)@) == listed(old(out)@) + expert_wants(s, il),
{
    let n_embd: u64 = s.n_embd as u64;
    let n_expert: u64 = s.n_expert as u64;
    let latent: u64 = s.n_expert_latent as u64;
    let ff: u64 = s.n_ff_exp as u64;
    push_in_layer(out, il, "ffn_gate_inp.weight", two(n_embd, n_expert));
    push_in_layer(out, il, "exp_probs_b.bias", one(n_expert));
    push_in_layer(out, il, "ffn_routed_down.weight", two(n_embd, latent));
    push_in_layer(out, il, "ffn_routed_up.weight", two(latent, n_embd));
    push_in_layer(out, il, "ffn_routed_norm.weight", one(latent));
    push_in_layer(out, il, "ffn_gate_exps.weight", three(latent, ff, n_expert));
    push_in_layer(out, il, "ffn_up_exps.weight", three(latent, ff, n_expert));
    push_in_layer(out, il, "ffn_down_exps.weight", three(ff, latent, n_expert));
    push_in_layer(out, il, "ffn_gate_shexp.weight", any());
    push_in_layer(out, il, "ffn_up_shexp.weight", any());
    push_in_layer(out, il, "ffn_down_shexp.weight", any());
    assert(listed(out@) =~= listed(old(out)@) + expert_wants(s, il));
}

/// The wanted tensors of a layer.
pub open spec fn layer_wants(s: Shape, il: u32, kda: bool) -> Seq<Wanted> {
    norm_wants(s, il) + (if s.attn_res_block > 0 {
        score_wants(s, il)
    } else {
        Seq::empty()
    }) + (if kda {
        kda_wants(s, il)
    } else {
        mla_wants(s, il)
    }) + out_wants(s, il) + (if il < s.n_leading_dense {
        dense_wants(s, il)
    } else {
        expert_wants(s, il)
    })
}

/// A layer is a KDA layer where the model holds its decay.
pub open spec fn is_kda(g: &Gguf, il: u32) -> bool {
    first_named(g.tensors@, part_name(il, "ssm_a"@), 0) is Some
}

/// The wanted tensors of the first `n` layers.
pub open spec fn layers_wants(s: Shape, g: &Gguf, n: int) -> Seq<Wanted>
    decreases n,
{
    if n <= 0 {
        Seq::empty()
    } else {
        layers_wants(s, g, n - 1) + layer_wants(s, (n - 1) as u32, is_kda(g, (n - 1) as u32))
    }
}

/// The wanted tensors outside the layers.
pub open spec fn global_wants(s: Shape) -> Seq<Wanted> {
    let n_embd = s.n_embd as u64;
    let n_vocab = s.n_vocab as u64;
    seq![
        (Wanted { name: "token_embd.weight"@, dims: seq![n_embd, n_vocab] }),
        (Wanted { name: "output_norm.weight"@, dims: seq![n_embd] }),
        (Wanted { name: "output.weight"@, dims: seq![n_embd, n_vocab] }),
    ] + (if s.attn_res_block > 0 {
        seq![(Wanted { name: "output_res_score.weight"@, dims: seq![n_embd] })]
    } else {
        Seq::empty()
    })
}

/// All wanted tensors, layer by layer.
pub open spec fn all_wants(s: Shape, g: &Gguf) -> Seq<Wanted> {
    layers_wants(s, g, s.n_exec_layer as int) + global_wants(s)
}

/// The number of KDA layers among the first `n`.
pub open spec fn kda_layers(g: &Gguf, n: int) -> nat
    decreases n,
{
    if n <= 0 {
        0
    } else {
        kda_layers(g, n - 1) + (if is_kda(g, (n - 1) as u32) {
            1nat
        } else {
            0nat
        })
    }
}

/// The first tensor of this name from number `i` on.
pub open spec fn first_named(ts: Seq<TensorInfo>, name: Seq<char>, i: int) -> Option<int>
    decreases ts.len() - i,
{
    if i >= ts.len() {
        None
    } else if ts[i].name@ == name {
        Some(i)
    } else {
        first_named(ts, name, i + 1)
    }
}

/// The dims do not start with the wanted ones.  A tensor with fewer dims than
/// are wanted is not held to them.
pub open spec fn differs(dims: Seq<u64>, want: Seq<u64>) -> bool {
    want.len() > 0 && dims.len() >= want.len() && dims.take(want.len() as int) != want
}

/// The names of the wanted tensors that are missing.
pub open spec fn missing(g: &Gguf, ws: Seq<Wanted>) -> Seq<Seq<char>>
    decreases ws.len(),
{
    if ws.len() == 0 {
        Seq::empty()
    } else {
        let w = ws.last();
        let before = missing(g, ws.drop_last());
        if first_named(g.tensors@, w.name, 0) is None {
            before.push(w.name)
        } else {
            before
        }
    }
}

/// What is said of a wanted tensor with other dims.
pub open spec fn complaint(w: Wanted, dims: Seq<u64>) -> Seq<char> {
    w.name + ": want "@ + list_text(w.dims) + " got "@ + list_text(dims)
}

/// The complaints about the wanted tensors that have other dims.
pub open spec fn wrong(g: &Gguf, ws: Seq<Wanted>) -> Seq<Seq<char>>
    decreases ws.len(),
{
    if ws.len() == 0 {
        Seq::empty()
    } else {
        let w = ws.last();
        let before = wrong(g, ws.drop_last());
        match first_named(g.tensors@, w.name, 0) {
            Some(i) if differs(g.tensors@[i].dims@, w.dims) => before.push(
                complaint(w, g.tensors@[i].dims@),
            ),
            _ => before,
        }
    }
}

/// What a model file lacks.
pub struct Report {
    pub n_kda: u32,
    pub n_mla: u32,
    pub missing: Vec<String>,
    pub wrong: Vec<String>,
}

/// The texts of a list.
pub open spec fn texts(v: Seq<String>) -> Seq<Seq<char>> {
    v.map_values(|t: String| t@)
}

impl Report {
    /// Every wanted tensor is there with the wanted dims.
    pub fn ok(&self) -> (r: bool)
        ensures
            r <==> self.missing@.len() == 0 && self.wrong@.len() == 0,
    {
        self.missing.len() == 0 && self.wrong.len() == 0
    }
}

/// The first tensor of this name.
pub fn find(ts: &Vec<TensorInfo>, name: &str) -> (r: Option<usize>)
    ensures
        match r {
            Some(i) => first_named(ts@, name@, 0) == Some(i as int) && i < ts@.len(),
            None => first_named(ts@, name@, 0) is None,
        },
{
    let mut i: usize = 0;
    while i < ts.len()
        invariant
            i <= ts@.len(),
            first_named(ts@, name@, 0) == first_named(ts@, name@, i as int),
        decreases ts@.len() - i,
    {
        if same(ts[i].name.as_str(), name) {
            return Some(i);
        }
        i = i + 1;
    }
    None
}

/// Whether the dims do not start with the wanted ones.
fn dims_differ(dims: &Vec<u64>, want: &Vec<u64>) -> (r: bool)
    ensures
        r == differs(dims@, want@),
{
    if want.len() == 0 || dims.len() < want.len() {
        return false;
    }
    for i in 0..want.len()
        invariant
            0 < want.len() <= dims.len(),
            forall|j: int| 0 <= j < i ==> #[trigger] dims@[j] == want@[j],
    {
        if dims[i] != want[i] {
            assert(dims@.take(want@.len() as int)[i as int] != want@[i as int]);
            return true;
        }
    }
    assert(dims@.take(want@.len() as int) =~= want@);
    false
}

fn push_layer_wants(out: &mut Vec<Want>, s: Shape, il: u32, kda: bool)
    ensures
        listed(final(out)@) == listed(old(out)@) + layer_wants(s, il, kda),
{
    push_norm_wants(out, s, il);
    if s.attn_res_block > 0 {
        push_score_wants(out, s, il);
    }
    if kda {
        push_kda_wants(out, s, il);
    } else {
        push_mla_wants(out, s, il);
    }
    push_out_wants(out, s, il);
    if il < s.n_leading_dense {
        push_dense_wants(out, s, il);
    } else {
        push_expert_wants(out, s, il);
    }
    assert(listed(out@) =~= listed(old(out)@) + layer_wants(s, il, kda));
}

fn push_global_wants(out: &mut Vec<Want>, s: Shape)
    ensures
        listed(final(out)@) == listed(old(out)@) + global_wants(s),
{
    let n_embd: u64 = s.n_embd as u64;
    let n_vocab: u64 = s.n_vocab as u64;
    push_whole(out, "token_embd.weight", two(n_embd, n_vocab));
    push_whole(out, "output_norm.weight", one(n_embd));
    push_whole(out, "output.weight", two(n_embd, n_vocab));
    if s.attn_res_block > 0 {
        push_whole(out, "output_res_score.weight", one(n_embd));
    }
    assert(listed(out@) =~= listed(old(out)@) + global_wants(s));
}

/// Looks for every tensor that the loader asks for.
pub fn check_tensors(s: Shape, g: &Gguf) -> (r: Report)
    ensures
        r.n_kda == kda_layers(g, s.n_exec_layer as int),
        r.n_mla == s.n_exec_layer - r.n_kda,
        texts(r.missing@) == missing(g, all_wants(s, g)),
        texts(r.wrong@) == wrong(g, all_wants(s, g)),
{
    let mut wants: Vec<Want> = Vec::new();
    let mut n_kda: u32 = 0;
    assert(listed(wants@) =~= Seq::<Wanted>::empty());
    for il in 0..s.n_exec_layer
        invariant
            n_kda <= il,
            n_kda == kda_layers(g, il as int),
            listed(wants@) == layers_wants(s, g, il as int),
    {
        let name = layer_part(il, "ssm_a");
        let kda = find(&g.tensors, name.as_str()).is_some();
        if kda {
            n_kda = n_kda + 1;
        }
        push_layer_wants(&mut wants, s, il, kda);
    }
    push_global_wants(&mut wants, s);
    let (missing, wrong) = compare(g, &wants);
    Report { n_kda, n_mla: s.n_exec_layer - n_kda, missing, wrong }
}

/// Holds the wanted tensors against the directory.
pub fn compare(g: &Gguf, wants: &Vec<Want>) -> (r: (Vec<String>, Vec<String>))
    ensures
        texts(r.0@) == missing(g, listed(wants@)),
        texts(r.1@) == wrong(g, listed(wants@)),
{
    let mut lost: Vec<String> = Vec::new();
    let mut bad: Vec<String> = Vec::new();
    let ghost ws = listed(wants@);
    assert(texts(lost@) =~= missing(g, ws.take(0)));
    assert(texts(bad@) =~= wrong(g, ws.take(0)));
    for i in 0..wants.len()
        invariant
            ws == listed(wants@),
            texts(lost@) == missing(g, ws.take(i as int)),
            texts(bad@) == wrong(g, ws.take(i as int)),
    {
        let w = &wants[i];
        let ghost lost0 = lost@;
        let ghost bad0 = bad@;
        assert(ws.take(i + 1).drop_last() =~= ws.take(i as int));
        assert(ws.take(i + 1).last() == w@);
        match find(&g.tensors, w.name.as_str()) {
            None => {
                lost.push(w.name.clone());
                assert(texts(lost@) =~= texts(lost0).push(w.name@));
            },
            Some(k) => {
                let t = &g.tensors[k];
                if dims_differ(&t.dims, &w.dims) {
                    let mut m = w.name.clone();
                    m.append(": want ");
                    push_list(&mut m, &w.dims);
                    m.append(" got ");
                    push_list(&mut m, &t.dims);
                    assert(m@ =~= complaint(w@, t.dims@));
                    bad.push(m);
                    assert(texts(bad@) =~= texts(bad0).push(complaint(w@, t.dims@)));
                }
            },
        }
    }
    assert(ws.take(ws.len() as int) =~= ws);
    (lost, bad)
}

/// Nothing is missing and nothing complained about exactly where every wanted
/// tensor is in the file and none has other dims.
pub proof fn nothing_to_report(g: &Gguf, ws: Seq<Wanted>)
    ensures
        missing(g, ws).len() == 0 && wrong(g, ws).len() == 0 <==> forall|k: int|
            0 <= k < ws.len() ==> (first_named(g.tensors@, (#[trigger] ws[k]).name, 0) matches Some(
                i,
            ) && !differs(g.tensors@[i].dims@, ws[k].dims)),
    decreases ws.len(),
{
    if ws.len() > 0 {
        nothing_to_report(g, ws.drop_last());
        assert forall|k: int| 0 <= k < ws.len() - 1 implies ws[k] == #[trigger] ws.drop_last()[k] by {
        }
        let last = ws.len() - 1;
        assert(ws.last() == ws[last]);
        if forall|k: int|
            0 <= k < ws.len() ==> (first_named(g.tensors@, (#[trigger] ws[k]).name, 0) matches Some(
                i,
            ) && !differs(g.tensors@[i].dims@, ws[k].dims)) {
            assert forall|k: int| 0 <= k < ws.drop_last().len() implies (first_named(
                g.tensors@,
                (#[trigger] ws.drop_last()[k]).name,
                0,
            ) matches Some(i) && !differs(g.tensors@[i].dims@, ws.drop_last()[k].dims)) by {
                assert(ws.drop_last()[k] == ws[k]);
            }
        } else if missing(g, ws).len() == 0 && wrong(g, ws).len() == 0 {
            assert forall|k: int| 0 <= k < ws.len() implies (first_named(
                g.tensors@,
                (#[trigger] ws[k]).name,
                0,
            ) matches Some(i) && !differs(g.tensors@[i].dims@, ws[k].dims)) by {
                if k < last {
                    assert(ws.drop_last()[k] == ws[k]);
                }
            }
        }
    }
}

} // verus!
