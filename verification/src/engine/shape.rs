//! What a plan is made for: the model's widths, its layers, and the cards the
//! layers stand on.

use vstd::prelude::*;

verus! {

/// Values in a q8_K block.
pub const Q8_K_BLOCK_ELEMS: u64 = 256;

/// Bytes of a q8_K block.
pub const Q8_K_BLOCK_BYTES: u64 = 292;

/// Widths and counts of a model.
#[derive(Debug, Clone, Copy, PartialEq, Eq, Structural)]
pub struct Shape {
    pub n_embd: u32,
    pub n_vocab: u32,
    /// layers that run
    pub n_exec_layer: u32,
    /// leading layers with a dense feed-forward half
    pub n_leading_dense: u32,
    pub n_head: u32,
    pub n_head_kv: u32,
    pub head_dim: u32,
    /// leading dims of a head that rotate
    pub rot_dim: u32,
    pub n_expert: u32,
    pub n_expert_used: u32,
    pub n_expert_groups: u32,
    pub n_group_used: u32,
    /// width of the latent experts; 0 where there are none
    pub n_expert_latent: u32,
    pub n_ff_exp: u32,
    pub n_ff_shexp: u32,
    pub n_ff_dense: u32,
    /// activation of the feed-forward mid
    pub moe_act_op: u32,
    pub n_lora_q: u32,
    pub n_kv_lora: u32,
    pub qk_rope: u32,
    pub qk_nope: u32,
    /// width of a query head of the latent attention
    pub qk_dim: u32,
    pub value_mla: u32,
    pub kda_head_dim: u32,
    /// layers between two banked residuals; 0 banks none
    pub attn_res_block: u32,
    pub ssm_conv_k: u32,
    pub ssm_k_heads: u32,
    pub ssm_v_heads: u32,
    pub ssm_state: u32,
    /// every such layer is a full-attention layer
    pub full_attn_interval: u32,
    /// residual streams
    pub n_hc: u32,
    pub hc_low_rank: u32,
    pub n_idx_topk: u32,
    pub qsa_ratio: u32,
    /// the layer with the n-gram embedding; negative where none has it
    pub ple_layer: i32,
    pub ple_ngram: u32,
    pub ple_heads_per_ngram: u32,
    pub ple_head_dim: u32,
    pub ple_conv_k: u32,
    pub ple_eos_tok: u32,
}

/// Encoding of a weight matrix.
#[derive(Debug, Clone, Copy, PartialEq, Eq, Structural)]
pub enum MatKind {
    /// multiplies the values themselves
    Q8,
    /// multiplies the q8_K quantization of the values
    Kq,
}

pub open spec fn spec_either(a: MatKind, b: MatKind) -> MatKind {
    if a == MatKind::Kq {
        a
    } else {
        b
    }
}

/// The encoding that asks for a quantization where one of the two does.
#[verifier::when_used_as_spec(spec_either)]
pub fn either(a: MatKind, b: MatKind) -> (r: MatKind)
    ensures
        r == spec_either(a, b),
{
    if a == MatKind::Kq {
        a
    } else {
        b
    }
}

/// Weights of a KDA mixer.
#[derive(Debug, Clone, Copy, PartialEq, Eq, Structural)]
pub struct KdaW {
    pub wq: MatKind,
    pub wk: MatKind,
    pub wv: MatKind,
    pub wg: MatKind,
    pub f_a: MatKind,
    pub beta_w: MatKind,
    pub out: MatKind,
}

/// Weights of a latent-attention mixer.
#[derive(Debug, Clone, Copy, PartialEq, Eq, Structural)]
pub struct MlaW {
    pub gate: MatKind,
    pub out: MatKind,
}

/// Weights of a shared expert.
#[derive(Debug, Clone, Copy, PartialEq, Eq, Structural)]
pub struct ShexpW {
    pub gate: MatKind,
    pub up: MatKind,
    pub down: MatKind,
}

/// Projections into and out of the space of the latent experts.
#[derive(Debug, Clone, Copy, PartialEq, Eq, Structural)]
pub struct RoutedW {
    pub down: MatKind,
    pub up: MatKind,
    /// there is a norm on what comes back
    pub norm: bool,
}

/// Attention half of a K3 layer.
#[derive(Debug, Clone, Copy, PartialEq, Eq, Structural)]
pub struct K3W {
    pub kda: Option<KdaW>,
    pub mla: Option<MlaW>,
    pub shexp: Option<ShexpW>,
    pub routed: Option<RoutedW>,
}

/// Attention half of a Bailing layer.
#[derive(Debug, Clone, Copy, PartialEq, Eq, Structural)]
pub struct BailingW {
    pub kda: Option<KdaW>,
    pub mla: Option<MlaW>,
}

/// Mixer of the residual streams.
#[derive(Debug, Clone, Copy, PartialEq, Eq, Structural)]
pub struct Qwen38Hc {
    pub down: MatKind,
    pub up: MatKind,
    /// bytes of the injection weights; up to four stand for none
    pub inject_bytes: u64,
}

/// Gated DeltaNet mixer.
#[derive(Debug, Clone, Copy, PartialEq, Eq, Structural)]
pub struct Qwen38Gdn {
    pub wqkv: MatKind,
    pub wz: MatKind,
    pub ssm_out: MatKind,
}

/// Gated full attention.
#[derive(Debug, Clone, Copy, PartialEq, Eq, Structural)]
pub struct Qwen38Attn {
    pub wq: MatKind,
    pub wk: MatKind,
    pub wv: MatKind,
    pub out: MatKind,
    pub has_indexer: bool,
}

/// Attention half of a qwen38 layer.
#[derive(Debug, Clone, Copy, PartialEq, Eq, Structural)]
pub struct Qwen38W {
    pub hc_attn: Qwen38Hc,
    pub hc_ffn: Qwen38Hc,
    pub gdn: Option<Qwen38Gdn>,
    pub attn: Option<Qwen38Attn>,
    /// the layer has the weights of the n-gram embedding
    pub ple: bool,
}

/// Attention half of a layer.
#[derive(Debug, Clone, Copy, PartialEq, Eq, Structural)]
pub enum Attn {
    K3(K3W),
    Bailing(BailingW),
    Qwen38(Qwen38W),
    Other,
}

/// Feed-forward half of a layer.
#[derive(Debug, Clone, Copy, PartialEq, Eq, Structural)]
pub enum Ffn {
    Dense,
    /// `shexp`: with a shared expert
    Moe { shexp: bool },
    Other,
}

/// A layer.
#[derive(Debug, Clone, Copy, PartialEq, Eq, Structural)]
pub struct LayerW {
    pub attn: Attn,
    pub ffn: Ffn,
}

/// The block that drafts the next token.
#[derive(Debug, Clone, Copy, PartialEq, Eq, Structural)]
pub struct MtpW {
    pub layer: LayerW,
    /// it has an embedding table of its own
    pub tok_embd: bool,
    /// it has an output head of its own
    pub output_w: bool,
}

/// Hash parameters of the n-gram embedding.
pub struct PleHash {
    /// one multiplier for each place of the n-gram
    pub mult: Vec<u64>,
    /// rows of each head's part of the table
    pub vocab: Vec<u64>,
    /// first row of each head's part
    pub offs: Vec<u64>,
}

/// The n-gram embedding table in the model file.
#[derive(Debug, Clone, Copy, PartialEq, Eq, Structural)]
pub struct PleEntry {
    /// offset from the start of the tensor data
    pub offset: u64,
    pub rows: u64,
}

/// A model, as far as a plan depends on it.
pub struct Model {
    pub shape: Shape,
    pub layers: Vec<LayerW>,
    /// card of each layer's attention half; layers past the end stand on the
    /// primary card
    pub attn_layer_dev: Vec<i32>,
    /// card of each layer
    pub layer_dev: Vec<i32>,
    /// there is a score for the last mix over the banked residuals
    pub output_res_score: bool,
    /// there is an output norm
    pub output_norm: bool,
    pub output_hc: Option<Qwen38Hc>,
    pub mtp: Option<MtpW>,
    /// layers with a clamp of their own on the shared expert
    pub n_clamp: usize,
    /// there is a softcap on the logits
    pub softcap: bool,
    /// there is a scale on the logits
    pub logit_scale: bool,
    /// logits that count
    pub n_vocab_out: u32,
    pub ple_hash: PleHash,
    pub ple_entry: Option<PleEntry>,
    /// start of the tensor data in the model file
    pub data_offset: u64,
}

impl Shape {
    pub open spec fn spec_d_inner(self) -> u32 {
        (self.n_head * self.kda_head_dim) as u32
    }

    /// Width of a KDA mixer.
    #[verifier::when_used_as_spec(spec_d_inner)]
    pub fn d_inner(self) -> (r: u32)
        requires
            self.n_head * self.kda_head_dim <= u32::MAX,
        ensures
            r == self.spec_d_inner(),
    {
        self.n_head * self.kda_head_dim
    }

    pub open spec fn spec_mla_out(self) -> u32 {
        (self.n_head * self.value_mla) as u32
    }

    /// Width of what the latent attention gives.
    #[verifier::when_used_as_spec(spec_mla_out)]
    pub fn mla_out(self) -> (r: u32)
        requires
            self.n_head * self.value_mla <= u32::MAX,
        ensures
            r == self.spec_mla_out(),
    {
        self.n_head * self.value_mla
    }

    pub open spec fn spec_mla_q(self) -> u32 {
        (self.n_head * self.qk_dim) as u32
    }

    /// Width of the queries of the latent attention.
    #[verifier::when_used_as_spec(spec_mla_q)]
    pub fn mla_q(self) -> (r: u32)
        requires
            self.n_head * self.qk_dim <= u32::MAX,
        ensures
            r == self.spec_mla_q(),
    {
        self.n_head * self.qk_dim
    }

    pub open spec fn spec_kv_raw(self) -> u32 {
        (self.n_kv_lora + self.qk_rope) as u32
    }

    /// Width of a raw latent row.
    #[verifier::when_used_as_spec(spec_kv_raw)]
    pub fn kv_raw(self) -> (r: u32)
        requires
            self.n_kv_lora + self.qk_rope <= u32::MAX,
        ensures
            r == self.spec_kv_raw(),
    {
        self.n_kv_lora + self.qk_rope
    }

    pub open spec fn spec_mla_low(self) -> u32 {
        (self.n_head * self.n_kv_lora) as u32
    }

    /// Width of the queries in the latent space.
    #[verifier::when_used_as_spec(spec_mla_low)]
    pub fn mla_low(self) -> (r: u32)
        requires
            self.n_head * self.n_kv_lora <= u32::MAX,
        ensures
            r == self.spec_mla_low(),
    {
        self.n_head * self.n_kv_lora
    }

    /// The widths of the KDA and latent-attention mixers fit their type.
    pub open spec fn mixers_fit(self) -> bool {
        &&& self.n_head * self.kda_head_dim <= u32::MAX
        &&& self.n_head * self.value_mla <= u32::MAX
        &&& self.n_head * self.qk_dim <= u32::MAX
        &&& self.n_kv_lora + self.qk_rope <= u32::MAX
        &&& self.n_head * self.n_kv_lora <= u32::MAX
    }

    pub open spec fn spec_kda_state_bytes(self) -> u64 {
        (self.n_head * self.kda_head_dim * self.kda_head_dim * 4) as u64
    }

    /// Bytes of a KDA layer's delta-rule state.
    #[verifier::when_used_as_spec(spec_kda_state_bytes)]
    pub fn kda_state_bytes(self) -> (r: u64)
        requires
            self.mixers_fit(),
            self.n_head * self.kda_head_dim * self.kda_head_dim * 4 <= u64::MAX,
        ensures
            r == self.spec_kda_state_bytes(),
    {
        proof {
            let d: int = self.n_head * self.kda_head_dim;
            let e: int = self.kda_head_dim as int;
            assert(d * e <= 0xffff_ffff * 0xffff_ffff) by (nonlinear_arith)
                requires
                    0 <= d <= 0xffff_ffff,
                    0 <= e <= 0xffff_ffff,
            ;
            assert(d * e >= 0) by (nonlinear_arith)
                requires
                    0 <= d,
                    0 <= e,
            ;
        }
        let d: u64 = self.d_inner() as u64;
        d * (self.kda_head_dim as u64) * 4
    }

    pub open spec fn spec_kda_conv_bytes(self) -> u64 {
        ((self.ssm_conv_k - 1) * (self.n_head * self.kda_head_dim) * 4) as u64
    }

    /// Bytes of one conv window of a KDA layer.
    #[verifier::when_used_as_spec(spec_kda_conv_bytes)]
    pub fn kda_conv_bytes(self) -> (r: u64)
        requires
            self.mixers_fit(),
            1 <= self.ssm_conv_k,
            (self.ssm_conv_k - 1) * (self.n_head * self.kda_head_dim) * 4 <= u64::MAX,
        ensures
            r == self.spec_kda_conv_bytes(),
    {
        proof {
            let d: int = self.n_head * self.kda_head_dim;
            let e: int = self.ssm_conv_k - 1;
            assert(e * d <= 0xffff_ffff * 0xffff_ffff) by (nonlinear_arith)
                requires
                    0 <= d <= 0xffff_ffff,
                    0 <= e <= 0xffff_ffff,
            ;
            assert(e * d >= 0) by (nonlinear_arith)
                requires
                    0 <= d,
                    0 <= e,
            ;
        }
        let d: u64 = self.d_inner() as u64;
        ((self.ssm_conv_k - 1) as u64) * d * 4
    }

    /// The recurrent states of the KDA layers have a size.
    pub open spec fn kda_states_fit(self) -> bool {
        &&& self.mixers_fit()
        &&& 1 <= self.ssm_conv_k
        &&& self.n_head * self.kda_head_dim * self.kda_head_dim * 4 <= u64::MAX
        &&& (self.ssm_conv_k - 1) * (self.n_head * self.kda_head_dim) * 4 <= u64::MAX
    }
}

pub open spec fn spec_times(a: u32, b: u32) -> u32 {
    (a * b) as u32
}

/// A product of two widths or counts.
#[verifier::when_used_as_spec(spec_times)]
pub fn times(a: u32, b: u32) -> (r: u32)
    requires
        a * b <= u32::MAX,
    ensures
        r == spec_times(a, b),
{
    a * b
}

pub open spec fn spec_f32_bytes(n: u32) -> u64 {
    (n * 4) as u64
}

/// Bytes of `n` values.
#[verifier::when_used_as_spec(spec_f32_bytes)]
pub fn f32_bytes(n: u32) -> (r: u64)
    ensures
        r == spec_f32_bytes(n),
{
    n as u64 * 4
}

pub open spec fn spec_q8k_bytes(n: u32) -> u64 {
    ((n + 255) / 256 * 292) as u64
}

/// Bytes of the q8_K quantization of a row of `n` values.
#[verifier::when_used_as_spec(spec_q8k_bytes)]
pub fn q8k_bytes(n: u32) -> (r: u64)
    ensures
        r == spec_q8k_bytes(n),
{
    (n as u64 + (Q8_K_BLOCK_ELEMS - 1)) / Q8_K_BLOCK_ELEMS * Q8_K_BLOCK_BYTES
}

pub open spec fn spec_larger(a: u32, b: u32) -> u32 {
    if a >= b {
        a
    } else {
        b
    }
}

/// The larger of two.
#[verifier::when_used_as_spec(spec_larger)]
pub fn larger(a: u32, b: u32) -> (r: u32)
    ensures
        r == spec_larger(a, b),
{
    if a >= b {
        a
    } else {
        b
    }
}

impl Model {
    /// Card of a layer's attention half.
    pub open spec fn attn_dev(self, il: usize, primary: i32) -> i32 {
        if il < self.attn_layer_dev@.len() {
            self.attn_layer_dev@[il as int]
        } else {
            primary
        }
    }

    /// Finds the card of a layer's attention half.
    pub fn find_attn_dev(&self, il: usize, primary: i32) -> (r: i32)
        ensures
            r == self.attn_dev(il, primary),
    {
        if il < self.attn_layer_dev.len() {
            self.attn_layer_dev[il]
        } else {
            primary
        }
    }
}

/// The cards of the layers and the primary card, ascending, each once.
pub open spec fn is_card_list(devs: Seq<i32>, primary: i32, cards: Seq<i32>) -> bool {
    &&& forall|i: int, j: int| 0 <= i < j < cards.len() ==> cards[i] < cards[j]
    &&& forall|d: i32| #[trigger] cards.contains(d) <==> devs.contains(d) || d == primary
}

/// Puts a card into an ascending list, where it is not there yet.
fn add_card(cards: &mut Vec<i32>, d: i32)
    requires
        forall|i: int, j: int| 0 <= i < j < old(cards)@.len() ==> old(cards)@[i] < old(cards)@[j],
    ensures
        forall|i: int, j: int|
            0 <= i < j < final(cards)@.len() ==> final(cards)@[i] < final(cards)@[j],
        forall|x: i32| #[trigger]
            final(cards)@.contains(x) <==> old(cards)@.contains(x) || x == d,
{
    let mut i: usize = 0;
    while i < cards.len() && cards[i] < d
        invariant
            i <= cards@.len(),
            cards@ == old(cards)@,
            forall|k: int| 0 <= k < i ==> cards@[k] < d,
        decreases cards@.len() - i,
    {
        i = i + 1;
    }
    let ghost was = cards@;
    if i < cards.len() && cards[i] == d {
        assert(was[i as int] == d);
        return ;
    }
    cards.insert(i, d);
    proof {
        let now = cards@;
        assert(now[i as int] == d);
        assert forall|x: i32| #[trigger] now.contains(x) <==> was.contains(x) || x == d by {
            if now.contains(x) && x != d {
                let k = choose|k: int| 0 <= k < now.len() && now[k] == x;
                if k < i {
                    assert(was[k] == x);
                } else {
                    assert(was[k - 1] == x);
                }
            }
            if was.contains(x) {
                let k = choose|k: int| 0 <= k < was.len() && was[k] == x;
                if k < i {
                    assert(now[k] == x);
                } else {
                    assert(now[k + 1] == x);
                }
            }
        }
    }
}

/// Lists the cards that need scratch: those of the layers, and the primary.
pub fn card_list(devs: &Vec<i32>, primary: i32) -> (cards: Vec<i32>)
    ensures
        is_card_list(devs@, primary, cards@),
{
    let mut cards: Vec<i32> = Vec::new();
    cards.push(primary);
    let mut i: usize = 0;
    assert(cards@[0] == primary);
    while i < devs.len()
        invariant
            i <= devs@.len(),
            forall|a: int, b: int| 0 <= a < b < cards@.len() ==> cards@[a] < cards@[b],
            forall|d: i32| #[trigger]
                cards@.contains(d) <==> devs@.take(i as int).contains(d) || d == primary,
        decreases devs@.len() - i,
    {
        let ghost was = cards@;
        add_card(&mut cards, devs[i]);
        proof {
            let old_part = devs@.take(i as int);
            let new_part = devs@.take(i + 1);
            assert(new_part =~= old_part.push(devs@[i as int]));
            assert forall|d: i32| #[trigger]
                cards@.contains(d) <==> new_part.contains(d) || d == primary by {
                assert(new_part[i as int] == devs@[i as int]);
                if old_part.contains(d) {
                    let k = choose|k: int| 0 <= k < old_part.len() && old_part[k] == d;
                    assert(new_part[k] == d);
                }
                if new_part.contains(d) && d != devs@[i as int] {
                    let k = choose|k: int| 0 <= k < new_part.len() && new_part[k] == d;
                    assert(old_part[k] == d);
                }
                assert(cards@.contains(d) <==> was.contains(d) || d == devs@[i as int]);
            }
        }
        i = i + 1;
    }
    assert(devs@.take(i as int) =~= devs@);
    cards
}

} // verus!
