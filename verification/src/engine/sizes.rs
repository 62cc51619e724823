//! How large the buffers are: as large as what they hold, and no larger.

use crate::engine::bailing::scratch_bytes as bailing_scratch_bytes;
use crate::engine::k3::{bank_rows, k3_bytes, scratch_bytes};
use crate::engine::ops::{K3Buf, Q38, Sc};
use crate::engine::ple::ple_hist_cols;
use crate::engine::qwen38::runtime::{buffers_fit, gdn_states_fit, rt_bytes};
use crate::engine::shape::{Attn, Model, Shape};
use vstd::prelude::*;

verus! {

/// A buffer holds a row of `n` values, and no more.
pub open spec fn holds_row(bytes: u64, n: int) -> bool {
    bytes as int == 4 * n
}

/// A buffer holds the blocks of 256 that a row of `n` values is packed in, and no
/// block more.
pub open spec fn holds_packed(bytes: u64, n: int) -> bool {
    let k = bytes as int / 292;
    &&& bytes as int == 292 * k
    &&& 256 * (k - 1) < n <= 256 * k
}

/// The larger of two numbers.
pub open spec fn most(a: int, b: int) -> int {
    if a < b {
        b
    } else {
        a
    }
}

proof fn lemma_packed(n: u32)
    ensures
        holds_packed(((n + 255) / 256 * 292) as u64, n as int),
{
}

/// The widths of the mixers that the K3 and bailing paths share.
pub open spec fn mixer_scratch(s: Shape, ctx: u32, bytes: spec_fn(Sc) -> u64) -> bool {
    let d = s.n_head * s.kda_head_dim;
    &&& holds_row(bytes(Sc::NormedA), s.n_embd as int)
    &&& holds_row(bytes(Sc::AttnOutA), s.n_embd as int)
    &&& holds_row(bytes(Sc::Q), d)
    &&& holds_row(bytes(Sc::K), d)
    &&& holds_row(bytes(Sc::V), d)
    &&& holds_row(bytes(Sc::Cq), d)
    &&& holds_row(bytes(Sc::Ck), d)
    &&& holds_row(bytes(Sc::Cv), d)
    &&& holds_row(bytes(Sc::G), d)
    &&& holds_row(bytes(Sc::O), d)
    &&& holds_row(bytes(Sc::Gate), d)
    &&& holds_row(bytes(Sc::Beta), s.n_head as int)
    &&& holds_row(bytes(Sc::Mq), s.n_head * s.qk_dim)
    &&& holds_row(bytes(Sc::KvRaw), s.n_kv_lora + s.qk_rope)
    &&& holds_row(bytes(Sc::KvNorm), s.n_kv_lora as int)
    &&& holds_row(bytes(Sc::QkLow), s.n_head * s.n_kv_lora)
    &&& holds_row(bytes(Sc::Heads), s.n_head * s.value_mla)
    &&& holds_row(bytes(Sc::Selected), ctx as int)
}

proof fn lemma_products(s: Shape)
    requires
        s.mixers_fit(),
    ensures
        0 <= s.n_head * s.kda_head_dim,
        0 <= s.n_head * s.qk_dim,
        0 <= s.n_head * s.n_kv_lora,
        0 <= s.n_head * s.value_mla,
{
    let h = s.n_head as int;
    let d = s.kda_head_dim as int;
    let q = s.qk_dim as int;
    let l = s.n_kv_lora as int;
    let v = s.value_mla as int;
    assert(0 <= h * d) by (nonlinear_arith)
        requires
            0 <= h,
            0 <= d,
    ;
    assert(0 <= h * q) by (nonlinear_arith)
        requires
            0 <= h,
            0 <= q,
    ;
    assert(0 <= h * l) by (nonlinear_arith)
        requires
            0 <= h,
            0 <= l,
    ;
    assert(0 <= h * v) by (nonlinear_arith)
        requires
            0 <= h,
            0 <= v,
    ;
}

/// The scratch of the K3 path: every buffer takes the one row it is for, and the
/// packed one the widest of the rows that are packed into it.
pub proof fn k3_scratch_is_sized(s: Shape, ctx: u32)
    requires
        s.mixers_fit(),
    ensures
        mixer_scratch(s, ctx, |b: Sc| scratch_bytes(s, ctx, b)),
        holds_row(scratch_bytes(s, ctx, Sc::FfnNormedA), s.n_embd as int),
        holds_row(scratch_bytes(s, ctx, Sc::ShexpOut), s.n_embd as int),
        holds_packed(scratch_bytes(s, ctx, Sc::XqFfn), s.n_embd as int),
        holds_packed(scratch_bytes(s, ctx, Sc::XqMid), most(s.n_ff_shexp as int, 1)),
        holds_row(scratch_bytes(s, ctx, Sc::GateSh), most(s.n_ff_shexp as int, 1)),
        holds_row(scratch_bytes(s, ctx, Sc::UpSh), most(s.n_ff_shexp as int, 1)),
        holds_row(scratch_bytes(s, ctx, Sc::MidSh), most(s.n_ff_shexp as int, 1)),
        holds_row(scratch_bytes(s, ctx, Sc::Fa), s.kda_head_dim as int),
        holds_row(scratch_bytes(s, ctx, Sc::QRank), s.n_lora_q as int),
        holds_row(scratch_bytes(s, ctx, Sc::QRankNorm), s.n_lora_q as int),
        holds_packed(
            scratch_bytes(s, ctx, Sc::Xq),
            most(
                most(s.n_embd as int, s.n_head * s.kda_head_dim),
                most(s.n_head * s.value_mla, most(s.n_expert_latent as int, s.n_ff_exp as int)),
            ),
        ),
{
    lemma_products(s);
    lemma_packed(s.n_embd);
    lemma_packed(most(s.n_ff_shexp as int, 1) as u32);
    lemma_packed(
        most(
            most(s.n_embd as int, s.n_head * s.kda_head_dim),
            most(s.n_head * s.value_mla, most(s.n_expert_latent as int, s.n_ff_exp as int)),
        ) as u32,
    );
}

/// The buffers of the K3 runtime: the rows of the experts' latent, or of the
/// residual where there is none, and the rows of the residual.
pub proof fn k3_runtime_is_sized(s: Shape)
    ensures
        s.n_expert_latent > 0 ==> holds_row(k3_bytes(s, K3Buf::LatIn), s.n_expert_latent as int),
        s.n_expert_latent > 0 ==> holds_row(k3_bytes(s, K3Buf::LatOut), s.n_expert_latent as int),
        s.n_expert_latent == 0 ==> holds_row(k3_bytes(s, K3Buf::LatIn), s.n_embd as int),
        s.n_expert_latent == 0 ==> holds_row(k3_bytes(s, K3Buf::LatOut), s.n_embd as int),
        holds_row(k3_bytes(s, K3Buf::Mixed), s.n_embd as int),
        holds_row(k3_bytes(s, K3Buf::RoutedOut), s.n_embd as int),
{
}

/// The bank of residuals has a row for each layer whose number is a multiple of the
/// block, or a single row where there is none.
pub proof fn bank_is_sized(s: Shape)
    requires
        bank_rows(s) * s.n_embd * 4 <= u64::MAX,
    ensures
        exists|rows: int|
            {
                &&& #[trigger] holds_row(k3_bytes(s, K3Buf::Ckpt), rows * s.n_embd)
                &&& s.attn_res_block == 0 || s.n_exec_layer == 0 ==> rows == 1
                &&& s.attn_res_block > 0 && s.n_exec_layer > 0 ==> s.attn_res_block * (rows - 1)
                    < s.n_exec_layer <= s.attn_res_block * rows
            },
{
    let rows = bank_rows(s);
    let e = s.n_embd as int;
    assert(0 <= rows * e) by (nonlinear_arith)
        requires
            1 <= rows,
            0 <= e,
    ;
    if s.attn_res_block > 0 {
        let b = s.attn_res_block as int;
        let n = s.n_exec_layer as int;
        let q = (n + b - 1) / b;
        vstd::arithmetic::div_mod::lemma_fundamental_div_mod(n + b - 1, b);
        vstd::arithmetic::div_mod::lemma_mod_bound(n + b - 1, b);
        assert(b * (q - 1) == b * q - b) by (nonlinear_arith);
        assert(n > 0 ==> q >= 1) by (nonlinear_arith)
            requires
                n + b - 1 == b * q + (n + b - 1) % b,
                0 <= (n + b - 1) % b < b,
                b > 0,
        ;
        assert(n == 0 ==> q <= 0) by (nonlinear_arith)
            requires
                n + b - 1 == b * q + (n + b - 1) % b,
                0 <= (n + b - 1) % b < b,
                b > 0,
        ;
    }
    assert(holds_row(k3_bytes(s, K3Buf::Ckpt), rows * s.n_embd));
}

/// The scratch of the bailing path, likewise.
pub proof fn bailing_scratch_is_sized(s: Shape, ctx: u32)
    requires
        s.mixers_fit(),
    ensures
        mixer_scratch(s, ctx, |b: Sc| bailing_scratch_bytes(s, ctx, b)),
        holds_packed(
            bailing_scratch_bytes(s, ctx, Sc::Xq),
            most(
                most(s.n_embd as int, s.n_head * s.kda_head_dim),
                most(s.n_head * s.value_mla, s.n_ff_exp as int),
            ),
        ),
{
    lemma_products(s);
    lemma_packed(
        most(
            most(s.n_embd as int, s.n_head * s.kda_head_dim),
            most(s.n_head * s.value_mla, s.n_ff_exp as int),
        ) as u32,
    );
}

/// A K3 layer has a state exactly where it mixes by the delta rule.  The state lies
/// on the card of the layer's attention, or on the primary card past the end of the
/// list; it has a matrix for every head, and a window that is one shorter than the
/// conv.
pub proof fn k3_states_are_sized(m: Model, il: int, primary: i32)
    requires
        0 <= il < m.shape.n_exec_layer <= m.layers@.len(),
        m.shape.kda_states_fit(),
    ensures
        m.k3_state(il, primary) is Some <==> (exists|w|
            m.layers@[il].attn == Attn::K3(w) && w.kda is Some),
        m.k3_state(il, primary) matches Some(k) ==> {
            &&& k.dev == if il < m.attn_layer_dev@.len() {
                m.attn_layer_dev@[il]
            } else {
                primary
            }
            &&& holds_row(
                k.s_bytes,
                m.shape.n_head * m.shape.kda_head_dim * m.shape.kda_head_dim,
            )
            &&& holds_row(
                k.conv_bytes,
                (m.shape.ssm_conv_k - 1) * (m.shape.n_head * m.shape.kda_head_dim),
            )
        },
{
    lemma_state_bytes(m.shape);
}

/// A bailing layer likewise.
pub proof fn bailing_states_are_sized(m: Model, il: int, primary: i32)
    requires
        0 <= il < m.shape.n_exec_layer <= m.layers@.len(),
        m.shape.kda_states_fit(),
    ensures
        m.bailing_state(il, primary) is Some <==> (exists|w|
            m.layers@[il].attn == Attn::Bailing(w) && w.kda is Some),
        m.bailing_state(il, primary) matches Some(k) ==> {
            &&& k.dev == if il < m.attn_layer_dev@.len() {
                m.attn_layer_dev@[il]
            } else {
                primary
            }
            &&& holds_row(
                k.s_bytes,
                m.shape.n_head * m.shape.kda_head_dim * m.shape.kda_head_dim,
            )
            &&& holds_row(
                k.conv_bytes,
                (m.shape.ssm_conv_k - 1) * (m.shape.n_head * m.shape.kda_head_dim),
            )
        },
{
    lemma_state_bytes(m.shape);
}

proof fn lemma_state_bytes(s: Shape)
    requires
        s.kda_states_fit(),
    ensures
        holds_row(s.kda_state_bytes(), s.n_head * s.kda_head_dim * s.kda_head_dim),
        holds_row(s.kda_conv_bytes(), (s.ssm_conv_k - 1) * (s.n_head * s.kda_head_dim)),
{
    lemma_products(s);
    let d = s.n_head * s.kda_head_dim;
    let e = s.kda_head_dim as int;
    let k = s.ssm_conv_k - 1;
    assert(0 <= d * e) by (nonlinear_arith)
        requires
            0 <= d,
            0 <= e,
    ;
    assert(0 <= k * d) by (nonlinear_arith)
        requires
            0 <= d,
            0 <= k,
    ;
}

/// A buffer holds rows of `n` values for the sixteen tokens of a chunk.
pub open spec fn holds_chunk(bytes: u64, n: int) -> bool {
    holds_row(bytes, 16 * n)
}

/// A buffer holds the whole blocks of 256 that the sixteen rows of a chunk fill.
pub open spec fn holds_packed_chunk(bytes: u64, n: int) -> bool {
    let k = bytes as int / 292;
    &&& bytes as int == 292 * k
    &&& 256 * k <= 16 * n < 256 * (k + 1)
}

proof fn lemma_rows_of(a: int, b: int)
    requires
        0 <= a,
        0 <= b,
    ensures
        0 <= a * b,
{
    assert(0 <= a * b) by (nonlinear_arith)
        requires
            0 <= a,
            0 <= b,
    ;
}

/// The buffers of the qwen38 runtime that hold streams, rows of the residual or what
/// the mixers make of them: as wide as that, for every token of a chunk.
pub proof fn qwen38_runtime_is_sized(s: Shape)
    requires
        buffers_fit(s),
    ensures
        ({
            let hc = s.n_hc * s.n_embd;
            let key = s.ssm_k_heads * s.ssm_state;
            let value = s.ssm_v_heads * s.ssm_state;
            let heads = s.n_head * s.head_dim;
            let kv = s.n_head_kv * s.head_dim;
            let mid = most(most(s.n_ff_exp as int, s.n_ff_shexp as int), 1);
            &&& holds_chunk(rt_bytes(s, Q38::ResHc), hc)
            &&& holds_chunk(rt_bytes(s, Q38::Xn), hc)
            &&& holds_chunk(rt_bytes(s, Q38::Gated), hc)
            &&& holds_chunk(rt_bytes(s, Q38::Lo), s.n_hc * s.hc_low_rank)
            &&& holds_chunk(rt_bytes(s, Q38::GateFull), s.n_hc * hc)
            &&& holds_chunk(rt_bytes(s, Q38::Inj), s.n_hc as int)
            &&& holds_chunk(rt_bytes(s, Q38::Cur), s.n_embd as int)
            &&& holds_chunk(rt_bytes(s, Q38::AttnOut), s.n_embd as int)
            &&& holds_chunk(rt_bytes(s, Q38::SharedOut), s.n_embd as int)
            &&& holds_chunk(rt_bytes(s, Q38::FfnMid), mid)
            &&& holds_chunk(rt_bytes(s, Q38::GateAct), mid)
            &&& holds_chunk(rt_bytes(s, Q38::UpAct), mid)
            &&& holds_chunk(rt_bytes(s, Q38::Shg), 1)
            &&& holds_chunk(rt_bytes(s, Q38::RouterLogits), s.n_expert as int)
            &&& holds_packed_chunk(rt_bytes(s, Q38::Midq), mid)
            &&& holds_packed_chunk(rt_bytes(s, Q38::Xq), hc)
            &&& holds_packed_chunk(
                rt_bytes(s, Q38::Xq2),
                s.n_hc * most(s.n_embd as int, s.hc_low_rank as int),
            )
            &&& holds_chunk(rt_bytes(s, Q38::Qfull), 2 * heads)
            &&& holds_chunk(rt_bytes(s, Q38::GateA), heads)
            &&& holds_chunk(rt_bytes(s, Q38::Q), heads)
            &&& holds_chunk(rt_bytes(s, Q38::Heads), heads)
            &&& holds_chunk(rt_bytes(s, Q38::K), kv)
            &&& holds_chunk(rt_bytes(s, Q38::V), kv)
            &&& holds_chunk(rt_bytes(s, Q38::GdnQkv), 2 * key + value)
            &&& holds_chunk(rt_bytes(s, Q38::GdnConvOut), 2 * key + value)
            &&& holds_chunk(rt_bytes(s, Q38::GdnZ), value)
            &&& holds_chunk(rt_bytes(s, Q38::GdnGq), key)
            &&& holds_chunk(rt_bytes(s, Q38::GdnGk), key)
            &&& holds_chunk(rt_bytes(s, Q38::GdnGv), value)
            &&& holds_chunk(rt_bytes(s, Q38::GdnO), value)
            &&& holds_chunk(rt_bytes(s, Q38::GdnG), s.ssm_v_heads as int)
            &&& holds_chunk(rt_bytes(s, Q38::GdnBeta), s.ssm_v_heads as int)
        }),
{
    let hc = s.n_hc * s.n_embd;
    lemma_rows_of(s.n_hc as int, s.n_embd as int);
    lemma_rows_of(s.n_hc as int, hc);
    lemma_rows_of(s.n_hc as int, s.hc_low_rank as int);
    lemma_rows_of(s.n_hc as int, most(s.n_embd as int, s.hc_low_rank as int));
    lemma_rows_of(s.n_head as int, s.head_dim as int);
    lemma_rows_of(s.n_head_kv as int, s.head_dim as int);
    lemma_rows_of(s.ssm_k_heads as int, s.ssm_state as int);
    lemma_rows_of(s.ssm_v_heads as int, s.ssm_state as int);
}

/// The buffers of the n-gram embedding: the gathered rows of every head, a key, a
/// value and a query as wide as all streams, and room for the rows that the conv
/// looks back on before those of a chunk.
pub proof fn qwen38_embedding_is_sized(s: Shape)
    requires
        buffers_fit(s),
        1 <= s.ple_ngram,
        1 <= s.ple_conv_k,
    ensures
        ({
            let hc = s.n_hc * s.n_embd;
            let heads = (s.ple_ngram - 1) * s.ple_heads_per_ngram;
            let back = (s.ple_conv_k - 1) * s.ple_ngram;
            &&& holds_chunk(rt_bytes(s, Q38::PleEmbDev), heads * s.ple_head_dim)
            &&& holds_chunk(rt_bytes(s, Q38::PleKeyV), hc)
            &&& holds_chunk(rt_bytes(s, Q38::PleValV), hc)
            &&& holds_chunk(rt_bytes(s, Q38::PleQuery), hc)
            &&& holds_chunk(rt_bytes(s, Q38::PleNorm), hc)
            &&& holds_chunk(rt_bytes(s, Q38::PleOut), hc)
            &&& holds_chunk(rt_bytes(s, Q38::PleGate), s.n_hc as int)
            &&& holds_row(rt_bytes(s, Q38::PlePad), (back + 16) * hc)
        }),
{
    let hc = s.n_hc * s.n_embd;
    let heads = (s.ple_ngram - 1) * s.ple_heads_per_ngram;
    let back = (s.ple_conv_k - 1) * s.ple_ngram;
    lemma_rows_of(s.n_hc as int, s.n_embd as int);
    lemma_rows_of(s.ple_ngram - 1, s.ple_heads_per_ngram as int);
    lemma_rows_of(heads, s.ple_head_dim as int);
    lemma_rows_of(s.ple_conv_k - 1, s.ple_ngram as int);
    lemma_rows_of(back + 16, hc);
    assert(ple_hist_cols(&s) == back);
}

/// A qwen38 layer has a state exactly where it is not one of full attention, which
/// every so many layers there is one of.  The state lies on the layer's card; it has
/// a matrix for every value head, and a window that is one shorter than the conv.
/// The layer of the n-gram embedding keeps a history besides.
pub proof fn qwen38_states_are_sized(m: Model, il: int)
    requires
        0 <= il < m.layer_dev@.len(),
        gdn_states_fit(m.shape),
        m.shape.full_attn_interval > 0,
        1 <= m.shape.ple_ngram,
        1 <= m.shape.ple_conv_k,
    ensures
        m.gdn_state(il) is None <==> (exists|k: int| #[trigger]
            (k * m.shape.full_attn_interval) == il + 1),
        m.gdn_state(il) matches Some(g) ==> {
            let s = m.shape;
            &&& g.dev == m.layer_dev@[il]
            &&& holds_row(g.s_bytes, s.ssm_v_heads * s.ssm_state * s.ssm_state)
            &&& holds_row(
                g.conv_bytes,
                (s.ssm_conv_k - 1) * (2 * (s.ssm_k_heads * s.ssm_state) + s.ssm_v_heads
                    * s.ssm_state),
            )
            &&& g.ple_hist is Some <==> il == s.ple_layer
            &&& g.ple_hist matches Some(n) ==> holds_row(
                n,
                ((s.ple_conv_k - 1) * s.ple_ngram) * (s.n_hc * s.n_embd),
            )
        },
{
    let s = m.shape;
    let i = s.full_attn_interval as int;
    let n = il + 1;
    vstd::arithmetic::div_mod::lemma_fundamental_div_mod(n, i);
    if n % i == 0 {
        assert(n / i * i == i * (n / i)) by (nonlinear_arith);
        assert((n / i) * m.shape.full_attn_interval == il + 1);
    }
    if exists|k: int| #[trigger] (k * m.shape.full_attn_interval) == il + 1 {
        let k = choose|k: int| #[trigger] (k * m.shape.full_attn_interval) == il + 1;
        vstd::arithmetic::div_mod::lemma_mod_multiples_basic(k, i);
    }
    lemma_rows_of(s.n_hc as int, s.n_embd as int);
    lemma_rows_of(s.ssm_k_heads as int, s.ssm_state as int);
    lemma_rows_of(s.ssm_v_heads as int, s.ssm_state as int);
    lemma_rows_of(s.ssm_v_heads * s.ssm_state, s.ssm_state as int);
    lemma_rows_of(
        s.ssm_conv_k - 1,
        2 * (s.ssm_k_heads * s.ssm_state) + s.ssm_v_heads * s.ssm_state,
    );
    lemma_rows_of(s.ple_conv_k - 1, s.ple_ngram as int);
    lemma_rows_of((s.ple_conv_k - 1) * s.ple_ngram, s.n_hc * s.n_embd);
    assert(ple_hist_cols(&s) == (s.ple_conv_k - 1) * s.ple_ngram);
}

} // verus!
