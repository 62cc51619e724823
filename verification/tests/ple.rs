use pulsar::engine::error::EngineError;
use pulsar::engine::ops::Op;
use pulsar::engine::ple::{
    decode_row, gather_chunk, gather_ple_row, keep_tokens, ple_heads, ple_hist_cols,
    ple_row_bytes, Coded, PleTable,
};
use pulsar::engine::shape::{PleHash, Shape};

fn shape() -> Shape {
    Shape {
        n_embd: 256,
        n_vocab: 1000,
        n_exec_layer: 2,
        n_leading_dense: 1,
        n_head: 2,
        n_head_kv: 1,
        head_dim: 64,
        rot_dim: 16,
        n_expert: 8,
        n_expert_used: 2,
        n_expert_groups: 1,
        n_group_used: 1,
        n_expert_latent: 256,
        n_ff_exp: 96,
        n_ff_shexp: 96,
        n_ff_dense: 300,
        moe_act_op: 3,
        n_lora_q: 48,
        n_kv_lora: 64,
        qk_rope: 32,
        qk_nope: 96,
        qk_dim: 128,
        value_mla: 120,
        kda_head_dim: 128,
        attn_res_block: 0,
        ssm_conv_k: 4,
        ssm_k_heads: 1,
        ssm_v_heads: 2,
        ssm_state: 32,
        full_attn_interval: 2,
        n_hc: 2,
        hc_low_rank: 64,
        n_idx_topk: 2048,
        qsa_ratio: 4,
        ple_layer: 0,
        ple_ngram: 3,
        ple_heads_per_ngram: 2,
        ple_head_dim: 64,
        ple_conv_k: 4,
        ple_eos_tok: 5,
    }
}

fn hash() -> PleHash {
    PleHash {
        mult: vec![35184372088891, 35184372088907, 3],
        vocab: vec![1000003, 1000033, 1000037, 1000039],
        offs: vec![0, 1000003, 2000036, 3000073],
    }
}

fn table() -> PleTable {
    PleTable {
        base: 100,
        row_bytes: 36,
        rows: 4000112,
    }
}

#[test]
fn counts_of_the_embedding() {
    let mut s = shape();
    assert_eq!(ple_hist_cols(&s), 9);
    assert_eq!(ple_heads(&s), 4);
    assert_eq!(ple_row_bytes(&s), 36);
    s.ple_heads_per_ngram = 8;
    s.ple_head_dim = 160;
    assert_eq!(ple_heads(&s), 16);
    assert_eq!(ple_row_bytes(&s), 90);
    s.ple_conv_k = 0;
    assert_eq!(ple_hist_cols(&s), 0);
    s.ple_conv_k = 4;
    s.ple_ngram = 0;
    assert_eq!(ple_hist_cols(&s), 3);
    assert_eq!(ple_heads(&s), 0);
    s.ple_ngram = 1;
    assert_eq!(ple_heads(&s), 0);
    s.ple_head_dim = 31;
    assert_eq!(ple_row_bytes(&s), 0);
}

fn offsets(hist: &[u32], chunk: &[u32]) -> Vec<(u64, u64)> {
    let mut ops: Vec<Op> = Vec::new();
    gather_chunk(&hash(), &shape(), &table(), &hist.to_vec(), chunk, &mut ops).unwrap();
    ops.iter()
        .map(|o| match o {
            Op::PleRow { slot, off } => (*slot, *off),
            other => panic!("{:?}", other),
        })
        .collect()
}

fn expected(a: u64, b: u64, c: u64, first: u64) -> Vec<(u64, u64)> {
    let h = hash();
    let two = a.wrapping_mul(h.mult[0]) ^ b.wrapping_mul(h.mult[1]);
    let three = two ^ c.wrapping_mul(h.mult[2]);
    let mixed = [two, two, three, three];
    (0..4)
        .map(|i| (first + i as u64, 100 + 36 * (mixed[i] % h.vocab[i] + h.offs[i])))
        .collect()
}

#[test]
fn a_token_reads_a_row_for_each_head() {
    assert_eq!(offsets(&[], &[248000]), expected(248000, 5, 5, 0));
    let mut want = expected(9, 5, 5, 0);
    want.extend(expected(8, 9, 5, 4));
    want.extend(expected(7, 8, 9, 8));
    assert_eq!(offsets(&[], &[9, 8, 7]), want);
}

#[test]
fn predecessors_of_an_earlier_call_are_seen() {
    assert_eq!(offsets(&[11, 12], &[9]), expected(9, 12, 11, 0));
    assert_eq!(offsets(&[12], &[9]), expected(9, 12, 5, 0));
}

#[test]
fn nothing_is_seen_past_an_end_mark() {
    assert_eq!(offsets(&[11, 5], &[9]), expected(9, 5, 5, 0));
    assert_eq!(offsets(&[11, 12], &[5]), expected(5, 12, 11, 0));
    assert_eq!(offsets(&[5, 12], &[9]), expected(9, 12, 5, 0));
}

#[test]
fn chunks_read_what_the_whole_reads() {
    let whole = offsets(&[], &[20, 21, 22, 23, 24]);
    let s = shape();
    let first = offsets(&[], &[20, 21, 22]);
    let hist = keep_tokens(&s, &vec![], &[20, 21, 22]);
    let second = offsets(&hist, &[23, 24]);
    let parts: Vec<u64> = first.iter().chain(second.iter()).map(|p| p.1).collect();
    let all: Vec<u64> = whole.iter().map(|p| p.1).collect();
    assert_eq!(parts, all);
}

#[test]
fn the_last_tokens_are_kept() {
    let s = shape();
    assert_eq!(keep_tokens(&s, &vec![], &[1]), vec![1]);
    assert_eq!(keep_tokens(&s, &vec![1], &[2]), vec![1, 2]);
    assert_eq!(keep_tokens(&s, &vec![1, 2], &[3]), vec![2, 3]);
    assert_eq!(keep_tokens(&s, &vec![1, 2], &[3, 4, 5]), vec![4, 5]);
    assert_eq!(keep_tokens(&s, &vec![1, 2], &[]), vec![1, 2]);
    let a = keep_tokens(&s, &vec![1], &[2, 3]);
    assert_eq!(keep_tokens(&s, &a, &[4]), keep_tokens(&s, &vec![1], &[2, 3, 4]));
}

#[test]
fn rows_lie_one_behind_the_other() {
    let mut ops: Vec<Op> = Vec::new();
    assert_eq!(gather_ple_row(&table(), 10, 3, &mut ops), Ok(()));
    assert_eq!(ops, vec![Op::PleRow { slot: 3, off: 460 }]);
}

#[test]
fn rows_out_of_range_are_refused() {
    let mut ops: Vec<Op> = Vec::new();
    assert_eq!(
        gather_ple_row(&table(), 4000112, 0, &mut ops),
        Err(EngineError::PleRowOutOfRange { row: 4000112 })
    );
    assert_eq!(
        gather_ple_row(&table(), u64::MAX, 0, &mut ops),
        Err(EngineError::PleRowOutOfRange { row: -1 })
    );
    assert!(ops.is_empty());
}

#[test]
fn a_row_decodes_by_blocks() {
    let mut raw: Vec<u8> = vec![0; 36];
    raw[0] = 0x34;
    raw[1] = 0x12;
    raw[2] = 0xf0;
    raw[17] = 0x89;
    raw[18] = 0x01;
    raw[20] = 0x8f;
    let v = decode_row(&raw, 64);
    assert_eq!(v.len(), 64);
    let coded = |scale: u16, code: i32| Coded { scale, code };
    assert_eq!(v[0], coded(0x1234, -127));
    assert_eq!(v[16], coded(0x1234, 113));
    assert_eq!(v[15], coded(0x1234, 13));
    assert_eq!(v[31], coded(0x1234, 1));
    assert_eq!(v[32], coded(1, 113));
    assert_eq!(v[48], coded(1, 1));
    assert_eq!(decode_row(&raw, 33).len(), 32);
    assert_eq!(decode_row(&raw, 31).len(), 0);
}

#[test]
fn the_codebook_has_sixteen_values() {
    let want: [i32; 16] = [
        -127, -104, -83, -65, -49, -35, -22, -10, 1, 13, 25, 38, 53, 69, 89, 113,
    ];
    let mut raw: Vec<u8> = vec![0, 0];
    for i in 0..16u8 {
        raw.push(i);
    }
    let v = decode_row(&raw, 32);
    for i in 0..16 {
        assert_eq!(v[i].code, want[i]);
        assert_eq!(v[i + 16].code, -127);
    }
}
