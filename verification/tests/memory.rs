use pulsar::engine::blocks::{push_reset, KdaState};
use pulsar::engine::ops::{Buf, GdnBuf, KdaBuf, Op, Q38, St};
use pulsar::engine::qwen38::Qwen38Rt;
use pulsar::engine::shape::{
    Attn, Ffn, LayerW, MatKind, Model, MtpW, PleEntry, PleHash, Qwen38Attn, Qwen38Gdn, Qwen38Hc,
    Qwen38W, Shape,
};
use pulsar::engine::state::State;
use std::collections::HashMap;

fn shape() -> Shape {
    Shape {
        n_embd: 256,
        n_vocab: 1000,
        n_exec_layer: 2,
        n_leading_dense: 1,
        n_head: 2,
        n_head_kv: 1,
        head_dim: 64,
        rot_dim: 16,
        n_expert: 8,
        n_expert_used: 2,
        n_expert_groups: 1,
        n_group_used: 1,
        n_expert_latent: 256,
        n_ff_exp: 96,
        n_ff_shexp: 96,
        n_ff_dense: 300,
        moe_act_op: 3,
        n_lora_q: 48,
        n_kv_lora: 64,
        qk_rope: 32,
        qk_nope: 96,
        qk_dim: 128,
        value_mla: 120,
        kda_head_dim: 128,
        attn_res_block: 0,
        ssm_conv_k: 4,
        ssm_k_heads: 1,
        ssm_v_heads: 2,
        ssm_state: 32,
        full_attn_interval: 2,
        n_hc: 2,
        hc_low_rank: 64,
        n_idx_topk: 2048,
        qsa_ratio: 4,
        ple_layer: 0,
        ple_ngram: 3,
        ple_heads_per_ngram: 2,
        ple_head_dim: 64,
        ple_conv_k: 4,
        ple_eos_tok: 5,
    }
}

fn hc(down: MatKind, up: MatKind) -> Qwen38Hc {
    Qwen38Hc {
        down,
        up,
        inject_bytes: 4096,
    }
}

fn gdn_layer() -> LayerW {
    LayerW {
        attn: Attn::Qwen38(Qwen38W {
            hc_attn: hc(MatKind::Q8, MatKind::Q8),
            hc_ffn: hc(MatKind::Kq, MatKind::Kq),
            gdn: Some(Qwen38Gdn {
                wqkv: MatKind::Q8,
                wz: MatKind::Q8,
                ssm_out: MatKind::Q8,
            }),
            attn: None,
            ple: true,
        }),
        ffn: Ffn::Moe { shexp: true },
    }
}

fn attn_w() -> Qwen38Attn {
    Qwen38Attn {
        wq: MatKind::Q8,
        wk: MatKind::Q8,
        wv: MatKind::Q8,
        out: MatKind::Q8,
        has_indexer: true,
    }
}

fn attn_layer() -> LayerW {
    LayerW {
        attn: Attn::Qwen38(Qwen38W {
            hc_attn: hc(MatKind::Q8, MatKind::Q8),
            hc_ffn: hc(MatKind::Q8, MatKind::Q8),
            gdn: None,
            attn: Some(attn_w()),
            ple: false,
        }),
        ffn: Ffn::Moe { shexp: false },
    }
}

fn model() -> Model {
    Model {
        shape: shape(),
        layers: vec![gdn_layer(), attn_layer()],
        attn_layer_dev: vec![],
        layer_dev: vec![0, 0],
        output_res_score: false,
        output_norm: false,
        output_hc: Some(Qwen38Hc {
            down: MatKind::Q8,
            up: MatKind::Q8,
            inject_bytes: 4,
        }),
        mtp: Some(MtpW {
            layer: attn_layer(),
            tok_embd: false,
            output_w: false,
        }),
        n_clamp: 0,
        softcap: true,
        logit_scale: true,
        n_vocab_out: 900,
        ple_hash: PleHash {
            mult: vec![3, 5, 7],
            vocab: vec![10, 11, 12, 13],
            offs: vec![0, 100, 200, 300],
        },
        ple_entry: Some(PleEntry {
            offset: 1000,
            rows: 1000,
        }),
        data_offset: 4096,
    }
}

fn made(m: &Model) -> Qwen38Rt {
    let mut ops: Vec<Op> = Vec::new();
    Qwen38Rt::new(m, 0, &mut ops).unwrap()
}

fn state(m: &Model, ctx: u32) -> State {
    State {
        ctx,
        k3: None,
        bailing: None,
        qwen38: Some(made(m)),
    }
}

/// Device memory, as far as allocations, copies and clearings go.
struct Memory {
    bytes: HashMap<Buf, Vec<u8>>,
}

impl Memory {
    fn run(&mut self, ops: &[Op]) {
        for o in ops {
            match *o {
                Op::Alloc { buf, bytes } => {
                    self.bytes.insert(buf, vec![0xaa; bytes as usize]);
                }
                Op::Zero { buf, bytes } => {
                    if let Some(b) = self.bytes.get_mut(&buf) {
                        b[..bytes as usize].fill(0);
                    }
                }
                Op::CopyD2d {
                    dst,
                    dst_off,
                    src,
                    src_off,
                    bytes,
                } => {
                    let n = bytes as usize;
                    let (d, s) = (dst_off as usize, src_off as usize);
                    if let Some(from) = self.bytes.get(&src) {
                        let part = from[s..s + n].to_vec();
                        if let Some(to) = self.bytes.get_mut(&dst) {
                            to[d..d + n].copy_from_slice(&part);
                        }
                    }
                }
                _ => {}
            }
        }
    }

    fn fill(&mut self, buf: Buf, byte: u8) {
        self.bytes.get_mut(&buf).unwrap().fill(byte);
    }

    fn state(&self) -> Vec<Vec<u8>> {
        [GdnBuf::S, GdnBuf::Conv, GdnBuf::PleHist]
            .iter()
            .map(|b| self.bytes[&Buf::Gdn(0, *b)].clone())
            .collect()
    }
}

fn start(m: &Model) -> (Memory, State) {
    let mut ops: Vec<Op> = Vec::new();
    let rt = Qwen38Rt::new(m, 0, &mut ops).unwrap();
    let mut mem = Memory {
        bytes: HashMap::new(),
    };
    mem.run(&ops);
    let st = State {
        ctx: 64,
        k3: None,
        bailing: None,
        qwen38: Some(rt),
    };
    (mem, st)
}

#[test]
fn what_was_saved_comes_back() {
    let m = model();
    let (mut mem, st) = start(&m);
    let mut rt = st.qwen38.unwrap();
    mem.fill(Buf::Gdn(0, GdnBuf::S), 1);
    mem.fill(Buf::Gdn(0, GdnBuf::Conv), 2);
    mem.fill(Buf::Gdn(0, GdnBuf::PleHist), 3);
    let before = mem.state();
    let mut ops: Vec<Op> = Vec::new();
    let ck = rt.ckpt(0, &mut ops);
    mem.run(&ops);
    for b in [GdnBuf::S, GdnBuf::Conv, GdnBuf::PleHist] {
        mem.fill(Buf::Gdn(0, b), 9);
    }
    assert_ne!(mem.state(), before);
    ops.clear();
    rt.ckpt_restore(&ck, 0, &mut ops);
    mem.run(&ops);
    assert_eq!(mem.state(), before);
}

#[test]
fn a_fresh_state_is_clear() {
    let m = model();
    let (mem, _) = start(&m);
    for b in mem.state() {
        assert!(b.iter().all(|x| *x == 0));
    }
}

#[test]
fn a_reset_clears_a_gated_state() {
    let m = model();
    let (mut mem, st) = start(&m);
    let mut rt = st.qwen38.unwrap();
    for b in [GdnBuf::S, GdnBuf::Conv, GdnBuf::PleHist] {
        mem.fill(Buf::Gdn(0, b), 9);
    }
    rt.ple_tokens = vec![1, 2];
    rt.ple_next_pos = 7;
    let mut ops: Vec<Op> = Vec::new();
    rt.rt_reset(0, &mut ops);
    mem.run(&ops);
    for b in mem.state() {
        assert!(b.iter().all(|x| *x == 0));
    }
    assert!(rt.ple_tokens.is_empty());
    assert_eq!(rt.ple_next_pos, 0);
}

#[test]
fn a_reset_clears_a_kda_state() {
    let states = vec![
        None,
        Some(KdaState {
            dev: 1,
            s_bytes: 8,
            conv_bytes: 4,
        }),
    ];
    let mut mem = Memory {
        bytes: HashMap::new(),
    };
    let bufs = [KdaBuf::S, KdaBuf::ConvQ, KdaBuf::ConvK, KdaBuf::ConvV];
    for b in bufs {
        let n = if b == KdaBuf::S { 8 } else { 4 };
        mem.bytes.insert(Buf::Kda(1, b), vec![7; n]);
    }
    let mut ops: Vec<Op> = Vec::new();
    push_reset(&mut ops, &states, 0);
    mem.run(&ops);
    for b in bufs {
        assert!(mem.bytes[&Buf::Kda(1, b)].iter().all(|x| *x == 0));
    }
}

/// Runs the tokens in calls of the given lengths, where the rows that the conv
/// gets are numbered by position, and gives the history afterwards.
fn history(calls: &[usize]) -> Vec<u8> {
    let m = model();
    let (mut mem, mut st) = start(&m);
    let mut pos: usize = 0;
    for n in calls {
        let tokens: Vec<u32> = vec![7; *n];
        let mut rows: Vec<u8> = vec![0xee; 16 * 2048];
        for i in 0..*n {
            rows[i * 2048..(i + 1) * 2048].fill((pos + i + 1) as u8);
        }
        mem.bytes.insert(Buf::Rt(Q38::PleNorm), rows);
        let mut ops: Vec<Op> = Vec::new();
        m.forward_qwen38(&mut st, &tokens, pos as u32, 0, 0, false, &mut ops)
            .unwrap();
        mem.run(&ops);
        pos += *n;
    }
    let hist = &mem.bytes[&Buf::Gdn(0, GdnBuf::PleHist)];
    (0..9).map(|i| hist[i * 2048]).collect()
}

#[test]
fn the_history_holds_the_newest_rows() {
    assert_eq!(history(&[12]), vec![4, 5, 6, 7, 8, 9, 10, 11, 12]);
    assert_eq!(history(&[3]), vec![0, 0, 0, 0, 0, 0, 1, 2, 3]);
}

#[test]
fn the_history_does_not_depend_on_the_calls() {
    let want = history(&[12]);
    assert_eq!(history(&[1; 12]), want);
    assert_eq!(history(&[5, 7]), want);
    assert_eq!(history(&[9, 1, 2]), want);
}

/// A buffer of rows, each filled with a byte of its own.
fn rows(first: u8, n: usize, bytes: usize) -> Vec<u8> {
    let mut v: Vec<u8> = vec![0; n * bytes];
    for i in 0..n {
        v[i * bytes..(i + 1) * bytes].fill(first + i as u8);
    }
    v
}

/// The first byte of each row.
fn heads(v: &[u8], n: usize, bytes: usize) -> Vec<u8> {
    (0..n).map(|i| v[i * bytes]).collect()
}

#[test]
fn a_drafting_row_goes_with_the_streams_before_it() {
    let m = model();
    let (mut mem, mut st) = start(&m);
    mem.bytes.insert(Buf::State(St::MtpHidden), rows(100, 1, 2048));
    mem.bytes.insert(Buf::Rt(Q38::ResHc), rows(1, 16, 2048));
    let mut ops: Vec<Op> = Vec::new();
    m.mtp_prefill_fill_qwen38(&mut st, 4, 8, &mut ops).unwrap();
    mem.run(&ops[..2]);
    let xn = &mem.bytes[&Buf::Rt(Q38::Xn)];
    assert_eq!(heads(xn, 4, 2048), vec![100, 1, 2, 3]);
    mem.run(&ops[2..]);
    let kept = &mem.bytes[&Buf::State(St::MtpHidden)];
    assert_eq!(heads(kept, 1, 2048), vec![4]);
}

#[test]
fn drafting_rows_stand_side_by_side() {
    let m = model();
    let (mut mem, mut st) = start(&m);
    mem.bytes.insert(Buf::State(St::MtpHidden), rows(0, 1, 2048));
    mem.bytes.insert(Buf::State(St::MtpE), rows(10, 16, 1024));
    mem.bytes.insert(Buf::State(St::MtpH), rows(50, 16, 1024));
    mem.bytes.insert(Buf::State(St::MtpX), rows(0, 32, 1024));
    let mut ops: Vec<Op> = Vec::new();
    m.mtp_prefill_fill_qwen38(&mut st, 3, 8, &mut ops).unwrap();
    mem.run(&ops);
    let x = &mem.bytes[&Buf::State(St::MtpX)];
    assert_eq!(heads(x, 6, 1024), vec![10, 50, 11, 51, 12, 52]);
}
