use pulsar::engine::bailing::{scratch_bytes, widest, BailingRt};
use pulsar::engine::blocks::KdaState;
use pulsar::engine::error::EngineError;
use pulsar::engine::ops::{Buf, Gw, KdaBuf, Op, Part, Rope, Sc, St, Wt};
use pulsar::engine::shape::{
    Attn, BailingW, Ffn, KdaW, LayerW, MatKind, MlaW, Model, PleHash, Shape,
};
use pulsar::engine::state::State;

fn shape() -> Shape {
    Shape {
        n_embd: 512,
        n_vocab: 1000,
        n_exec_layer: 2,
        n_leading_dense: 1,
        n_head: 2,
        n_head_kv: 1,
        head_dim: 64,
        rot_dim: 16,
        n_expert: 8,
        n_expert_used: 2,
        n_expert_groups: 1,
        n_group_used: 1,
        n_expert_latent: 256,
        n_ff_exp: 96,
        n_ff_shexp: 90,
        n_ff_dense: 300,
        moe_act_op: 3,
        n_lora_q: 48,
        n_kv_lora: 64,
        qk_rope: 32,
        qk_nope: 96,
        qk_dim: 128,
        value_mla: 120,
        kda_head_dim: 128,
        attn_res_block: 2,
        ssm_conv_k: 4,
        ssm_k_heads: 1,
        ssm_v_heads: 1,
        ssm_state: 8,
        full_attn_interval: 4,
        n_hc: 1,
        hc_low_rank: 8,
        n_idx_topk: 0,
        qsa_ratio: 0,
        ple_layer: -1,
        ple_ngram: 0,
        ple_heads_per_ngram: 0,
        ple_head_dim: 0,
        ple_conv_k: 1,
        ple_eos_tok: 0,
    }
}

fn kda_layer(ffn: Ffn) -> LayerW {
    LayerW {
        attn: Attn::Bailing(BailingW {
            kda: Some(KdaW {
                wq: MatKind::Kq,
                wk: MatKind::Kq,
                wv: MatKind::Q8,
                wg: MatKind::Kq,
                f_a: MatKind::Q8,
                beta_w: MatKind::Q8,
                out: MatKind::Q8,
            }),
            mla: None,
        }),
        ffn,
    }
}

fn mla_layer(ffn: Ffn) -> LayerW {
    LayerW {
        attn: Attn::Bailing(BailingW {
            kda: None,
            mla: Some(MlaW {
                gate: MatKind::Q8,
                out: MatKind::Kq,
            }),
        }),
        ffn,
    }
}

fn model() -> Model {
    let mut s = shape();
    s.n_expert_groups = 4;
    s.n_group_used = 2;
    s.attn_res_block = 0;
    Model {
        shape: s,
        layers: vec![
            kda_layer(Ffn::Moe { shexp: true }),
            mla_layer(Ffn::Moe { shexp: false }),
        ],
        attn_layer_dev: vec![1],
        layer_dev: vec![1, 0],
        output_res_score: false,
        output_norm: true,
        output_hc: None,
        mtp: None,
        n_clamp: 1,
        softcap: false,
        logit_scale: false,
        n_vocab_out: 1000,
        ple_hash: PleHash {
            mult: vec![],
            vocab: vec![],
            offs: vec![],
        },
        ple_entry: None,
        data_offset: 0,
    }
}

fn made(m: &Model) -> BailingRt {
    let mut ops: Vec<Op> = Vec::new();
    BailingRt::new(m, 16, 0, &mut ops)
}

fn state(m: &Model) -> State {
    State {
        ctx: 16,
        k3: None,
        bailing: Some(made(m)),
        qwen38: None,
    }
}

fn st(b: St) -> Buf {
    Buf::State(b)
}

fn rms(out: Buf, x: Buf, w: Buf, n: u32) -> Op {
    Op::RmsNorm {
        out,
        x,
        w,
        n,
        rows: 1,
    }
}

fn q8(out: Buf, w: Buf, x: Buf, in_dim: u32, out_dim: u32) -> Op {
    Op::MatmulQ8 {
        out,
        w,
        x,
        in_dim,
        out_dim,
        t: 1,
    }
}

fn kq(out: Buf, w: Buf, x: Buf, xq: Buf, in_dim: u32, out_dim: u32) -> Op {
    Op::MatmulKq {
        out,
        w,
        x,
        xq,
        in_dim,
        out_dim,
        t: 1,
    }
}

fn quantize(out: Buf, x: Buf, n: u32) -> Op {
    Op::QuantizeQ8K {
        out,
        x,
        n,
        rows: 1,
    }
}

fn add(out: St, a: St, b: St) -> Op {
    Op::Add {
        out: st(out),
        a: st(a),
        b: st(b),
        n: 512,
    }
}

fn router(il: usize) -> Vec<Op> {
    vec![
        Op::MatmulF32 {
            out: st(St::RouterLogits),
            w: Buf::Layer(il, Wt::GateInp),
            x: st(St::Normed),
            in_dim: 512,
            out_dim: 8,
            t: 1,
        },
        Op::GroupRouterSelect {
            selected: st(St::RouterSelected),
            weights: st(St::RouterWeights),
            logits: st(St::RouterLogits),
            bias: Buf::Layer(il, Wt::ProbsB),
            n_expert: 8,
            n_used: 2,
            groups: 4,
            group_used: 2,
            t: 1,
        },
    ]
}

fn experts(il: usize) -> Vec<Op> {
    vec![
        quantize(st(St::Xq), st(St::Normed), 512),
        Op::Sync,
        Op::Moe {
            part: Part::Layer(il),
            il,
            n_sel: 2,
            act: 3,
            t: 1,
            width: 512,
        },
        add(St::FfnOut, St::MoeOut, St::SharedOut),
        add(St::Cur, St::AfterAttn, St::FfnOut),
    ]
}

/// Layer 0: a KDA mixer on the other card, a shared expert with a clamp.
fn first_layer() -> Vec<Op> {
    let sc = |b: Sc| Buf::Scratch(1, b);
    let w = |b: Wt| Buf::Layer(0, b);
    let conv = |out: Sc, x: Sc, wt: Wt, state: KdaBuf| Op::ConvStep {
        out: sc(out),
        x: sc(x),
        w: w(wt),
        state: Buf::Kda(0, state),
        dim: 256,
        k: 4,
    };
    let x = sc(Sc::NormedA);
    let mut v = vec![
        rms(st(St::Normed), st(St::Cur), w(Wt::AttnNorm), 512),
        Op::Sync,
        Op::CopyAcross {
            dst: x,
            src: st(St::Normed),
            bytes: 2048,
        },
        Op::SetDevice(1),
        quantize(sc(Sc::Xq), x, 512),
        kq(sc(Sc::Q), w(Wt::KdaWq), x, sc(Sc::Xq), 512, 256),
        kq(sc(Sc::K), w(Wt::KdaWk), x, sc(Sc::Xq), 512, 256),
        q8(sc(Sc::V), w(Wt::KdaWv), x, 512, 256),
        q8(sc(Sc::G), w(Wt::KdaFa), x, 512, 256),
        q8(sc(Sc::Beta), w(Wt::KdaBeta), x, 512, 2),
        Op::KdaCoeffs {
            g: sc(Sc::G),
            beta: sc(Sc::Beta),
            a: w(Wt::KdaA),
            dt_bias: w(Wt::KdaDtBias),
            t: 1,
            n_head: 2,
            head_dim: 128,
        },
        conv(Sc::Cq, Sc::Q, Wt::KdaConvQ, KdaBuf::ConvQ),
        conv(Sc::Ck, Sc::K, Wt::KdaConvK, KdaBuf::ConvK),
        conv(Sc::Cv, Sc::V, Wt::KdaConvV, KdaBuf::ConvV),
        Op::L2Norm {
            buf: sc(Sc::Cq),
            rows: 2,
            dim: 128,
        },
        Op::L2Norm {
            buf: sc(Sc::Ck),
            rows: 2,
            dim: 128,
        },
        Op::KdaStep {
            out: sc(Sc::O),
            state: Buf::Kda(0, KdaBuf::S),
            q: sc(Sc::Cq),
            k: sc(Sc::Ck),
            v: sc(Sc::Cv),
            g: sc(Sc::G),
            beta: sc(Sc::Beta),
            n_head: 2,
            head_dim: 128,
        },
        Op::HeadRmsNorm {
            buf: sc(Sc::O),
            w: w(Wt::KdaNorm),
            rows: 2,
            dim: 128,
        },
        kq(sc(Sc::Gate), w(Wt::KdaWg), x, sc(Sc::Xq), 512, 256),
        Op::SigmoidGate {
            buf: sc(Sc::O),
            gate: sc(Sc::Gate),
            n: 256,
        },
        q8(sc(Sc::AttnOutA), w(Wt::KdaOut), sc(Sc::O), 256, 512),
        Op::Sync,
        Op::CopyAcross {
            dst: st(St::AttnOut),
            src: sc(Sc::AttnOutA),
            bytes: 2048,
        },
        Op::SetDevice(0),
        add(St::AfterAttn, St::Cur, St::AttnOut),
        rms(st(St::Normed), st(St::AfterAttn), w(Wt::FfnNorm), 512),
    ];
    v.extend(router(0));
    v.extend(vec![
        q8(st(St::GateAct), w(Wt::ShexpGate), st(St::Normed), 512, 90),
        q8(st(St::UpAct), w(Wt::ShexpUp), st(St::Normed), 512, 90),
        Op::Swiglu {
            out: st(St::FfnMid),
            gate: st(St::GateAct),
            up: st(St::UpAct),
            n: 90,
            clamp: Some(0),
            act: 3,
        },
        q8(st(St::SharedOut), w(Wt::ShexpDown), st(St::FfnMid), 90, 512),
    ]);
    v.extend(experts(0));
    v
}

/// Layer 1: a latent attention on the primary card, no shared expert.
fn second_layer(pos: u32) -> Vec<Op> {
    let sc = |b: Sc| Buf::Scratch(0, b);
    let w = |b: Wt| Buf::Layer(1, b);
    let mut v = vec![
        rms(st(St::Normed), st(St::Cur), w(Wt::AttnNorm), 512),
        q8(sc(Sc::Mq), w(Wt::MlaQ), st(St::Normed), 512, 256),
        Op::MlaRopeTail {
            buf: sc(Sc::Mq),
            t: 1,
            n_head: 2,
            qk_dim: 128,
            rope_dim: 32,
            pos,
        },
        q8(sc(Sc::KvRaw), w(Wt::MlaKvA), st(St::Normed), 512, 96),
        Op::MlaKvNorm {
            out: sc(Sc::KvNorm),
            x: sc(Sc::KvRaw),
            w: w(Wt::MlaKvANorm),
            t: 1,
            row: 96,
            lora: 64,
        },
        Op::MlaStoreKv {
            k: Buf::KCache(1),
            v: Buf::VCache(1),
            norm: sc(Sc::KvNorm),
            raw: sc(Sc::KvRaw),
            pos,
            t: 1,
            ctx: 16,
            row: 96,
            lora: 64,
            rope_dim: 32,
        },
        Op::MlaSelectRange {
            out: sc(Sc::Selected),
            t: 1,
            pos,
            visible: pos + 1,
            ctx: 16,
        },
        Op::MlaQkLow {
            out: sc(Sc::QkLow),
            q: sc(Sc::Mq),
            w: w(Wt::MlaKb),
            t: 1,
            n_head: 2,
            lora: 64,
            nope: 96,
            qk_dim: 128,
        },
        Op::MlaAttention {
            out: sc(Sc::Heads),
            q: sc(Sc::Mq),
            qk_low: sc(Sc::QkLow),
            k: Buf::KCache(1),
            v: Buf::VCache(1),
            w: w(Wt::MlaVb),
            selected: sc(Sc::Selected),
            t: 1,
            visible: pos + 1,
            ctx: 16,
            n_head: 2,
            lora: 64,
            nope: 96,
            rope_dim: 32,
            value: 120,
            rope: Rope::Model,
        },
        q8(sc(Sc::Gate), w(Wt::MlaGate), st(St::Normed), 512, 2),
        Op::RowSigmoidScale {
            buf: sc(Sc::Heads),
            gate: sc(Sc::Gate),
            rows: 2,
            dim: 120,
        },
        quantize(sc(Sc::Xq), sc(Sc::Heads), 240),
        kq(st(St::AttnOut), w(Wt::MlaOut), sc(Sc::Heads), sc(Sc::Xq), 240, 512),
        add(St::AfterAttn, St::Cur, St::AttnOut),
        rms(st(St::Normed), st(St::AfterAttn), w(Wt::FfnNorm), 512),
    ];
    v.extend(router(1));
    v.push(Op::Zero {
        buf: st(St::SharedOut),
        bytes: 2048,
    });
    v.extend(experts(1));
    v
}

fn token(tok: u32, pos: u32) -> Vec<Op> {
    let mut v = vec![
        Op::WriteToken(tok),
        Op::Embed {
            out: st(St::Cur),
            table: Buf::Global(Gw::TokenEmbd),
            n_embd: 512,
            n_vocab: 1000,
            t: 1,
        },
    ];
    v.extend(first_layer());
    v.extend(second_layer(pos));
    v.push(Op::SetDevice(0));
    v
}

#[test]
fn a_bailing_step_plans_every_launch() {
    let m = model();
    let mut ops: Vec<Op> = Vec::new();
    let r = m.forward_bailing(&state(&m), &[7], 5, 1, 0, &mut ops);
    assert_eq!(r, Ok(true));
    let mut want = vec![Op::SetDevice(0)];
    want.extend(token(7, 5));
    want.extend(vec![
        rms(st(St::Normed), st(St::Cur), Buf::Global(Gw::OutputNorm), 512),
        Op::HeadLogits { rows: 1 },
        Op::Sync,
        Op::ReadLogits { n: 1000 },
    ]);
    assert_eq!(ops, want);
}

#[test]
fn a_bailing_prompt_starts_with_a_reset_and_loops() {
    let m = model();
    let mut ops: Vec<Op> = Vec::new();
    let r = m.forward_bailing(&state(&m), &[7, 9], 0, 0, 2, &mut ops);
    assert_eq!(r, Ok(false));
    let zero = |b: KdaBuf, bytes: u64| Op::Zero {
        buf: Buf::Kda(0, b),
        bytes,
    };
    let mut want = vec![
        Op::SetDevice(1),
        zero(KdaBuf::S, 131072),
        zero(KdaBuf::ConvQ, 3072),
        zero(KdaBuf::ConvK, 3072),
        zero(KdaBuf::ConvV, 3072),
        Op::SetDevice(2),
        Op::SetDevice(0),
    ];
    want.extend(token(7, 0));
    want.extend(token(9, 1));
    assert_eq!(ops, want);
}

#[test]
fn a_bailing_prompt_in_two_calls_runs_the_same_layers() {
    let m = model();
    let mut whole: Vec<Op> = Vec::new();
    m.forward_bailing(&state(&m), &[7, 9, 11], 4, 1, 0, &mut whole).unwrap();
    let mut parts: Vec<Op> = Vec::new();
    m.forward_bailing(&state(&m), &[7], 4, 0, 0, &mut parts).unwrap();
    let cut = parts.len();
    m.forward_bailing(&state(&m), &[9, 11], 5, 1, 0, &mut parts).unwrap();
    parts.remove(cut);
    assert_eq!(parts, whole);
}

#[test]
fn every_crossing_is_preceded_by_a_wait() {
    let m = model();
    let mut ops: Vec<Op> = Vec::new();
    m.forward_bailing(&state(&m), &[7, 8], 0, 1, 0, &mut ops).unwrap();
    let mut crossings: usize = 0;
    for i in 0..ops.len() {
        if matches!(ops[i], Op::CopyAcross { .. }) {
            assert_eq!(ops[i - 1], Op::Sync);
            crossings += 1;
        }
    }
    assert_eq!(crossings, 4);
}

#[test]
fn bailing_batches_are_checked_first() {
    let m = model();
    let mut s = state(&m);
    let mut ops: Vec<Op> = Vec::new();
    assert_eq!(
        m.forward_bailing(&s, &[], 0, 1, 0, &mut ops),
        Err(EngineError::EmptyBatch)
    );
    assert_eq!(
        m.forward_bailing(&s, &[1], 16, 1, 0, &mut ops),
        Err(EngineError::PositionExceedsContext)
    );
    s.bailing = None;
    assert_eq!(
        m.forward_bailing(&s, &[1], 0, 1, 0, &mut ops),
        Err(EngineError::BailingStateMissing)
    );
    assert!(ops.is_empty());
}

fn run_err(m: &Model, rows: u32) -> EngineError {
    let mut ops: Vec<Op> = Vec::new();
    m.forward_bailing(&state(m), &[1], 3, rows, 0, &mut ops).unwrap_err()
}

#[test]
fn missing_parts_of_a_bailing_model_are_named() {
    assert_eq!(run_err(&model(), 2), EngineError::BailingOneRow);
    let mut m = model();
    m.output_norm = false;
    assert_eq!(run_err(&m, 1), EngineError::OutputNormMissing);
    let mut m = model();
    m.layers[1].attn = Attn::Other;
    assert_eq!(run_err(&m, 1), EngineError::BailingWrongAttn);
    let mut m = model();
    m.layers[1].attn = Attn::Bailing(BailingW {
        kda: None,
        mla: None,
    });
    assert_eq!(run_err(&m, 1), EngineError::BailingNoMixer);
    let mut m = model();
    m.layers[0].ffn = Ffn::Other;
    assert_eq!(run_err(&m, 1), EngineError::BailingNoFfn);
}

#[test]
fn missing_parts_of_a_bailing_runtime_are_named() {
    let m = model();
    let run = |rt: &BailingRt, il: usize| {
        let mut ops: Vec<Op> = Vec::new();
        m.eval_bailing_layer(rt, il, 0, 16, &mut ops)
    };
    let mut rt = made(&m);
    rt.states[0] = None;
    assert_eq!(run(&rt, 0), Err(EngineError::BailingKdaStateMissing));
    let mut rt = made(&m);
    rt.scratch = vec![0];
    assert_eq!(run(&rt, 0), Err(EngineError::BailingNoOwnerScratch));
    let mut rt = made(&m);
    rt.scratch = vec![1];
    assert_eq!(run(&rt, 1), Err(EngineError::BailingNoScratch));
}

#[test]
fn a_bailing_runtime_allocates_states_then_scratch() {
    let m = model();
    let mut ops: Vec<Op> = Vec::new();
    let rt = BailingRt::new(&m, 16, 0, &mut ops);
    assert_eq!(rt.scratch, vec![0, 1]);
    assert_eq!(
        rt.states,
        vec![
            Some(KdaState {
                dev: 1,
                s_bytes: 131072,
                conv_bytes: 3072
            }),
            None
        ]
    );
    assert_eq!(ops[0], Op::SetDevice(1));
    assert_eq!(ops[9], Op::SetDevice(0));
    assert_eq!(ops.len(), 9 + 2 * (1 + 19) + 1);
    assert_eq!(ops[ops.len() - 1], Op::SetDevice(0));
    let mut again: Vec<Op> = Vec::new();
    rt.reset(4, &mut again);
    assert_eq!(again.len(), 6);
    assert_eq!(again[5], Op::SetDevice(4));
}

#[test]
fn bailing_scratch_has_the_size_of_what_it_holds() {
    let s = model().shape;
    assert_eq!(widest(s), 512);
    assert_eq!(scratch_bytes(s, 16, Sc::Xq), 584);
    assert_eq!(scratch_bytes(s, 16, Sc::Gate), 1024);
    assert_eq!(scratch_bytes(s, 16, Sc::Heads), 960);
    assert_eq!(scratch_bytes(s, 16, Sc::Selected), 64);
    assert_eq!(scratch_bytes(s, 16, Sc::Fa), 0);
    let mut wide = s;
    wide.n_ff_exp = 1000;
    wide.n_expert_latent = 5000;
    assert_eq!(widest(wide), 1000);
}

#[test]
fn a_dense_half_has_no_clamp() {
    let mut m = model();
    m.layers[0].ffn = Ffn::Dense;
    let mut ops: Vec<Op> = Vec::new();
    m.forward_bailing(&state(&m), &[7], 5, 0, 0, &mut ops).unwrap();
    assert!(ops.contains(&Op::Swiglu {
        out: st(St::FfnMid),
        gate: st(St::GateAct),
        up: st(St::UpAct),
        n: 300,
        clamp: None,
        act: 3,
    }));
}

#[test]
fn a_layer_past_the_clamps_has_none() {
    let mut m = model();
    m.n_clamp = 0;
    let mut ops: Vec<Op> = Vec::new();
    m.forward_bailing(&state(&m), &[7], 5, 0, 0, &mut ops).unwrap();
    let clamps: Vec<Option<usize>> = ops
        .iter()
        .filter_map(|o| match o {
            Op::Swiglu { clamp, .. } => Some(*clamp),
            _ => None,
        })
        .collect();
    assert_eq!(clamps, vec![None]);
}

#[test]
fn the_host_waits_before_it_reads_experts_or_logits() {
    let m = model();
    let mut ops: Vec<Op> = Vec::new();
    m.forward_bailing(&state(&m), &[7, 8], 0, 1, 0, &mut ops).unwrap();
    let mut waits: usize = 0;
    for i in 0..ops.len() {
        if matches!(ops[i], Op::Moe { .. } | Op::ReadLogits { .. }) {
            assert_eq!(ops[i - 1], Op::Sync);
            waits += 1;
        }
    }
    assert_eq!(waits, 5);
}

#[test]
fn a_bailing_layer_changes_the_residual_last() {
    let m = model();
    let rt = made(&m);
    for il in 0..2 {
        let mut ops: Vec<Op> = Vec::new();
        m.eval_bailing_layer(&rt, il, 3, 16, &mut ops).unwrap();
        let to_cur = |o: &Op| match *o {
            Op::Add { out, .. } => out == st(St::Cur),
            Op::CopyD2d { dst, .. } => dst == st(St::Cur),
            Op::CopyAcross { dst, .. } => dst == st(St::Cur),
            Op::RmsNorm { out, .. } => out == st(St::Cur),
            Op::MatmulQ8 { out, .. } => out == st(St::Cur),
            Op::MatmulKq { out, .. } => out == st(St::Cur),
            _ => false,
        };
        let places: Vec<usize> = (0..ops.len()).filter(|i| to_cur(&ops[*i])).collect();
        assert_eq!(places, vec![ops.len() - 1]);
    }
}
