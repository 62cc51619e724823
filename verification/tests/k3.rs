use pulsar::engine::blocks::{check_batch, KdaState};
use pulsar::engine::error::EngineError;
use pulsar::engine::k3::tensors::{check_tensors, find};
use pulsar::engine::k3::{scratch_bytes, widest, K3Rt};
use pulsar::engine::ops::{Buf, Gw, K3Buf, KdaBuf, Op, Part, Rope, Sc, St, Wt};
use pulsar::engine::shape::{
    card_list, q8k_bytes, Attn, Ffn, K3W, KdaW, LayerW, MatKind, MlaW, Model, PleHash, RoutedW,
    Shape, ShexpW,
};
use pulsar::engine::state::State;
use pulsar::expert::{Gguf, TensorInfo};

fn shape() -> Shape {
    Shape {
        n_embd: 512,
        n_vocab: 1000,
        n_exec_layer: 2,
        n_leading_dense: 1,
        n_head: 2,
        n_head_kv: 1,
        head_dim: 64,
        rot_dim: 16,
        n_expert: 8,
        n_expert_used: 2,
        n_expert_groups: 1,
        n_group_used: 1,
        n_expert_latent: 256,
        n_ff_exp: 96,
        n_ff_shexp: 90,
        n_ff_dense: 300,
        moe_act_op: 3,
        n_lora_q: 48,
        n_kv_lora: 64,
        qk_rope: 32,
        qk_nope: 96,
        qk_dim: 128,
        value_mla: 120,
        kda_head_dim: 128,
        attn_res_block: 2,
        ssm_conv_k: 4,
        ssm_k_heads: 1,
        ssm_v_heads: 1,
        ssm_state: 8,
        full_attn_interval: 4,
        n_hc: 1,
        hc_low_rank: 8,
        n_idx_topk: 0,
        qsa_ratio: 0,
        ple_layer: -1,
        ple_ngram: 0,
        ple_heads_per_ngram: 0,
        ple_head_dim: 0,
        ple_conv_k: 1,
        ple_eos_tok: 0,
    }
}

fn kda_w() -> KdaW {
    KdaW {
        wq: MatKind::Kq,
        wk: MatKind::Kq,
        wv: MatKind::Kq,
        wg: MatKind::Q8,
        f_a: MatKind::Q8,
        beta_w: MatKind::Q8,
        out: MatKind::Kq,
    }
}

fn kda_layer(ffn: Ffn) -> LayerW {
    LayerW {
        attn: Attn::K3(K3W {
            kda: Some(kda_w()),
            mla: None,
            shexp: None,
            routed: None,
        }),
        ffn,
    }
}

fn mla_layer() -> LayerW {
    LayerW {
        attn: Attn::K3(K3W {
            kda: None,
            mla: Some(MlaW {
                gate: MatKind::Kq,
                out: MatKind::Q8,
            }),
            shexp: Some(ShexpW {
                gate: MatKind::Kq,
                up: MatKind::Kq,
                down: MatKind::Kq,
            }),
            routed: Some(RoutedW {
                down: MatKind::Kq,
                up: MatKind::Kq,
                norm: true,
            }),
        }),
        ffn: Ffn::Moe { shexp: false },
    }
}

fn model() -> Model {
    Model {
        shape: shape(),
        layers: vec![kda_layer(Ffn::Dense), mla_layer()],
        attn_layer_dev: vec![0, 1],
        layer_dev: vec![0, 1],
        output_res_score: true,
        output_norm: true,
        output_hc: None,
        mtp: None,
        n_clamp: 0,
        softcap: false,
        logit_scale: false,
        n_vocab_out: 1000,
        ple_hash: PleHash {
            mult: vec![],
            vocab: vec![],
            offs: vec![],
        },
        ple_entry: None,
        data_offset: 0,
    }
}

fn state(m: &Model, ctx: u32) -> State {
    let mut ops: Vec<Op> = Vec::new();
    State {
        ctx,
        k3: Some(K3Rt::new(m, ctx, 0, &mut ops)),
        bailing: None,
        qwen38: None,
    }
}

fn st(b: St) -> Buf {
    Buf::State(b)
}

fn mixed() -> Buf {
    Buf::K3(K3Buf::Mixed)
}

fn rms(out: Buf, x: Buf, w: Buf, n: u32) -> Op {
    Op::RmsNorm {
        out,
        x,
        w,
        n,
        rows: 1,
    }
}

fn q8(out: Buf, w: Buf, x: Buf, in_dim: u32, out_dim: u32) -> Op {
    Op::MatmulQ8 {
        out,
        w,
        x,
        in_dim,
        out_dim,
        t: 1,
    }
}

fn kq(out: Buf, w: Buf, x: Buf, xq: Buf, in_dim: u32, out_dim: u32) -> Op {
    Op::MatmulKq {
        out,
        w,
        x,
        xq,
        in_dim,
        out_dim,
        t: 1,
    }
}

fn quantize(out: Buf, x: Buf, n: u32) -> Op {
    Op::QuantizeQ8K {
        out,
        x,
        n,
        rows: 1,
    }
}

fn copy(dst: Buf, src: Buf, bytes: u64) -> Op {
    Op::CopyD2d {
        dst,
        dst_off: 0,
        src,
        src_off: 0,
        bytes,
    }
}

fn mix(x: Buf, w: Buf, n_ckpt: u32) -> Op {
    Op::AttnRes {
        out: mixed(),
        x,
        bank: if n_ckpt > 0 {
            Some(Buf::K3(K3Buf::Ckpt))
        } else {
            None
        },
        w,
        n_embd: 512,
        n_ckpt,
    }
}

/// Layer 0: banked, a KDA mixer on the primary card, a dense half.
fn first_layer() -> Vec<Op> {
    let sc = |b: Sc| Buf::Scratch(0, b);
    let w = |b: Wt| Buf::Layer(0, b);
    let conv = |out: Sc, x: Sc, wt: Wt, state: KdaBuf| Op::ConvStep {
        out: sc(out),
        x: sc(x),
        w: w(wt),
        state: Buf::Kda(0, state),
        dim: 256,
        k: 4,
    };
    vec![
        mix(st(St::Cur), w(Wt::AttnResScore), 0),
        copy(Buf::K3(K3Buf::Ckpt), st(St::Cur), 2048),
        rms(st(St::Normed), mixed(), w(Wt::AttnNorm), 512),
        quantize(sc(Sc::Xq), st(St::Normed), 512),
        kq(sc(Sc::Q), w(Wt::KdaWq), st(St::Normed), sc(Sc::Xq), 512, 256),
        kq(sc(Sc::K), w(Wt::KdaWk), st(St::Normed), sc(Sc::Xq), 512, 256),
        kq(sc(Sc::V), w(Wt::KdaWv), st(St::Normed), sc(Sc::Xq), 512, 256),
        q8(sc(Sc::Gate), w(Wt::KdaWg), st(St::Normed), 512, 256),
        q8(sc(Sc::Fa), w(Wt::KdaFa), st(St::Normed), 512, 128),
        Op::MatmulF32 {
            out: sc(Sc::G),
            w: w(Wt::KdaFb),
            x: sc(Sc::Fa),
            in_dim: 128,
            out_dim: 256,
            t: 1,
        },
        q8(sc(Sc::Beta), w(Wt::KdaBeta), st(St::Normed), 512, 2),
        Op::KdaCoeffs {
            g: sc(Sc::G),
            beta: sc(Sc::Beta),
            a: w(Wt::KdaA),
            dt_bias: w(Wt::KdaDtBias),
            t: 1,
            n_head: 2,
            head_dim: 128,
        },
        conv(Sc::Cq, Sc::Q, Wt::KdaConvQ, KdaBuf::ConvQ),
        conv(Sc::Ck, Sc::K, Wt::KdaConvK, KdaBuf::ConvK),
        conv(Sc::Cv, Sc::V, Wt::KdaConvV, KdaBuf::ConvV),
        Op::L2Norm {
            buf: sc(Sc::Cq),
            rows: 2,
            dim: 128,
        },
        Op::L2Norm {
            buf: sc(Sc::Ck),
            rows: 2,
            dim: 128,
        },
        Op::KdaStep {
            out: sc(Sc::O),
            state: Buf::Kda(0, KdaBuf::S),
            q: sc(Sc::Cq),
            k: sc(Sc::Ck),
            v: sc(Sc::Cv),
            g: sc(Sc::G),
            beta: sc(Sc::Beta),
            n_head: 2,
            head_dim: 128,
        },
        Op::HeadRmsNorm {
            buf: sc(Sc::O),
            w: w(Wt::KdaNorm),
            rows: 2,
            dim: 128,
        },
        Op::SigmoidGate {
            buf: sc(Sc::O),
            gate: sc(Sc::Gate),
            n: 256,
        },
        quantize(sc(Sc::Xq), sc(Sc::O), 256),
        kq(st(St::AttnOut), w(Wt::KdaOut), sc(Sc::O), sc(Sc::Xq), 256, 512),
        copy(st(St::AfterAttn), st(St::AttnOut), 2048),
        mix(st(St::AfterAttn), w(Wt::FfnResScore), 1),
        rms(st(St::Normed), mixed(), w(Wt::FfnNorm), 512),
        q8(st(St::GateAct), w(Wt::FfnGate), st(St::Normed), 512, 300),
        q8(st(St::UpAct), w(Wt::FfnUp), st(St::Normed), 512, 300),
        Op::Swiglu {
            out: st(St::FfnMid),
            gate: st(St::GateAct),
            up: st(St::UpAct),
            n: 300,
            clamp: None,
            act: 3,
        },
        q8(st(St::FfnOut), w(Wt::FfnDown), st(St::FfnMid), 300, 512),
        Op::Add {
            out: st(St::Cur),
            a: st(St::AfterAttn),
            b: st(St::FfnOut),
            n: 512,
        },
    ]
}

/// Layer 1: not banked, a latent attention on the other card, latent experts.
fn second_layer(pos: u32, ctx: u32) -> Vec<Op> {
    let sc = |b: Sc| Buf::Scratch(1, b);
    let w = |b: Wt| Buf::Layer(1, b);
    let home = Buf::Scratch(0, Sc::Xq);
    let lat_in = Buf::K3(K3Buf::LatIn);
    let lat_out = Buf::K3(K3Buf::LatOut);
    vec![
        mix(st(St::Cur), w(Wt::AttnResScore), 1),
        rms(st(St::Normed), mixed(), w(Wt::AttnNorm), 512),
        Op::Sync,
        Op::CopyAcross {
            dst: sc(Sc::NormedA),
            src: st(St::Normed),
            bytes: 2048,
        },
        Op::SetDevice(1),
        q8(sc(Sc::QRank), w(Wt::MlaQa), sc(Sc::NormedA), 512, 48),
        rms(sc(Sc::QRankNorm), sc(Sc::QRank), w(Wt::MlaQaNorm), 48),
        q8(sc(Sc::Mq), w(Wt::MlaQb), sc(Sc::QRankNorm), 48, 256),
        q8(sc(Sc::KvRaw), w(Wt::MlaKvA), sc(Sc::NormedA), 512, 96),
        Op::MlaKvNorm {
            out: sc(Sc::KvNorm),
            x: sc(Sc::KvRaw),
            w: w(Wt::MlaKvANorm),
            t: 1,
            row: 96,
            lora: 64,
        },
        Op::MlaStoreKv {
            k: Buf::KCache(1),
            v: Buf::VCache(1),
            norm: sc(Sc::KvNorm),
            raw: sc(Sc::KvRaw),
            pos,
            t: 1,
            ctx,
            row: 96,
            lora: 64,
            rope_dim: 32,
        },
        Op::MlaSelectRange {
            out: sc(Sc::Selected),
            t: 1,
            pos,
            visible: pos + 1,
            ctx,
        },
        Op::MlaQkLow {
            out: sc(Sc::QkLow),
            q: sc(Sc::Mq),
            w: w(Wt::MlaKb),
            t: 1,
            n_head: 2,
            lora: 64,
            nope: 96,
            qk_dim: 128,
        },
        Op::MlaAttention {
            out: sc(Sc::Heads),
            q: sc(Sc::Mq),
            qk_low: sc(Sc::QkLow),
            k: Buf::KCache(1),
            v: Buf::VCache(1),
            w: w(Wt::MlaVb),
            selected: sc(Sc::Selected),
            t: 1,
            visible: pos + 1,
            ctx,
            n_head: 2,
            lora: 64,
            nope: 96,
            rope_dim: 32,
            value: 120,
            rope: Rope::Identity,
        },
        quantize(sc(Sc::Xq), sc(Sc::NormedA), 512),
        kq(sc(Sc::Gate), w(Wt::MlaGate), sc(Sc::NormedA), sc(Sc::Xq), 512, 240),
        Op::SigmoidGate {
            buf: sc(Sc::Heads),
            gate: sc(Sc::Gate),
            n: 240,
        },
        q8(sc(Sc::AttnOutA), w(Wt::MlaOut), sc(Sc::Heads), 240, 512),
        Op::Sync,
        Op::CopyAcross {
            dst: st(St::AttnOut),
            src: sc(Sc::AttnOutA),
            bytes: 2048,
        },
        Op::SetDevice(0),
        Op::Add {
            out: st(St::AfterAttn),
            a: st(St::Cur),
            b: st(St::AttnOut),
            n: 512,
        },
        mix(st(St::AfterAttn), w(Wt::FfnResScore), 1),
        rms(st(St::Normed), mixed(), w(Wt::FfnNorm), 512),
        Op::MatmulF32 {
            out: st(St::RouterLogits),
            w: w(Wt::GateInp),
            x: st(St::Normed),
            in_dim: 512,
            out_dim: 8,
            t: 1,
        },
        Op::RouterSelect {
            selected: st(St::RouterSelected),
            weights: st(St::RouterWeights),
            logits: st(St::RouterLogits),
            bias: w(Wt::ProbsB),
            n_expert: 8,
            n_used: 2,
            t: 1,
            softmax: false,
        },
        Op::Sync,
        Op::CopyAcross {
            dst: sc(Sc::FfnNormedA),
            src: st(St::Normed),
            bytes: 2048,
        },
        Op::SetDevice(1),
        quantize(sc(Sc::XqFfn), sc(Sc::FfnNormedA), 512),
        kq(sc(Sc::GateSh), w(Wt::ShexpGate), sc(Sc::FfnNormedA), sc(Sc::XqFfn), 512, 90),
        kq(sc(Sc::UpSh), w(Wt::ShexpUp), sc(Sc::FfnNormedA), sc(Sc::XqFfn), 512, 90),
        Op::Swiglu {
            out: sc(Sc::MidSh),
            gate: sc(Sc::GateSh),
            up: sc(Sc::UpSh),
            n: 90,
            clamp: None,
            act: 3,
        },
        quantize(sc(Sc::XqMid), sc(Sc::MidSh), 90),
        kq(sc(Sc::ShexpOut), w(Wt::ShexpDown), sc(Sc::MidSh), sc(Sc::XqMid), 90, 512),
        Op::Sync,
        Op::CopyAcross {
            dst: st(St::SharedOut),
            src: sc(Sc::ShexpOut),
            bytes: 2048,
        },
        Op::SetDevice(0),
        quantize(home, st(St::Normed), 512),
        kq(lat_in, w(Wt::RoutedDown), st(St::Normed), home, 512, 256),
        copy(st(St::Normed), lat_in, 1024),
        quantize(st(St::Xq), lat_in, 256),
        Op::Sync,
        Op::Moe {
            part: Part::Layer(1),
            il: 1,
            n_sel: 2,
            act: 0,
            t: 1,
            width: 256,
        },
        rms(lat_out, st(St::MoeOut), w(Wt::RoutedNorm), 256),
        quantize(home, lat_out, 256),
        kq(Buf::K3(K3Buf::RoutedOut), w(Wt::RoutedUp), lat_out, home, 256, 512),
        Op::Add {
            out: st(St::FfnOut),
            a: Buf::K3(K3Buf::RoutedOut),
            b: st(St::SharedOut),
            n: 512,
        },
        Op::Add {
            out: st(St::Cur),
            a: st(St::AfterAttn),
            b: st(St::FfnOut),
            n: 512,
        },
    ]
}

fn embed(tok: u32) -> Vec<Op> {
    vec![
        Op::WriteToken(tok),
        Op::Embed {
            out: st(St::Cur),
            table: Buf::Global(Gw::TokenEmbd),
            n_embd: 512,
            n_vocab: 1000,
            t: 1,
        },
    ]
}

fn token(tok: u32, pos: u32, ctx: u32) -> Vec<Op> {
    let mut v = embed(tok);
    v.extend(first_layer());
    v.extend(second_layer(pos, ctx));
    v.push(Op::SetDevice(0));
    v
}

fn tail() -> Vec<Op> {
    vec![
        mix(st(St::Cur), Buf::Global(Gw::OutputResScore), 1),
        copy(st(St::Cur), mixed(), 2048),
        rms(st(St::Normed), st(St::Cur), Buf::Global(Gw::OutputNorm), 512),
        Op::HeadLogits { rows: 1 },
        Op::Sync,
        Op::ReadLogits { n: 1000 },
    ]
}

#[test]
fn a_decode_step_plans_every_launch() {
    let m = model();
    let mut s = state(&m, 16);
    let mut ops: Vec<Op> = Vec::new();
    let r = m.forward_k3(&mut s, &[7], 5, 1, 0, &mut ops);
    assert_eq!(r, Ok(true));
    let mut want = vec![Op::SetDevice(0)];
    want.extend(token(7, 5, 16));
    want.extend(tail());
    assert_eq!(ops, want);
}

#[test]
fn a_prompt_starts_with_a_reset_and_loops() {
    let m = model();
    let mut s = state(&m, 16);
    let mut ops: Vec<Op> = Vec::new();
    let r = m.forward_k3(&mut s, &[7, 9], 0, 0, 3, &mut ops);
    assert_eq!(r, Ok(false));
    let zero = |b: KdaBuf, bytes: u64| Op::Zero {
        buf: Buf::Kda(0, b),
        bytes,
    };
    let mut want = vec![
        Op::SetDevice(0),
        zero(KdaBuf::S, 2 * 128 * 128 * 4),
        zero(KdaBuf::ConvQ, 3 * 256 * 4),
        zero(KdaBuf::ConvK, 3 * 256 * 4),
        zero(KdaBuf::ConvV, 3 * 256 * 4),
        Op::SetDevice(3),
        Op::SetDevice(0),
    ];
    want.extend(token(7, 0, 16));
    want.extend(token(9, 1, 16));
    assert_eq!(ops, want);
}

#[test]
fn a_prompt_in_two_calls_runs_the_same_layers() {
    let m = model();
    let mut whole: Vec<Op> = Vec::new();
    let mut s = state(&m, 16);
    m.forward_k3(&mut s, &[7, 9, 11], 4, 1, 0, &mut whole).unwrap();
    let mut parts: Vec<Op> = Vec::new();
    let mut s = state(&m, 16);
    m.forward_k3(&mut s, &[7, 9], 4, 0, 0, &mut parts).unwrap();
    let cut = parts.len();
    m.forward_k3(&mut s, &[11], 6, 1, 0, &mut parts).unwrap();
    assert_eq!(parts[cut], Op::SetDevice(0));
    parts.remove(cut);
    assert_eq!(parts, whole);
}

#[test]
fn batches_are_checked_first() {
    let m = model();
    let mut s = state(&m, 16);
    let mut ops: Vec<Op> = Vec::new();
    assert_eq!(
        m.forward_k3(&mut s, &[], 0, 1, 0, &mut ops),
        Err(EngineError::EmptyBatch)
    );
    assert_eq!(
        m.forward_k3(&mut s, &[1, 2], 15, 1, 0, &mut ops),
        Err(EngineError::PositionExceedsContext)
    );
    s.k3 = None;
    assert_eq!(
        m.forward_k3(&mut s, &[1], 0, 1, 0, &mut ops),
        Err(EngineError::K3StateMissing)
    );
    assert!(ops.is_empty());
    assert_eq!(check_batch(1, 15, 16), Ok(()));
    assert_eq!(
        check_batch(1, u32::MAX, u32::MAX),
        Err(EngineError::PositionExceedsContext)
    );
}

#[test]
fn the_runtime_stays_with_the_state_after_an_error() {
    let m = model();
    let mut s = state(&m, 16);
    let mut ops: Vec<Op> = Vec::new();
    let r = m.forward_k3(&mut s, &[1], 3, 2, 0, &mut ops);
    assert_eq!(r, Err(EngineError::K3OneRow));
    assert!(s.k3.is_some());
    let mut want = vec![Op::SetDevice(0)];
    want.extend(token(1, 3, 16));
    assert_eq!(ops, want);
}

fn run_err(m: &Model) -> (EngineError, Vec<Op>) {
    let mut s = state(m, 16);
    let mut ops: Vec<Op> = Vec::new();
    let r = m.forward_k3(&mut s, &[1], 3, 1, 0, &mut ops);
    (r.unwrap_err(), ops)
}

#[test]
fn missing_parts_of_a_model_are_named() {
    let mut m = model();
    m.output_res_score = false;
    assert_eq!(run_err(&m).0, EngineError::K3OutputResScoreMissing);
    let mut m = model();
    m.output_norm = false;
    assert_eq!(run_err(&m).0, EngineError::OutputNormMissing);
    let mut m = model();
    m.layers[0].attn = Attn::Other;
    assert_eq!(run_err(&m).0, EngineError::K3WrongAttn);
    let mut m = model();
    m.layers[0].ffn = Ffn::Other;
    assert_eq!(run_err(&m).0, EngineError::K3NoFfn);
    let mut m = model();
    m.layers[0].ffn = Ffn::Moe { shexp: false };
    assert_eq!(run_err(&m).0, EngineError::K3NoLatent);
    let mut m = model();
    m.layers[0].attn = Attn::K3(K3W {
        kda: None,
        mla: None,
        shexp: None,
        routed: None,
    });
    let (e, ops) = run_err(&m);
    assert_eq!(e, EngineError::K3NoMixer);
    let mut want = vec![Op::SetDevice(0)];
    want.extend(embed(1));
    want.extend(first_layer().into_iter().take(3));
    assert_eq!(ops, want);
}

#[test]
fn missing_parts_of_the_runtime_are_named() {
    let m = model();
    let run = |rt: K3Rt, il: usize| {
        let mut rt = rt;
        let mut ops: Vec<Op> = Vec::new();
        m.eval_k3_layer(&mut rt, il, 0, 16, &mut ops)
    };
    let made = || {
        let mut ops: Vec<Op> = Vec::new();
        K3Rt::new(&m, 16, 0, &mut ops)
    };
    let mut rt = made();
    rt.states[0] = None;
    assert_eq!(run(rt, 0), Err(EngineError::K3KdaStateMissing));
    let mut rt = made();
    rt.scratch = vec![0];
    assert_eq!(run(rt, 1), Err(EngineError::K3NoOwnerScratch));
    let mut rt = made();
    rt.scratch = vec![1];
    assert_eq!(run(rt, 0), Err(EngineError::K3NoScratch));
}

#[test]
fn a_runtime_allocates_states_then_scratch_then_the_primary() {
    let m = model();
    let mut ops: Vec<Op> = Vec::new();
    let rt = K3Rt::new(&m, 16, 0, &mut ops);
    assert_eq!(rt.primary, 0);
    assert_eq!(rt.n_ckpt, 0);
    assert_eq!(rt.scratch, vec![0, 1]);
    assert_eq!(
        rt.states,
        vec![
            Some(KdaState {
                dev: 0,
                s_bytes: 131072,
                conv_bytes: 3072
            }),
            None
        ]
    );
    assert_eq!(ops[0], Op::SetDevice(0));
    assert_eq!(
        ops[1],
        Op::Alloc {
            buf: Buf::Kda(0, KdaBuf::S),
            bytes: 131072
        }
    );
    assert_eq!(
        ops[5],
        Op::Zero {
            buf: Buf::Kda(0, KdaBuf::S),
            bytes: 131072
        }
    );
    let scratch = ops.iter().filter(|o| matches!(o, Op::Alloc { buf: Buf::Scratch(1, _), .. }));
    assert_eq!(scratch.count(), 29);
    let alloc = |b: K3Buf, bytes: u64| Op::Alloc {
        buf: Buf::K3(b),
        bytes,
    };
    assert_eq!(
        ops[ops.len() - 6..],
        [
            Op::SetDevice(0),
            alloc(K3Buf::Ckpt, 2048),
            alloc(K3Buf::LatIn, 1024),
            alloc(K3Buf::LatOut, 1024),
            alloc(K3Buf::Mixed, 2048),
            alloc(K3Buf::RoutedOut, 2048),
        ]
    );
}

#[test]
fn scratch_has_the_size_of_what_it_holds() {
    let s = shape();
    assert_eq!(widest(s), 512);
    assert_eq!(scratch_bytes(s, 16, Sc::Xq), 2 * 292);
    assert_eq!(scratch_bytes(s, 16, Sc::XqMid), 292);
    assert_eq!(scratch_bytes(s, 16, Sc::Q), 1024);
    assert_eq!(scratch_bytes(s, 16, Sc::Heads), 960);
    assert_eq!(scratch_bytes(s, 16, Sc::Mq), 1024);
    assert_eq!(scratch_bytes(s, 16, Sc::KvRaw), 384);
    assert_eq!(scratch_bytes(s, 16, Sc::QkLow), 512);
    assert_eq!(scratch_bytes(s, 16, Sc::Selected), 64);
    assert_eq!(scratch_bytes(s, 16, Sc::Beta), 8);
    let mut none = s;
    none.n_ff_shexp = 0;
    assert_eq!(scratch_bytes(none, 16, Sc::GateSh), 4);
    let mut wide = s;
    wide.n_head = 96;
    wide.n_embd = 7168;
    assert_eq!(widest(wide), 12288);
    assert_eq!(scratch_bytes(wide, 16, Sc::Xq), 48 * 292);
}

#[test]
fn the_bank_has_a_row_for_every_block() {
    let mut m = model();
    m.shape.n_exec_layer = 93;
    m.shape.attn_res_block = 12;
    m.layers = vec![kda_layer(Ffn::Dense); 93];
    m.attn_layer_dev = vec![];
    let mut ops: Vec<Op> = Vec::new();
    let mut rt = K3Rt::new(&m, 16, 0, &mut ops);
    assert!(ops.contains(&Op::Alloc {
        buf: Buf::K3(K3Buf::Ckpt),
        bytes: 8 * 2048
    }));
    ops.clear();
    for il in 0..93 {
        m.eval_k3_layer(&mut rt, il, 0, 16, &mut ops).unwrap();
    }
    assert_eq!(rt.n_ckpt, 8);
    let mut rows: Vec<u64> = Vec::new();
    for o in &ops {
        if let Op::CopyD2d {
            dst: Buf::K3(K3Buf::Ckpt),
            dst_off,
            ..
        } = o
        {
            rows.push(*dst_off);
        }
    }
    let want: Vec<u64> = (0..8).map(|i| i * 2048).collect();
    assert_eq!(rows, want);
}

#[test]
fn without_a_block_nothing_is_banked() {
    let mut m = model();
    m.shape.attn_res_block = 0;
    let mut s = state(&m, 16);
    let mut ops: Vec<Op> = Vec::new();
    m.forward_k3(&mut s, &[7], 5, 1, 0, &mut ops).unwrap();
    assert!(!ops.iter().any(|o| matches!(o, Op::AttnRes { .. })));
    assert_eq!(ops[3], rms(st(St::Normed), st(St::Cur), Buf::Layer(0, Wt::AttnNorm), 512));
}

#[test]
fn a_shared_expert_on_the_primary_card_is_copied_there() {
    let mut m = model();
    m.attn_layer_dev = vec![0, 0];
    let mut s = state(&m, 16);
    let mut ops: Vec<Op> = Vec::new();
    m.forward_k3(&mut s, &[7], 5, 0, 0, &mut ops).unwrap();
    assert!(!ops.iter().any(|o| matches!(o, Op::CopyAcross { .. })));
    assert!(ops.contains(&copy(Buf::Scratch(0, Sc::FfnNormedA), st(St::Normed), 2048)));
    assert!(ops.contains(&copy(st(St::SharedOut), Buf::Scratch(0, Sc::ShexpOut), 2048)));
    for o in &ops {
        if let Op::SetDevice(d) = o {
            assert_eq!(*d, 0);
        }
    }
}

#[test]
fn without_a_shared_expert_its_row_is_cleared() {
    let mut m = model();
    m.layers[1].attn = Attn::K3(K3W {
        kda: None,
        mla: Some(MlaW {
            gate: MatKind::Q8,
            out: MatKind::Q8,
        }),
        shexp: None,
        routed: Some(RoutedW {
            down: MatKind::Q8,
            up: MatKind::Q8,
            norm: false,
        }),
    });
    let mut s = state(&m, 16);
    let mut ops: Vec<Op> = Vec::new();
    m.forward_k3(&mut s, &[7], 5, 0, 0, &mut ops).unwrap();
    assert!(ops.contains(&Op::Zero {
        buf: st(St::SharedOut),
        bytes: 2048
    }));
    assert!(ops.contains(&copy(Buf::K3(K3Buf::LatOut), st(St::MoeOut), 1024)));
}

#[test]
fn cards_are_listed_once_and_ascending() {
    assert_eq!(card_list(&vec![2, 0, 2, 1, 0], 5), vec![0, 1, 2, 5]);
    assert_eq!(card_list(&vec![], 3), vec![3]);
    assert_eq!(card_list(&vec![1, 1], 1), vec![1]);
}

#[test]
fn layers_past_the_list_stand_on_the_primary() {
    let m = model();
    assert_eq!(m.find_attn_dev(1, 9), 1);
    assert_eq!(m.find_attn_dev(2, 9), 9);
}

#[test]
fn row_sizes_round_up_to_blocks() {
    assert_eq!(q8k_bytes(0), 0);
    assert_eq!(q8k_bytes(1), 292);
    assert_eq!(q8k_bytes(256), 292);
    assert_eq!(q8k_bytes(257), 584);
    assert_eq!(q8k_bytes(12288), 48 * 292);
}

// ---- the tensors of a model file

fn tensor(name: &str, dims: &[u64]) -> TensorInfo {
    TensorInfo {
        name: name.to_string(),
        ty: "F32".to_string(),
        dims: dims.to_vec(),
        offset: 0,
        row_bytes: None,
        byte_size: None,
    }
}

fn kda_tensors() -> Vec<TensorInfo> {
    vec![
        tensor("blk.0.attn_norm.weight", &[512]),
        tensor("blk.0.ffn_norm.weight", &[512]),
        tensor("blk.0.attn_res_score.weight", &[512]),
        tensor("blk.0.ffn_res_score.weight", &[512]),
        tensor("blk.0.attn_q.weight", &[512, 256]),
        tensor("blk.0.attn_k.weight", &[512, 256]),
        tensor("blk.0.attn_v.weight", &[512, 256]),
        tensor("blk.0.ssm_conv1d_q.weight", &[4, 1, 256]),
        tensor("blk.0.ssm_conv1d_k.weight", &[4, 1, 256]),
        tensor("blk.0.ssm_conv1d_v.weight", &[4, 1, 256]),
        tensor("blk.0.ssm_f_a.weight", &[512, 128]),
        tensor("blk.0.ssm_f_b.weight", &[128, 256]),
        tensor("blk.0.ssm_beta.weight", &[512, 2]),
        tensor("blk.0.ssm_a", &[2]),
        tensor("blk.0.ssm_dt.bias", &[256]),
        tensor("blk.0.ssm_g.weight", &[512, 256]),
        tensor("blk.0.ssm_norm.weight", &[128]),
        tensor("blk.0.attn_output.weight", &[240, 512]),
        tensor("blk.0.ffn_gate.weight", &[512, 300]),
        tensor("blk.0.ffn_up.weight", &[512, 300]),
        tensor("blk.0.ffn_down.weight", &[300, 512]),
    ]
}

fn mla_tensors() -> Vec<TensorInfo> {
    vec![
        tensor("blk.1.attn_norm.weight", &[512]),
        tensor("blk.1.ffn_norm.weight", &[512]),
        tensor("blk.1.attn_res_score.weight", &[512]),
        tensor("blk.1.ffn_res_score.weight", &[512]),
        tensor("blk.1.attn_q_a.weight", &[512, 48]),
        tensor("blk.1.attn_q_a_norm.weight", &[48]),
        tensor("blk.1.attn_q_b.weight", &[48, 256]),
        tensor("blk.1.attn_kv_a_mqa.weight", &[512, 96]),
        tensor("blk.1.attn_kv_a_norm.weight", &[64]),
        tensor("blk.1.attn_k_b.weight", &[96, 64, 2]),
        tensor("blk.1.attn_v_b.weight", &[64, 120, 2]),
        tensor("blk.1.attn_gate.weight", &[512, 240]),
        tensor("blk.1.attn_output.weight", &[240, 512]),
        tensor("blk.1.ffn_gate_inp.weight", &[512, 8]),
        tensor("blk.1.exp_probs_b.bias", &[8]),
        tensor("blk.1.ffn_routed_down.weight", &[512, 256]),
        tensor("blk.1.ffn_routed_up.weight", &[256, 512]),
        tensor("blk.1.ffn_routed_norm.weight", &[256]),
        tensor("blk.1.ffn_gate_exps.weight", &[256, 96, 8]),
        tensor("blk.1.ffn_up_exps.weight", &[256, 96, 8]),
        tensor("blk.1.ffn_down_exps.weight", &[96, 256, 8]),
        tensor("blk.1.ffn_gate_shexp.weight", &[1]),
        tensor("blk.1.ffn_up_shexp.weight", &[2]),
        tensor("blk.1.ffn_down_shexp.weight", &[3]),
        tensor("token_embd.weight", &[512, 1000]),
        tensor("output_norm.weight", &[512]),
        tensor("output.weight", &[512, 1000]),
        tensor("output_res_score.weight", &[512]),
    ]
}

fn file() -> Gguf {
    let mut tensors = kda_tensors();
    tensors.extend(mla_tensors());
    Gguf {
        expert_count: Some(8),
        data_offset: 0,
        tensors,
    }
}

#[test]
fn a_whole_model_file_has_nothing_to_report() {
    let r = check_tensors(shape(), &file());
    assert_eq!((r.n_kda, r.n_mla), (1, 1));
    assert_eq!(r.missing, Vec::<String>::new());
    assert_eq!(r.wrong, Vec::<String>::new());
    assert!(r.ok());
}

#[test]
fn missing_tensors_and_other_dims_are_reported_in_order() {
    let mut g = file();
    g.tensors[0].name = "blk.0.other.weight".to_string();
    g.tensors[4].dims = vec![512, 255];
    g.tensors[20].dims = vec![300];
    let at = find(&g.tensors, "output_norm.weight").unwrap();
    g.tensors.remove(at);
    let r = check_tensors(shape(), &g);
    assert_eq!(r.missing, vec!["blk.0.attn_norm.weight", "output_norm.weight"]);
    assert_eq!(
        r.wrong,
        vec!["blk.0.attn_q.weight: want [512, 256] got [512, 255]"]
    );
    assert!(!r.ok());
}

#[test]
fn a_layer_without_its_decay_counts_as_latent_attention() {
    let mut g = file();
    let at = find(&g.tensors, "blk.0.ssm_a").unwrap();
    g.tensors.remove(at);
    let r = check_tensors(shape(), &g);
    assert_eq!((r.n_kda, r.n_mla), (0, 2));
    assert_eq!(r.missing.len(), 8);
    assert_eq!(r.missing[0], "blk.0.attn_q_a.weight");
}

#[test]
fn the_first_tensor_of_a_name_is_found() {
    let ts = vec![tensor("a", &[1]), tensor("b", &[2]), tensor("b", &[3])];
    assert_eq!(find(&ts, "b"), Some(1));
    assert_eq!(find(&ts, "c"), None);
}

/// Follows the current card, and holds every launch that touches scratch to it.
fn stays_on_its_card(ops: &[Op], start: i32) {
    let mut card = start;
    for o in ops {
        match o {
            Op::SetDevice(d) => card = *d,
            Op::CopyAcross { .. } => {}
            other => {
                let text = format!("{:?}", other);
                for d in [0, 1] {
                    if text.contains(&format!("Scratch({}", d)) {
                        assert_eq!(card, d, "{}", text);
                    }
                }
                if text.contains("State(") {
                    assert_eq!(card, 0, "{}", text);
                }
            }
        }
    }
    assert_eq!(card, 0);
}

#[test]
fn every_launch_runs_where_its_buffers_are() {
    let m = model();
    let mut s = state(&m, 16);
    let mut ops: Vec<Op> = Vec::new();
    m.forward_k3(&mut s, &[7, 8], 0, 1, 0, &mut ops).unwrap();
    stays_on_its_card(&ops, 0);
}

/// Every expert launch and every read of the logits stands behind a wait.
fn waits(ops: &[Op]) -> usize {
    let mut n: usize = 0;
    for i in 0..ops.len() {
        if matches!(ops[i], Op::Moe { .. } | Op::ReadLogits { .. }) {
            assert_eq!(ops[i - 1], Op::Sync);
            n += 1;
        }
    }
    n
}

#[test]
fn the_host_waits_before_it_reads_back() {
    let m = model();
    let mut s = state(&m, 16);
    let mut ops: Vec<Op> = Vec::new();
    m.forward_k3(&mut s, &[7, 8], 0, 1, 0, &mut ops).unwrap();
    assert_eq!(waits(&ops), 3);
}

#[test]
fn a_layer_changes_the_residual_last() {
    let m = model();
    let mut ops: Vec<Op> = Vec::new();
    let mut rt = K3Rt::new(&m, 16, 0, &mut ops);
    for il in 0..m.shape.n_exec_layer as usize {
        ops.clear();
        m.eval_k3_layer(&mut rt, il, 3, 16, &mut ops).unwrap();
        let to_cur = |o: &Op| match *o {
            Op::Add { out, .. } => out == st(St::Cur),
            Op::CopyD2d { dst, .. } => dst == st(St::Cur),
            Op::CopyAcross { dst, .. } => dst == st(St::Cur),
            Op::RmsNorm { out, .. } => out == st(St::Cur),
            Op::MatmulQ8 { out, .. } => out == st(St::Cur),
            Op::MatmulKq { out, .. } => out == st(St::Cur),
            Op::AttnRes { out, .. } => out == st(St::Cur),
            _ => false,
        };
        let places: Vec<usize> = (0..ops.len()).filter(|i| to_cur(&ops[*i])).collect();
        assert_eq!(places, vec![ops.len() - 1]);
    }
}

#[test]
fn every_crossing_of_a_k3_batch_is_preceded_by_a_wait() {
    let m = model();
    let mut s = state(&m, 16);
    let mut ops: Vec<Op> = Vec::new();
    m.forward_k3(&mut s, &[7, 8], 0, 1, 0, &mut ops).unwrap();
    let mut crossings: usize = 0;
    for i in 0..ops.len() {
        if matches!(ops[i], Op::CopyAcross { .. }) {
            assert_eq!(ops[i - 1], Op::Sync);
            crossings += 1;
        }
    }
    assert_eq!(crossings, 8);
}

#[test]
fn the_query_projection_says_whether_the_input_is_quantized() {
    let mut m = model();
    if let Attn::K3(w) = &mut m.layers[0].attn {
        w.kda = Some(KdaW {
            wq: MatKind::Q8,
            wk: MatKind::Q8,
            wv: MatKind::Q8,
            wg: MatKind::Q8,
            f_a: MatKind::Q8,
            beta_w: MatKind::Kq,
            out: MatKind::Q8,
        });
    }
    let mut ops: Vec<Op> = Vec::new();
    let mut rt = K3Rt::new(&m, 16, 0, &mut ops);
    ops.clear();
    m.eval_k3_layer(&mut rt, 0, 3, 16, &mut ops).unwrap();
    let sc = |b: Sc| Buf::Scratch(0, b);
    let input = quantize(sc(Sc::Xq), st(St::Normed), 512);
    let w = Buf::Layer(0, Wt::KdaBeta);
    let beta = kq(sc(Sc::Beta), w, st(St::Normed), sc(Sc::Xq), 512, 2);
    assert!(!ops.contains(&input));
    assert!(ops.contains(&beta));
    if let Attn::K3(w) = &mut m.layers[0].attn {
        if let Some(kda) = &mut w.kda {
            kda.wq = MatKind::Kq;
        }
    }
    ops.clear();
    m.eval_k3_layer(&mut rt, 0, 3, 16, &mut ops).unwrap();
    let at = ops.iter().position(|o| *o == input).unwrap();
    assert!(ops[at..].contains(&beta));
}
