use pulsar::engine::error::EngineError;
use pulsar::engine::ops::{Buf, Factor, GdnBuf, Gw, Op, Part, Q38, St, Wt};
use pulsar::engine::qwen38::runtime::{rt_bytes, Checkpoint, SavedGdn};
use pulsar::engine::qwen38::{GdnState, Qwen38Rt, T_MAX};
use pulsar::engine::shape::{
    Attn, Ffn, LayerW, MatKind, Model, MtpW, PleEntry, PleHash, Qwen38Attn, Qwen38Gdn, Qwen38Hc,
    Qwen38W, Shape,
};
use pulsar::engine::state::State;

fn shape() -> Shape {
    Shape {
        n_embd: 256,
        n_vocab: 1000,
        n_exec_layer: 2,
        n_leading_dense: 1,
        n_head: 2,
        n_head_kv: 1,
        head_dim: 64,
        rot_dim: 16,
        n_expert: 8,
        n_expert_used: 2,
        n_expert_groups: 1,
        n_group_used: 1,
        n_expert_latent: 256,
        n_ff_exp: 96,
        n_ff_shexp: 96,
        n_ff_dense: 300,
        moe_act_op: 3,
        n_lora_q: 48,
        n_kv_lora: 64,
        qk_rope: 32,
        qk_nope: 96,
        qk_dim: 128,
        value_mla: 120,
        kda_head_dim: 128,
        attn_res_block: 0,
        ssm_conv_k: 4,
        ssm_k_heads: 1,
        ssm_v_heads: 2,
        ssm_state: 32,
        full_attn_interval: 2,
        n_hc: 2,
        hc_low_rank: 64,
        n_idx_topk: 2048,
        qsa_ratio: 4,
        ple_layer: 0,
        ple_ngram: 3,
        ple_heads_per_ngram: 2,
        ple_head_dim: 64,
        ple_conv_k: 4,
        ple_eos_tok: 5,
    }
}

fn hc(down: MatKind, up: MatKind) -> Qwen38Hc {
    Qwen38Hc {
        down,
        up,
        inject_bytes: 4096,
    }
}

fn gdn_layer() -> LayerW {
    LayerW {
        attn: Attn::Qwen38(Qwen38W {
            hc_attn: hc(MatKind::Q8, MatKind::Q8),
            hc_ffn: hc(MatKind::Kq, MatKind::Kq),
            gdn: Some(Qwen38Gdn {
                wqkv: MatKind::Q8,
                wz: MatKind::Q8,
                ssm_out: MatKind::Q8,
            }),
            attn: None,
            ple: true,
        }),
        ffn: Ffn::Moe { shexp: true },
    }
}

fn attn_w() -> Qwen38Attn {
    Qwen38Attn {
        wq: MatKind::Q8,
        wk: MatKind::Q8,
        wv: MatKind::Q8,
        out: MatKind::Q8,
        has_indexer: true,
    }
}

fn attn_layer() -> LayerW {
    LayerW {
        attn: Attn::Qwen38(Qwen38W {
            hc_attn: hc(MatKind::Q8, MatKind::Q8),
            hc_ffn: hc(MatKind::Q8, MatKind::Q8),
            gdn: None,
            attn: Some(attn_w()),
            ple: false,
        }),
        ffn: Ffn::Moe { shexp: false },
    }
}

fn model() -> Model {
    Model {
        shape: shape(),
        layers: vec![gdn_layer(), attn_layer()],
        attn_layer_dev: vec![],
        layer_dev: vec![0, 0],
        output_res_score: false,
        output_norm: false,
        output_hc: Some(Qwen38Hc {
            down: MatKind::Q8,
            up: MatKind::Q8,
            inject_bytes: 4,
        }),
        mtp: Some(MtpW {
            layer: attn_layer(),
            tok_embd: false,
            output_w: false,
        }),
        n_clamp: 0,
        softcap: true,
        logit_scale: true,
        n_vocab_out: 900,
        ple_hash: PleHash {
            mult: vec![3, 5, 7],
            vocab: vec![10, 11, 12, 13],
            offs: vec![0, 100, 200, 300],
        },
        ple_entry: Some(PleEntry {
            offset: 1000,
            rows: 1000,
        }),
        data_offset: 4096,
    }
}

fn made(m: &Model) -> Qwen38Rt {
    let mut ops: Vec<Op> = Vec::new();
    Qwen38Rt::new(m, 0, &mut ops).unwrap()
}

fn state(m: &Model, ctx: u32) -> State {
    State {
        ctx,
        k3: None,
        bailing: None,
        qwen38: Some(made(m)),
    }
}

fn rt(b: Q38) -> Buf {
    Buf::Rt(b)
}

fn st(b: St) -> Buf {
    Buf::State(b)
}

fn q8(out: Buf, w: Buf, x: Buf, in_dim: u32, out_dim: u32, t: u32) -> Op {
    Op::MatmulQ8 {
        out,
        w,
        x,
        in_dim,
        out_dim,
        t,
    }
}

fn kq(out: Buf, w: Buf, x: Buf, xq: Buf, in_dim: u32, out_dim: u32, t: u32) -> Op {
    Op::MatmulKq {
        out,
        w,
        x,
        xq,
        in_dim,
        out_dim,
        t,
    }
}

fn f32(out: Buf, w: Buf, x: Buf, in_dim: u32, out_dim: u32, t: u32) -> Op {
    Op::MatmulF32 {
        out,
        w,
        x,
        in_dim,
        out_dim,
        t,
    }
}

fn copy(dst: Buf, dst_off: u64, src: Buf, src_off: u64, bytes: u64) -> Op {
    Op::CopyD2d {
        dst,
        dst_off,
        src,
        src_off,
        bytes,
    }
}

fn norm(out: Buf, x: Buf, w: Buf, t: u32) -> Op {
    Op::HcNorm {
        out,
        x,
        w: Some(w),
        t,
        n_embd: 256,
        hc: 2,
    }
}

/// A mix of the streams with weights norm, down, up and, where it injects,
/// inject.
fn mix(w: [Buf; 3], inject: Option<Buf>, kind: MatKind, t: u32) -> Vec<Op> {
    let mut v = vec![norm(rt(Q38::Xn), rt(Q38::ResHc), w[0], t)];
    match kind {
        MatKind::Q8 => v.push(q8(rt(Q38::Lo), w[1], rt(Q38::Xn), 512, 64, t)),
        MatKind::Kq => {
            v.push(Op::QuantizeQ8K {
                out: rt(Q38::Xq),
                x: rt(Q38::Xn),
                n: 512,
                rows: t,
            });
            v.push(kq(rt(Q38::Lo), w[1], rt(Q38::Xn), rt(Q38::Xq), 512, 64, t));
        }
    }
    v.push(Op::Scale {
        buf: rt(Q38::Lo),
        n: t * 64,
        factor: Factor::InvHc,
    });
    v.push(copy(rt(Q38::GateFull), 0, rt(Q38::Lo), 0, t as u64 * 256));
    v.push(Op::SigmoidGate {
        buf: rt(Q38::Lo),
        gate: rt(Q38::GateFull),
        n: t * 64,
    });
    match kind {
        MatKind::Q8 => v.push(q8(rt(Q38::Gated), w[2], rt(Q38::Lo), 64, 512, t)),
        MatKind::Kq => {
            v.push(Op::QuantizeQ8K {
                out: rt(Q38::Xq2),
                x: rt(Q38::Lo),
                n: 64,
                rows: t,
            });
            v.push(kq(rt(Q38::Gated), w[2], rt(Q38::Lo), rt(Q38::Xq2), 64, 512, t));
        }
    }
    if let Some(i) = inject {
        v.push(f32(rt(Q38::Inj), i, rt(Q38::Xn), 512, 2, t));
    }
    v.push(Op::SigmoidGate {
        buf: rt(Q38::Xn),
        gate: rt(Q38::Gated),
        n: t * 512,
    });
    v.push(Op::HcMean {
        out: rt(Q38::Cur),
        x: rt(Q38::Xn),
        t,
        n_embd: 256,
        hc: 2,
    });
    v
}

fn attn_mix(p: Part, kind: MatKind, t: u32) -> Vec<Op> {
    let w = [p.wt(Wt::HcAttnNorm), p.wt(Wt::HcAttnDown), p.wt(Wt::HcAttnUp)];
    mix(w, Some(p.wt(Wt::HcAttnInject)), kind, t)
}

fn ffn_mix(p: Part, kind: MatKind, t: u32) -> Vec<Op> {
    let w = [p.wt(Wt::HcFfnNorm), p.wt(Wt::HcFfnDown), p.wt(Wt::HcFfnUp)];
    mix(w, Some(p.wt(Wt::HcFfnInject)), kind, t)
}

fn combine(x: Q38, t: u32) -> Op {
    Op::HcCombine {
        res: rt(Q38::ResHc),
        x: rt(x),
        inj: rt(Q38::Inj),
        t,
        n_embd: 256,
        hc: 2,
    }
}

fn gdn_ops(t: u32) -> Vec<Op> {
    let w = |b: Wt| Buf::Layer(0, b);
    vec![
        q8(rt(Q38::GdnQkv), w(Wt::GdnWqkv), rt(Q38::Cur), 256, 128, t),
        q8(rt(Q38::GdnZ), w(Wt::GdnWz), rt(Q38::Cur), 256, 64, t),
        f32(rt(Q38::GdnG), w(Wt::GdnAlpha), rt(Q38::Cur), 256, 2, t),
        f32(rt(Q38::GdnBeta), w(Wt::GdnBeta), rt(Q38::Cur), 256, 2, t),
        Op::GdnCoeffs {
            g: rt(Q38::GdnG),
            beta: rt(Q38::GdnBeta),
            a: w(Wt::GdnA),
            dt_bias: w(Wt::GdnDtBias),
            t,
            heads: 2,
        },
        Op::ConvBatch {
            out: rt(Q38::GdnConvOut),
            x: rt(Q38::GdnQkv),
            w: w(Wt::GdnConv),
            state: Buf::Gdn(0, GdnBuf::Conv),
            dim: 128,
            k: 4,
            t,
        },
        Op::SplitQkv {
            q: rt(Q38::GdnGq),
            k: rt(Q38::GdnGk),
            v: rt(Q38::GdnGv),
            x: rt(Q38::GdnConvOut),
            t,
            key_dim: 32,
            value_dim: 64,
        },
        Op::L2Norm {
            buf: rt(Q38::GdnGq),
            rows: t,
            dim: 32,
        },
        Op::L2Norm {
            buf: rt(Q38::GdnGk),
            rows: t,
            dim: 32,
        },
        Op::GdnBatch {
            out: rt(Q38::GdnO),
            state: Buf::Gdn(0, GdnBuf::S),
            q: rt(Q38::GdnGq),
            k: rt(Q38::GdnGk),
            v: rt(Q38::GdnGv),
            g: rt(Q38::GdnG),
            beta: rt(Q38::GdnBeta),
            v_heads: 2,
            k_heads: 1,
            dim: 32,
            t,
        },
        Op::HeadRmsNorm {
            buf: rt(Q38::GdnO),
            w: w(Wt::GdnNorm),
            rows: t * 2,
            dim: 32,
        },
        Op::SigmoidGate {
            buf: rt(Q38::GdnO),
            gate: rt(Q38::GdnZ),
            n: t * 64,
        },
        q8(rt(Q38::AttnOut), w(Wt::GdnOut), rt(Q38::GdnO), 64, 256, t),
    ]
}

fn attn_ops(p: Part, il: usize, pos: u32, t: u32, ctx: u32) -> Vec<Op> {
    let w = |b: Wt| p.wt(b);
    vec![
        q8(rt(Q38::Qfull), w(Wt::AttnWq), rt(Q38::Cur), 256, 256, t),
        Op::SplitGate {
            q: rt(Q38::Q),
            gate: rt(Q38::GateA),
            x: rt(Q38::Qfull),
            rows: t * 2,
            dim: 64,
        },
        q8(rt(Q38::K), w(Wt::AttnWk), rt(Q38::Cur), 256, 64, t),
        q8(rt(Q38::V), w(Wt::AttnWv), rt(Q38::Cur), 256, 64, t),
        Op::HeadRmsNorm {
            buf: rt(Q38::Q),
            w: w(Wt::AttnQNorm),
            rows: t * 2,
            dim: 64,
        },
        Op::HeadRmsNorm {
            buf: rt(Q38::K),
            w: w(Wt::AttnKNorm),
            rows: t,
            dim: 64,
        },
        Op::GqaRope {
            buf: rt(Q38::Q),
            t,
            heads: 2,
            dim: 64,
            rot: 16,
            pos,
        },
        Op::GqaRope {
            buf: rt(Q38::K),
            t,
            heads: 1,
            dim: 64,
            rot: 16,
            pos,
        },
        Op::GqaKvAppend {
            cache: Buf::KCache(il),
            x: rt(Q38::K),
            t,
            heads: 1,
            dim: 64,
            ctx,
            pos,
        },
        Op::GqaKvAppend {
            cache: Buf::VCache(il),
            x: rt(Q38::V),
            t,
            heads: 1,
            dim: 64,
            ctx,
            pos,
        },
        Op::GqaAttention {
            out: rt(Q38::Heads),
            q: rt(Q38::Q),
            k: Buf::KCache(il),
            v: Buf::VCache(il),
            t,
            heads: 2,
            kv_heads: 1,
            dim: 64,
            ctx,
            pos,
        },
        Op::SigmoidGate {
            buf: rt(Q38::Heads),
            gate: rt(Q38::GateA),
            n: t * 128,
        },
        q8(rt(Q38::AttnOut), w(Wt::AttnOut), rt(Q38::Heads), 128, 256, t),
    ]
}

fn moe_ops(p: Part, il: usize, shared: bool, t: u32) -> Vec<Op> {
    let row = t as u64 * 1024;
    let mut v = vec![
        copy(st(St::Normed), 0, rt(Q38::Cur), 0, row),
        f32(rt(Q38::RouterLogits), p.wt(Wt::GateInp), rt(Q38::Cur), 256, 8, t),
        Op::RouterSelect {
            selected: st(St::RouterSelected),
            weights: st(St::RouterWeights),
            logits: rt(Q38::RouterLogits),
            bias: p.wt(Wt::ProbsB),
            n_expert: 8,
            n_used: 2,
            t,
            softmax: true,
        },
    ];
    if shared {
        v.extend(vec![
            q8(rt(Q38::GateAct), p.wt(Wt::ShexpGate), rt(Q38::Cur), 256, 96, t),
            q8(rt(Q38::UpAct), p.wt(Wt::ShexpUp), rt(Q38::Cur), 256, 96, t),
            Op::Swiglu {
                out: rt(Q38::FfnMid),
                gate: rt(Q38::GateAct),
                up: rt(Q38::UpAct),
                n: t * 96,
                clamp: None,
                act: 0,
            },
            q8(rt(Q38::SharedOut), p.wt(Wt::ShexpDown), rt(Q38::FfnMid), 96, 256, t),
            f32(rt(Q38::Shg), p.wt(Wt::ShexpScalar), rt(Q38::Cur), 256, 1, t),
            Op::RowSigmoidScale {
                buf: rt(Q38::SharedOut),
                gate: rt(Q38::Shg),
                rows: t,
                dim: 256,
            },
        ]);
    } else {
        v.push(Op::Zero {
            buf: rt(Q38::SharedOut),
            bytes: row,
        });
    }
    v.extend(vec![
        Op::QuantizeQ8K {
            out: st(St::Xq),
            x: rt(Q38::Cur),
            n: 256,
            rows: t,
        },
        Op::Sync,
        Op::Moe {
            part: p,
            il,
            n_sel: t * 2,
            act: 0,
            t,
            width: 256,
        },
        Op::Add {
            out: st(St::FfnMid),
            a: st(St::MoeOut),
            b: rt(Q38::SharedOut),
            n: t * 256,
        },
        copy(rt(Q38::Cur), 0, st(St::FfnMid), 0, row),
    ]);
    v
}

/// The n-gram embedding behind the reads of its rows.
fn ple_ops(t: u32) -> Vec<Op> {
    let w = |b: Wt| Buf::Layer(0, b);
    let n = t as u64;
    let hist = Buf::Gdn(0, GdnBuf::PleHist);
    vec![
        Op::PleStage { n: n * 256 },
        q8(rt(Q38::PleKeyV), w(Wt::PleKey), rt(Q38::PleEmbDev), 256, 512, t),
        q8(rt(Q38::PleValV), w(Wt::PleValue), rt(Q38::PleEmbDev), 256, 256, t),
        Op::HcNormInplace {
            buf: rt(Q38::PleKeyV),
            w: w(Wt::PleNormKey),
            t,
            n_embd: 256,
            hc: 2,
        },
        norm(rt(Q38::PleQuery), rt(Q38::ResHc), w(Wt::PleNormQuery), t),
        Op::PleScore {
            out: rt(Q38::PleGate),
            key: rt(Q38::PleKeyV),
            query: rt(Q38::PleQuery),
            t,
            n_embd: 256,
            hc: 2,
        },
        Op::PleApply {
            out: rt(Q38::Gated),
            value: rt(Q38::PleValV),
            gate: rt(Q38::PleGate),
            t,
            n_embd: 256,
            hc: 2,
        },
        Op::Sync,
        copy(rt(Q38::PleValV), 0, rt(Q38::Gated), 0, n * 2048),
        norm(rt(Q38::PleNorm), rt(Q38::Gated), w(Wt::PleNormConv), t),
        Op::Sync,
        copy(rt(Q38::PlePad), 0, hist, 0, 9 * 2048),
        copy(rt(Q38::PlePad), 9 * 2048, rt(Q38::PleNorm), 0, n * 2048),
        Op::PleConv {
            out: rt(Q38::PleOut),
            x: rt(Q38::PlePad),
            w: w(Wt::PleConv1d),
            t,
            dim: 512,
            rows: 9 + t,
            k: 4,
            dilation: 3,
        },
        copy(hist, 0, rt(Q38::PlePad), n * 2048, 9 * 2048),
        Op::ResidualAdd {
            res: rt(Q38::ResHc),
            x: rt(Q38::PleValV),
            t,
            n_embd: 256,
            hc: 2,
        },
        Op::ResidualAdd {
            res: rt(Q38::ResHc),
            x: rt(Q38::PleOut),
            t,
            n_embd: 256,
            hc: 2,
        },
    ]
}

fn layers(pos: u32, t: u32, ctx: u32) -> Vec<Op> {
    let p = Part::Layer(0);
    let q = Part::Layer(1);
    let mut v = attn_mix(p, MatKind::Q8, t);
    v.extend(gdn_ops(t));
    v.push(combine(Q38::AttnOut, t));
    v.extend(ffn_mix(p, MatKind::Kq, t));
    v.extend(moe_ops(p, 0, true, t));
    v.push(combine(Q38::Cur, t));
    v.extend(attn_mix(q, MatKind::Q8, t));
    v.extend(attn_ops(q, 1, pos, t, ctx));
    v.push(combine(Q38::AttnOut, t));
    v.extend(ffn_mix(q, MatKind::Q8, t));
    v.extend(moe_ops(q, 1, false, t));
    v.push(combine(Q38::Cur, t));
    v
}

fn enter(pos: u32, t: u32) -> Vec<Op> {
    vec![
        Op::Sync,
        Op::WriteTokens {
            pos,
            n: t as usize,
        },
        Op::Embed {
            out: rt(Q38::Cur),
            table: Buf::Global(Gw::TokenEmbd),
            n_embd: 256,
            n_vocab: 1000,
            t,
        },
        Op::BroadcastHc {
            out: rt(Q38::ResHc),
            x: rt(Q38::Cur),
            t,
            n_embd: 256,
            hc: 2,
        },
    ]
}

fn out_mix(t: u32) -> Vec<Op> {
    let w = [
        Buf::Global(Gw::OutputHcNorm),
        Buf::Global(Gw::OutputHcDown),
        Buf::Global(Gw::OutputHcUp),
    ];
    mix(w, None, MatKind::Q8, t)
}

fn tail(t: u32, rows: u32) -> Vec<Op> {
    let off = (t - rows) as u64 * 1024;
    let bytes = rows as u64 * 1024;
    let mut v = out_mix(t);
    v.extend(vec![
        copy(st(St::Normed), 0, rt(Q38::Cur), off, bytes),
        copy(st(St::LastRow), 0, rt(Q38::Cur), off, bytes),
        Op::HeadLogits { rows },
        Op::Sync,
        Op::ReadLogits {
            n: rows as u64 * 1000,
        },
    ]);
    v
}

/// The row of the table that a hash picks for each head.
fn rows_of(a: u64, b: u64, c: u64) -> [u64; 4] {
    let two = (a * 3) ^ (b * 5);
    let three = two ^ (c * 7);
    [two % 10, two % 11 + 100, three % 12 + 200, three % 13 + 300]
}

fn reads(first_slot: u64, rows: [u64; 4]) -> Vec<Op> {
    (0..4)
        .map(|i| Op::PleRow {
            slot: first_slot + i as u64,
            off: 5096 + rows[i] * 36,
        })
        .collect()
}

#[test]
fn a_qwen38_step_plans_every_launch() {
    let m = model();
    let mut s = state(&m, 64);
    let mut ops: Vec<Op> = Vec::new();
    let r = m.forward_qwen38(&mut s, &[7], 9, 1, 0, false, &mut ops);
    assert_eq!(r, Ok(true));
    let mut want = enter(9, 1);
    want.extend(reads(0, rows_of(7, 5, 5)));
    want.extend(ple_ops(1));
    want.push(Op::Sync);
    want.extend(layers(9, 1, 64));
    want.extend(tail(1, 1));
    assert_eq!(ops, want);
    let after = s.qwen38.unwrap();
    assert_eq!(after.ple_tokens, vec![7]);
    assert_eq!(after.ple_next_pos, 10);
}

#[test]
fn a_prompt_runs_in_chunks_of_sixteen() {
    assert_eq!(T_MAX, 16);
    let m = model();
    let mut s = state(&m, 64);
    let tokens: Vec<u32> = (20..40).collect();
    let mut ops: Vec<Op> = Vec::new();
    let r = m.forward_qwen38(&mut s, &tokens, 0, 2, 3, false, &mut ops);
    assert_eq!(r, Ok(true));
    let zero = |b: GdnBuf, bytes: u64| Op::Zero {
        buf: Buf::Gdn(0, b),
        bytes,
    };
    let mut want = vec![
        Op::SetDevice(0),
        zero(GdnBuf::S, 2 * 32 * 32 * 4),
        zero(GdnBuf::Conv, 3 * 128 * 4),
        zero(GdnBuf::PleHist, 9 * 512 * 4),
        Op::SetDevice(3),
    ];
    let back = |i: usize| -> u64 {
        if i < 20 {
            tokens[i] as u64
        } else {
            5
        }
    };
    for (from, t) in [(0usize, 16usize), (16, 4)] {
        want.extend(enter(from as u32, t as u32));
        for tt in 0..t {
            let i = from + tt;
            let rows = rows_of(back(i), back(i.wrapping_sub(1)), back(i.wrapping_sub(2)));
            want.extend(reads(4 * tt as u64, rows));
        }
        want.extend(ple_ops(t as u32));
        want.push(Op::Sync);
        want.extend(layers(from as u32, t as u32, 64));
    }
    want.extend(tail(4, 2));
    assert_eq!(ops, want);
    let after = s.qwen38.unwrap();
    assert_eq!(after.ple_tokens, vec![38, 39]);
    assert_eq!(after.ple_next_pos, 20);
}

#[test]
fn a_prompt_cut_between_chunks_plans_the_same() {
    let m = model();
    let tokens: Vec<u32> = (20..40).collect();
    let mut whole: Vec<Op> = Vec::new();
    let mut s = state(&m, 64);
    m.forward_qwen38(&mut s, &tokens, 0, 1, 0, false, &mut whole).unwrap();
    let mut parts: Vec<Op> = Vec::new();
    let mut s = state(&m, 64);
    m.forward_qwen38(&mut s, &tokens[..16], 0, 0, 0, false, &mut parts).unwrap();
    m.forward_qwen38(&mut s, &tokens[16..], 16, 1, 0, false, &mut parts).unwrap();
    assert_eq!(parts, whole);
}

#[test]
fn a_jump_forgets_the_predecessors() {
    let m = model();
    let mut s = state(&m, 64);
    let mut ops: Vec<Op> = Vec::new();
    m.forward_qwen38(&mut s, &[7], 9, 0, 0, false, &mut ops).unwrap();
    ops.clear();
    m.forward_qwen38(&mut s, &[8], 10, 0, 0, false, &mut ops).unwrap();
    assert_eq!(ops[4..8], reads(0, rows_of(8, 7, 5)));
    ops.clear();
    m.forward_qwen38(&mut s, &[9], 20, 0, 0, false, &mut ops).unwrap();
    assert_eq!(ops[4..8], reads(0, rows_of(9, 5, 5)));
}

#[test]
fn the_embedding_can_be_skipped() {
    let m = model();
    let mut s = state(&m, 64);
    let mut ops: Vec<Op> = Vec::new();
    m.forward_qwen38(&mut s, &[7], 9, 0, 0, true, &mut ops).unwrap();
    let mut want = enter(9, 1);
    want.extend(layers(9, 1, 64));
    assert_eq!(ops, want);
    assert_eq!(s.qwen38.unwrap().ple_next_pos, 0);
}

#[test]
fn qwen38_batches_are_checked_first() {
    let m = model();
    let mut s = state(&m, 64);
    let mut ops: Vec<Op> = Vec::new();
    assert_eq!(
        m.forward_qwen38(&mut s, &[], 0, 17, 0, false, &mut ops),
        Err(EngineError::EmptyBatch)
    );
    assert_eq!(
        m.forward_qwen38(&mut s, &[1], 64, 17, 0, false, &mut ops),
        Err(EngineError::Qwen38RowsExceedVerify)
    );
    assert_eq!(
        m.forward_qwen38(&mut s, &[1], 64, 16, 0, false, &mut ops),
        Err(EngineError::PositionExceedsContext)
    );
    s.qwen38 = None;
    assert_eq!(
        m.forward_qwen38(&mut s, &[1], 0, 1, 0, false, &mut ops),
        Err(EngineError::Qwen38StateMissing)
    );
    assert!(ops.is_empty());
}

fn run_err(m: &Model, n: usize, rows: u32) -> EngineError {
    let mut s = state(m, 64);
    let mut ops: Vec<Op> = Vec::new();
    let tokens: Vec<u32> = vec![7; n];
    let r = m.forward_qwen38(&mut s, &tokens, 0, rows, 0, false, &mut ops);
    assert!(s.qwen38.is_some());
    r.unwrap_err()
}

#[test]
fn rows_must_lie_in_the_last_chunk() {
    assert_eq!(run_err(&model(), 18, 3), EngineError::Qwen38RowsExceedChunk);
    assert_eq!(run_err(&model(), 1, 2), EngineError::Qwen38RowsExceedChunk);
}

fn with(m: Model, f: fn(&mut Qwen38W)) -> Model {
    let mut m = m;
    if let Attn::Qwen38(w) = &mut m.layers[1].attn {
        f(w);
    }
    m
}

#[test]
fn missing_parts_of_a_qwen38_model_are_named() {
    let mut m = model();
    m.output_hc = None;
    assert_eq!(run_err(&m, 1, 1), EngineError::Qwen38NoOutputHc);
    let mut m = model();
    m.layers[1].attn = Attn::Other;
    assert_eq!(run_err(&m, 1, 1), EngineError::Qwen38WrongAttn);
    let m = with(model(), |w| w.attn = None);
    assert_eq!(run_err(&m, 1, 1), EngineError::Qwen38NoMixer);
    let mut m = model();
    m.layers[1].ffn = Ffn::Dense;
    assert_eq!(run_err(&m, 1, 1), EngineError::Qwen38NoMoe);
    let m = with(model(), |w| {
        w.attn = Some(Qwen38Attn {
            wk: MatKind::Kq,
            ..attn_w()
        })
    });
    assert_eq!(run_err(&m, 1, 1), EngineError::Qwen38KvNotQ8);
    let mut m = model();
    if let Attn::Qwen38(w) = &mut m.layers[0].attn {
        w.ple = false;
    }
    assert_eq!(run_err(&m, 1, 1), EngineError::Qwen38NoPleWeights);
}

#[test]
fn missing_parts_of_a_qwen38_runtime_are_named() {
    let m = model();
    let run = |f: fn(&mut Qwen38Rt), skip: bool| {
        let mut s = state(&m, 64);
        let mut ops: Vec<Op> = Vec::new();
        f(s.qwen38.as_mut().unwrap());
        m.forward_qwen38(&mut s, &[7], 9, 1, 0, skip, &mut ops).unwrap_err()
    };
    assert_eq!(run(|r| r.ple_table = None, false), EngineError::Qwen38NoPleTable);
    assert_eq!(run(|r| r.states[0] = None, false), EngineError::Qwen38PleStateMissing);
    assert_eq!(run(|r| r.states[0] = None, true), EngineError::Qwen38GdnStateMissing);
    assert_eq!(
        run(
            |r| {
                if let Some(g) = &mut r.states[0] {
                    g.ple_hist = None;
                }
            },
            false
        ),
        EngineError::Qwen38PleHistMissing
    );
    let mut m = model();
    m.ple_entry = None;
    let mut ops: Vec<Op> = Vec::new();
    let r = Qwen38Rt::new(&m, 0, &mut ops);
    assert_eq!(r.err(), Some(EngineError::Qwen38NoPleEntry));
}

#[test]
fn a_row_beyond_the_table_is_named() {
    let mut m = model();
    m.ple_hash.offs[1] = 2000;
    let mut s = state(&m, 64);
    let mut ops: Vec<Op> = Vec::new();
    let r = m.forward_qwen38(&mut s, &[7], 9, 1, 0, false, &mut ops);
    let row = (21 ^ 25) % 11 + 2000;
    assert_eq!(r, Err(EngineError::PleRowOutOfRange { row }));
    assert_eq!(ops.len(), 5);
}

#[test]
fn attention_ends_with_the_dense_window() {
    let m = model();
    let mut s = state(&m, 4096);
    let mut ops: Vec<Op> = Vec::new();
    let r = m.forward_qwen38(&mut s, &[7], 2050, 0, 0, true, &mut ops);
    assert_eq!(r, Ok(false));
    let r = m.forward_qwen38(&mut s, &[7], 2051, 0, 0, true, &mut ops);
    let e = EngineError::Qwen38BeyondDense {
        end: 2052,
        topk: 2048,
        ratio: 4,
    };
    assert_eq!(r, Err(e));
    let r = m.forward_qwen38(&mut s, &[7, 7], 2050, 0, 0, true, &mut ops);
    assert_eq!(r, Err(e));
    let free = with(model(), |w| {
        w.attn = Some(Qwen38Attn {
            has_indexer: false,
            ..attn_w()
        })
    });
    let r = free.forward_qwen38(&mut s, &[7], 3000, 0, 0, true, &mut ops);
    assert_eq!(r, Ok(false));
    let mut m = model();
    m.shape.qsa_ratio = 0;
    let r = m.forward_qwen38(&mut s, &[7], 3000, 0, 0, true, &mut ops);
    assert_eq!(r, Ok(false));
}

fn quantize(out: Q38, x: Q38, n: u32) -> Op {
    Op::QuantizeQ8K {
        out: rt(out),
        x: rt(x),
        n,
        rows: 1,
    }
}

/// A model whose mixers have these encodings.
fn mixers(wqkv: MatKind, wz: MatKind, ssm_out: MatKind, wq: MatKind, out: MatKind) -> Model {
    let mut m = model();
    if let Attn::Qwen38(w) = &mut m.layers[0].attn {
        w.gdn = Some(Qwen38Gdn { wqkv, wz, ssm_out });
    }
    if let Attn::Qwen38(w) = &mut m.layers[1].attn {
        w.attn = Some(Qwen38Attn {
            wq,
            out,
            ..attn_w()
        });
    }
    m
}

#[test]
fn quantized_mixers_read_their_scratch() {
    let k = MatKind::Kq;
    let m = mixers(k, k, k, k, k);
    let mut s = state(&m, 64);
    let mut ops: Vec<Op> = Vec::new();
    m.forward_qwen38(&mut s, &[7], 9, 0, 0, true, &mut ops).unwrap();
    let w = |b: Wt| Buf::Layer(0, b);
    let q = |b: Wt| Buf::Layer(1, b);
    let (cur, xq2) = (rt(Q38::Cur), rt(Q38::Xq2));
    for want in [
        vec![
            quantize(Q38::Xq2, Q38::Cur, 256),
            kq(rt(Q38::GdnQkv), w(Wt::GdnWqkv), cur, xq2, 256, 128, 1),
            kq(rt(Q38::GdnZ), w(Wt::GdnWz), cur, xq2, 256, 64, 1),
        ],
        vec![
            quantize(Q38::Midq, Q38::GdnO, 64),
            kq(rt(Q38::AttnOut), w(Wt::GdnOut), rt(Q38::GdnO), rt(Q38::Midq), 64, 256, 1),
        ],
    ] {
        assert!(ops.windows(want.len()).any(|part| part == want.as_slice()));
    }
    for want in [
        kq(rt(Q38::Qfull), q(Wt::AttnWq), cur, xq2, 256, 256, 1),
        kq(rt(Q38::AttnOut), q(Wt::AttnOut), rt(Q38::Heads), rt(Q38::Heads), 128, 256, 1),
    ] {
        let at = ops.iter().position(|o| *o == want).unwrap();
        assert!(!matches!(ops[at - 1], Op::QuantizeQ8K { .. }));
    }
    assert!(!ops.contains(&quantize(Q38::Xq2, Q38::Heads, 128)));
}

#[test]
fn one_quantized_projection_is_enough_to_quantize() {
    let (k, p) = (MatKind::Kq, MatKind::Q8);
    for m in [mixers(k, p, p, p, p), mixers(p, k, p, p, p)] {
        let mut s = state(&m, 64);
        let mut ops: Vec<Op> = Vec::new();
        m.forward_qwen38(&mut s, &[7], 9, 0, 0, true, &mut ops).unwrap();
        assert!(ops.contains(&quantize(Q38::Xq2, Q38::Cur, 256)));
    }
    let m = mixers(p, p, p, p, p);
    let mut s = state(&m, 64);
    let mut ops: Vec<Op> = Vec::new();
    m.forward_qwen38(&mut s, &[7], 9, 0, 0, true, &mut ops).unwrap();
    assert!(!ops.contains(&quantize(Q38::Xq2, Q38::Cur, 256)));
}

#[test]
fn a_small_injection_weight_stands_for_none() {
    let mut m = model();
    for l in &mut m.layers {
        if let Attn::Qwen38(w) = &mut l.attn {
            w.hc_attn.inject_bytes = 4;
            w.hc_ffn.inject_bytes = 5;
        }
    }
    let mut s = state(&m, 64);
    let mut ops: Vec<Op> = Vec::new();
    m.forward_qwen38(&mut s, &[7], 9, 0, 0, true, &mut ops).unwrap();
    let inj = ops
        .iter()
        .filter(|o| matches!(o, Op::MatmulF32 { out: Buf::Rt(Q38::Inj), .. }));
    assert_eq!(inj.count(), 2);
}

// ---- the runtime

#[test]
fn a_qwen38_runtime_allocates_states_and_a_chunk() {
    let m = model();
    let mut ops: Vec<Op> = Vec::new();
    let r = Qwen38Rt::new(&m, 0, &mut ops).unwrap();
    assert_eq!(
        r.states,
        vec![
            Some(GdnState {
                dev: 0,
                s_bytes: 8192,
                conv_bytes: 1536,
                ple_hist: Some(18432)
            }),
            None
        ]
    );
    let t = r.ple_table.unwrap();
    assert_eq!((t.base, t.row_bytes, t.rows), (5096, 36, 1000));
    assert!(r.ple_tokens.is_empty());
    let gdn = |b: GdnBuf, bytes: u64| Op::Alloc {
        buf: Buf::Gdn(0, b),
        bytes,
    };
    assert_eq!(
        ops[..8],
        [
            Op::SetDevice(0),
            gdn(GdnBuf::PleHist, 18432),
            gdn(GdnBuf::S, 8192),
            gdn(GdnBuf::Conv, 1536),
            Op::Zero {
                buf: Buf::Gdn(0, GdnBuf::S),
                bytes: 8192
            },
            Op::Zero {
                buf: Buf::Gdn(0, GdnBuf::Conv),
                bytes: 1536
            },
            Op::Zero {
                buf: Buf::Gdn(0, GdnBuf::PleHist),
                bytes: 18432
            },
            Op::SetDevice(0),
        ]
    );
    let alloc = |b: Q38| Op::Alloc {
        buf: rt(b),
        bytes: rt_bytes(m.shape, b),
    };
    assert_eq!(ops[8], alloc(Q38::ResHc));
    assert_eq!(ops[8 + 31], alloc(Q38::Midq));
    assert_eq!(ops[8 + 32], Op::HostStage { n: 16 * 256 });
    assert_eq!(ops[8 + 33], alloc(Q38::PleEmbDev));
    assert_eq!(ops[8 + 40], alloc(Q38::PleOut));
    assert_eq!(ops.len(), 49);
}

#[test]
fn chunk_buffers_have_the_size_of_what_they_hold() {
    let s = shape();
    assert_eq!(rt_bytes(s, Q38::ResHc), 16 * 512 * 4);
    assert_eq!(rt_bytes(s, Q38::Lo), 16 * 2 * 64 * 4);
    assert_eq!(rt_bytes(s, Q38::GateFull), 16 * 2 * 2 * 256 * 4);
    assert_eq!(rt_bytes(s, Q38::Inj), 128);
    assert_eq!(rt_bytes(s, Q38::Xq), 16 * 512 / 256 * 292);
    assert_eq!(rt_bytes(s, Q38::Xq2), 16 * 512 / 256 * 292);
    assert_eq!(rt_bytes(s, Q38::Midq), 16 * 96 / 256 * 292);
    assert_eq!(rt_bytes(s, Q38::Qfull), 16 * 2 * 128 * 4);
    assert_eq!(rt_bytes(s, Q38::GdnQkv), 16 * 128 * 4);
    assert_eq!(rt_bytes(s, Q38::PlePad), (16 + 9) * 512 * 4);
    assert_eq!(rt_bytes(s, Q38::PleEmbDev), 16 * 256 * 4);
    assert_eq!(rt_bytes(s, Q38::Shg), 64);
}

#[test]
fn a_saved_state_comes_back() {
    let m = model();
    let mut r = made(&m);
    r.ple_tokens = vec![3, 4];
    r.ple_next_pos = 9;
    let mut ops: Vec<Op> = Vec::new();
    let ck = r.ckpt(2, &mut ops);
    let saved = SavedGdn {
        s_bytes: 8192,
        conv_bytes: 1536,
        ple_hist: Some(18432),
    };
    assert_eq!(ck.states, vec![Some(saved), None]);
    assert_eq!((ck.ple_tokens.as_slice(), ck.ple_next_pos), ([3, 4].as_slice(), 9));
    let save = |b: GdnBuf, bytes: u64| {
        vec![
            Op::Alloc {
                buf: Buf::Saved(0, b),
                bytes,
            },
            copy(Buf::Saved(0, b), 0, Buf::Gdn(0, b), 0, bytes),
        ]
    };
    let mut want = vec![Op::SetDevice(0)];
    want.extend(save(GdnBuf::S, 8192));
    want.extend(save(GdnBuf::Conv, 1536));
    want.extend(save(GdnBuf::PleHist, 18432));
    want.push(Op::SetDevice(2));
    assert_eq!(ops, want);
    ops.clear();
    r.ckpt_restore(&ck, 2, &mut ops);
    let back = |b: GdnBuf, bytes: u64| copy(Buf::Gdn(0, b), 0, Buf::Saved(0, b), 0, bytes);
    assert_eq!(
        ops,
        vec![
            Op::SetDevice(0),
            back(GdnBuf::S, 8192),
            back(GdnBuf::Conv, 1536),
            back(GdnBuf::PleHist, 18432),
            Op::SetDevice(2),
        ]
    );
    assert_eq!((r.ple_tokens.as_slice(), r.ple_next_pos), ([3, 4].as_slice(), 9));
    ops.clear();
    let none = Checkpoint {
        states: vec![],
        ple_tokens: vec![8],
        ple_next_pos: 1,
    };
    r.ckpt_restore(&none, 2, &mut ops);
    assert_eq!(ops, vec![Op::SetDevice(2)]);
    assert_eq!((r.ple_tokens.as_slice(), r.ple_next_pos), ([8].as_slice(), 1));
}

#[test]
fn a_rejected_draft_does_not_show_in_the_hash() {
    let m = model();
    let mut s = state(&m, 64);
    let mut ops: Vec<Op> = Vec::new();
    m.forward_qwen38(&mut s, &[21, 22, 23], 0, 0, 0, false, &mut ops).unwrap();
    let ck = s.qwen38.as_ref().unwrap().ckpt(0, &mut ops);
    ops.clear();
    m.forward_qwen38(&mut s, &[30], 3, 1, 0, false, &mut ops).unwrap();
    let straight = ops.clone();
    s.qwen38.as_mut().unwrap().ckpt_restore(&ck, 0, &mut ops);
    m.forward_qwen38(&mut s, &[40, 41], 3, 2, 0, false, &mut ops).unwrap();
    s.qwen38.as_mut().unwrap().ckpt_restore(&ck, 0, &mut ops);
    ops.clear();
    m.forward_qwen38(&mut s, &[30], 3, 1, 0, false, &mut ops).unwrap();
    assert_eq!(ops, straight);
    let rows = |ops: &[Op]| ops.iter().filter(|o| matches!(o, Op::PleRow { .. })).count();
    assert_eq!(rows(&ops), 4);
}

// ---- the drafting block

fn mtp_layer_ops(pos: u32, t: u32) -> Vec<Op> {
    let mut v = attn_mix(Part::Mtp, MatKind::Q8, t);
    v.extend(attn_ops(Part::Mtp, 2, pos, t, 64));
    v.push(combine(Q38::AttnOut, t));
    v.extend(ffn_mix(Part::Mtp, MatKind::Q8, t));
    v.extend(moe_ops(Part::Mtp, 2, false, t));
    v.push(combine(Q38::Cur, t));
    v
}

fn draft_start(token: u32, table: Gw) -> Vec<Op> {
    vec![
        Op::WriteToken(token),
        Op::Embed {
            out: st(St::MtpERaw),
            table: Buf::Global(table),
            n_embd: 256,
            n_vocab: 1000,
            t: 1,
        },
        Op::RmsNorm {
            out: st(St::MtpE),
            x: st(St::MtpERaw),
            w: Buf::Global(Gw::MtpEnorm),
            n: 256,
            rows: 1,
        },
        norm(rt(Q38::Xn), st(St::MtpHidden), Buf::Global(Gw::MtpHnorm), 1),
        Op::HcMean {
            out: st(St::MtpH),
            x: rt(Q38::Xn),
            t: 1,
            n_embd: 256,
            hc: 2,
        },
        copy(st(St::MtpX), 0, st(St::MtpE), 0, 1024),
        copy(st(St::MtpX), 1024, st(St::MtpH), 0, 1024),
        q8(st(St::Cur), Buf::Global(Gw::MtpEhProj), st(St::MtpX), 512, 256, 1),
        Op::BroadcastHc {
            out: rt(Q38::ResHc),
            x: st(St::Cur),
            t: 1,
            n_embd: 256,
            hc: 2,
        },
    ]
}

#[test]
fn a_draft_plans_every_launch() {
    let m = model();
    let mut s = state(&m, 64);
    let mut ops: Vec<Op> = Vec::new();
    let r = m.forward_qwen38_mtp_draft(&mut s, attn_layer(), 42, 11, &mut ops);
    assert_eq!(r, Ok(()));
    assert!(s.qwen38.is_some());
    let mut want = draft_start(42, Gw::TokenEmbd);
    want.extend(mtp_layer_ops(11, 1));
    want.extend(out_mix(1));
    want.extend(vec![
        copy(st(St::Normed), 0, rt(Q38::Cur), 0, 1024),
        Op::HeadLogits { rows: 1 },
        Op::Sync,
        Op::ReadLogits { n: 1000 },
        copy(st(St::MtpHidden), 0, rt(Q38::ResHc), 0, 2048),
    ]);
    assert_eq!(ops, want);
}

#[test]
fn a_drafting_block_may_have_its_own_table_and_head() {
    let mut m = model();
    m.mtp = Some(MtpW {
        layer: attn_layer(),
        tok_embd: true,
        output_w: true,
    });
    let mut s = state(&m, 64);
    let mut ops: Vec<Op> = Vec::new();
    m.forward_qwen38_mtp_draft(&mut s, attn_layer(), 42, 11, &mut ops).unwrap();
    assert_eq!(ops[..9], draft_start(42, Gw::MtpTokEmbd));
    assert_eq!(
        ops[ops.len() - 7..],
        [
            q8(st(St::Logits), Buf::Global(Gw::MtpOutput), st(St::Normed), 256, 1000, 1),
            Op::Softcap { n: 1000 },
            Op::Scale {
                buf: st(St::Logits),
                n: 1000,
                factor: Factor::LogitScale
            },
            Op::FillRowTail {
                rows: 1,
                n: 1000,
                n_out: 900
            },
            Op::Sync,
            Op::ReadLogits { n: 1000 },
            copy(st(St::MtpHidden), 0, rt(Q38::ResHc), 0, 2048),
        ]
    );
    m.softcap = false;
    m.logit_scale = false;
    m.n_vocab_out = 1000;
    ops.clear();
    m.forward_qwen38_mtp_draft(&mut s, attn_layer(), 42, 11, &mut ops).unwrap();
    assert_eq!(
        ops[ops.len() - 4],
        q8(st(St::Logits), Buf::Global(Gw::MtpOutput), st(St::Normed), 256, 1000, 1)
    );
}

#[test]
fn a_draft_that_fails_loses_the_runtime() {
    let m = model();
    let mut s = state(&m, 64);
    let mut ops: Vec<Op> = Vec::new();
    let other = LayerW {
        attn: Attn::Other,
        ffn: Ffn::Moe { shexp: false },
    };
    assert_eq!(
        m.forward_qwen38_mtp_draft(&mut s, other, 42, 11, &mut ops),
        Err(EngineError::Qwen38MtpWrongAttn)
    );
    assert!(s.qwen38.is_none());
    assert_eq!(
        m.forward_qwen38_mtp_draft(&mut s, attn_layer(), 42, 11, &mut ops),
        Err(EngineError::Qwen38StateMissing)
    );
    let mut s = state(&m, 64);
    assert_eq!(
        m.forward_qwen38_mtp_draft(&mut s, gdn_layer(), 42, 11, &mut ops),
        Err(EngineError::Qwen38MtpNoAttn)
    );
    let mut m = model();
    m.output_hc = None;
    let mut s = state(&m, 64);
    assert_eq!(
        m.forward_qwen38_mtp_draft(&mut s, attn_layer(), 42, 11, &mut ops),
        Err(EngineError::Qwen38NoOutputHc)
    );
    assert!(s.qwen38.is_none());
}

#[test]
fn the_cache_of_the_drafting_block_fills_over_a_chunk() {
    let m = model();
    let mut s = state(&m, 64);
    let mut ops: Vec<Op> = Vec::new();
    let r = m.mtp_prefill_fill_qwen38(&mut s, 3, 8, &mut ops);
    assert_eq!(r, Ok(()));
    assert!(s.qwen38.is_some());
    let mut want = vec![
        copy(rt(Q38::Xn), 0, st(St::MtpHidden), 0, 2048),
        copy(rt(Q38::Xn), 2048, rt(Q38::ResHc), 0, 4096),
        norm(rt(Q38::Gated), rt(Q38::Xn), Buf::Global(Gw::MtpHnorm), 3),
        Op::HcMean {
            out: st(St::MtpH),
            x: rt(Q38::Gated),
            t: 3,
            n_embd: 256,
            hc: 2,
        },
        Op::Embed {
            out: st(St::MtpERaw),
            table: Buf::Global(Gw::TokenEmbd),
            n_embd: 256,
            n_vocab: 1000,
            t: 3,
        },
        Op::RmsNorm {
            out: st(St::MtpE),
            x: st(St::MtpERaw),
            w: Buf::Global(Gw::MtpEnorm),
            n: 256,
            rows: 3,
        },
    ];
    for i in 0..3u64 {
        want.push(copy(st(St::MtpX), i * 2048, st(St::MtpE), i * 1024, 1024));
        want.push(copy(st(St::MtpX), i * 2048 + 1024, st(St::MtpH), i * 1024, 1024));
    }
    want.extend(vec![
        q8(st(St::Cur), Buf::Global(Gw::MtpEhProj), st(St::MtpX), 512, 256, 3),
        copy(st(St::MtpHidden), 0, rt(Q38::ResHc), 4096, 2048),
        Op::Sync,
        Op::BroadcastHc {
            out: rt(Q38::ResHc),
            x: st(St::Cur),
            t: 3,
            n_embd: 256,
            hc: 2,
        },
    ]);
    want.extend(mtp_layer_ops(8, 3));
    assert_eq!(ops, want);
    ops.clear();
    m.mtp_prefill_fill_qwen38(&mut s, 1, 8, &mut ops).unwrap();
    assert_eq!(ops[1], norm(rt(Q38::Gated), rt(Q38::Xn), Buf::Global(Gw::MtpHnorm), 1));
}

#[test]
fn a_fill_loses_the_runtime_inside_the_layer() {
    let mut m = model();
    m.mtp = Some(MtpW {
        layer: LayerW {
            attn: Attn::Other,
            ffn: Ffn::Other,
        },
        tok_embd: false,
        output_w: false,
    });
    let mut s = state(&m, 64);
    let mut ops: Vec<Op> = Vec::new();
    assert_eq!(
        m.mtp_prefill_fill_qwen38(&mut s, 1, 8, &mut ops),
        Err(EngineError::Qwen38MtpWrongAttn)
    );
    assert!(s.qwen38.is_some());
    m.mtp = Some(MtpW {
        layer: gdn_layer(),
        tok_embd: false,
        output_w: false,
    });
    assert_eq!(
        m.mtp_prefill_fill_qwen38(&mut s, 1, 8, &mut ops),
        Err(EngineError::Qwen38MtpNoAttn)
    );
    assert!(s.qwen38.is_none());
    assert_eq!(
        m.mtp_prefill_fill_qwen38(&mut s, 1, 8, &mut ops),
        Err(EngineError::Qwen38StateMissing)
    );
}

#[test]
fn the_host_waits_before_it_reads_back_or_writes_tokens() {
    let m = model();
    let mut s = state(&m, 64);
    let tokens: Vec<u32> = vec![7; 18];
    let mut ops: Vec<Op> = Vec::new();
    m.forward_qwen38(&mut s, &tokens, 0, 1, 0, false, &mut ops).unwrap();
    m.forward_qwen38_mtp_draft(&mut s, attn_layer(), 42, 18, &mut ops).unwrap();
    m.mtp_prefill_fill_qwen38(&mut s, 3, 19, &mut ops).unwrap();
    let mut waits: usize = 0;
    for i in 0..ops.len() {
        if matches!(
            ops[i],
            Op::Moe { .. } | Op::ReadLogits { .. } | Op::WriteTokens { .. }
        ) {
            assert_eq!(ops[i - 1], Op::Sync);
            waits += 1;
        }
    }
    assert_eq!(waits, 4 + 1 + 2 + 1 + 1 + 1);
}

#[test]
fn a_draft_copies_inside_the_chunk_buffers() {
    let m = model();
    let mut made_ops: Vec<Op> = Vec::new();
    let rt = Qwen38Rt::new(&m, 0, &mut made_ops).unwrap();
    let room = |b: Buf| {
        made_ops.iter().find_map(|o| match *o {
            Op::Alloc { buf, bytes } if buf == b => Some(bytes),
            _ => None,
        })
    };
    let mut s = state(&m, 64);
    s.qwen38 = Some(rt);
    let mut ops: Vec<Op> = Vec::new();
    m.forward_qwen38_mtp_draft(&mut s, attn_layer(), 42, 18, &mut ops).unwrap();
    m.mtp_prefill_fill_qwen38(&mut s, 16, 19, &mut ops).unwrap();
    let mut copies: usize = 0;
    for o in &ops {
        if let Op::CopyD2d {
            dst,
            dst_off,
            src,
            src_off,
            bytes,
        } = *o
        {
            if let Some(n) = room(dst) {
                assert!(dst_off + bytes <= n);
                copies += 1;
            }
            if let Some(n) = room(src) {
                assert!(src_off + bytes <= n);
                copies += 1;
            }
        }
    }
    assert!(copies > 4);
}

#[test]
fn copies_of_the_embedding_stand_behind_a_wait() {
    let ops = ple_ops(3);
    let mut fresh: Vec<Buf> = Vec::new();
    let mut copies: usize = 0;
    for o in &ops {
        match *o {
            Op::Sync => fresh.clear(),
            Op::MatmulQ8 { out, .. } => fresh.push(out),
            Op::HcNorm { out, .. } => fresh.push(out),
            Op::HcNormInplace { buf, .. } => fresh.push(buf),
            Op::PleScore { out, .. } => fresh.push(out),
            Op::PleApply { out, .. } => fresh.push(out),
            Op::PleConv { out, .. } => fresh.push(out),
            Op::CopyD2d { dst, src, .. } => {
                assert!(!fresh.contains(&src) && !fresh.contains(&dst));
                copies += 1;
            }
            _ => {}
        }
    }
    assert_eq!(copies, 4);
}

#[test]
fn the_streams_are_replaced_after_a_wait() {
    let m = model();
    let mut s = state(&m, 64);
    let mut ops: Vec<Op> = Vec::new();
    m.mtp_prefill_fill_qwen38(&mut s, 3, 8, &mut ops).unwrap();
    let at = ops
        .iter()
        .position(|o| matches!(o, Op::BroadcastHc { .. }))
        .unwrap();
    assert_eq!(ops[at - 1], Op::Sync);
    assert!(matches!(
        ops[at - 2],
        Op::CopyD2d { dst: Buf::State(St::MtpHidden), src: Buf::Rt(Q38::ResHc), .. }
    ));
}
