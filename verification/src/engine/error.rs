//! What can go wrong while a pass is planned.

use crate::text::{decimal, push_decimal};
use vstd::prelude::*;

verus! {

/// Why a plan ends early.
#[derive(Debug, Clone, Copy, PartialEq, Eq, Structural)]
pub enum EngineError {
    EmptyBatch,
    PositionExceedsContext,
    OutputNormMissing,
    K3StateMissing,
    K3NoOwnerScratch,
    K3NoScratch,
    K3WrongAttn,
    K3KdaStateMissing,
    K3NoMixer,
    K3NoFfn,
    K3NoLatent,
    K3OneRow,
    K3OutputResScoreMissing,
    BailingStateMissing,
    BailingNoOwnerScratch,
    BailingNoScratch,
    BailingWrongAttn,
    BailingKdaStateMissing,
    BailingNoMixer,
    BailingNoFfn,
    BailingOneRow,
    Qwen38StateMissing,
    Qwen38RowsExceedVerify,
    Qwen38RowsExceedChunk,
    Qwen38NoOutputHc,
    Qwen38WrongAttn,
    Qwen38NoMixer,
    Qwen38NoMoe,
    Qwen38GdnStateMissing,
    Qwen38KvNotQ8,
    Qwen38BeyondDense { end: u32, topk: u32, ratio: u32 },
    Qwen38MtpWrongAttn,
    Qwen38MtpNoAttn,
    Qwen38NoPleEntry,
    Qwen38NoPleTable,
    Qwen38NoPleWeights,
    Qwen38PleStateMissing,
    Qwen38PleHistMissing,
    PleRowOutOfRange { row: i64 },
}

impl EngineError {
    /// The words of the complaint, but for the two that name numbers.
    pub open spec fn plain(self) -> Option<Seq<char>> {
        match self {
            EngineError::EmptyBatch => Some("empty batch"@),
            EngineError::PositionExceedsContext => Some("position exceeds context"@),
            EngineError::OutputNormMissing => Some("output_norm missing"@),
            EngineError::K3StateMissing => Some("k3 state missing"@),
            EngineError::K3NoOwnerScratch => Some("k3: no scratch for owner device"@),
            EngineError::K3NoScratch => Some("k3 scratch"@),
            EngineError::K3WrongAttn => Some("k3 layer without K3 attn weights"@),
            EngineError::K3KdaStateMissing => Some("k3 kda state missing"@),
            EngineError::K3NoMixer => Some("k3 layer with neither kda nor mla"@),
            EngineError::K3NoFfn => Some("k3 layer without a dense or MoE ffn"@),
            EngineError::K3NoLatent => Some("k3 MoE layer without latent projections"@),
            EngineError::K3OneRow => Some("k3: decode path emits one row per pass"@),
            EngineError::K3OutputResScoreMissing => Some("k3: output_res_score missing"@),
            EngineError::BailingStateMissing => Some("bailing state missing"@),
            EngineError::BailingNoOwnerScratch => Some("bailing: no scratch for owner device"@),
            EngineError::BailingNoScratch => Some("bailing scratch"@),
            EngineError::BailingWrongAttn => Some("bailing layer without Bailing attn weights"@),
            EngineError::BailingKdaStateMissing => Some("bailing kda state missing"@),
            EngineError::BailingNoMixer => Some("bailing layer with neither kda nor mla"@),
            EngineError::BailingNoFfn => Some("bailing layer without a dense or MoE ffn"@),
            EngineError::BailingOneRow => Some("bailing: decode path emits one row per pass"@),
            EngineError::Qwen38StateMissing => Some("qwen38 state missing"@),
            EngineError::Qwen38RowsExceedVerify => Some("qwen38: rows exceeds the verify chunk"@),
            EngineError::Qwen38RowsExceedChunk => Some("qwen38: rows exceeds the final chunk"@),
            EngineError::Qwen38NoOutputHc => Some("qwen38: model missing output_hc mixer"@),
            EngineError::Qwen38WrongAttn => Some("qwen38 layer without Qwen38 weights"@),
            EngineError::Qwen38NoMixer => Some("qwen38 layer with neither attn nor gdn"@),
            EngineError::Qwen38NoMoe => Some("qwen38 layer without MoE ffn"@),
            EngineError::Qwen38GdnStateMissing => Some("qwen38 gdn state missing"@),
            EngineError::Qwen38KvNotQ8 => Some("qwen38 attn k/v must be q8_0 (file ships q8_0)"@),
            EngineError::Qwen38BeyondDense { .. } => None,
            EngineError::Qwen38MtpWrongAttn => Some("qwen38 mtp layer without Qwen38 weights"@),
            EngineError::Qwen38MtpNoAttn => Some("qwen38 mtp layer without attention"@),
            EngineError::Qwen38NoPleEntry => Some(
                "qwen38: missing per_layer_token_embd table"@,
            ),
            EngineError::Qwen38NoPleTable => Some("qwen38: PLE layer but table reader missing"@),
            EngineError::Qwen38NoPleWeights => Some("qwen38: PLE weights missing"@),
            EngineError::Qwen38PleStateMissing => Some("qwen38: ple state missing"@),
            EngineError::Qwen38PleHistMissing => Some("qwen38: ple hist missing"@),
            EngineError::PleRowOutOfRange { .. } => None,
        }
    }

    /// The words of the complaint.
    pub open spec fn words(self) -> Seq<char> {
        match self {
            EngineError::Qwen38BeyondDense { end, topk, ratio } => "qwen38: position "@ + decimal(
                end as nat,
            ) + " exceeds the provably-dense QSA window indexer_top_k("@ + decimal(topk as nat)
                + ") + ratio("@ + decimal(ratio as nat)
                + ") - 1; block-sparse selection is the declared perf pass"@,
            EngineError::PleRowOutOfRange { row } => "PLE row "@ + signed_decimal(row as int)
                + " out of range"@,
            _ => self.plain().unwrap(),
        }
    }

    /// The message of the error.
    pub fn message(&self) -> (s: String)
        ensures
            s@ == self.words(),
    {
        let text: &str = match self {
            EngineError::EmptyBatch => "empty batch",
            EngineError::PositionExceedsContext => "position exceeds context",
            EngineError::OutputNormMissing => "output_norm missing",
            EngineError::K3StateMissing => "k3 state missing",
            EngineError::K3NoOwnerScratch => "k3: no scratch for owner device",
            EngineError::K3NoScratch => "k3 scratch",
            EngineError::K3WrongAttn => "k3 layer without K3 attn weights",
            EngineError::K3KdaStateMissing => "k3 kda state missing",
            EngineError::K3NoMixer => "k3 layer with neither kda nor mla",
            EngineError::K3NoFfn => "k3 layer without a dense or MoE ffn",
            EngineError::K3NoLatent => "k3 MoE layer without latent projections",
            EngineError::K3OneRow => "k3: decode path emits one row per pass",
            EngineError::K3OutputResScoreMissing => "k3: output_res_score missing",
            EngineError::BailingStateMissing => "bailing state missing",
            EngineError::BailingNoOwnerScratch => "bailing: no scratch for owner device",
            EngineError::BailingNoScratch => "bailing scratch",
            EngineError::BailingWrongAttn => "bailing layer without Bailing attn weights",
            EngineError::BailingKdaStateMissing => "bailing kda state missing",
            EngineError::BailingNoMixer => "bailing layer with neither kda nor mla",
            EngineError::BailingNoFfn => "bailing layer without a dense or MoE ffn",
            EngineError::BailingOneRow => "bailing: decode path emits one row per pass",
            EngineError::Qwen38StateMissing => "qwen38 state missing",
            EngineError::Qwen38RowsExceedVerify => "qwen38: rows exceeds the verify chunk",
            EngineError::Qwen38RowsExceedChunk => "qwen38: rows exceeds the final chunk",
            EngineError::Qwen38NoOutputHc => "qwen38: model missing output_hc mixer",
            EngineError::Qwen38WrongAttn => "qwen38 layer without Qwen38 weights",
            EngineError::Qwen38NoMixer => "qwen38 layer with neither attn nor gdn",
            EngineError::Qwen38NoMoe => "qwen38 layer without MoE ffn",
            EngineError::Qwen38GdnStateMissing => "qwen38 gdn state missing",
            EngineError::Qwen38KvNotQ8 => "qwen38 attn k/v must be q8_0 (file ships q8_0)",
            EngineError::Qwen38BeyondDense { end, topk, ratio } => {
                let mut s = String::new();
                s.append("qwen38: position ");
                push_decimal(&mut s, *end as u64);
                s.append(" exceeds the provably-dense QSA window indexer_top_k(");
                push_decimal(&mut s, *topk as u64);
                s.append(") + ratio(");
                push_decimal(&mut s, *ratio as u64);
                s.append(") - 1; block-sparse selection is the declared perf pass");
                assert(s@ =~= self.words());
                return s;
            },
            EngineError::Qwen38MtpWrongAttn => "qwen38 mtp layer without Qwen38 weights",
            EngineError::Qwen38MtpNoAttn => "qwen38 mtp layer without attention",
            EngineError::Qwen38NoPleEntry => "qwen38: missing per_layer_token_embd table",
            EngineError::Qwen38NoPleTable => "qwen38: PLE layer but table reader missing",
            EngineError::Qwen38NoPleWeights => "qwen38: PLE weights missing",
            EngineError::Qwen38PleStateMissing => "qwen38: ple state missing",
            EngineError::Qwen38PleHistMissing => "qwen38: ple hist missing",
            EngineError::PleRowOutOfRange { row } => {
                let mut s = String::new();
                s.append("PLE row ");
                push_signed(&mut s, *row);
                s.append(" out of range");
                assert(s@ =~= self.words());
                return s;
            },
        };
        let mut s = String::new();
        s.append(text);
        assert(s@ =~= text@);
        s
    }
}

/// The decimal digits of a number, after a minus sign where it is negative.
pub open spec fn signed_decimal(n: int) -> Seq<char> {
    if n < 0 {
        seq!['-'] + decimal((-n) as nat)
    } else {
        decimal(n as nat)
    }
}

fn push_signed(out: &mut String, n: i64)
    ensures
        final(out)@ == old(out)@ + signed_decimal(n as int),
{
    if n < 0 {
        proof {
            reveal_strlit("-");
        }
        out.append("-");
        let m: u64 = if n == i64::MIN {
            9223372036854775808
        } else {
            (-n) as u64
        };
        push_decimal(out, m);
        assert(out@ =~= old(out)@ + signed_decimal(n as int));
    } else {
        push_decimal(out, n as u64);
    }
}

} // verus!
