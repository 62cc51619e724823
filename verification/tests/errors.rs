use pulsar::engine::error::EngineError;

#[test]
fn every_error_has_its_words() {
    let words = [
        (EngineError::EmptyBatch, "empty batch"),
        (EngineError::PositionExceedsContext, "position exceeds context"),
        (EngineError::OutputNormMissing, "output_norm missing"),
        (EngineError::K3StateMissing, "k3 state missing"),
        (EngineError::K3NoOwnerScratch, "k3: no scratch for owner device"),
        (EngineError::K3NoScratch, "k3 scratch"),
        (EngineError::K3WrongAttn, "k3 layer without K3 attn weights"),
        (EngineError::K3KdaStateMissing, "k3 kda state missing"),
        (EngineError::K3NoMixer, "k3 layer with neither kda nor mla"),
        (EngineError::K3NoFfn, "k3 layer without a dense or MoE ffn"),
        (EngineError::K3NoLatent, "k3 MoE layer without latent projections"),
        (EngineError::K3OneRow, "k3: decode path emits one row per pass"),
        (EngineError::K3OutputResScoreMissing, "k3: output_res_score missing"),
        (EngineError::BailingStateMissing, "bailing state missing"),
        (EngineError::BailingNoOwnerScratch, "bailing: no scratch for owner device"),
        (EngineError::BailingNoScratch, "bailing scratch"),
        (EngineError::BailingWrongAttn, "bailing layer without Bailing attn weights"),
        (EngineError::BailingKdaStateMissing, "bailing kda state missing"),
        (EngineError::BailingNoMixer, "bailing layer with neither kda nor mla"),
        (EngineError::BailingNoFfn, "bailing layer without a dense or MoE ffn"),
        (EngineError::BailingOneRow, "bailing: decode path emits one row per pass"),
        (EngineError::Qwen38StateMissing, "qwen38 state missing"),
        (EngineError::Qwen38RowsExceedVerify, "qwen38: rows exceeds the verify chunk"),
        (EngineError::Qwen38RowsExceedChunk, "qwen38: rows exceeds the final chunk"),
        (EngineError::Qwen38NoOutputHc, "qwen38: model missing output_hc mixer"),
        (EngineError::Qwen38WrongAttn, "qwen38 layer without Qwen38 weights"),
        (EngineError::Qwen38NoMixer, "qwen38 layer with neither attn nor gdn"),
        (EngineError::Qwen38NoMoe, "qwen38 layer without MoE ffn"),
        (EngineError::Qwen38GdnStateMissing, "qwen38 gdn state missing"),
        (EngineError::Qwen38KvNotQ8, "qwen38 attn k/v must be q8_0 (file ships q8_0)"),
        (EngineError::Qwen38MtpWrongAttn, "qwen38 mtp layer without Qwen38 weights"),
        (EngineError::Qwen38MtpNoAttn, "qwen38 mtp layer without attention"),
        (EngineError::Qwen38NoPleEntry, "qwen38: missing per_layer_token_embd table"),
        (EngineError::Qwen38NoPleTable, "qwen38: PLE layer but table reader missing"),
        (EngineError::Qwen38NoPleWeights, "qwen38: PLE weights missing"),
        (EngineError::Qwen38PleStateMissing, "qwen38: ple state missing"),
        (EngineError::Qwen38PleHistMissing, "qwen38: ple hist missing"),
    ];
    for (e, w) in words {
        assert_eq!(e.message(), w);
    }
}

#[test]
fn numbers_stand_in_the_words() {
    let e = EngineError::Qwen38BeyondDense {
        end: 2052,
        topk: 2048,
        ratio: 4,
    };
    assert_eq!(
        e.message(),
        "qwen38: position 2052 exceeds the provably-dense QSA window indexer_top_k(2048) + \
         ratio(4) - 1; block-sparse selection is the declared perf pass"
    );
    let row = |row: i64| EngineError::PleRowOutOfRange { row }.message();
    assert_eq!(row(17), "PLE row 17 out of range");
    assert_eq!(row(-1), "PLE row -1 out of range");
    assert_eq!(row(i64::MIN), "PLE row -9223372036854775808 out of range");
}
