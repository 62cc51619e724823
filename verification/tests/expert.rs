use pulsar::expert::{expert_reads, Gguf, TensorInfo};
use pulsar::plan::Read;

fn tensor(name: &str, dims: Vec<u64>, offset: u64, row_bytes: Option<u64>) -> TensorInfo {
    TensorInfo {
        name: name.to_string(),
        ty: "Q4K".to_string(),
        dims,
        offset,
        row_bytes,
        byte_size: None,
    }
}

fn model(expert_count: Option<u64>, tensors: Vec<TensorInfo>) -> Gguf {
    Gguf {
        expert_count,
        data_offset: 1000,
        tensors,
    }
}

#[test]
fn one_read_for_each_expert_of_each_tensor() {
    let g = model(
        Some(3),
        vec![
            tensor("blk.0.ffn_gate_exps.weight", vec![256, 2, 3], 24, Some(144)),
            tensor("blk.0.attn_q.weight", vec![256, 256], 5, Some(144)),
            tensor("blk.0.ffn_down_exps.weight", vec![512, 1, 3], 4096, Some(40)),
        ],
    );
    let r = expert_reads(&g, 6000).unwrap();
    let read = |offset: u64, len: u64| Read { offset, len };
    assert_eq!(
        r,
        vec![
            read(1024, 288),
            read(1312, 288),
            read(1600, 288),
            read(5096, 40),
            read(5136, 40),
            read(5176, 40),
        ]
    );
    assert_eq!(r.len(), 2 * 3);
    for x in &r {
        assert!(x.offset + x.len <= 6000);
    }
}

#[test]
fn the_last_slab_may_end_with_the_file() {
    let t = tensor("a_exps.weight", vec![256, 1, 2], 0, Some(100));
    let g = model(Some(2), vec![t]);
    assert!(expert_reads(&g, 1200).is_ok());
    assert_eq!(
        expert_reads(&g, 1199).unwrap_err(),
        "a_exps.weight: expert 1 beyond eof"
    );
    assert_eq!(
        expert_reads(&g, 1099).unwrap_err(),
        "a_exps.weight: expert 0 beyond eof"
    );
}

#[test]
fn the_expert_count_is_needed() {
    let g = model(None, Vec::new());
    assert_eq!(expert_reads(&g, 10).unwrap_err(), "missing expert_count");
}

#[test]
fn a_model_without_expert_tensors_is_refused() {
    let g = model(
        Some(4),
        vec![
            tensor("blk.0.attn_q.weight", vec![1], 0, Some(1)),
            tensor("blk.0.ffn_gate_exps.weight.scale", vec![1], 0, Some(1)),
        ],
    );
    assert_eq!(
        expert_reads(&g, 10).unwrap_err(),
        "no *_exps.weight tensors found"
    );
}

#[test]
fn no_experts_at_all_is_refused_too() {
    let g = model(
        Some(0),
        vec![tensor("x_exps.weight", vec![256, 1, 0], 0, Some(1))],
    );
    assert_eq!(
        expert_reads(&g, 10).unwrap_err(),
        "no *_exps.weight tensors found"
    );
}

#[test]
fn unexpected_dims_are_named() {
    let g = model(
        Some(8),
        vec![tensor("x_exps.weight", vec![256, 1, 7], 0, Some(1))],
    );
    assert_eq!(
        expert_reads(&g, 10).unwrap_err(),
        "x_exps.weight: unexpected exps dims [256, 1, 7]"
    );
    let g = model(Some(8), vec![tensor("_exps.weight", vec![], 0, Some(1))]);
    assert_eq!(
        expert_reads(&g, 10).unwrap_err(),
        "_exps.weight: unexpected exps dims []"
    );
}

#[test]
fn an_unmodeled_type_is_named() {
    let g = model(
        Some(8),
        vec![tensor("x_exps.weight", vec![256, 1, 8], 0, None)],
    );
    assert_eq!(
        expert_reads(&g, 10).unwrap_err(),
        "x_exps.weight: unmodeled type Q4K"
    );
}

#[test]
fn the_first_bad_tensor_decides() {
    let g = model(
        Some(1),
        vec![
            tensor("a_exps.weight", vec![256, 1, 1], 0, Some(5)),
            tensor("b_exps.weight", vec![256, 1, 1], 0, None),
            tensor("c_exps.weight", vec![256, 1, 2], 0, None),
        ],
    );
    assert_eq!(
        expert_reads(&g, 2000).unwrap_err(),
        "b_exps.weight: unmodeled type Q4K"
    );
}
