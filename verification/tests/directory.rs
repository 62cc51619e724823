use pulsar::directory::{expert_parts, lowest, named, shard_bases};
use pulsar::expert::{Gguf, TensorInfo};
use pulsar::fetch::Fetcher;
use pulsar::q8k::pack_row;

fn tensor(name: &str, offset: u64, byte_size: Option<u64>) -> TensorInfo {
    TensorInfo {
        name: name.to_string(),
        ty: "F32".to_string(),
        dims: vec![1],
        offset,
        row_bytes: None,
        byte_size,
    }
}

#[test]
fn a_shard_starts_behind_the_bytes_of_those_before() {
    let shards = vec![
        vec![tensor("a", 0, Some(100)), tensor("b", 0, None)],
        vec![],
        vec![tensor("c", 0, Some(7)), tensor("d", 0, Some(3))],
        vec![tensor("e", 0, Some(9))],
    ];
    assert_eq!(shard_bases(&shards), vec![0, 100, 100, 110]);
    assert_eq!(shard_bases(&Vec::new()), Vec::new());
}

#[test]
fn the_bases_of_a_model_route_every_offset() {
    let shards = vec![
        vec![tensor("a", 0, Some(4096))],
        vec![tensor("b", 0, Some(8192))],
    ];
    let f = Fetcher::open_split(shard_bases(&shards), 1);
    assert!(f.can_route(0));
    assert_eq!(f.route(4095), (0, 4095));
    assert_eq!(f.route(4096), (1, 0));
}

#[test]
fn a_tensor_of_unknown_layout_has_no_size() {
    assert_eq!(tensor("a", 0, None).size(), 0);
    assert_eq!(tensor("a", 0, Some(12)).size(), 12);
}

#[test]
fn a_filter_keeps_names_that_hold_it() {
    let ts = vec![
        tensor("blk.0.attn_q", 0, None),
        tensor("output", 0, None),
        tensor("blk.1.attn_k", 0, None),
    ];
    assert_eq!(named(&ts, Some("attn")), vec![0, 2]);
    assert_eq!(named(&ts, Some("output_norm")), Vec::<usize>::new());
    assert_eq!(named(&ts, Some("")), vec![0, 1, 2]);
    assert_eq!(named(&ts, None), vec![0, 1, 2]);
}

#[test]
fn experts_and_routers_are_listed() {
    let ts = vec![
        tensor("blk.0.ffn_gate_inp.weight", 0, None),
        tensor("blk.0.ffn_gate.weight", 0, None),
        tensor("blk.0.ffn_up_exps.weight", 0, None),
        tensor("blk.0.ffn_gate_inp_shexp.weight", 0, None),
    ];
    assert_eq!(expert_parts(&ts), vec![0, 2, 3]);
}

#[test]
fn the_lowest_tensors_come_in_order_of_place() {
    let ts = vec![
        tensor("a", 30, None),
        tensor("b", 10, None),
        tensor("c", 30, None),
        tensor("d", 0, None),
        tensor("e", 10, None),
    ];
    assert_eq!(lowest(&ts, 8), vec![3, 1, 4, 0, 2]);
    assert_eq!(lowest(&ts, 3), vec![3, 1, 4]);
    assert_eq!(lowest(&ts, 0), Vec::<usize>::new());
    assert_eq!(lowest(&Vec::new(), 8), Vec::<usize>::new());
}

#[test]
fn a_tensor_lies_behind_the_header() {
    let g = Gguf {
        expert_count: None,
        data_offset: 4000,
        tensors: vec![tensor("a", 96, None)],
    };
    assert_eq!(g.position(0), 4096);
}

#[test]
fn a_row_packs_into_blocks() {
    let d = [0x3f80_0000u32, 0x0102_0304];
    let mut qs: Vec<i8> = vec![0; 512];
    qs[0] = 127;
    qs[1] = -128;
    qs[511] = -1;
    let mut sums: Vec<i16> = vec![0; 32];
    sums[0] = -1;
    sums[31] = 0x1234;
    let out = pack_row(512, &d, &qs, &sums);
    assert_eq!(out.len(), 2 * 292);
    assert_eq!(out[0..6], [0, 0, 0x80, 0x3f, 127, 128]);
    assert_eq!(out[260..264], [0xff, 0xff, 0, 0]);
    assert_eq!(out[292..297], [4, 3, 2, 1, 0]);
    assert_eq!(out[292 + 259], 0xff);
    assert_eq!(out[582..584], [0x34, 0x12]);
}

#[test]
fn what_does_not_fill_a_block_is_left_out() {
    assert_eq!(pack_row(255, &[], &[], &[]), Vec::<u8>::new());
    let out = pack_row(300, &[1], &[1i8; 256], &[16i16; 16]);
    assert_eq!(out.len(), 292);
}
