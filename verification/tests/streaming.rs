use pulsar::fetch::{Batch, Fetcher, Request, Slab, ALIGN};
use pulsar::plan::Read;
use pulsar::uring::{
    bracket, layout_ok, power_of_two, window, Aligned, Bracket, InFlight, Release, Run, Stats,
    Submit,
};

fn read(offset: u64, len: u64) -> Read {
    Read { offset, len }
}

// ---- buffers

#[test]
fn powers_of_two() {
    assert!(power_of_two(1));
    assert!(power_of_two(4096));
    assert!(power_of_two(1 << 63));
    assert!(!power_of_two(0));
    assert!(!power_of_two(4095));
}

#[test]
fn layouts_that_an_allocator_takes() {
    let max = isize::MAX as usize;
    assert!(layout_ok(8192, 4096));
    assert!(layout_ok(0, 1));
    assert!(!layout_ok(10, 3));
    assert!(!layout_ok(10, 0));
    assert!(layout_ok(max - 4095, 4096));
    assert!(!layout_ok(max - 4094, 4096));
    let sizes: [usize; 6] = [0, 1, 4096, max - 4096, max - 4095, max];
    let aligns: [usize; 6] = [0, 1, 2, 3, 4096, max + 1];
    for cap in sizes {
        for align in aligns {
            let std_says = std::alloc::Layout::from_size_align(cap, align).is_ok();
            assert_eq!(layout_ok(cap, align), std_says);
        }
    }
}

#[test]
fn a_block_of_the_default_allocator() {
    let a = Aligned::new(8448, 4096, 0x7000).unwrap();
    assert_eq!(a.ptr(), 0x7000);
    assert_eq!(a.cap(), 8448);
    assert_eq!(
        a.release(),
        Release::Default {
            cap: 8448,
            align: 4096
        }
    );
    assert!(Aligned::new(8448, 4096, 0).is_none());
    assert!(Aligned::new(8448, 4095, 0x7000).is_none());
}

#[test]
fn an_injected_allocator_comes_first() {
    let a = Aligned::new_with(100, 4096, Some(0x9000), 0).unwrap();
    assert_eq!(a.ptr(), 0x9000);
    assert_eq!(a.cap(), 100);
    assert_eq!(a.release(), Release::Custom);
    assert!(!Aligned::falls_back(Some(0x9000)));
}

#[test]
fn an_injected_allocator_is_not_held_to_a_layout() {
    assert!(Aligned::new_with(100, 3, Some(0x9000), 0).is_some());
    assert!(Aligned::new_with(100, 3, None, 0x7000).is_none());
}

#[test]
fn null_falls_back_to_the_default_allocator() {
    assert!(Aligned::falls_back(Some(0)));
    assert!(Aligned::falls_back(None));
    let a = Aligned::new_with(100, 4096, Some(0), 0x7000).unwrap();
    assert_eq!(a.ptr(), 0x7000);
    assert_eq!(
        a.release(),
        Release::Default {
            cap: 100,
            align: 4096
        }
    );
    assert!(Aligned::new_with(100, 4096, Some(0), 0).is_none());
    assert!(Aligned::new_with(100, 4096, None, 0).is_none());
}

// ---- brackets

#[test]
fn a_bracket_is_aligned_and_covers() {
    let b = bracket(5000, 1536, 4096);
    assert_eq!(
        b,
        Bracket {
            aligned_off: 4096,
            payload_off: 904,
            disk_len: 4096
        }
    );
    let b = bracket(8000, 1536, 4096);
    assert_eq!(
        b,
        Bracket {
            aligned_off: 4096,
            payload_off: 3904,
            disk_len: 8192
        }
    );
    for offset in [0u64, 1, 511, 512, 4095, 4096, 123456789] {
        for len in [0u64, 1, 511, 512, 513, 100000] {
            let b = bracket(offset, len, 512);
            assert_eq!(b.aligned_off % 512, 0);
            assert_eq!(b.disk_len % 512, 0);
            assert!(b.payload_off < 512);
            assert_eq!(b.aligned_off + b.payload_off, offset);
            assert!(offset + len <= b.aligned_off + b.disk_len);
            assert!(b.aligned_off + b.disk_len < offset + len + 512);
        }
    }
}

#[test]
fn an_aligned_read_is_its_own_bracket() {
    assert_eq!(
        bracket(8192, 4096, 4096),
        Bracket {
            aligned_off: 8192,
            payload_off: 0,
            disk_len: 4096
        }
    );
    assert_eq!(bracket(8192, 0, 4096).disk_len, 0);
}

#[test]
fn a_window_has_slack_behind_it() {
    let b = bracket(5000, 1536, 4096);
    let w = window(&b, 1536);
    assert_eq!(
        w,
        InFlight {
            file_off: 4096,
            cap: 4096 + 256,
            payload_off: 904,
            payload_len: 1536
        }
    );
    assert_eq!(w.probe(), 904 + 768);
}

// ---- the run

fn submit(s: pulsar::uring::Step) -> Submit {
    match s {
        pulsar::uring::Step::Submit(s) => s,
        other => panic!("{:?}", other),
    }
}

#[test]
fn a_run_fills_the_ring_and_reuses_slots() {
    let reads = vec![read(5000, 1536), read(8192, 4096), read(100, 10)];
    let mut run = Run::new(reads, 2, 4096);
    assert!(run.check_next());
    assert_eq!(
        submit(run.step()),
        Submit {
            slot: 0,
            file_off: 4096,
            len: 4096,
            cap: 4352,
            align: 4096
        }
    );
    assert!(run.check_next());
    assert_eq!(submit(run.step()).slot, 1);
    assert!(run.check_next());
    assert_eq!(run.step(), pulsar::uring::Step::Wait);
    assert!(run.occupied(0));
    assert!(run.occupied(1));
    assert!(!run.occupied(2));
    let w = run.complete(1, 4096).unwrap();
    assert_eq!(w.payload_len, 4096);
    run.touch(0x0f);
    assert!(!run.occupied(1));
    let s = submit(run.step());
    assert_eq!(s.slot, 1);
    assert_eq!(s.file_off, 0);
    assert_eq!(run.step(), pulsar::uring::Step::Wait);
    run.complete(0, 4096).unwrap();
    run.touch(0xf1);
    assert_eq!(run.step(), pulsar::uring::Step::Wait);
    run.complete(1, 4096).unwrap();
    run.touch(0x10);
    assert_eq!(run.step(), pulsar::uring::Step::Done);
    assert_eq!(
        run.stats,
        Stats {
            bytes_payload: 1536 + 4096 + 10,
            bytes_disk: 3 * 4096,
            reads: 3,
            checksum: 0x0f ^ 0xf1 ^ 0x10
        }
    );
}

/// Runs a plan over a file, completing the newest read in flight first or the
/// oldest.
fn run_over(file: &[u8], reads: &[Read], qd: usize, newest: bool) -> Stats {
    let mut run = Run::new(reads.to_vec(), qd, 512);
    let mut flying: Vec<u64> = Vec::new();
    loop {
        assert!(run.check_next());
        match run.step() {
            pulsar::uring::Step::Submit(s) => flying.push(s.slot as u64),
            pulsar::uring::Step::Wait => {
                let slot = if newest {
                    flying.pop().unwrap()
                } else {
                    flying.remove(0)
                };
                let w = run.complete(slot, 512).unwrap();
                run.touch(file[w.file_off as usize + w.probe()]);
            }
            other => {
                assert_eq!(other, pulsar::uring::Step::Done);
                return run.stats;
            }
        }
    }
}

#[test]
fn order_and_depth_do_not_show_in_the_statistics() {
    let file: Vec<u8> = (0..8192usize).map(|i| (i * i / 7) as u8).collect();
    let reads = vec![
        read(5, 100),
        read(600, 1),
        read(511, 3000),
        read(4096, 512),
        read(5, 100),
        read(7000, 900),
    ];
    let mut checksum: u8 = 0;
    for r in &reads {
        checksum ^= file[(r.offset + r.len / 2) as usize];
    }
    let want = run_over(&file, &reads, 1, false);
    assert_eq!(want.checksum, checksum);
    assert_eq!(want.reads, 6);
    assert_eq!(want.bytes_payload, 100 + 1 + 3000 + 512 + 100 + 900);
    let mut turned = reads.clone();
    turned.reverse();
    turned.swap(1, 4);
    for qd in [1, 2, 3, 9] {
        for newest in [false, true] {
            assert_eq!(run_over(&file, &reads, qd, newest), want);
            assert_eq!(run_over(&file, &turned, qd, newest), want);
        }
    }
}

#[test]
fn a_block_goes_back_as_pages() {
    let a = Aligned::new(1024, 512, 0x7000).unwrap();
    assert_eq!(
        a.release(),
        Release::Default {
            cap: 1024,
            align: 4096
        }
    );
}

#[test]
fn an_error_of_the_ring_is_turned_round() {
    let mut run = Run::new(vec![read(0, 1)], 1, 512);
    submit(run.step());
    assert_eq!(run.complete(0, -5), Err(5));
    assert_eq!(run.stats.reads, 0);
    assert_eq!(run.stats.bytes_payload, 0);
}

#[test]
fn an_empty_plan_is_done_at_once() {
    let mut run = Run::new(Vec::new(), 4, 512);
    assert!(run.check_next());
    assert_eq!(run.step(), pulsar::uring::Step::Done);
}

#[test]
fn a_ring_of_depth_zero_does_nothing() {
    let mut run = Run::new(vec![read(0, 1)], 0, 512);
    assert_eq!(run.step(), pulsar::uring::Step::Done);
    assert_eq!(run.stats.reads, 0);
}

#[test]
fn a_block_size_that_is_no_power_of_two_has_no_memory() {
    let mut run = Run::new(vec![read(0, 1)], 1, 3);
    assert!(run.check_next());
    assert_eq!(run.step(), pulsar::uring::Step::NoMemory);
}

#[test]
fn reads_whose_numbers_overflow_are_seen() {
    let run = Run::new(vec![read(u64::MAX, u64::MAX)], 1, 4096);
    assert!(!run.check_next());
    let run = Run::new(vec![read(0, 1)], 1, 0);
    assert!(!run.check_next());
    let run = Run::new(vec![read(u64::MAX, 1)], 1, 4096);
    assert!(run.check_next());
}

#[test]
fn a_long_read_is_cut_to_32_bits_in_the_queue() {
    let mut run = Run::new(vec![read(0, (1 << 32) + 4096)], 1, 4096);
    assert!(run.check_next());
    let s = submit(run.step());
    assert_eq!(s.len, 4096);
    assert_eq!(s.cap, (1 << 32) + 4096 + 256);
}

// ---- shards

#[test]
fn offsets_go_to_their_shard() {
    let f = Fetcher::open_split(vec![0, 1000, 5000], 4);
    assert_eq!(f.route(0), (0, 0));
    assert_eq!(f.route(999), (0, 999));
    assert_eq!(f.route(1000), (1, 0));
    assert_eq!(f.route(4999), (1, 3999));
    assert_eq!(f.route(5000), (2, 0));
    assert_eq!(f.route(u64::MAX), (2, u64::MAX - 5000));
}

#[test]
fn two_offsets_of_a_shard_keep_their_distance() {
    let f = Fetcher::open_split(vec![0, 1000, 5000], 4);
    let (i, a) = f.route(1234);
    let (j, b) = f.route(4321);
    assert_eq!(i, j);
    assert_eq!(b - a, 4321 - 1234);
}

#[test]
fn a_single_file_starts_at_zero() {
    let f = Fetcher::open(8);
    assert_eq!(f.bases, vec![0]);
    assert_eq!(f.qd, 8);
    assert_eq!(f.route(77), (0, 77));
}

#[test]
fn offsets_before_the_first_shard_have_none() {
    let f = Fetcher::open_split(vec![10, 20], 1);
    assert!(!f.can_route(9));
    assert!(f.can_route(10));
    assert!(!Fetcher::open_split(Vec::new(), 1).can_route(0));
}

// ---- batches

fn request(s: pulsar::fetch::Step) -> Request {
    match s {
        pulsar::fetch::Step::Submit(r) => r,
        other => panic!("{:?}", other),
    }
}

#[test]
fn a_batch_hands_out_every_slab_once() {
    let f = Fetcher::open_split(vec![0, 10000], 2);
    let reads = vec![read(5000, 100), read(10100, 5000), read(9999, 1)];
    let mut b = Batch::new(f, reads);
    assert!(b.check_next());
    assert_eq!(
        request(b.step()),
        Request {
            index: 0,
            file: 0,
            file_off: 4096,
            len: 4096,
            cap: 4352
        }
    );
    assert_eq!(
        request(b.step()),
        Request {
            index: 1,
            file: 1,
            file_off: 0,
            len: 8192,
            cap: 8448
        }
    );
    assert_eq!(b.step(), pulsar::fetch::Step::Wait);
    assert!(b.is_pending(1));
    assert!(!b.is_pending(2));
    assert!(!b.is_pending(3));
    let w = b.complete(1, 8192).unwrap();
    assert_eq!(
        w,
        InFlight {
            file_off: 0,
            cap: 8448,
            payload_off: 100,
            payload_len: 5000
        }
    );
    assert!(!b.is_pending(1));
    let r = request(b.step());
    assert_eq!((r.index, r.file, r.file_off), (2, 0, 8192));
    assert!(!b.is_pending(1));
    b.complete(2, 4096).unwrap();
    b.complete(0, 4096).unwrap();
    assert_eq!(b.step(), pulsar::fetch::Step::Done);
    for i in 0..3u64 {
        assert!(!b.is_pending(i));
    }
}

#[test]
fn an_error_of_a_batch_is_turned_round() {
    let mut b = Batch::new(Fetcher::open(1), vec![read(0, 1)]);
    request(b.step());
    assert_eq!(b.complete(0, -12), Err(12));
    assert!(b.is_pending(0));
}

#[test]
fn a_batch_sees_reads_without_a_shard() {
    let b = Batch::new(Fetcher::open_split(vec![10], 1), vec![read(9, 1)]);
    assert!(!b.check_next());
    let b = Batch::new(Fetcher::open(1), vec![read(u64::MAX, u64::MAX)]);
    assert!(!b.check_next());
}

#[test]
fn a_slab_knows_its_payload() {
    assert_eq!(ALIGN, 4096);
    let w = window(&bracket(5000, 100, ALIGN), 100);
    let buf = Aligned::new(w.cap, ALIGN as usize, 0x7000).unwrap();
    let s = Slab::new(buf, &w);
    assert_eq!(s.payload(), (904, 100));
    assert_eq!(s.bytes(), 4352);
    assert_eq!(s.buf().ptr(), 0x7000);
}
