//! What the reads that are handed to the kernel bring back.

use crate::checksum::{looked_at, middle, middles};
use crate::directory::{bytes_before, bytes_of};
use crate::expert::TensorInfo;
use crate::fetch::Batch;
use crate::plan::Read;
use crate::uring::{
    bracket_covers, bracket_fits, disk_len, total_disk, total_len, window_of, InFlight, Run,
    Submit,
};
use vstd::arithmetic::power2::is_pow2;
use vstd::prelude::*;

verus! {

/// A window brings a read back: its payload is as long as the read, stands in the
/// file where the read does, and leaves 256 bytes behind it.
pub open spec fn brings_back(w: InFlight, offset: int, len: int, align: int) -> bool {
    &&& w.file_off as int % align == 0
    &&& w.file_off <= offset < w.file_off + align
    &&& w.file_off + w.payload_off == offset
    &&& w.payload_len == len
    &&& (w.cap - 256) % align == 0
    &&& offset + len <= w.file_off + (w.cap - 256) < offset + len + align
}

/// A read that fits is brought back by its window.
pub proof fn window_brings_back(offset: u64, len: u64, align: u64)
    requires
        is_pow2(align as int),
        bracket_fits(offset, len, align),
    ensures
        brings_back(window_of(offset, len, align), offset as int, len as int, align as int),
{
    bracket_covers(offset, len, align);
}

/// A submission asks for the next read of the plan, on the boundary before it, as
/// far as the boundary behind it, into a buffer with 256 bytes to spare, aligned as
/// the file is; it takes a free slot, and every slot before that one is taken.
pub proof fn submission_asks_for_the_next_read(before: &Run, after: &Run, s: Submit)
    requires
        before.wf(),
        before.next_fits(),
        before.submits(after, s),
        is_pow2(before.align as int),
        disk_len(
            before.reads@[before.next as int].offset,
            before.reads@[before.next as int].len,
            before.align,
        ) <= u32::MAX,
    ensures
        ({
            let r = before.reads@[before.next as int];
            let a = before.align as int;
            &&& s.file_off % before.align == 0
            &&& s.file_off <= r.offset < s.file_off + a
            &&& s.len as int % a == 0
            &&& r.offset + r.len <= s.file_off + s.len < r.offset + r.len + a
            &&& s.cap == s.len + 256
            &&& s.align == before.align
            &&& s.slot < before.slots@.len()
            &&& before.slots@[s.slot as int] is None
            &&& after.slots@[s.slot as int] is Some
            &&& brings_back(after.slots@[s.slot as int]->Some_0, r.offset as int, r.len as int, a)
            &&& after.stats.bytes_disk == before.stats.bytes_disk + s.len
        }),
{
    let r = before.reads@[before.next as int];
    bracket_covers(r.offset, r.len, before.align);
}

/// A read of a batch is brought back from the shard that holds it, at its distance
/// from the shard's base.
pub proof fn batch_window_brings_back(b: &Batch, i: int)
    requires
        b.wf(),
        0 <= i < b.reads@.len(),
        b.pending@[i] is Some,
        forall|k: int| #[trigger]
            b.fetcher.holds(b.reads@[i].offset, k) ==> bracket_fits(
                (b.reads@[i].offset - b.fetcher.bases@[k]) as u64,
                b.reads@[i].len,
                4096,
            ),
    ensures
        exists|k: int|
            #![trigger b.fetcher.bases@[k]]
            {
                &&& 0 <= k < b.fetcher.bases@.len()
                &&& b.fetcher.bases@[k] <= b.reads@[i].offset
                &&& k + 1 < b.fetcher.bases@.len() ==> b.reads@[i].offset < b.fetcher.bases@[k + 1]
                &&& brings_back(
                    b.pending@[i]->Some_0,
                    b.reads@[i].offset - b.fetcher.bases@[k],
                    b.reads@[i].len as int,
                    4096,
                )
            },
{
    let w = b.pending@[i]->Some_0;
    assert(b.is_window(i, w));
    let r = b.reads@[i];
    let k = choose|k: int| #[trigger]
        b.fetcher.holds(r.offset, k) && w == window_of(
            (r.offset - b.fetcher.bases@[k]) as u64,
            r.len,
            4096,
        );
    assert(is_pow2(4096)) by {
        vstd::arithmetic::power2::lemma2_to64();
        vstd::arithmetic::power2::is_pow2_equiv(4096);
        vstd::arithmetic::power2::lemma_pow2(12);
    }
    window_brings_back((r.offset - b.fetcher.bases@[k]) as u64, r.len, 4096);
    assert(b.fetcher.bases@[k] <= r.offset);
}

/// A plan with one read more is longer by that read, takes its bracket more from the
/// disk, and its checksum takes in the byte at half the read.
pub proof fn one_read_more(file: Seq<u8>, reads: Seq<Read>, r: Read, align: u64)
    requires
        is_pow2(align as int),
    ensures
        total_len(reads.push(r)) == total_len(reads) + r.len,
        total_len(Seq::<Read>::empty()) == 0,
        middles(file, reads.push(r)) == middles(file, reads) ^ file[r.offset + r.len / 2],
        middles(file, Seq::<Read>::empty()) == 0,
        ({
            let more = total_disk(reads.push(r), align) - total_disk(reads, align);
            let start = r.offset - r.offset % align;
            &&& more % (align as int) == 0
            &&& r.offset + r.len <= start + more < r.offset + r.len + align
        }),
        total_disk(Seq::<Read>::empty(), align) == 0,
{
    assert(reads.push(r).drop_last() =~= reads);
    bracket_covers(r.offset, r.len, align);
}

/// What a completion looks at is the byte at half its read.
pub proof fn completion_looks_at_the_middle(file: Seq<u8>, offset: u64, len: u64, align: u64)
    requires
        is_pow2(align as int),
        bracket_fits(offset, len, align),
    ensures
        looked_at(file, window_of(offset, len, align)) == file[offset + len / 2],
{
    window_brings_back(offset, len, align);
    assert(middle(file, Read { offset, len }) == file[offset + len / 2]);
}

/// A shard starts behind all tensors of the shards before it: with one tensor more
/// in the last of them it starts that much later.
pub proof fn shard_starts_behind_its_tensors(
    shards: Seq<Vec<TensorInfo>>,
    more: Vec<TensorInfo>,
    ts: Seq<TensorInfo>,
    t: TensorInfo,
)
    ensures
        bytes_before(shards, 0) == 0,
        bytes_before(shards.push(more), shards.len() as int + 1) == bytes_before(
            shards,
            shards.len() as int,
        ) + bytes_of(more@, more@.len() as int),
        bytes_of(ts, 0) == 0,
        bytes_of(ts.push(t), ts.len() as int + 1) == bytes_of(ts, ts.len() as int) + (
        match t.byte_size {
            Some(n) => n as int,
            None => 0,
        }),
{
    lemma_same_shards(shards, shards.push(more), shards.len() as int);
    lemma_same_tensors(ts, ts.push(t), ts.len() as int);
}

proof fn lemma_same_shards(a: Seq<Vec<TensorInfo>>, b: Seq<Vec<TensorInfo>>, n: int)
    requires
        n <= a.len(),
        n <= b.len(),
        forall|i: int| 0 <= i < n ==> a[i] == b[i],
    ensures
        bytes_before(a, n) == bytes_before(b, n),
    decreases n,
{
    if n > 0 {
        lemma_same_shards(a, b, n - 1);
    }
}

proof fn lemma_same_tensors(a: Seq<TensorInfo>, b: Seq<TensorInfo>, n: int)
    requires
        n <= a.len(),
        n <= b.len(),
        forall|i: int| 0 <= i < n ==> a[i] == b[i],
    ensures
        bytes_of(a, n) == bytes_of(b, n),
    decreases n,
{
    if n > 0 {
        lemma_same_tensors(a, b, n - 1);
    }
}

} // verus!
