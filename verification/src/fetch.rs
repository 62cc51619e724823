//! Batches of slab reads over the same ring: which shard a read goes to, which
//! reads are pending, and the window of a slab in its buffer.

use crate::plan::Read;
use crate::ring::{taken, taken_counts, taken_update};
use crate::uring::{
    aligned_off, bracket, bracket_fits, disk_len, lemma_bracket_range, window, window_of, Aligned,
    InFlight, SLAB_SLACK,
};
use vstd::prelude::*;

verus! {

/// The block size of direct I/O.
pub const ALIGN: u64 = 4096;

/// One fetched slab: an aligned bracket plus the payload window.
pub struct Slab {
    buf: Aligned,
    payload_off: usize,
    payload_len: usize,
}

impl Slab {
    /// The buffer of the slab.
    pub closed spec fn block(&self) -> Aligned {
        self.buf
    }

    /// Where the payload starts in the buffer.
    pub closed spec fn start(&self) -> usize {
        self.payload_off
    }

    /// How long the payload is.
    pub closed spec fn len(&self) -> usize {
        self.payload_len
    }

    /// The payload lies in the buffer, with the slack behind it.
    #[verifier::type_invariant]
    spec fn inv(&self) -> bool {
        self.payload_off + self.payload_len + SLAB_SLACK <= self.buf.size()
    }

    /// The slab of a completed read, in the buffer that it was read into.
    pub fn new(buf: Aligned, w: &InFlight) -> (s: Slab)
        requires
            w.wf(),
            w.cap == buf.size(),
        ensures
            s.block() == buf,
            s.start() == w.payload_off,
            s.len() == w.payload_len,
    {
        Slab { buf, payload_off: w.payload_off, payload_len: w.payload_len }
    }

    /// The payload: where it starts in the buffer, and how long it is.
    pub fn payload(&self) -> (r: (usize, usize))
        ensures
            r == (self.start(), self.len()),
            r.0 + r.1 + SLAB_SLACK <= self.block().size(),
    {
        proof {
            use_type_invariant(self);
        }
        (self.payload_off, self.payload_len)
    }

    /// The size of the whole buffer.
    pub fn bytes(&self) -> (r: usize)
        ensures
            r == self.block().size(),
    {
        self.buf.cap()
    }

    /// The buffer of the slab.
    pub fn buf(&self) -> (r: &Aligned)
        ensures
            *r == self.block(),
    {
        &self.buf
    }
}

/// The shards of a model as one virtual file, and the depth of the ring.
/// `bases[i]` is where shard `i` starts in the virtual file.
pub struct Fetcher {
    pub bases: Vec<u64>,
    pub qd: usize,
}

impl Fetcher {
    /// The bases are ascending.
    pub open spec fn wf(&self) -> bool {
        forall|i: int, j: int| 0 <= i <= j < self.bases@.len() ==> self.bases@[i] <= self.bases@[j]
    }

    /// The virtual offset lies in some shard.
    pub open spec fn routes(&self, offset: u64) -> bool {
        self.bases@.len() > 0 && self.bases@[0] <= offset
    }

    /// Shard `i` is the one that holds the offset: the last that starts at or
    /// before it.
    pub open spec fn holds(&self, offset: u64, i: int) -> bool {
        &&& 0 <= i < self.bases@.len()
        &&& self.bases@[i] <= offset
        &&& i + 1 < self.bases@.len() ==> offset < self.bases@[i + 1]
    }

    /// A single file: one shard at the start of the virtual file.
    pub fn open(qd: usize) -> (f: Fetcher)
        ensures
            f.wf(),
            f.qd == qd,
            f.bases@ == seq![0u64],
            forall|offset: u64| f.routes(offset),
    {
        Fetcher { bases: vec![0], qd }
    }

    /// Several shards.
    pub fn open_split(bases: Vec<u64>, qd: usize) -> (f: Fetcher)
        ensures
            f.bases == bases,
            f.qd == qd,
    {
        Fetcher { bases, qd }
    }

    /// The shard of a virtual offset, and the offset in that shard.
    pub fn route(&self, offset: u64) -> (r: (usize, u64))
        requires
            self.wf(),
            self.routes(offset),
        ensures
            self.holds(offset, r.0 as int),
            r.1 == offset - self.bases@[r.0 as int],
    {
        let mut lo: usize = 0;
        let mut hi: usize = self.bases.len();
        while hi - lo > 1
            invariant
                lo < hi <= self.bases@.len(),
                self.bases@[lo as int] <= offset,
                hi < self.bases@.len() ==> offset < self.bases@[hi as int],
            decreases hi - lo,
        {
            let mid: usize = lo + (hi - lo) / 2;
            if self.bases[mid] <= offset {
                lo = mid;
            } else {
                hi = mid;
            }
        }
        (lo, offset - self.bases[lo])
    }

    /// Whether the virtual offset lies in some shard.
    pub fn can_route(&self, offset: u64) -> (r: bool)
        ensures
            r == self.routes(offset),
    {
        self.bases.len() > 0 && self.bases[0] <= offset
    }
}

/// The shard that holds an offset is unique, so that two reads of one offset go
/// to one place.
pub proof fn route_is_unique(f: &Fetcher, offset: u64, i: int, j: int)
    requires
        f.wf(),
        f.holds(offset, i),
        f.holds(offset, j),
    ensures
        i == j,
{
    if i < j {
        assert(f.bases@[i + 1] <= f.bases@[j]);
    } else if j < i {
        assert(f.bases@[j + 1] <= f.bases@[i]);
    }
}

/// A read that ends before the next shard starts keeps, in its own shard, its
/// distance to every other offset of that shard.
pub proof fn route_keeps_distance(f: &Fetcher, a: u64, b: u64, i: int)
    requires
        f.wf(),
        f.holds(a, i),
        a <= b,
        i + 1 < f.bases@.len() ==> b < f.bases@[i + 1],
    ensures
        f.holds(b, i),
        (b - f.bases@[i]) - (a - f.bases@[i]) == b - a,
{
}

/// One entry for the submission queue.
#[derive(Debug, Clone, Copy, PartialEq, Eq, Structural)]
pub struct Request {
    /// which read of the batch this is; the completion names it again
    pub index: usize,
    /// the shard
    pub file: usize,
    /// where the read starts in the shard
    pub file_off: u64,
    /// how many bytes are read; the queue takes 32 bits
    pub len: u32,
    /// the size of the buffer
    pub cap: usize,
}

/// What the ring has to do next.
#[derive(Debug, Clone, Copy, PartialEq, Eq, Structural)]
pub enum Step {
    /// allocate a buffer and submit a read
    Submit(Request),
    /// wait for a completion
    Wait,
    /// every slab is handed out
    Done,
}

/// A batch in progress.
pub struct Batch {
    pub reads: Vec<Read>,
    pub fetcher: Fetcher,
    pub pending: Vec<Option<InFlight>>,
    /// the first read that is not submitted yet
    pub next: usize,
    pub inflight: usize,
}

impl Batch {
    /// The window is that of read `i` in the shard that holds it.
    pub open spec fn is_window(&self, i: int, w: InFlight) -> bool {
        let r = self.reads@[i];
        exists|k: int| #[trigger]
            self.fetcher.holds(r.offset, k) && w == window_of(
                (r.offset - self.fetcher.bases@[k]) as u64,
                r.len,
                ALIGN,
            )
    }

    /// Only submitted reads are pending, each with its own window, and they are
    /// counted.
    pub open spec fn wf(&self) -> bool {
        &&& self.fetcher.wf()
        &&& self.pending@.len() == self.reads@.len()
        &&& self.next <= self.reads@.len()
        &&& self.inflight == taken(self.pending@)
        &&& self.inflight <= self.fetcher.qd
        &&& forall|i: int|
            self.next <= i < self.reads@.len() ==> (#[trigger] self.pending@[i]) is None
        &&& forall|i: int|
            0 <= i < self.pending@.len() ==> ((#[trigger] self.pending@[i]) matches Some(w)
                ==> w.wf() && self.is_window(i, w))
    }

    /// Read `i` was submitted and its slab handed out.
    pub open spec fn handed_out(&self, i: int) -> bool {
        0 <= i < self.next && self.pending@[i] is None
    }

    /// There is a read to submit and room for it.
    pub open spec fn can_submit(&self) -> bool {
        self.inflight < self.fetcher.qd && self.next < self.reads@.len()
    }

    /// The read that comes next lies in a shard, and its numbers do not
    /// overflow there.
    pub open spec fn next_fits(&self) -> bool {
        self.can_submit() ==> {
            let r = self.reads@[self.next as int];
            &&& self.fetcher.routes(r.offset)
            &&& forall|i: int| #[trigger]
                self.fetcher.holds(r.offset, i) ==> bracket_fits(
                    (r.offset - self.fetcher.bases@[i]) as u64,
                    r.len,
                    ALIGN,
                )
        }
    }

    /// A batch of which nothing is submitted yet.
    pub fn new(fetcher: Fetcher, reads: Vec<Read>) -> (b: Batch)
        requires
            fetcher.wf(),
        ensures
            b.wf(),
            b.reads == reads,
            b.fetcher == fetcher,
            b.next == 0,
            b.inflight == 0,
    {
        let mut pending: Vec<Option<InFlight>> = Vec::new();
        for i in 0..reads.len()
            invariant
                pending.len() == i,
                forall|j: int| 0 <= j < i ==> (#[trigger] pending@[j]) is None,
        {
            pending.push(None);
        }
        proof {
            taken_counts(pending@);
        }
        Batch { reads, fetcher, pending, next: 0, inflight: 0 }
    }

    /// Whether the read that comes next lies in a shard and its numbers fit.
    pub fn check_next(&self) -> (r: bool)
        requires
            self.wf(),
        ensures
            r == self.next_fits(),
    {
        if self.inflight < self.fetcher.qd && self.next < self.reads.len() {
            let r = self.reads[self.next];
            if !self.fetcher.can_route(r.offset) {
                return false;
            }
            let (file, local) = self.fetcher.route(r.offset);
            proof {
                assert forall|i: int| self.fetcher.holds(r.offset, i) implies i == file by {
                    route_is_unique(&self.fetcher, r.offset, i, file as int);
                }
                lemma_bracket_range(local, r.len, ALIGN);
            }
            let payload_off: u64 = local - (local & !(ALIGN - 1));
            if r.len > u64::MAX - payload_off || payload_off + r.len > u64::MAX - (ALIGN - 1) {
                assert(!bracket_fits(local, r.len, ALIGN));
                return false;
            }
            let b = bracket(local, r.len, ALIGN);
            let ok = b.disk_len <= usize::MAX as u64 && b.disk_len as usize <= usize::MAX
                - SLAB_SLACK as usize;
            assert(ok == bracket_fits(local, r.len, ALIGN));
            ok
        } else {
            true
        }
    }

    /// Submits one more read, or says what else there is to do.
    pub fn step(&mut self) -> (r: Step)
        requires
            old(self).wf(),
            old(self).next_fits(),
        ensures
            final(self).wf(),
            final(self).reads == old(self).reads,
            final(self).fetcher == old(self).fetcher,
            match r {
                Step::Submit(s) => {
                    let read = old(self).reads@[old(self).next as int];
                    let local = (read.offset - old(self).fetcher.bases@[s.file as int]) as u64;
                    &&& old(self).can_submit()
                    &&& s.index == old(self).next
                    &&& old(self).fetcher.holds(read.offset, s.file as int)
                    &&& s.file_off == aligned_off(local, ALIGN)
                    &&& s.len == disk_len(local, read.len, ALIGN) as u32
                    &&& s.cap == disk_len(local, read.len, ALIGN) + SLAB_SLACK
                    &&& final(self).pending@ == old(self).pending@.update(
                        s.index as int,
                        Some(window_of(local, read.len, ALIGN)),
                    )
                    &&& final(self).next == old(self).next + 1
                    &&& final(self).inflight == old(self).inflight + 1
                },
                Step::Wait => !old(self).can_submit() && old(self).inflight > 0 && *final(self)
                    == *old(self),
                Step::Done => !old(self).can_submit() && old(self).inflight == 0 && *final(self)
                    == *old(self),
            },
    {
        if !(self.inflight < self.fetcher.qd && self.next < self.reads.len()) {
            return if self.inflight == 0 {
                Step::Done
            } else {
                Step::Wait
            };
        }
        let index = self.next;
        let r = self.reads[index];
        let (file, local) = self.fetcher.route(r.offset);
        let b = bracket(local, r.len, ALIGN);
        let w = window(&b, r.len);
        proof {
            taken_update(self.pending@, index as int, Some(w));
        }
        assert(self.fetcher.holds(r.offset, file as int));
        assert(self.is_window(index as int, w));
        self.pending.set(index, Some(w));
        self.inflight = self.inflight + 1;
        self.next = self.next + 1;
        Step::Submit(
            Request { index, file, file_off: b.aligned_off, len: b.disk_len as u32, cap: w.cap },
        )
    }

    /// Whether this read is pending.
    pub fn is_pending(&self, index: u64) -> (r: bool)
        requires
            self.wf(),
        ensures
            r <==> index < self.reads@.len() && self.pending@[index as int] is Some,
    {
        index < self.pending.len() as u64 && self.pending[index as usize].is_some()
    }

    /// A completion: `res` is the number of bytes, or, below zero, the error
    /// number with its sign turned.  Gives the window of the slab to hand out.
    pub fn complete(&mut self, index: u64, res: i32) -> (r: Result<InFlight, i32>)
        requires
            old(self).wf(),
            res > i32::MIN,
            res >= 0 ==> index < old(self).reads@.len() && old(self).pending@[index as int] is Some,
        ensures
            final(self).wf(),
            res < 0 ==> r == Err::<InFlight, i32>((-res) as i32) && *final(self) == *old(self),
            res >= 0 ==> {
                &&& r == Ok::<InFlight, i32>(old(self).pending@[index as int].unwrap())
                &&& r->Ok_0.wf()
                &&& final(self).is_window(index as int, r->Ok_0)
                &&& final(self).reads == old(self).reads
                &&& final(self).fetcher == old(self).fetcher
                &&& final(self).next == old(self).next
                &&& final(self).pending@ == old(self).pending@.update(index as int, None)
                &&& final(self).inflight == old(self).inflight - 1
                &&& final(self).handed_out(index as int)
                &&& !old(self).handed_out(index as int)
            },
    {
        if res < 0 {
            return Err(-res);
        }
        let i: usize = index as usize;
        proof {
            taken_update(self.pending@, i as int, None);
            taken_counts(self.pending@);
        }
        let w = self.pending[i].unwrap();
        assert(w.wf() && self.is_window(i as int, w)) by {
            assert(self.pending@[i as int] == Some(w));
        }
        self.inflight = self.inflight - 1;
        self.pending.set(i, None);
        proof {
            let offset = self.reads@[i as int].offset;
            let k = choose|k: int| #[trigger]
                old(self).fetcher.holds(offset, k) && w == window_of(
                    (offset - old(self).fetcher.bases@[k]) as u64,
                    self.reads@[i as int].len,
                    ALIGN,
                );
            assert(self.fetcher.holds(offset, k));
            assert(self.is_window(i as int, w));
            assert(self.wf()) by {
                assert forall|j: int| 0 <= j < self.pending@.len() implies ((
                #[trigger] self.pending@[j]) matches Some(v) ==> v.wf() && self.is_window(j, v))
                    by {
                    if let Some(v) = self.pending@[j] {
                        assert(old(self).pending@[j] == Some(v));
                        assert(old(self).is_window(j, v));
                    }
                }
            }
        }
        Ok(w)
    }
}

/// A batch that has nothing left to do has handed out the slab of every read.
/// (A ring of depth zero hands out nothing.)
pub proof fn done_means_all_fetched(b: &Batch)
    requires
        b.wf(),
        b.fetcher.qd > 0,
        !b.can_submit(),
        b.inflight == 0,
    ensures
        forall|i: int| 0 <= i < b.reads@.len() ==> b.handed_out(i),
{
    taken_counts(b.pending@);
}

/// A slab that was handed out stays handed out: no read is fetched twice.
pub proof fn handed_out_once(before: &Batch, after: &Batch, i: int, w: Option<InFlight>)
    requires
        before.wf(),
        0 <= i < before.reads@.len(),
        w is Some ==> i == before.next && after.next == before.next + 1,
        w is None ==> after.next == before.next,
        after.pending@ == before.pending@.update(i, w),
    ensures
        forall|k: int| before.handed_out(k) ==> after.handed_out(k),
{
}

} // verus!
