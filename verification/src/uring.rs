//! The fetch engine's decisions: how a read is widened to whole blocks, which
//! slot it goes to, and what a completion adds to the statistics.
//!
//! One ring, `qd` reads in flight, direct I/O with aligned brackets: the offset
//! is aligned down and the length up, and the payload is a slice of the
//! bracket.

use crate::plan::Read;
use crate::ring::{taken, taken_counts, taken_update};
use vstd::arithmetic::power2::is_pow2;
use vstd::prelude::*;

verus! {

/// Spare bytes behind a bracket: integer-dot kernels may read phantom tail
/// sub-blocks past a row that ends at the slab edge.
pub const SLAB_SLACK: u64 = 256;

/// The alignment with which a block of the default allocator is given back.
pub const PAGE: usize = 4096;

// ---- buffers ---------------------------------------------------------------

/// A size and an alignment that an allocator can be asked for: the alignment is
/// a power of two, and the size, rounded up to it, fits in `isize`.
pub open spec fn layout_valid(cap: int, align: int) -> bool {
    is_pow2(align) && cap <= isize::MAX + 1 - align
}

/// Whether `n` is a power of two.
pub fn power_of_two(n: u64) -> (r: bool)
    ensures
        r == is_pow2(n as int),
{
    proof {
        reveal(is_pow2);
    }
    if n == 0 {
        return false;
    }
    let mut k: u64 = n;
    while k % 2 == 0
        invariant
            k > 0,
            is_pow2(n as int) == is_pow2(k as int),
        decreases k,
    {
        proof {
            reveal(is_pow2);
        }
        k = k / 2;
    }
    k == 1
}

/// Whether an allocator can be asked for this size and alignment.
pub fn layout_ok(cap: usize, align: usize) -> (r: bool)
    ensures
        r == layout_valid(cap as int, align as int),
{
    if !power_of_two(align as u64) {
        return false;
    }
    let max: usize = isize::MAX as usize;
    if align > max {
        align == max + 1 && cap == 0
    } else {
        cap <= max - align + 1
    }
}

/// Who a block of memory is given back to.
#[derive(Debug, Clone, Copy, PartialEq, Eq, Structural)]
pub enum Release {
    /// the injected allocator
    Custom,
    /// the default allocator, with this size and alignment
    Default { cap: usize, align: usize },
}

/// A block of memory: its address, its size and where it came from.
#[derive(Debug, PartialEq, Eq, Structural)]
pub struct Aligned {
    ptr: usize,
    cap: usize,
    custom: bool,
}

impl Aligned {
    /// The address of the block.
    pub closed spec fn addr(&self) -> usize {
        self.ptr
    }

    /// The size of the block.
    pub closed spec fn size(&self) -> usize {
        self.cap
    }

    /// The block came from the injected allocator.
    pub closed spec fn is_custom(&self) -> bool {
        self.custom
    }

    pub fn ptr(&self) -> (r: usize)
        ensures
            r == self.addr(),
    {
        self.ptr
    }

    pub fn cap(&self) -> (r: usize)
        ensures
            r == self.size(),
    {
        self.cap
    }

    /// A block of the default allocator.  `ptr` is what it returned for this
    /// size and alignment, zero where it had nothing; it is not looked at where
    /// the default allocator cannot be asked for them.
    pub fn new(cap: usize, align: usize, ptr: usize) -> (r: Option<Self>)
        ensures
            r is Some <==> layout_valid(cap as int, align as int) && ptr != 0,
            r matches Some(a) ==> a.addr() == ptr && a.size() == cap && !a.is_custom(),
    {
        if !layout_ok(cap, align) {
            return None;
        }
        if ptr == 0 {
            return None;
        }
        Some(Aligned { ptr, cap, custom: false })
    }

    /// Whether the default allocator has to be asked: there is no injected
    /// one, or it returned null.
    pub fn falls_back(custom: Option<usize>) -> (r: bool)
        ensures
            r <==> custom is None || custom == Some(0usize),
    {
        match custom {
            Some(p) => p == 0,
            None => true,
        }
    }

    /// A block of the injected allocator, falling back to the default allocator
    /// when it returns null (e.g. pinned memory exhausted).  `custom` is what
    /// the injected allocator returned, where there is one; `ptr` is what the
    /// default allocator returned, where it had to be asked.
    pub fn new_with(cap: usize, align: usize, custom: Option<usize>, ptr: usize) -> (r: Option<Self>)
        ensures
            match custom {
                Some(p) => p != 0 ==> (r matches Some(a) && a.addr() == p && a.size() == cap
                    && a.is_custom()),
                None => true,
            },
            custom is None || custom == Some(0usize) ==> {
                &&& r is Some <==> layout_valid(cap as int, align as int) && ptr != 0
                &&& r matches Some(a) ==> a.addr() == ptr && a.size() == cap && !a.is_custom()
            },
    {
        if let Some(p) = custom {
            if p != 0 {
                return Some(Aligned { ptr: p, cap, custom: true });
            }
        }
        Self::new(cap, align, ptr)
    }

    /// Who the block goes back to when it is dropped.  The default allocator gets
    /// it back as a block of pages, whatever alignment it was asked for.
    pub fn release(&self) -> (r: Release)
        ensures
            self.is_custom() ==> r == Release::Custom,
            !self.is_custom() ==> r == (Release::Default { cap: self.size(), align: PAGE }),
    {
        if self.custom {
            Release::Custom
        } else {
            Release::Default { cap: self.cap, align: PAGE }
        }
    }
}

// ---- brackets --------------------------------------------------------------

/// The offset, aligned down.
pub open spec fn aligned_off(offset: u64, align: u64) -> u64 {
    offset & !((align - 1) as u64)
}

/// Where the payload starts in its bracket.
pub open spec fn payload_off(offset: u64, align: u64) -> int {
    offset - aligned_off(offset, align)
}

/// The bytes that are read from disk: the payload with what precedes it, up to
/// a whole number of blocks.
pub open spec fn disk_len(offset: u64, len: u64, align: u64) -> int {
    ((payload_off(offset, align) + len + align - 1) / (align as int)) * align
}

/// The bracket of a read can be computed, and its buffer has a size.
pub open spec fn bracket_fits(offset: u64, len: u64, align: u64) -> bool {
    &&& align > 0
    &&& payload_off(offset, align) + len + align - 1 <= u64::MAX
    &&& disk_len(offset, len, align) + SLAB_SLACK <= usize::MAX
}

/// A read, widened to whole blocks.
#[derive(Debug, Clone, Copy, PartialEq, Eq, Structural)]
pub struct Bracket {
    pub aligned_off: u64,
    pub payload_off: u64,
    pub disk_len: u64,
}

/// The bracket of a read.
pub open spec fn bracket_of(offset: u64, len: u64, align: u64) -> Bracket {
    Bracket {
        aligned_off: aligned_off(offset, align),
        payload_off: payload_off(offset, align) as u64,
        disk_len: disk_len(offset, len, align) as u64,
    }
}

proof fn lemma_down(offset: u64, align: u64)
    requires
        align > 0,
    ensures
        aligned_off(offset, align) <= offset,
{
    let m = (align - 1) as u64;
    assert(offset & !m <= offset) by (bit_vector);
}

proof fn lemma_round_up(x: int, align: int)
    requires
        align > 0,
        x >= 0,
    ensures
        x <= ((x + align - 1) / align) * align <= x + align - 1,
        (((x + align - 1) / align) * align) % align == 0,
{
    let y = x + align - 1;
    vstd::arithmetic::div_mod::lemma_fundamental_div_mod(y, align);
    vstd::arithmetic::mul::lemma_mul_is_commutative(align, y / align);
    vstd::arithmetic::div_mod::lemma_mod_multiples_basic(y / align, align);
    vstd::arithmetic::div_mod::lemma_mod_pos_bound(y, align);
}

/// The numbers of a bracket have no sign.
pub(crate) proof fn lemma_bracket_range(offset: u64, len: u64, align: u64)
    requires
        align > 0,
    ensures
        0 <= payload_off(offset, align) <= offset,
        payload_off(offset, align) + len <= disk_len(offset, len, align),
        disk_len(offset, len, align) <= payload_off(offset, align) + len + align - 1,
        disk_len(offset, len, align) % (align as int) == 0,
{
    lemma_down(offset, align);
    lemma_round_up(payload_off(offset, align) + len, align as int);
}

/// Widens a read to whole blocks.
pub fn bracket(offset: u64, len: u64, align: u64) -> (b: Bracket)
    requires
        align > 0,
        payload_off(offset, align) + len + align - 1 <= u64::MAX,
    ensures
        b == bracket_of(offset, len, align),
        b.aligned_off + b.payload_off == offset,
        b.payload_off + len <= b.disk_len,
{
    proof {
        lemma_bracket_range(offset, len, align);
    }
    let aligned_off: u64 = offset & !(align - 1);
    let payload_off: u64 = offset - aligned_off;
    let disk_len: u64 = ((payload_off + len + (align - 1)) / align) * align;
    Bracket { aligned_off, payload_off, disk_len }
}

/// With a power of two the bracket starts and ends on a block boundary, holds
/// the read, and is the smallest that does: less than a block is added at
/// either end.
pub proof fn bracket_covers(offset: u64, len: u64, align: u64)
    requires
        is_pow2(align as int),
    ensures
        aligned_off(offset, align) == offset - offset % align,
        aligned_off(offset, align) % align == 0,
        0 <= payload_off(offset, align) < align,
        disk_len(offset, len, align) % (align as int) == 0,
        offset + len <= aligned_off(offset, align) + disk_len(offset, len, align) < offset + len
            + align,
{
    let k = lemma_pow2_of(align as int);
    vstd::arithmetic::power2::lemma_pow2_pos(k);
    if k >= 64 {
        vstd::arithmetic::power2::lemma2_to64_rest();
        if k > 64 {
            vstd::arithmetic::power2::lemma_pow2_strictly_increases(64, k);
        }
    }
    let m = (align - 1) as u64;
    vstd::bits::lemma_u64_low_bits_mask_is_mod(offset, k);
    assert(m == vstd::bits::low_bits_mask(k) as u64);
    assert(offset & m == offset % align);
    assert((offset & !m) + (offset & m) == offset) by (bit_vector);
    vstd::arithmetic::div_mod::lemma_fundamental_div_mod(offset as int, align as int);
    vstd::arithmetic::div_mod::lemma_mod_multiples_basic(
        offset as int / align as int,
        align as int,
    );
    vstd::arithmetic::mul::lemma_mul_is_commutative(align as int, offset as int / align as int);
    lemma_bracket_range(offset, len, align);
}

proof fn lemma_pow2_of(n: int) -> (k: nat)
    requires
        is_pow2(n),
    ensures
        n == vstd::arithmetic::power2::pow2(k),
{
    vstd::arithmetic::power2::is_pow2_equiv(n);
    let k = choose|k: nat| vstd::arithmetic::power::pow(2, k) == n;
    vstd::arithmetic::power2::lemma_pow2_pos(k);
    vstd::arithmetic::power2::lemma_pow2(k);
    k
}

// ---- the run ---------------------------------------------------------------

/// What a run has moved so far.
#[derive(Debug, Clone, Copy, PartialEq, Eq, Structural)]
pub struct Stats {
    pub bytes_payload: u64,
    pub bytes_disk: u64,
    pub reads: u64,
    /// xor of one byte per read, so the I/O cannot be elided and two
    /// implementations can be held against each other
    pub checksum: u8,
}

/// A read in flight: where its buffer starts in the file, the size of the buffer,
/// and where the payload will lie in it.
#[derive(Debug, Clone, Copy, PartialEq, Eq, Structural)]
pub struct InFlight {
    pub file_off: u64,
    pub cap: usize,
    pub payload_off: usize,
    pub payload_len: usize,
}

impl InFlight {
    /// The payload lies in the buffer, before the slack.
    pub open spec fn wf(&self) -> bool {
        self.payload_off + self.payload_len + SLAB_SLACK <= self.cap
    }

    /// The position of the byte that stands for the read in the checksum: the
    /// middle of the payload.
    pub fn probe(&self) -> (r: usize)
        requires
            self.wf(),
        ensures
            r == self.payload_off + self.payload_len / 2,
            r < self.cap,
    {
        self.payload_off + self.payload_len / 2
    }
}

/// The window of a read in its buffer.
pub open spec fn window_of(offset: u64, len: u64, align: u64) -> InFlight {
    InFlight {
        file_off: aligned_off(offset, align),
        cap: (disk_len(offset, len, align) + SLAB_SLACK) as usize,
        payload_off: payload_off(offset, align) as usize,
        payload_len: len as usize,
    }
}

/// The window of a read whose bracket is known.
pub fn window(b: &Bracket, len: u64) -> (w: InFlight)
    requires
        b.payload_off + len <= b.disk_len,
        b.disk_len + SLAB_SLACK <= usize::MAX,
    ensures
        w.file_off == b.aligned_off,
        w.cap == b.disk_len + SLAB_SLACK,
        w.payload_off == b.payload_off,
        w.payload_len == len,
        w.wf(),
{
    InFlight {
        file_off: b.aligned_off,
        cap: b.disk_len as usize + SLAB_SLACK as usize,
        payload_off: b.payload_off as usize,
        payload_len: len as usize,
    }
}

/// One entry for the submission queue.
#[derive(Debug, Clone, Copy, PartialEq, Eq, Structural)]
pub struct Submit {
    /// the slot, which the completion names again
    pub slot: usize,
    /// where the read starts in the file
    pub file_off: u64,
    /// how many bytes are read; the queue takes 32 bits
    pub len: u32,
    /// the size of the buffer
    pub cap: usize,
    /// the alignment of the buffer
    pub align: usize,
}

/// What the ring has to do next.
#[derive(Debug, Clone, Copy, PartialEq, Eq, Structural)]
pub enum Step {
    /// allocate a buffer and submit a read
    Submit(Submit),
    /// no allocator can be asked for the buffer
    NoMemory,
    /// wait for a completion
    Wait,
    /// everything is read
    Done,
}

/// The payload bytes of some reads.
pub open spec fn total_len(reads: Seq<Read>) -> nat
    decreases reads.len(),
{
    if reads.len() == 0 {
        0
    } else {
        total_len(reads.drop_last()) + reads.last().len as nat
    }
}

/// The bytes that some reads take from disk.
pub open spec fn total_disk(reads: Seq<Read>, align: u64) -> int
    decreases reads.len(),
{
    if reads.len() == 0 {
        0
    } else {
        total_disk(reads.drop_last(), align) + disk_len(
            reads.last().offset,
            reads.last().len,
            align,
        )
    }
}

/// The payload bytes of the reads in flight.
pub open spec fn flying_len(slots: Seq<Option<InFlight>>) -> nat
    decreases slots.len(),
{
    if slots.len() == 0 {
        0
    } else {
        flying_len(slots.drop_last()) + (match slots.last() {
            Some(w) => w.payload_len as nat,
            None => 0,
        })
    }
}

proof fn lemma_flying_update(slots: Seq<Option<InFlight>>, i: int, v: Option<InFlight>)
    requires
        0 <= i < slots.len(),
    ensures
        flying_len(slots.update(i, v)) + (match slots[i] {
            Some(w) => w.payload_len as nat,
            None => 0,
        }) == flying_len(slots) + (match v {
            Some(w) => w.payload_len as nat,
            None => 0,
        }),
    decreases slots.len(),
{
    let front = slots.drop_last();
    let new = slots.update(i, v);
    if i == slots.len() - 1 {
        assert(new.drop_last() =~= front);
    } else {
        lemma_flying_update(front, i, v);
        assert(new.drop_last() =~= front.update(i, v));
    }
}

proof fn lemma_none_flying(slots: Seq<Option<InFlight>>)
    requires
        taken(slots) == 0,
    ensures
        flying_len(slots) == 0,
    decreases slots.len(),
{
    if slots.len() > 0 {
        lemma_none_flying(slots.drop_last());
    }
}

/// A run of a plan: which reads are submitted, which slots they hold, and what
/// came back.
pub struct Run {
    pub reads: Vec<Read>,
    pub qd: usize,
    pub align: u64,
    pub slots: Vec<Option<InFlight>>,
    /// the first read that is not submitted yet
    pub next: usize,
    pub inflight: usize,
    pub stats: Stats,
}

impl Run {
    /// The books are in order: every submitted read is in flight, in a slot of
    /// its own, or counted.
    pub open spec fn wf(&self) -> bool {
        &&& self.slots@.len() == self.qd
        &&& self.inflight == taken(self.slots@)
        &&& self.next <= self.reads@.len()
        &&& self.next > 0 ==> self.align > 0
        &&& self.stats.reads + self.inflight == self.next
        &&& self.stats.bytes_disk == total_disk(self.reads@.take(self.next as int), self.align)
        &&& self.stats.bytes_payload + flying_len(self.slots@) == total_len(
            self.reads@.take(self.next as int),
        )
        &&& forall|i: int|
            0 <= i < self.slots@.len() ==> ((#[trigger] self.slots@[i]) matches Some(w) ==> w.wf())
    }

    /// There is a read to submit and a slot for it.
    pub open spec fn can_submit(&self) -> bool {
        self.inflight < self.qd && self.next < self.reads@.len()
    }

    /// The numbers of the read that comes next do not overflow.
    pub open spec fn next_fits(&self) -> bool {
        self.can_submit() ==> {
            let r = self.reads@[self.next as int];
            &&& self.align <= usize::MAX
            &&& bracket_fits(r.offset, r.len, self.align)
            &&& self.stats.bytes_disk + disk_len(r.offset, r.len, self.align) <= u64::MAX
        }
    }

    /// The buffer of the read that comes next can be asked for.
    pub open spec fn next_layout(&self) -> bool {
        let r = self.reads@[self.next as int];
        layout_valid(disk_len(r.offset, r.len, self.align) + SLAB_SLACK, self.align as int)
    }

    /// The entry of the next read, in slot `slot`.
    pub open spec fn next_entry(&self, slot: usize) -> Submit {
        let r = self.reads@[self.next as int];
        Submit {
            slot,
            file_off: aligned_off(r.offset, self.align),
            len: disk_len(r.offset, r.len, self.align) as u32,
            cap: (disk_len(r.offset, r.len, self.align) + SLAB_SLACK) as usize,
            align: self.align as usize,
        }
    }

    /// Nothing is submitted yet.
    pub open spec fn starts(&self) -> bool {
        &&& self.wf()
        &&& self.next == 0
        &&& self.inflight == 0
        &&& self.stats == (Stats { bytes_payload: 0, bytes_disk: 0, reads: 0, checksum: 0 })
    }

    /// Everything is read, or the ring has no depth.
    pub open spec fn is_done(&self) -> bool {
        !self.can_submit() && self.inflight == 0
    }

    /// The other run is of the same plan, at the same depth.
    pub open spec fn same_plan(&self, other: &Run) -> bool {
        self.reads == other.reads && self.qd == other.qd && self.align == other.align
    }

    /// The next read is submitted: it takes the first free slot.
    pub open spec fn submits(&self, after: &Run, s: Submit) -> bool {
        let r = self.reads@[self.next as int];
        &&& after.wf()
        &&& after.same_plan(self)
        &&& self.can_submit()
        &&& self.next_layout()
        &&& s == self.next_entry(s.slot)
        &&& s.slot < self.qd
        &&& self.slots@[s.slot as int] is None
        &&& forall|i: int| 0 <= i < s.slot ==> (#[trigger] self.slots@[i]) is Some
        &&& after.slots@ == self.slots@.update(
            s.slot as int,
            Some(window_of(r.offset, r.len, self.align)),
        )
        &&& after.next == self.next + 1
        &&& after.inflight == self.inflight + 1
        &&& after.stats == (Stats {
            bytes_disk: (self.stats.bytes_disk + disk_len(r.offset, r.len, self.align)) as u64,
            ..self.stats
        })
    }

    /// The read in a slot is completed and counted.
    pub open spec fn completes(&self, after: &Run, slot: int) -> bool {
        let w = self.slots@[slot]->Some_0;
        &&& after.wf()
        &&& after.same_plan(self)
        &&& 0 <= slot < self.qd
        &&& self.slots@[slot] is Some
        &&& w.wf()
        &&& after.next == self.next
        &&& after.slots@ == self.slots@.update(slot, None)
        &&& after.inflight == self.inflight - 1
        &&& after.stats == (Stats {
            reads: (self.stats.reads + 1) as u64,
            bytes_payload: (self.stats.bytes_payload + w.payload_len) as u64,
            ..self.stats
        })
    }

    /// A byte goes into the checksum, and nothing else changes.
    pub open spec fn takes_in(&self, after: &Run, byte: u8) -> bool {
        *after == (Run {
            stats: Stats { checksum: self.stats.checksum ^ byte, ..self.stats },
            ..*self
        })
    }

    /// A run of which nothing is submitted yet.
    pub fn new(reads: Vec<Read>, qd: usize, align: u64) -> (r: Run)
        ensures
            r.starts(),
            r.reads == reads,
            r.qd == qd,
            r.align == align,
            forall|i: int| 0 <= i < qd ==> (#[trigger] r.slots@[i]) is None,
    {
        let mut slots: Vec<Option<InFlight>> = Vec::new();
        for i in 0..qd
            invariant
                slots.len() == i,
                forall|j: int| 0 <= j < i ==> (#[trigger] slots@[j]) is None,
        {
            slots.push(None);
        }
        proof {
            taken_counts(slots@);
            lemma_none_flying(slots@);
            assert(reads@.take(0) =~= Seq::<Read>::empty());
        }
        Run {
            reads,
            qd,
            align,
            slots,
            next: 0,
            inflight: 0,
            stats: Stats { bytes_payload: 0, bytes_disk: 0, reads: 0, checksum: 0 },
        }
    }

    /// Whether the numbers of the read that comes next fit.
    pub fn check_next(&self) -> (r: bool)
        requires
            self.wf(),
        ensures
            r == self.next_fits(),
    {
        if self.inflight < self.qd && self.next < self.reads.len() {
            let r = self.reads[self.next];
            let align = self.align;
            if align == 0 || align > usize::MAX as u64 {
                return false;
            }
            proof {
                lemma_bracket_range(r.offset, r.len, align);
            }
            let payload_off: u64 = r.offset - (r.offset & !(align - 1));
            if r.len > u64::MAX - payload_off || payload_off + r.len > u64::MAX - (align - 1) {
                return false;
            }
            let b = bracket(r.offset, r.len, align);
            b.disk_len <= usize::MAX as u64 && b.disk_len as usize <= usize::MAX
                - SLAB_SLACK as usize && b.disk_len <= u64::MAX - self.stats.bytes_disk
        } else {
            true
        }
    }

    /// Fills the ring by one read, or says what else there is to do.  A free
    /// slot is always found.
    pub fn step(&mut self) -> (r: Step)
        requires
            old(self).wf(),
            old(self).next_fits(),
        ensures
            final(self).wf(),
            match r {
                Step::Submit(s) => old(self).submits(final(self), s),
                Step::NoMemory => old(self).can_submit() && !old(self).next_layout()
                    && *final(self) == *old(self),
                Step::Wait => !old(self).can_submit() && old(self).inflight > 0 && *final(self)
                    == *old(self),
                Step::Done => old(self).is_done() && *final(self) == *old(self),
            },
    {
        if !(self.inflight < self.qd && self.next < self.reads.len()) {
            return if self.inflight == 0 {
                Step::Done
            } else {
                Step::Wait
            };
        }
        let r = self.reads[self.next];
        let b = bracket(r.offset, r.len, self.align);
        let w = window(&b, r.len);
        if !layout_ok(w.cap, self.align as usize) {
            return Step::NoMemory;
        }
        let mut slot: usize = 0;
        proof {
            taken_counts(self.slots@);
        }
        while self.slots[slot].is_some()
            invariant
                self.slots@.len() == self.qd,
                *self == *old(self),
                exists|i: int| slot <= i < self.slots@.len() && (#[trigger] self.slots@[i]) is None,
                forall|i: int| 0 <= i < slot ==> (#[trigger] self.slots@[i]) is Some,
            decreases self.slots@.len() - slot,
        {
            slot = slot + 1;
        }
        proof {
            taken_update(self.slots@, slot as int, Some(w));
            lemma_flying_update(self.slots@, slot as int, Some(w));
            assert(self.reads@.take(self.next + 1).drop_last() =~= self.reads@.take(
                self.next as int,
            ));
            assert(b.disk_len as u32 == b.disk_len as int as u32);
        }
        self.slots.set(slot, Some(w));
        self.stats.bytes_disk = self.stats.bytes_disk + b.disk_len;
        self.inflight = self.inflight + 1;
        self.next = self.next + 1;
        Step::Submit(
            Submit {
                slot,
                file_off: b.aligned_off,
                len: b.disk_len as u32,
                cap: w.cap,
                align: self.align as usize,
            },
        )
    }

    /// Whether a read is in flight in this slot.
    pub fn occupied(&self, slot: u64) -> (r: bool)
        requires
            self.wf(),
        ensures
            r <==> slot < self.qd && self.slots@[slot as int] is Some,
    {
        slot < self.slots.len() as u64 && self.slots[slot as usize].is_some()
    }

    /// A completion: `res` is the number of bytes, or, below zero, the error
    /// number with its sign turned.
    pub fn complete(&mut self, slot: u64, res: i32) -> (r: Result<InFlight, i32>)
        requires
            old(self).wf(),
            slot < old(self).qd,
            old(self).slots@[slot as int] is Some,
            res > i32::MIN,
        ensures
            res < 0 ==> {
                &&& r == Err::<InFlight, i32>((-res) as i32)
                &&& final(self).same_plan(old(self))
                &&& final(self).next == old(self).next
                &&& final(self).slots@ == old(self).slots@.update(slot as int, None)
                &&& final(self).inflight == old(self).inflight - 1
                &&& final(self).stats == old(self).stats
            },
            res >= 0 ==> {
                &&& r == Ok::<InFlight, i32>(old(self).slots@[slot as int]->Some_0)
                &&& r->Ok_0.wf()
                &&& old(self).completes(final(self), slot as int)
            },
    {
        let slot: usize = slot as usize;
        proof {
            taken_update(self.slots@, slot as int, None);
            taken_counts(self.slots@);
            lemma_flying_update(self.slots@, slot as int, None);
            lemma_payload_within_disk(self.reads@.take(self.next as int), self.align);
        }
        let w = self.slots[slot].unwrap();
        self.slots.set(slot, None);
        self.inflight = self.inflight - 1;
        if res < 0 {
            return Err(-res);
        }
        self.stats.reads = self.stats.reads + 1;
        self.stats.bytes_payload = self.stats.bytes_payload + w.payload_len as u64;
        Ok(w)
    }

    /// Takes one byte of a completed read into the checksum.
    pub fn touch(&mut self, byte: u8)
        requires
            old(self).wf(),
        ensures
            old(self).takes_in(final(self), byte),
            final(self).wf(),
    {
        self.stats.checksum = self.stats.checksum ^ byte;
    }
}

proof fn lemma_payload_within_disk(reads: Seq<Read>, align: u64)
    requires
        align > 0,
    ensures
        total_len(reads) <= total_disk(reads, align),
    decreases reads.len(),
{
    if reads.len() > 0 {
        lemma_payload_within_disk(reads.drop_last(), align);
        lemma_bracket_range(reads.last().offset, reads.last().len, align);
    }
}

/// A run that has nothing left to do has read the whole plan: every read is
/// counted, with its payload and its bracket.  (A ring of depth zero does
/// nothing at all.)
pub proof fn done_means_all_read(run: &Run)
    requires
        run.wf(),
        run.qd > 0,
        run.is_done(),
    ensures
        run.next == run.reads@.len(),
        run.stats.reads == run.reads@.len(),
        run.stats.bytes_payload == total_len(run.reads@),
        run.stats.bytes_disk == total_disk(run.reads@, run.align),
{
    assert(run.reads@.take(run.next as int) =~= run.reads@);
    lemma_none_flying(run.slots@);
}

/// There are never more reads in flight than the ring is deep, so that its
/// queue, which has twice as many entries, has room for every submission.
pub proof fn ring_has_room(run: &Run)
    requires
        run.wf(),
    ensures
        run.inflight <= run.qd,
        run.can_submit() ==> exists|i: int| 0 <= i < run.qd && (#[trigger] run.slots@[i]) is None,
{
    taken_counts(run.slots@);
}

} // verus!
