//! What the statistics of a whole run say: they depend on the plan and the file
//! alone, not on the depth of the ring or the order of the completions.

use crate::plan::Read;
use crate::ring::taken;
use crate::uring::{
    aligned_off, disk_len, done_means_all_read, lemma_bracket_range, payload_off, total_disk,
    total_len, window_of, InFlight, Run, Submit,
};
use vstd::prelude::*;

verus! {

/// The byte that stands for a read: the middle one of its payload.
pub open spec fn middle(file: Seq<u8>, r: Read) -> u8 {
    file[r.offset + r.len / 2]
}

/// The xor of the middle bytes of some reads.
pub open spec fn middles(file: Seq<u8>, reads: Seq<Read>) -> u8
    decreases reads.len(),
{
    if reads.len() == 0 {
        0
    } else {
        middles(file, reads.drop_last()) ^ middle(file, reads.last())
    }
}

/// The byte of the file that is looked at in a window.
pub open spec fn looked_at(file: Seq<u8>, w: InFlight) -> u8 {
    file[w.file_off + w.payload_off + w.payload_len / 2]
}

spec fn slot_byte(file: Seq<u8>, slot: Option<InFlight>) -> u8 {
    match slot {
        Some(w) => looked_at(file, w),
        None => 0,
    }
}

/// The xor of what is still to be looked at.
pub open spec fn flying_middles(file: Seq<u8>, slots: Seq<Option<InFlight>>) -> u8
    decreases slots.len(),
{
    if slots.len() == 0 {
        0
    } else {
        flying_middles(file, slots.drop_last()) ^ match slots.last() {
            Some(w) => looked_at(file, w),
            None => 0,
        }
    }
}

/// The checksum holds the middle bytes of the submitted reads but for those in
/// flight.
pub open spec fn sums(run: Run, file: Seq<u8>) -> bool {
    run.stats.checksum ^ flying_middles(file, run.slots@) == middles(
        file,
        run.reads@.take(run.next as int),
    )
}

proof fn lemma_xor(a: u8, b: u8, c: u8)
    by (bit_vector)
    ensures
        a ^ b == b ^ a,
        (a ^ b) ^ c == a ^ (b ^ c),
        a ^ a == 0,
        a ^ 0 == a,
{
}

/// Two values under an xor change places.
proof fn lemma_swap(a: u8, b: u8, c: u8)
    by (bit_vector)
    ensures
        (a ^ b) ^ c == (a ^ c) ^ b,
{
}

proof fn lemma_flying_change(
    file: Seq<u8>,
    slots: Seq<Option<InFlight>>,
    i: int,
    v: Option<InFlight>,
)
    requires
        0 <= i < slots.len(),
    ensures
        flying_middles(file, slots.update(i, v)) ^ slot_byte(file, slots[i]) == flying_middles(
            file,
            slots,
        ) ^ slot_byte(file, v),
    decreases slots.len(),
{
    let front = slots.drop_last();
    let new = slots.update(i, v);
    if i == slots.len() - 1 {
        assert(new.drop_last() =~= front);
        lemma_swap(
            flying_middles(file, front),
            slot_byte(file, v),
            slot_byte(file, slots[i]),
        );
    } else {
        lemma_flying_change(file, front, i, v);
        assert(new.drop_last() =~= front.update(i, v));
        let last = slot_byte(file, slots.last());
        lemma_swap(
            flying_middles(file, front.update(i, v)),
            last,
            slot_byte(file, slots[i]),
        );
        lemma_swap(flying_middles(file, front), last, slot_byte(file, v));
    }
}

proof fn lemma_nothing_flies(file: Seq<u8>, slots: Seq<Option<InFlight>>)
    requires
        taken(slots) == 0,
    ensures
        flying_middles(file, slots) == 0,
    decreases slots.len(),
{
    if slots.len() > 0 {
        lemma_nothing_flies(file, slots.drop_last());
        lemma_xor(0, 0, 0);
    }
}

/// One move of a run over a file: a read is submitted, or one is completed and
/// the byte in the middle of its payload goes into the checksum.
pub open spec fn moves(a: Run, b: Run, file: Seq<u8>) -> bool {
    ||| exists|s: Submit| a.submits(&b, s)
    ||| exists|slot: int, mid: Run| #[trigger]
        a.completes(&mid, slot) && mid.takes_in(&b, looked_at(file, a.slots@[slot]->Some_0))
}

/// The states of a run over a file, from its start on.
pub open spec fn is_trace(t: Seq<Run>, file: Seq<u8>) -> bool {
    &&& t.len() > 0
    &&& t[0].starts()
    &&& forall|i: int| 0 < i < t.len() ==> moves(t[i - 1], #[trigger] t[i], file)
}

proof fn lemma_submit_sums(a: Run, b: Run, s: Submit, file: Seq<u8>)
    requires
        a.wf(),
        sums(a, file),
        a.submits(&b, s),
    ensures
        sums(b, file),
{
    let r = a.reads@[a.next as int];
    let w = window_of(r.offset, r.len, a.align);
    assert(aligned_off(r.offset, a.align) + payload_off(r.offset, a.align) == r.offset);
    lemma_window(a);
    assert(looked_at(file, w) == middle(file, r));
    lemma_flying_change(file, a.slots@, s.slot as int, Some(w));
    assert(b.reads@.take(b.next as int).drop_last() =~= a.reads@.take(a.next as int));
    assert(b.reads@.take(b.next as int).last() == r);
    let m = middle(file, r);
    let fa = flying_middles(file, a.slots@);
    let fb = flying_middles(file, b.slots@);
    lemma_xor(fb, 0, 0);
    lemma_xor(a.stats.checksum, fa, m);
}

/// The numbers of the window fit their types.
proof fn lemma_window(a: Run)
    requires
        a.next_layout(),
        a.can_submit(),
    ensures
        ({
            let r = a.reads@[a.next as int];
            let w = window_of(r.offset, r.len, a.align);
            w.payload_len == r.len && w.payload_off == payload_off(r.offset, a.align)
        }),
{
    let r = a.reads@[a.next as int];
    reveal(vstd::arithmetic::power2::is_pow2);
    lemma_bracket_range(r.offset, r.len, a.align);
}

proof fn lemma_complete_sums(a: Run, mid: Run, b: Run, slot: int, file: Seq<u8>)
    requires
        a.wf(),
        sums(a, file),
        a.completes(&mid, slot),
        mid.takes_in(&b, looked_at(file, a.slots@[slot]->Some_0)),
    ensures
        sums(b, file),
{
    let w = a.slots@[slot]->Some_0;
    let x = looked_at(file, w);
    lemma_flying_change(file, a.slots@, slot, None);
    let fa = flying_middles(file, a.slots@);
    let fb = flying_middles(file, b.slots@);
    let c = a.stats.checksum;
    lemma_xor(fa, 0, 0);
    lemma_xor(c, x, fb);
    lemma_xor(x, fb, 0);
}

/// Every state of a run is in order, of one plan, and its checksum holds the
/// middle bytes of what came back.
pub proof fn every_state_sums(t: Seq<Run>, file: Seq<u8>)
    requires
        is_trace(t, file),
    ensures
        t.last().wf(),
        t.last().same_plan(&t[0]),
        sums(t.last(), file),
    decreases t.len(),
{
    if t.len() == 1 {
        lemma_nothing_flies(file, t[0].slots@);
        assert(t[0].reads@.take(0) =~= Seq::<Read>::empty());
        lemma_xor(0, 0, 0);
    } else {
        let front = t.drop_last();
        assert forall|i: int| 0 < i < front.len() implies moves(
            front[i - 1],
            #[trigger] front[i],
            file,
        ) by {
            assert(moves(t[i - 1], t[i], file));
        }
        every_state_sums(front, file);
        let a = t[t.len() - 2];
        let b = t[t.len() - 1];
        assert(moves(a, b, file));
        assert(front.last() == a);
        if exists|s: Submit| a.submits(&b, s) {
            let s = choose|s: Submit| a.submits(&b, s);
            lemma_submit_sums(a, b, s, file);
        } else {
            let (slot, mid) = choose|slot: int, mid: Run| #[trigger]
                a.completes(&mid, slot) && mid.takes_in(
                    &b,
                    looked_at(file, a.slots@[slot]->Some_0),
                );
            lemma_complete_sums(a, mid, b, slot, file);
        }
    }
}

/// A run that is done has counted every read with its payload and its bracket,
/// and its checksum is the xor of the middle bytes of all of them.
pub proof fn a_run_sums_its_plan(t: Seq<Run>, file: Seq<u8>)
    requires
        is_trace(t, file),
        t[0].qd > 0,
        t.last().is_done(),
    ensures
        t.last().stats.reads == t[0].reads@.len(),
        t.last().stats.bytes_payload == total_len(t[0].reads@),
        t.last().stats.bytes_disk == total_disk(t[0].reads@, t[0].align),
        t.last().stats.checksum == middles(file, t[0].reads@),
{
    every_state_sums(t, file);
    let run = t.last();
    done_means_all_read(&run);
    assert(run.reads@.take(run.next as int) =~= run.reads@);
    lemma_nothing_flies(file, run.slots@);
    lemma_xor(run.stats.checksum, 0, 0);
}

/// Taking one read out of a plan takes its share out of every sum.
proof fn lemma_take_out(file: Seq<u8>, align: u64, reads: Seq<Read>, i: int)
    requires
        0 <= i < reads.len(),
    ensures
        total_len(reads) == total_len(reads.remove(i)) + reads[i].len,
        total_disk(reads, align) == total_disk(reads.remove(i), align) + disk_len(
            reads[i].offset,
            reads[i].len,
            align,
        ),
        middles(file, reads) == middles(file, reads.remove(i)) ^ middle(file, reads[i]),
    decreases reads.len(),
{
    let front = reads.drop_last();
    let less = reads.remove(i);
    if i == reads.len() - 1 {
        assert(less =~= front);
    } else {
        lemma_take_out(file, align, front, i);
        assert(less.drop_last() =~= front.remove(i));
        assert(less.last() == reads.last());
        lemma_swap(
            middles(file, front.remove(i)),
            middle(file, reads[i]),
            middle(file, reads.last()),
        );
    }
}

proof fn lemma_any_order(file: Seq<u8>, align: u64, a: Seq<Read>, b: Seq<Read>)
    requires
        a.to_multiset() == b.to_multiset(),
    ensures
        a.len() == b.len(),
        total_len(a) == total_len(b),
        total_disk(a, align) == total_disk(b, align),
        middles(file, a) == middles(file, b),
    decreases a.len(),
{
    broadcast use vstd::seq_lib::group_to_multiset_ensures;

    assert(a.len() == a.to_multiset().len());
    assert(b.len() == b.to_multiset().len());
    if a.len() > 0 {
        let n = a.len() - 1;
        let x = a[n];
        assert(a.contains(x));
        assert(b.to_multiset().count(x) > 0);
        assert(b.contains(x));
        let i = choose|i: int| 0 <= i < b.len() && b[i] == x;
        lemma_take_out(file, align, a, n);
        lemma_take_out(file, align, b, i);
        lemma_any_order(file, align, a.remove(n), b.remove(i));
    }
}

/// Two runs over one file, of plans with the same reads in any order, at any
/// depths, end with the same statistics.
pub proof fn order_and_depth_do_not_show(t: Seq<Run>, u: Seq<Run>, file: Seq<u8>)
    requires
        is_trace(t, file),
        is_trace(u, file),
        t[0].qd > 0,
        u[0].qd > 0,
        t[0].align == u[0].align,
        t[0].reads@.to_multiset() == u[0].reads@.to_multiset(),
        t.last().is_done(),
        u.last().is_done(),
    ensures
        t.last().stats == u.last().stats,
{
    a_run_sums_its_plan(t, file);
    a_run_sums_its_plan(u, file);
    lemma_any_order(file, t[0].align, t[0].reads@, u[0].reads@);
}

} // verus!
