//! Activation rows in blocks of 256: a scale, the codes and the sums of each
//! sixteen of them.

use crate::engine::shape::{Q8_K_BLOCK_BYTES, Q8_K_BLOCK_ELEMS};
use vstd::prelude::*;

verus! {

/// Byte `j` of block `b`: the scale in four bytes, lowest first, then one byte
/// for each code, then two bytes for each sum, lowest first.
pub open spec fn block_byte(d: Seq<u32>, qs: Seq<i8>, sums: Seq<i16>, b: int, j: int) -> u8 {
    if j < 4 {
        ((d[b] >> ((8 * j) as u32)) & 0xff) as u8
    } else if j < 260 {
        qs[256 * b + j - 4] as u8
    } else {
        (((sums[16 * b + (j - 260) / 2] as u16) >> ((8 * ((j - 260) % 2)) as u16)) & 0xff) as u8
    }
}

/// The blocks of a row, one behind the other.
pub open spec fn row_bytes(d: Seq<u32>, qs: Seq<i8>, sums: Seq<i16>, blocks: nat) -> Seq<u8> {
    Seq::new(292 * blocks, |k: int| block_byte(d, qs, sums, k / 292, k % 292))
}

/// Packs a row of `n` elements: `d` holds the bits of each block's scale, `qs`
/// the codes, `sums` the sums of each sixteen codes.  What does not fill a
/// block is left out.
pub fn pack_row(n: usize, d: &[u32], qs: &[i8], sums: &[i16]) -> (out: Vec<u8>)
    requires
        d@.len() >= n / 256,
        qs@.len() >= 256 * (n / 256),
        sums@.len() >= 16 * (n / 256),
        292 * (n / 256) <= usize::MAX,
    ensures
        out@ == row_bytes(d@, qs@, sums@, (n / 256) as nat),
{
    let blocks: usize = n / 256;
    let ghost whole = row_bytes(d@, qs@, sums@, blocks as nat);
    let mut out: Vec<u8> = Vec::new();
    for b in 0..blocks
        invariant
            d@.len() >= blocks,
            qs@.len() >= 256 * blocks,
            sums@.len() >= 16 * blocks,
            292 * blocks <= usize::MAX,
            whole == row_bytes(d@, qs@, sums@, blocks as nat),
            out@ == whole.take(292 * b),
    {
        assert(whole.len() == 292 * blocks);
        for j in 0..4usize
            invariant
                b < blocks <= d@.len(),
                whole == row_bytes(d@, qs@, sums@, blocks as nat),
                out@ == whole.take(292 * b + j),
        {
            let v: u8 = ((d[b] >> ((8 * j) as u32)) & 0xff) as u8;
            out.push(v);
            assert((292 * b + j) / 292 == b && (292 * b + j) % 292 == j);
            assert(whole[292 * b + j] == v);
            assert(out@ =~= whole.take(292 * b + j + 1));
        }
        for j in 0..256usize
            invariant
                b < blocks,
                qs@.len() >= 256 * blocks,
                292 * blocks <= usize::MAX,
                whole == row_bytes(d@, qs@, sums@, blocks as nat),
                out@ == whole.take(292 * b + 4 + j),
        {
            let v: u8 = qs[256 * b + j] as u8;
            out.push(v);
            assert((292 * b + 4 + j) / 292 == b && (292 * b + 4 + j) % 292 == 4 + j);
            assert(whole[292 * b + 4 + j] == v);
            assert(out@ =~= whole.take(292 * b + 4 + j + 1));
        }
        for g in 0..16usize
            invariant
                b < blocks,
                sums@.len() >= 16 * blocks,
                292 * blocks <= usize::MAX,
                whole == row_bytes(d@, qs@, sums@, blocks as nat),
                out@ == whole.take(292 * b + 260 + 2 * g),
        {
            let s: u16 = sums[16 * b + g] as u16;
            let lo: u8 = ((s >> 0u16) & 0xff) as u8;
            let hi: u8 = ((s >> 8u16) & 0xff) as u8;
            out.push(lo);
            out.push(hi);
            let ghost k = 292 * b + 260 + 2 * g;
            assert(k / 292 == b && k % 292 == 260 + 2 * g);
            assert((k + 1) / 292 == b && (k + 1) % 292 == 261 + 2 * g);
            assert(whole[k] == lo);
            assert(whole[k + 1] == hi);
            assert(out@ =~= whole.take(k + 2));
        }
    }
    assert(whole.take(292 * blocks) =~= whole);
    out
}

/// The blocks of a row of whole blocks take the bytes that a buffer for such a
/// row has.
pub proof fn packed_rows_fit(n: usize, d: Seq<u32>, qs: Seq<i8>, sums: Seq<i16>)
    ensures
        row_bytes(d, qs, sums, (n / 256) as nat).len() == (n as int / Q8_K_BLOCK_ELEMS as int)
            * Q8_K_BLOCK_BYTES as int,
{
}

/// A packed row reads back: the four bytes of a scale, lowest first, make the
/// scale, every code is its byte, and the two bytes of a sum, lowest first, make the
/// sum.
pub proof fn packed_row_reads_back(
    d: Seq<u32>,
    qs: Seq<i8>,
    sums: Seq<i16>,
    blocks: nat,
    b: int,
    i: int,
    g: int,
)
    requires
        0 <= b < blocks,
        0 <= i < 256,
        0 <= g < 16,
    ensures
        ({
            let r = row_bytes(d, qs, sums, blocks);
            let at = 292 * b;
            &&& r.len() == 292 * blocks
            &&& d[b] == r[at] + 0x100 * r[at + 1] + 0x1_0000 * r[at + 2] + 0x100_0000 * r[at + 3]
            &&& r[at + 4 + i] == qs[256 * b + i] as u8
            &&& sums[16 * b + g] as u16 == r[at + 260 + 2 * g] + 0x100 * r[at + 261 + 2 * g]
        }),
{
    let r = row_bytes(d, qs, sums, blocks);
    let at = 292 * b;
    assert forall|j: int| 0 <= j < 292 implies #[trigger] r[at + j] == block_byte(
        d,
        qs,
        sums,
        b,
        j,
    ) by {
        assert((at + j) / 292 == b && (at + j) % 292 == j);
    }
    let x = d[b];
    assert(r[at + 0] == block_byte(d, qs, sums, b, 0));
    assert(r[at + 1] == block_byte(d, qs, sums, b, 1));
    assert(r[at + 2] == block_byte(d, qs, sums, b, 2));
    assert(r[at + 3] == block_byte(d, qs, sums, b, 3));
    assert(x == ((x >> 0u32) & 0xff) as u8 + 0x100 * (((x >> 8u32) & 0xff) as u8) + 0x1_0000 * (((x
        >> 16u32) & 0xff) as u8) + 0x100_0000 * (((x >> 24u32) & 0xff) as u8)) by (bit_vector);
    assert(r[at + (4 + i)] == block_byte(d, qs, sums, b, 4 + i));
    let y = sums[16 * b + g] as u16;
    assert(r[at + (260 + 2 * g)] == block_byte(d, qs, sums, b, 260 + 2 * g));
    assert(r[at + (261 + 2 * g)] == block_byte(d, qs, sums, b, 261 + 2 * g));
    assert((260 + 2 * g - 260) / 2 == g && (260 + 2 * g - 260) % 2 == 0);
    assert((261 + 2 * g - 260) / 2 == g && (261 + 2 * g - 260) % 2 == 1);
    assert(y == ((y >> 0u16) & 0xff) as u8 + 0x100 * (((y >> 8u16) & 0xff) as u8)) by (bit_vector);
}

} // verus!
