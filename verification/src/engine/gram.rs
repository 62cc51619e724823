//! What the hash of the n-gram embedding and the code of its rows are.

use crate::engine::error::EngineError;
use crate::engine::ops::Op;
use crate::engine::ple::{
    back, coded_at, gram_hash, gram_len, hash_wf, kept, ple_heads, ple_row,
    ple_row_bytes, read_row, seen, PleTable,
};
use crate::engine::shape::{Model, PleEntry, PleHash, Shape};
use vstd::prelude::*;

verus! {

/// The token `j` places before place `i` of a sequence, as a gram sees it: the end
/// token past the start of the sequence, and past an end token in between.
pub open spec fn gram_token(seq: Seq<u32>, i: int, j: int, eos: u32) -> u32 {
    if i < j || (exists|m: int| i - j < m < i && #[trigger] seq[m] == eos) {
        eos
    } else {
        seq[i - j]
    }
}

/// Token `j` of a gram times its multiplier, in 64 bits.
pub open spec fn gram_term(mult: Seq<u64>, seq: Seq<u32>, i: int, j: int, eos: u32) -> u64 {
    (gram_token(seq, i, j, eos) * mult[j] % 0x1_0000_0000_0000_0000) as u64
}

/// The terms of a gram of `n` tokens, one upon the other by exclusive or.
pub open spec fn gram_xor(mult: Seq<u64>, seq: Seq<u32>, i: int, n: int, eos: u32) -> u64
    decreases n,
{
    if n <= 0 {
        0
    } else {
        gram_xor(mult, seq, i, n - 1, eos) ^ gram_term(mult, seq, i, n - 1, eos)
    }
}

proof fn lemma_token(seq: Seq<u32>, i: int, j: int, eos: u32)
    requires
        0 <= i < seq.len(),
        0 <= j,
    ensures
        seen(seq, i, j, eos) == gram_token(seq, i, j, eos),
        back(seq, i, 0, eos) == gram_token(seq, i, 0, eos),
{
    if exists|k: int| 1 <= k < j && #[trigger] back(seq, i, k, eos) == eos {
        let k = choose|k: int| 1 <= k < j && #[trigger] back(seq, i, k, eos) == eos;
        let m = i - k;
        if i >= j {
            assert(seq[m] == eos);
        }
    }
    if exists|m: int| i - j < m < i && #[trigger] seq[m] == eos {
        let m = choose|m: int| i - j < m < i && #[trigger] seq[m] == eos;
        if i >= j {
            assert(back(seq, i, i - m, eos) == eos);
        }
    }
}

proof fn lemma_hash(mult: Seq<u64>, seq: Seq<u32>, i: int, n: int, eos: u32)
    requires
        0 <= i < seq.len(),
        1 <= n <= mult.len(),
    ensures
        gram_hash(mult, seq, i, n, eos) == gram_xor(mult, seq, i, n, eos),
    decreases n,
{
    lemma_token(seq, i, n - 1, eos);
    if n > 1 {
        lemma_hash(mult, seq, i, n - 1, eos);
    } else {
        let x = gram_term(mult, seq, i, 0, eos);
        reveal_with_fuel(gram_xor, 2);
        assert(0u64 ^ x == x) by (bit_vector);
    }
}

/// The row of a head for a token is the exclusive or of the gram's terms, taken into
/// the head's part of the table.  The first heads look at two tokens, as many at
/// three, and so on.
pub proof fn row_is_hashed(hash: PleHash, s: Shape, seq: Seq<u32>, i: int, h: int)
    requires
        hash_wf(hash, s),
        0 <= i < seq.len(),
        0 <= h < (s.ple_ngram - 1) * s.ple_heads_per_ngram,
    ensures
        ({
            let n = 2 + h / (s.ple_heads_per_ngram as int);
            let x = gram_xor(hash.mult@, seq, i, n, s.ple_eos_tok) as int;
            &&& 2 <= n <= s.ple_ngram
            &&& ple_row(hash, s, seq, i, h) == hash.offs@[h] + x % (hash.vocab@[h] as int)
            &&& hash.offs@[h] <= ple_row(hash, s, seq, i, h) < hash.offs@[h] + hash.vocab@[h]
        }),
{
    let p = s.ple_heads_per_ngram as int;
    let m = s.ple_ngram - 1;
    assert(p > 0) by (nonlinear_arith)
        requires
            0 <= h < m * p,
            0 <= p,
    ;
    vstd::arithmetic::div_mod::lemma_fundamental_div_mod(h, p);
    let q = h / p;
    assert(0 <= q < m) by (nonlinear_arith)
        requires
            h == p * q + h % p,
            0 <= h % p < p,
            0 <= h < m * p,
    ;
    let n = gram_len(s, h);
    lemma_hash(hash.mult@, seq, i, n, s.ple_eos_tok);
    assert(h < ple_heads(&s));
    let x = gram_xor(hash.mult@, seq, i, n, s.ple_eos_tok) as int;
    vstd::arithmetic::div_mod::lemma_mod_bound(x, hash.vocab@[h] as int);
}

/// A row depends on the tokens of its gram alone.
pub proof fn row_sees_its_gram(
    hash: PleHash,
    s: Shape,
    a: Seq<u32>,
    i: int,
    b: Seq<u32>,
    k: int,
    h: int,
)
    requires
        hash_wf(hash, s),
        0 <= i < a.len(),
        0 <= k < b.len(),
        0 <= h < (s.ple_ngram - 1) * s.ple_heads_per_ngram,
        forall|j: int|
            0 <= j < 2 + h / (s.ple_heads_per_ngram as int) ==> #[trigger] back(
                a,
                i,
                j,
                s.ple_eos_tok,
            ) == back(b, k, j, s.ple_eos_tok),
    ensures
        ple_row(hash, s, a, i, h) == ple_row(hash, s, b, k, h),
{
    row_is_hashed(hash, s, a, i, h);
    lemma_same_hash(hash.mult@, a, i, b, k, gram_len(s, h), s.ple_eos_tok);
}

proof fn lemma_same_hash(
    mult: Seq<u64>,
    a: Seq<u32>,
    i: int,
    b: Seq<u32>,
    k: int,
    n: int,
    eos: u32,
)
    requires
        1 <= n,
        forall|j: int| 0 <= j < n ==> #[trigger] back(a, i, j, eos) == back(b, k, j, eos),
    ensures
        gram_hash(mult, a, i, n, eos) == gram_hash(mult, b, k, n, eos),
    decreases n,
{
    assert(back(a, i, 0, eos) == back(b, k, 0, eos));
    if n > 1 {
        lemma_same_hash(mult, a, i, b, k, n - 1, eos);
        let j = n - 1;
        assert(back(a, i, j, eos) == back(b, k, j, eos));
        if exists|x: int| 1 <= x < j && #[trigger] back(a, i, x, eos) == eos {
            let x = choose|x: int| 1 <= x < j && #[trigger] back(a, i, x, eos) == eos;
            assert(back(b, k, x, eos) == eos);
        }
        if exists|x: int| 1 <= x < j && #[trigger] back(b, k, x, eos) == eos {
            let x = choose|x: int| 1 <= x < j && #[trigger] back(b, k, x, eos) == eos;
            assert(back(a, i, x, eos) == eos);
        }
    }
}

/// What is kept behind a chunk is the end of what was there, as much as a gram can
/// look back.
pub proof fn kept_is_the_end(s: Shape, hist: Seq<u32>, chunk: Seq<u32>)
    requires
        1 <= s.ple_ngram,
        hist.len() < s.ple_ngram,
    ensures
        ({
            let all = hist + chunk;
            let k = kept(s, hist, chunk);
            &&& k.len() == if all.len() < s.ple_ngram - 1 {
                all.len() as int
            } else {
                s.ple_ngram - 1
            }
            &&& exists|before: Seq<u32>| all == #[trigger] (before + k)
        }),
{
    let all = hist + chunk;
    let k = kept(s, hist, chunk);
    let before = all.take(all.len() - k.len());
    assert(all =~= before + k);
}

/// A row of the table has eighteen bytes for every thirty-two values: a scale in
/// two, lowest first, then sixteen bytes, whose low halves are the codes of the
/// first sixteen values and whose high halves those of the others.
pub proof fn row_is_coded(raw: Seq<u8>, b: int, j: int, s: Shape)
    requires
        0 <= b,
        0 <= j < 16,
        18 * b + 18 <= raw.len(),
    ensures
        ({
            let x = raw[18 * b + 2 + j] as int;
            let low = coded_at(raw, 32 * b + j);
            let high = coded_at(raw, 32 * b + 16 + j);
            &&& low.scale as int == raw[18 * b] + 256 * raw[18 * b + 1]
            &&& high.scale == low.scale
            &&& low.code as int == code_of(x % 16)
            &&& high.code as int == code_of(x / 16)
        }),
        ple_row_bytes(&s) as int == 18 * (s.ple_head_dim as int / 32),
{
    assert((32 * b + j) / 32 == b && (32 * b + j) % 32 == j);
    assert((32 * b + 16 + j) / 32 == b && (32 * b + 16 + j) % 32 == 16 + j);
    assert(b * 18 == 18 * b);
}

/// The sixteen values of a code: wider apart the farther they are from zero.
pub open spec fn code_of(c: int) -> int {
    seq![
        -127int,
        -104int,
        -83int,
        -65int,
        -49int,
        -35int,
        -22int,
        -10int,
        1int,
        13int,
        25int,
        38int,
        53int,
        69int,
        89int,
        113int,
    ][c]
}

/// A row of the table is read where the table has it, at its distance from the start
/// of the table; any other row is told as an error, as a signed number.
pub proof fn row_is_read_in_the_table(table: PleTable, row: u64, slot: int)
    requires
        0 <= slot <= u64::MAX,
        table.base + table.rows * table.row_bytes <= u64::MAX,
    ensures
        ({
            let p = read_row(table, row, slot);
            let there = row < table.rows && row < 0x8000_0000_0000_0000;
            &&& p.end is Ok <==> there
            &&& there ==> p.ops.len() == 1 && (p.ops[0] matches Op::PleRow { slot: to, off }
                && to == slot && off == table.base + row * table.row_bytes)
            &&& !there ==> p.ops.len() == 0 && (p.end matches Err(
                EngineError::PleRowOutOfRange { row: told },
            ) && (told == row || told == row - 0x1_0000_0000_0000_0000))
        }),
{
    if row < table.rows && row < 0x8000_0000_0000_0000 {
        let r = row as int;
        let n = table.rows as int;
        let b = table.row_bytes as int;
        assert(0 <= r * b <= n * b) by (nonlinear_arith)
            requires
                0 <= r <= n,
                0 <= b,
        ;
    }
}

/// The table lies behind the start of the tensor data, with eighteen bytes of a row
/// for every thirty-two values of a head.
pub proof fn table_lies_in_the_data(m: Model, e: PleEntry)
    requires
        m.data_offset + e.offset <= u64::MAX,
    ensures
        m.ple_table_of(e).base == m.data_offset + e.offset,
        m.ple_table_of(e).rows == e.rows,
        m.ple_table_of(e).row_bytes as int == 18 * (m.shape.ple_head_dim as int / 32),
{
}

} // verus!
