//! The n-gram embedding: which rows of the table a token reads.
//!
//! A token and its predecessors are hashed, once for each length of n-gram from
//! two on, and each hash picks one row for every head of that length.  The table
//! stays in the model file; a row is read when it is needed.

use crate::engine::error::EngineError;
use crate::engine::ops::{Op, Plan};
use crate::engine::shape::{PleHash, Shape};
use vstd::arithmetic::div_mod::{lemma_fundamental_div_mod, lemma_fundamental_div_mod_converse};
use vstd::prelude::*;

verus! {

pub open spec fn spec_ple_hist_cols(s: &Shape) -> usize {
    let k = if s.ple_conv_k >= 1 {
        s.ple_conv_k - 1
    } else {
        0
    };
    let n = if s.ple_ngram >= 1 {
        s.ple_ngram as int
    } else {
        1
    };
    (k * n) as usize
}

/// Rows of history that the dilated conv looks back on.
#[verifier::when_used_as_spec(spec_ple_hist_cols)]
pub fn ple_hist_cols(s: &Shape) -> (r: usize)
    requires
        ple_hist_fits(*s),
    ensures
        r == spec_ple_hist_cols(s),
{
    let k: usize = if s.ple_conv_k >= 1 {
        (s.ple_conv_k - 1) as usize
    } else {
        0
    };
    let n: usize = if s.ple_ngram >= 1 {
        s.ple_ngram as usize
    } else {
        1
    };
    k * n
}

/// The rows of history can be counted.
pub open spec fn ple_hist_fits(s: Shape) -> bool {
    (if s.ple_conv_k >= 1 {
        s.ple_conv_k - 1
    } else {
        0
    }) * (if s.ple_ngram >= 1 {
        s.ple_ngram as int
    } else {
        1
    }) <= usize::MAX
}

pub open spec fn spec_ple_heads(s: &Shape) -> usize {
    if s.ple_ngram >= 1 {
        ((s.ple_ngram - 1) * s.ple_heads_per_ngram) as usize
    } else {
        0
    }
}

/// Heads: a set for each length of n-gram from two on.
#[verifier::when_used_as_spec(spec_ple_heads)]
pub fn ple_heads(s: &Shape) -> (r: usize)
    requires
        ple_heads_fit(*s),
    ensures
        r == spec_ple_heads(s),
{
    if s.ple_ngram >= 1 {
        (s.ple_ngram - 1) as usize * s.ple_heads_per_ngram as usize
    } else {
        0
    }
}

/// The heads can be counted.
pub open spec fn ple_heads_fit(s: Shape) -> bool {
    s.ple_ngram >= 1 ==> (s.ple_ngram - 1) * s.ple_heads_per_ngram <= usize::MAX
}

pub open spec fn spec_ple_row_bytes(s: &Shape) -> u64 {
    (s.ple_head_dim as int / 32 * 18) as u64
}

/// Bytes of a row of the table: 18 for each block of 32 values.
#[verifier::when_used_as_spec(spec_ple_row_bytes)]
pub fn ple_row_bytes(s: &Shape) -> (r: u64)
    ensures
        r == spec_ple_row_bytes(s),
{
    (s.ple_head_dim as u64 / 32) * 18
}

/// Where the table lies in the model file.
#[derive(Debug, Clone, Copy, PartialEq, Eq, Structural)]
pub struct PleTable {
    /// offset of the first row
    pub base: u64,
    pub row_bytes: u64,
    pub rows: u64,
}

impl PleTable {
    /// Every row lies where an offset can say.
    pub open spec fn wf(self) -> bool {
        self.base + self.rows * self.row_bytes <= u64::MAX
    }
}

/// The token `j` places before place `i` of a sequence; before its start stands
/// the end mark.
pub open spec fn back(seq: Seq<u32>, i: int, j: int, eos: u32) -> u32 {
    if i - j >= 0 {
        seq[i - j]
    } else {
        eos
    }
}

/// The token `j` places before place `i`, as the hash sees it: past an end mark
/// among the predecessors there are only end marks.
pub open spec fn seen(seq: Seq<u32>, i: int, j: int, eos: u32) -> u32 {
    if exists|k: int| 1 <= k < j && #[trigger] back(seq, i, k, eos) == eos {
        eos
    } else {
        back(seq, i, j, eos)
    }
}

/// Hash of the n-gram of length `n` that ends at place `i`.
pub open spec fn gram_hash(mult: Seq<u64>, seq: Seq<u32>, i: int, n: int, eos: u32) -> u64
    decreases n,
{
    if n <= 1 {
        (back(seq, i, 0, eos) as u64).wrapping_mul(mult[0])
    } else {
        gram_hash(mult, seq, i, n - 1, eos) ^ (seen(seq, i, n - 1, eos) as u64).wrapping_mul(
            mult[n - 1],
        )
    }
}

/// Length of the n-gram that a head looks at.
pub open spec fn gram_len(s: Shape, h: int) -> int {
    h / (s.ple_heads_per_ngram as int) + 2
}

/// The row of the table that head `h` reads at place `i` of a sequence.
pub open spec fn ple_row(hash: PleHash, s: Shape, seq: Seq<u32>, i: int, h: int) -> int {
    gram_hash(hash.mult@, seq, i, gram_len(s, h), s.ple_eos_tok) as int % (hash.vocab@[h] as int)
        + hash.offs@[h]
}

/// The hash parameters belong to the shape: a multiplier for each place, a part
/// of the table for each head, and no row number overflows.
pub open spec fn hash_wf(hash: PleHash, s: Shape) -> bool {
    &&& 1 <= s.ple_ngram
    &&& ple_heads_fit(s)
    &&& s.ple_ngram <= hash.mult@.len()
    &&& ple_heads(&s) <= hash.vocab@.len()
    &&& ple_heads(&s) <= hash.offs@.len()
    &&& forall|h: int|
        0 <= h < ple_heads(&s) ==> 0 < #[trigger] hash.vocab@[h] && hash.vocab@[h] - 1
            + hash.offs@[h] <= u64::MAX
}

/// A row number with its top bit as a sign.
pub open spec fn as_signed(row: u64) -> i64 {
    if row <= i64::MAX {
        row as i64
    } else {
        (row - 0x1_0000_0000_0000_0000) as i64
    }
}

fn to_signed(row: u64) -> (r: i64)
    ensures
        r == as_signed(row),
{
    if row <= i64::MAX as u64 {
        row as i64
    } else {
        (row - 0x8000_0000_0000_0000) as i64 + i64::MIN
    }
}

/// Reading one row into its place, or the complaint that it is not there.
pub open spec fn read_row(table: PleTable, row: u64, slot: int) -> Plan {
    if as_signed(row) >= 0 && row < table.rows {
        Plan::of(
            seq![
                Op::PleRow {
                    slot: slot as u64,
                    off: (table.base + row * table.row_bytes) as u64,
                },
            ],
        )
    } else {
        Plan::fail(EngineError::PleRowOutOfRange { row: as_signed(row) })
    }
}

/// The rows of the first `n` heads at place `tt` of a chunk that follows `hist`.
pub open spec fn read_heads(
    hash: PleHash,
    s: Shape,
    table: PleTable,
    hist: Seq<u32>,
    chunk: Seq<u32>,
    tt: int,
    n: int,
) -> Plan
    decreases n,
{
    if n <= 0 {
        Plan::of(Seq::empty())
    } else {
        read_heads(hash, s, table, hist, chunk, tt, n - 1).and(
            read_row(
                table,
                ple_row(hash, s, hist + chunk, hist.len() + tt, n - 1) as u64,
                tt * ple_heads(&s) + n - 1,
            ),
        )
    }
}

/// The rows of the first `n` tokens of a chunk that follows `hist`.
pub open spec fn read_tokens(
    hash: PleHash,
    s: Shape,
    table: PleTable,
    hist: Seq<u32>,
    chunk: Seq<u32>,
    n: int,
) -> Plan
    decreases n,
{
    if n <= 0 {
        Plan::of(Seq::empty())
    } else {
        read_tokens(hash, s, table, hist, chunk, n - 1).and(
            read_heads(hash, s, table, hist, chunk, n - 1, ple_heads(&s) as int),
        )
    }
}

/// The last `n` of a sequence, or all of it where it is shorter.
pub open spec fn last_of(seq: Seq<u32>, n: int) -> Seq<u32> {
    if seq.len() <= n {
        seq
    } else {
        seq.skip(seq.len() - n)
    }
}

/// The predecessors that are kept once a chunk has been read: as many as an
/// n-gram has besides its last token.
pub open spec fn kept(s: Shape, hist: Seq<u32>, chunk: Seq<u32>) -> Seq<u32> {
    if chunk.len() == 0 {
        hist
    } else {
        last_of(hist + chunk, s.ple_ngram - 1)
    }
}

/// Appends the read of one row.
pub fn gather_ple_row(table: &PleTable, row: u64, slot: u64, ops: &mut Vec<Op>) -> (r: Result<
    (),
    EngineError,
>)
    requires
        table.wf(),
    ensures
        read_row(*table, row, slot as int).appended(old(ops)@, final(ops)@, r),
{
    if to_signed(row) < 0 || row >= table.rows {
        assert(ops@ =~= old(ops)@ + Seq::<Op>::empty());
        return Err(EngineError::PleRowOutOfRange { row: to_signed(row) });
    }
    proof {
        assert(row * table.row_bytes <= table.rows * table.row_bytes) by (nonlinear_arith)
            requires
                row <= table.rows,
                0 <= table.row_bytes,
        ;
        assert(row * table.row_bytes >= 0) by (nonlinear_arith)
            requires
                0 <= row,
                0 <= table.row_bytes,
        ;
    }
    let off: u64 = table.base + row * table.row_bytes;
    ops.push(Op::PleRow { slot, off });
    assert(ops@ =~= old(ops)@ + read_row(*table, row, slot as int).ops);
    Ok(())
}

/// The token `j` places before place `tt` of a chunk that follows `hist`.
fn token_back(hist: &Vec<u32>, chunk: &[u32], tt: usize, j: usize, eos: u32) -> (r: u32)
    requires
        tt < chunk@.len(),
    ensures
        r == back(hist@ + chunk@, hist@.len() + tt, j as int, eos),
{
    if tt >= j {
        chunk[tt - j]
    } else {
        let back_by: usize = j - tt;
        if back_by <= hist.len() {
            hist[hist.len() - back_by]
        } else {
            eos
        }
    }
}

/// What the hash sees at place `tt`: the token, and its predecessors up to an end
/// mark.
fn seen_context(hist: &Vec<u32>, chunk: &[u32], tt: usize, ngram: usize, eos: u32) -> (cv: Vec<
    u32,
>)
    requires
        tt < chunk@.len(),
        1 <= ngram,
    ensures
        cv@.len() == ngram,
        cv@[0] == back(hist@ + chunk@, hist@.len() + tt, 0, eos),
        forall|j: int|
            1 <= j < ngram ==> #[trigger] cv@[j] == seen(
                hist@ + chunk@,
                hist@.len() + tt,
                j,
                eos,
            ),
{
    let ghost whole = hist@ + chunk@;
    let ghost i = hist@.len() + tt;
    let mut cv: Vec<u32> = Vec::new();
    cv.push(token_back(hist, chunk, tt, 0, eos));
    let mut cut: bool = false;
    let mut j: usize = 1;
    while j < ngram
        invariant
            1 <= j <= ngram,
            tt < chunk@.len(),
            whole == hist@ + chunk@,
            i == hist@.len() + tt,
            cv@.len() == j,
            cv@[0] == back(whole, i, 0, eos),
            cut == exists|k: int| 1 <= k < j && #[trigger] back(whole, i, k, eos) == eos,
            forall|k: int| 1 <= k < j ==> #[trigger] cv@[k] == seen(whole, i, k, eos),
        decreases ngram - j,
    {
        let t: u32 = token_back(hist, chunk, tt, j, eos);
        cv.push(
            if cut {
                eos
            } else {
                t
            },
        );
        if t == eos {
            proof {
                assert(back(whole, i, j as int, eos) == eos);
            }
            cut = true;
        }
        j = j + 1;
    }
    cv
}

/// Appends the reads of one token.
fn gather_token(
    hash: &PleHash,
    s: &Shape,
    table: &PleTable,
    hist: &Vec<u32>,
    chunk: &[u32],
    tt: usize,
    ops: &mut Vec<Op>,
) -> (r: Result<(), EngineError>)
    requires
        hash_wf(*hash, *s),
        table.wf(),
        tt < chunk@.len(),
        chunk@.len() * ple_heads(s) <= u64::MAX,
    ensures
        read_heads(*hash, *s, *table, hist@, chunk@, tt as int, ple_heads(s) as int).appended(
            old(ops)@,
            final(ops)@,
            r,
        ),
{
    let heads: usize = ple_heads(s);
    let ngram: usize = s.ple_ngram as usize;
    let hpn: usize = s.ple_heads_per_ngram as usize;
    let eos: u32 = s.ple_eos_tok;
    let ghost whole = hist@ + chunk@;
    let ghost i = hist@.len() + tt;
    let ghost plan = read_heads(*hash, *s, *table, hist@, chunk@, tt as int, heads as int);
    let cv: Vec<u32> = seen_context(hist, chunk, tt, ngram, eos);
    let mut mixed: u64 = (cv[0] as u64).wrapping_mul(hash.mult[0]);
    let mut m: usize = 1;
    assert(ops@ =~= old(ops)@ + read_heads(
        *hash,
        *s,
        *table,
        hist@,
        chunk@,
        tt as int,
        0,
    ).ops);
    assert(0 == (m - 1) * hpn) by (nonlinear_arith)
        requires
            m == 1,
    ;
    while m < ngram
        invariant
            1 <= m <= ngram,
            ngram == s.ple_ngram,
            hpn == s.ple_heads_per_ngram,
            heads == ple_heads(s),
            heads == (ngram - 1) * hpn,
            eos == s.ple_eos_tok,
            hash_wf(*hash, *s),
            table.wf(),
            tt < chunk@.len(),
            chunk@.len() * heads <= u64::MAX,
            whole == hist@ + chunk@,
            i == hist@.len() + tt,
            cv@.len() == ngram,
            forall|j: int| 1 <= j < ngram ==> #[trigger] cv@[j] == seen(whole, i, j, eos),
            mixed == gram_hash(hash.mult@, whole, i, m as int, eos),
            plan == read_heads(*hash, *s, *table, hist@, chunk@, tt as int, heads as int),
            0 <= (m - 1) * hpn <= heads,
            read_heads(
                *hash,
                *s,
                *table,
                hist@,
                chunk@,
                tt as int,
                (m - 1) * hpn,
            ).end is Ok,
            ops@ == old(ops)@ + read_heads(
                *hash,
                *s,
                *table,
                hist@,
                chunk@,
                tt as int,
                (m - 1) * hpn,
            ).ops,
        decreases ngram - m,
    {
        mixed = mixed ^ (cv[m] as u64).wrapping_mul(hash.mult[m]);
        proof {
            assert(m * hpn == (m - 1) * hpn + hpn) by (nonlinear_arith);
            assert(m * hpn <= (ngram - 1) * hpn) by (nonlinear_arith)
                requires
                    m <= ngram - 1,
                    0 <= hpn,
            ;
        }
        let base: usize = (m - 1) * hpn;
        let mut g: usize = 0;
        while g < hpn
            invariant
                g <= hpn,
                1 <= m < ngram,
                ngram == s.ple_ngram,
                hpn == s.ple_heads_per_ngram,
                heads == ple_heads(s),
                base == (m - 1) * hpn,
                base + hpn <= heads,
                hash_wf(*hash, *s),
                table.wf(),
                tt < chunk@.len(),
                chunk@.len() * heads <= u64::MAX,
                whole == hist@ + chunk@,
                i == hist@.len() + tt,
                eos == s.ple_eos_tok,
                mixed == gram_hash(hash.mult@, whole, i, m + 1, eos),
                plan == read_heads(*hash, *s, *table, hist@, chunk@, tt as int, heads as int),
                read_heads(
                    *hash,
                    *s,
                    *table,
                    hist@,
                    chunk@,
                    tt as int,
                    base + g,
                ).end is Ok,
                ops@ == old(ops)@ + read_heads(
                    *hash,
                    *s,
                    *table,
                    hist@,
                    chunk@,
                    tt as int,
                    base + g,
                ).ops,
            decreases hpn - g,
        {
            let h_i: usize = base + g;
            proof {
                lemma_fundamental_div_mod_converse(h_i as int, hpn as int, m - 1, g as int);
                assert(gram_len(*s, h_i as int) == m + 1);
                assert(tt * heads + heads <= chunk@.len() * heads) by (nonlinear_arith)
                    requires
                        tt + 1 <= chunk@.len(),
                        0 <= heads,
                ;
                assert(0 <= tt * heads) by (nonlinear_arith)
                    requires
                        0 <= tt,
                        0 <= heads,
                ;
                assert(0 < hash.vocab@[h_i as int]);
                assert(mixed % hash.vocab@[h_i as int] < hash.vocab@[h_i as int]);
            }
            let row: u64 = mixed % hash.vocab[h_i] + hash.offs[h_i];
            let slot: u64 = tt as u64 * heads as u64 + h_i as u64;
            assert(row == ple_row(*hash, *s, whole, i, h_i as int));
            let r = gather_ple_row(table, row, slot, ops);
            proof {
                let done = read_heads(
                    *hash,
                    *s,
                    *table,
                    hist@,
                    chunk@,
                    tt as int,
                    h_i + 1,
                );
                assert(ops@ =~= old(ops)@ + done.ops);
                assert(done.end == r);
                if r is Err {
                    lemma_heads_stopped(
                        *hash,
                        *s,
                        *table,
                        hist@,
                        chunk@,
                        tt as int,
                        h_i + 1,
                        heads as int,
                    );
                }
            }
            if r.is_err() {
                return r;
            }
            g = g + 1;
        }
        m = m + 1;
    }
    proof {
        if ngram == 1 {
            assert((ngram - 1) * hpn == 0) by (nonlinear_arith)
                requires
                    ngram == 1,
            ;
        }
        assert((m - 1) * hpn == heads) by (nonlinear_arith)
            requires
                m == ngram,
                heads == (ngram - 1) * hpn,
        ;
    }
    Ok(())
}

/// Once a row was missing, none of the later ones is read.
proof fn lemma_heads_stopped(
    hash: PleHash,
    s: Shape,
    table: PleTable,
    hist: Seq<u32>,
    chunk: Seq<u32>,
    tt: int,
    a: int,
    b: int,
)
    requires
        0 <= a <= b,
        read_heads(hash, s, table, hist, chunk, tt, a).end is Err,
    ensures
        read_heads(hash, s, table, hist, chunk, tt, b) == read_heads(
            hash,
            s,
            table,
            hist,
            chunk,
            tt,
            a,
        ),
    decreases b - a,
{
    if a < b {
        lemma_heads_stopped(hash, s, table, hist, chunk, tt, a, b - 1);
    }
}

/// Once a row was missing, no later token is read.
proof fn lemma_tokens_stopped(
    hash: PleHash,
    s: Shape,
    table: PleTable,
    hist: Seq<u32>,
    chunk: Seq<u32>,
    a: int,
    b: int,
)
    requires
        0 <= a <= b,
        read_tokens(hash, s, table, hist, chunk, a).end is Err,
    ensures
        read_tokens(hash, s, table, hist, chunk, b) == read_tokens(
            hash,
            s,
            table,
            hist,
            chunk,
            a,
        ),
    decreases b - a,
{
    if a < b {
        lemma_tokens_stopped(hash, s, table, hist, chunk, a, b - 1);
    }
}

/// Appends the reads of a chunk that follows `hist`.
pub fn gather_chunk(
    hash: &PleHash,
    s: &Shape,
    table: &PleTable,
    hist: &Vec<u32>,
    chunk: &[u32],
    ops: &mut Vec<Op>,
) -> (r: Result<(), EngineError>)
    requires
        hash_wf(*hash, *s),
        table.wf(),
        chunk@.len() * ple_heads(s) <= u64::MAX,
    ensures
        read_tokens(*hash, *s, *table, hist@, chunk@, chunk@.len() as int).appended(
            old(ops)@,
            final(ops)@,
            r,
        ),
{
    let n: usize = chunk.len();
    let mut tt: usize = 0;
    assert(ops@ =~= old(ops)@ + read_tokens(*hash, *s, *table, hist@, chunk@, 0).ops);
    while tt < n
        invariant
            tt <= n,
            n == chunk@.len(),
            hash_wf(*hash, *s),
            table.wf(),
            chunk@.len() * ple_heads(s) <= u64::MAX,
            read_tokens(*hash, *s, *table, hist@, chunk@, tt as int).end is Ok,
            ops@ == old(ops)@ + read_tokens(*hash, *s, *table, hist@, chunk@, tt as int).ops,
        decreases n - tt,
    {
        let r = gather_token(hash, s, table, hist, chunk, tt, ops);
        proof {
            let done = read_tokens(*hash, *s, *table, hist@, chunk@, tt + 1);
            assert(ops@ =~= old(ops)@ + done.ops);
            assert(done.end == r);
            if r is Err {
                lemma_tokens_stopped(*hash, *s, *table, hist@, chunk@, tt + 1, n as int);
            }
        }
        if r.is_err() {
            return r;
        }
        tt = tt + 1;
    }
    Ok(())
}

/// The predecessors to keep after a chunk.
pub fn keep_tokens(s: &Shape, hist: &Vec<u32>, chunk: &[u32]) -> (r: Vec<u32>)
    requires
        1 <= s.ple_ngram,
        hist@.len() + chunk@.len() <= usize::MAX,
    ensures
        r@ == kept(*s, hist@, chunk@),
{
    let keep: usize = (s.ple_ngram - 1) as usize;
    let total: usize = hist.len() + chunk.len();
    let ghost whole = hist@ + chunk@;
    let mut from: usize = 0;
    if chunk.len() > 0 && total > keep {
        from = total - keep;
    }
    let mut r: Vec<u32> = Vec::new();
    let mut i: usize = from;
    while i < total
        invariant
            from <= i <= total,
            total == hist@.len() + chunk@.len(),
            whole == hist@ + chunk@,
            r@ == whole.subrange(from as int, i as int),
        decreases total - i,
    {
        if i < hist.len() {
            r.push(hist[i]);
        } else {
            r.push(chunk[i - hist.len()]);
        }
        i = i + 1;
        assert(r@ =~= whole.subrange(from as int, i as int));
    }
    assert(r@ =~= kept(*s, hist@, chunk@));
    r
}

/// The values of the IQ4_NL codebook.
pub open spec fn codebook() -> Seq<int> {
    seq![-127, -104, -83, -65, -49, -35, -22, -10, 1, 13, 25, 38, 53, 69, 89, 113]
}

fn code_value(i: u8) -> (r: i32)
    requires
        i < 16,
    ensures
        r == codebook()[i as int],
{
    let table: [i32; 16] = [
        -127,
        -104,
        -83,
        -65,
        -49,
        -35,
        -22,
        -10,
        1,
        13,
        25,
        38,
        53,
        69,
        89,
        113,
    ];
    assert(forall|k: int| 0 <= k < 16 ==> table@[k] == codebook()[k]);
    table[i as usize]
}

/// A value of a row: the bits of its block's half-precision scale, and the
/// codebook value that the scale multiplies.
#[derive(Debug, Clone, Copy, PartialEq, Eq, Structural)]
pub struct Coded {
    pub scale: u16,
    pub code: i32,
}

/// Value `i` of a row.  A block is a scale, low byte first, and sixteen bytes:
/// their low halves are the first sixteen values, their high halves the others.
pub open spec fn coded_at(raw: Seq<u8>, i: int) -> Coded {
    let block = i / 32 * 18;
    let j = i % 32;
    Coded {
        scale: (raw[block] + 256 * raw[block + 1]) as u16,
        code: (if j < 16 {
            codebook()[raw[block + 2 + j] as int % 16]
        } else {
            codebook()[raw[block + 2 + j - 16] as int / 16]
        }) as i32,
    }
}

/// Decodes a row of `head_dim` values up to the last whole block.
pub fn decode_row(raw: &Vec<u8>, head_dim: usize) -> (r: Vec<Coded>)
    requires
        head_dim as int / 32 * 18 <= raw@.len(),
    ensures
        r@.len() == head_dim as int / 32 * 32,
        forall|i: int| 0 <= i < r@.len() ==> #[trigger] r@[i] == coded_at(raw@, i),
{
    let blocks: usize = head_dim / 32;
    let len: usize = raw.len();
    let mut r: Vec<Coded> = Vec::new();
    let mut b: usize = 0;
    while b < blocks
        invariant
            b <= blocks,
            blocks * 18 <= raw@.len(),
            len == raw@.len(),
            blocks * 32 <= usize::MAX,
            r@.len() == b * 32,
            forall|i: int| 0 <= i < r@.len() ==> #[trigger] r@[i] == coded_at(raw@, i),
        decreases blocks - b,
    {
        let at: usize = b * 18;
        let scale: u16 = raw[at] as u16 + 256 * raw[at + 1] as u16;
        let mut j: usize = 0;
        while j < 32
            invariant
                j <= 32,
                b < blocks,
                at == b * 18,
                blocks * 18 <= raw@.len(),
                len == raw@.len(),
                scale == raw@[at as int] + 256 * raw@[at + 1],
                r@.len() == b * 32 + j,
                forall|i: int| 0 <= i < r@.len() ==> #[trigger] r@[i] == coded_at(raw@, i),
            decreases 32 - j,
        {
            let code: i32 = if j < 16 {
                code_value(raw[at + 2 + j] % 16)
            } else {
                code_value(raw[at + 2 + (j - 16)] / 16)
            };
            proof {
                let i = b * 32 + j;
                assert(i / 32 == b && i % 32 == j);
            }
            r.push(Coded { scale, code });
            j = j + 1;
        }
        b = b + 1;
    }
    r
}

proof fn lemma_gram_hash_same(
    mult: Seq<u64>,
    x: Seq<u32>,
    i: int,
    y: Seq<u32>,
    k: int,
    n: int,
    eos: u32,
)
    requires
        forall|j: int| 0 <= j < n || j == 0 ==> #[trigger] back(x, i, j, eos) == back(y, k, j, eos),
    ensures
        gram_hash(mult, x, i, n, eos) == gram_hash(mult, y, k, n, eos),
    decreases n,
{
    if n > 1 {
        lemma_gram_hash_same(mult, x, i, y, k, n - 1, eos);
        assert(back(x, i, n - 1, eos) == back(y, k, n - 1, eos));
        let ex = exists|j: int| 1 <= j < n - 1 && #[trigger] back(x, i, j, eos) == eos;
        let ey = exists|j: int| 1 <= j < n - 1 && #[trigger] back(y, k, j, eos) == eos;
        if ex {
            let j = choose|j: int| 1 <= j < n - 1 && #[trigger] back(x, i, j, eos) == eos;
            assert(back(y, k, j, eos) == eos);
        }
        if ey {
            let j = choose|j: int| 1 <= j < n - 1 && #[trigger] back(y, k, j, eos) == eos;
            assert(back(x, i, j, eos) == eos);
        }
    } else {
        assert(back(x, i, 0, eos) == back(y, k, 0, eos));
    }
}

proof fn lemma_gram_len(s: Shape, h: int)
    requires
        1 <= s.ple_ngram,
        ple_heads_fit(s),
        0 <= h < ple_heads(&s),
    ensures
        2 <= gram_len(s, h) <= s.ple_ngram,
{
    let p = s.ple_heads_per_ngram as int;
    let m = s.ple_ngram - 1;
    if p == 0 {
        assert(m * p == 0) by (nonlinear_arith)
            requires
                p == 0,
        ;
    }
    lemma_fundamental_div_mod(h, p);
    let q = h / p;
    assert(0 <= q < m) by (nonlinear_arith)
        requires
            h == p * q + h % p,
            0 <= h % p < p,
            0 <= h < m * p,
    ;
}

/// A chunk reads the same rows whether the tokens before it are all there or only
/// those that were kept: cutting a sequence into chunks, or into calls, changes
/// no row.
pub proof fn chunks_read_the_same_rows(
    hash: PleHash,
    s: Shape,
    before: Seq<u32>,
    chunk: Seq<u32>,
    tt: int,
    h: int,
)
    requires
        1 <= s.ple_ngram,
        ple_heads_fit(s),
        0 <= tt < chunk.len(),
        0 <= h < ple_heads(&s),
    ensures
        ({
            let hist = last_of(before, s.ple_ngram - 1);
            ple_row(hash, s, hist + chunk, hist.len() + tt, h) == ple_row(
                hash,
                s,
                before + chunk,
                before.len() + tt,
                h,
            )
        }),
{
    let hist = last_of(before, s.ple_ngram - 1);
    let eos = s.ple_eos_tok;
    let n = gram_len(s, h);
    lemma_gram_len(s, h);
    assert forall|j: int| 0 <= j < n || j == 0 implies #[trigger] back(
        hist + chunk,
        hist.len() + tt,
        j,
        eos,
    ) == back(before + chunk, before.len() + tt, j, eos) by {}
    lemma_gram_hash_same(
        hash.mult@,
        hist + chunk,
        hist.len() + tt,
        before + chunk,
        before.len() + tt,
        n,
        eos,
    );
}

/// What is kept after two chunks is what would be kept after both as one.
pub proof fn kept_over_chunks(s: Shape, hist: Seq<u32>, a: Seq<u32>, b: Seq<u32>)
    requires
        1 <= s.ple_ngram,
        hist.len() < s.ple_ngram,
    ensures
        kept(s, kept(s, hist, a), b) == kept(s, hist, a + b),
        kept(s, hist, a).len() < s.ple_ngram,
{
    assert(kept(s, kept(s, hist, a), b) =~= kept(s, hist, a + b));
}

} // verus!
