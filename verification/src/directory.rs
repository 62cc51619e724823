//! What the directory of a model tells: where its shards start in the virtual
//! file, and which of its tensors a listing shows.

use crate::expert::{Gguf, TensorInfo};
use crate::fetch::Fetcher;
use crate::text::{contains, is_part};
use vstd::prelude::*;

verus! {

impl TensorInfo {
    /// Bytes of the tensor; nothing where the type's layout is not known.
    pub open spec fn spec_size(&self) -> u64 {
        match self.byte_size {
            Some(n) => n,
            None => 0,
        }
    }

    /// Bytes of the tensor; nothing where the type's layout is not known.
    #[verifier::when_used_as_spec(spec_size)]
    pub fn size(&self) -> (r: u64)
        ensures
            r == self.size(),
    {
        match self.byte_size {
            Some(n) => n,
            None => 0,
        }
    }

    /// A routed-expert tensor or the router of a layer.
    pub open spec fn is_expert_part(&self) -> bool {
        is_part(self.name@, "exps"@) || is_part(self.name@, "ffn_gate_inp"@)
    }
}

/// Bytes of the first `n` tensors of a shard.
pub open spec fn bytes_of(ts: Seq<TensorInfo>, n: int) -> nat
    decreases n,
{
    if n <= 0 {
        0
    } else {
        bytes_of(ts, n - 1) + ts[n - 1].size() as nat
    }
}

/// Bytes of the first `n` shards.
pub open spec fn bytes_before(shards: Seq<Vec<TensorInfo>>, n: int) -> nat
    decreases n,
{
    if n <= 0 {
        0
    } else {
        bytes_before(shards, n - 1) + bytes_of(shards[n - 1]@, shards[n - 1]@.len() as int)
    }
}

proof fn lemma_bytes_of_grows(ts: Seq<TensorInfo>, m: int, n: int)
    requires
        m <= n,
    ensures
        bytes_of(ts, m) <= bytes_of(ts, n),
    decreases n - m,
{
    if m < n {
        lemma_bytes_of_grows(ts, m, n - 1);
    }
}

proof fn lemma_bytes_before_grows(shards: Seq<Vec<TensorInfo>>, m: int, n: int)
    requires
        m <= n,
    ensures
        bytes_before(shards, m) <= bytes_before(shards, n),
    decreases n - m,
{
    if m < n {
        lemma_bytes_before_grows(shards, m, n - 1);
    }
}

/// Where each shard starts in the virtual file: each behind the bytes of the
/// tensors of those before it.
pub fn shard_bases(shards: &Vec<Vec<TensorInfo>>) -> (r: Vec<u64>)
    requires
        bytes_before(shards@, shards@.len() as int) <= u64::MAX,
    ensures
        r@.len() == shards@.len(),
        forall|i: int| 0 <= i < r@.len() ==> #[trigger] r@[i] == bytes_before(shards@, i),
{
    let mut out: Vec<u64> = Vec::new();
    let mut at: u64 = 0;
    for i in 0..shards.len()
        invariant
            bytes_before(shards@, shards@.len() as int) <= u64::MAX,
            out@.len() == i,
            at == bytes_before(shards@, i as int),
            forall|j: int| 0 <= j < i ==> #[trigger] out@[j] == bytes_before(shards@, j),
    {
        out.push(at);
        let ts = &shards[i];
        proof {
            lemma_bytes_before_grows(shards@, i + 1, shards@.len() as int);
        }
        let ghost start = at;
        for k in 0..ts.len()
            invariant
                at == start + bytes_of(ts@, k as int),
                start + bytes_of(ts@, ts@.len() as int) <= u64::MAX,
        {
            proof {
                lemma_bytes_of_grows(ts@, k + 1, ts@.len() as int);
            }
            at = at + ts[k].size();
        }
    }
    out
}

/// The bases of the shards of a model ascend and start at zero, so that every
/// virtual offset has a shard.
pub proof fn bases_ascend(shards: Seq<Vec<TensorInfo>>, f: &Fetcher)
    requires
        f.bases@.len() == shards.len(),
        forall|i: int|
            0 <= i < f.bases@.len() ==> #[trigger] f.bases@[i] == bytes_before(shards, i),
    ensures
        f.wf(),
        shards.len() > 0 ==> forall|offset: u64| f.routes(offset),
{
    assert forall|i: int, j: int| 0 <= i <= j < f.bases@.len() implies f.bases@[i]
        <= f.bases@[j] by {
        lemma_bytes_before_grows(shards, i, j);
    }
}

/// The numbers are those of the tensors that are kept, in directory order.
pub open spec fn selects(
    r: Seq<usize>,
    ts: Seq<TensorInfo>,
    kept: spec_fn(TensorInfo) -> bool,
) -> bool {
    &&& forall|a: int, b: int| 0 <= a < b < r.len() ==> r[a] < r[b]
    &&& forall|a: int| 0 <= a < r.len() ==> #[trigger] r[a] < ts.len() && kept(ts[r[a] as int])
    &&& forall|i: int|
        0 <= i < ts.len() && kept(#[trigger] ts[i]) ==> exists|a: int|
            0 <= a < r.len() && #[trigger] r[a] == i
}

/// The tensors whose name holds the filter; all of them without one.
pub fn named(ts: &Vec<TensorInfo>, filter: Option<&str>) -> (r: Vec<usize>)
    ensures
        selects(
            r@,
            ts@,
            |t: TensorInfo| filter matches Some(f) ==> is_part(t.name@, f@),
        ),
{
    let ghost kept = |t: TensorInfo| filter matches Some(f) ==> is_part(t.name@, f@);
    let mut r: Vec<usize> = Vec::new();
    for i in 0..ts.len()
        invariant
            kept == (|t: TensorInfo| filter matches Some(f) ==> is_part(t.name@, f@)),
            selects(r@, ts@.take(i as int), kept),
    {
        let keep = match filter {
            Some(f) => contains(ts[i].name.as_str(), f),
            None => true,
        };
        let ghost before = r@;
        if keep {
            r.push(i);
        }
        proof {
            lemma_selects_next(before, ts@, kept, i, keep);
        }
    }
    assert(ts@.take(ts@.len() as int) =~= ts@);
    r
}

/// The routed-expert tensors and the routers.
pub fn expert_parts(ts: &Vec<TensorInfo>) -> (r: Vec<usize>)
    ensures
        selects(r@, ts@, |t: TensorInfo| t.is_expert_part()),
{
    let ghost kept = |t: TensorInfo| t.is_expert_part();
    let mut r: Vec<usize> = Vec::new();
    for i in 0..ts.len()
        invariant
            kept == (|t: TensorInfo| t.is_expert_part()),
            selects(r@, ts@.take(i as int), kept),
    {
        let name = ts[i].name.as_str();
        let keep = contains(name, "exps") || contains(name, "ffn_gate_inp");
        let ghost before = r@;
        if keep {
            r.push(i);
        }
        proof {
            lemma_selects_next(before, ts@, kept, i, keep);
        }
    }
    assert(ts@.take(ts@.len() as int) =~= ts@);
    r
}

proof fn lemma_selects_next(
    r: Seq<usize>,
    ts: Seq<TensorInfo>,
    kept: spec_fn(TensorInfo) -> bool,
    i: usize,
    keep: bool,
)
    requires
        i < ts.len(),
        selects(r, ts.take(i as int), kept),
        keep == kept(ts[i as int]),
    ensures
        selects(
            if keep {
                r.push(i)
            } else {
                r
            },
            ts.take(i + 1),
            kept,
        ),
{
    let next = if keep {
        r.push(i)
    } else {
        r
    };
    let short = ts.take(i as int);
    let long = ts.take(i + 1);
    assert forall|a: int| 0 <= a < next.len() implies #[trigger] next[a] < long.len() && kept(
        long[next[a] as int],
    ) by {
        if a < r.len() {
            assert(r[a] < short.len() && kept(short[r[a] as int]));
        }
    }
    assert forall|k: int| 0 <= k < long.len() && kept(#[trigger] long[k]) implies exists|a: int|
        0 <= a < next.len() && #[trigger] next[a] == k by {
        if k < i {
            assert(kept(short[k]));
            let a = choose|a: int| 0 <= a < r.len() && #[trigger] r[a] == k;
            assert(next[a] == k);
        } else {
            assert(next[r.len() as int] == k);
        }
    }
}

/// Tensor `a` stands before tensor `b` by its place in the data section; where
/// two have one place, in directory order.
pub open spec fn lies_before(ts: Seq<TensorInfo>, a: int, b: int) -> bool {
    ts[a].offset < ts[b].offset || (ts[a].offset == ts[b].offset && a < b)
}

/// The numbers are those of the first tensors by place, in that order.
pub open spec fn first_by_place(r: Seq<usize>, ts: Seq<TensorInfo>) -> bool {
    &&& forall|a: int| 0 <= a < r.len() ==> #[trigger] r[a] < ts.len()
    &&& forall|a: int, b: int|
        0 <= a < b < r.len() ==> lies_before(ts, #[trigger] r[a] as int, #[trigger] r[b] as int)
    &&& forall|i: int, a: int|
        0 <= i < ts.len() && 0 <= a < r.len() && !r.contains(i as usize) ==> #[trigger] lies_before(
            ts,
            r[a] as int,
            i,
        )
}

/// The next tensor by place behind those of `r`.
fn next_by_place(ts: &Vec<TensorInfo>, r: &Vec<usize>) -> (best: usize)
    requires
        r@.len() < ts@.len(),
        first_by_place(r@, ts@),
        ts@.len() <= usize::MAX,
    ensures
        first_by_place(r@.push(best), ts@),
{
    proof {
        lemma_some_left(r@, ts@.len());
    }
    let mut best: Option<usize> = None;
    for i in 0..ts.len()
        invariant
            first_by_place(r@, ts@),
            match best {
                None => forall|k: int| 0 <= k < i ==> r@.contains(#[trigger] (k as usize)),
                Some(b) => {
                    &&& b < i
                    &&& !r@.contains(b)
                    &&& forall|k: int|
                        0 <= k < i && k != b && !r@.contains(k as usize) ==> #[trigger] lies_before(
                            ts@,
                            b as int,
                            k,
                        )
                },
            },
    {
        let mut taken = false;
        for j in 0..r.len()
            invariant
                taken <==> exists|k: int| 0 <= k < j && #[trigger] r@[k] == i,
        {
            if r[j] == i {
                taken = true;
            }
        }
        if !taken {
            assert(!r@.contains(i));
            match best {
                None => {
                    best = Some(i);
                },
                Some(b) => {
                    if ts[i].offset < ts[b].offset {
                        proof {
                            assert(lies_before(ts@, i as int, b as int));
                            assert forall|k: int|
                                0 <= k < i + 1 && k != i && !r@.contains(
                                    k as usize,
                                ) implies #[trigger] lies_before(ts@, i as int, k) by {
                                if k != b {
                                    assert(lies_before(ts@, b as int, k));
                                }
                            }
                        }
                        best = Some(i);
                    }
                },
            }
        } else {
            assert(r@.contains(i));
        }
    }
    let b: usize = match best {
        Some(b) => b,
        None => {
            proof {
                let k = choose|k: int| 0 <= k < ts@.len() && !r@.contains(#[trigger] (k as usize));
                assert(r@.contains(k as usize));
            }
            0
        },
    };
    proof {
        let next = r@.push(b);
        assert forall|a: int, c: int| 0 <= a < c < next.len() implies lies_before(
            ts@,
            #[trigger] next[a] as int,
            #[trigger] next[c] as int,
        ) by {
            if c == r@.len() {
                assert(!r@.contains(b));
                assert(lies_before(ts@, r@[a] as int, b as int));
            } else {
                assert(lies_before(ts@, r@[a] as int, r@[c] as int));
            }
        }
        assert forall|i: int, a: int|
            0 <= i < ts@.len() && 0 <= a < next.len() && !next.contains(
                i as usize,
            ) implies #[trigger] lies_before(ts@, next[a] as int, i) by {
            assert(next[r@.len() as int] == b);
            assert(!r@.contains(i as usize)) by {
                if r@.contains(i as usize) {
                    let k = choose|k: int| 0 <= k < r@.len() && r@[k] == i as usize;
                    assert(next[k] == i as usize);
                }
            }
            if a < r@.len() {
                assert(lies_before(ts@, r@[a] as int, i));
            }
        }
    }
    b
}

/// Fewer numbers than there are tensors leave one out.
proof fn lemma_some_left(r: Seq<usize>, n: nat)
    requires
        r.len() < n <= usize::MAX,
    ensures
        exists|k: int| 0 <= k < n && !r.contains(#[trigger] (k as usize)),
{
    let all = Set::new(|k: usize| k < n);
    let held = r.to_set();
    r.lemma_cardinality_of_set();
    lemma_below(n);
    if forall|k: int| 0 <= k < n ==> r.contains(#[trigger] (k as usize)) {
        assert(all.subset_of(held)) by {
            assert forall|k: usize| all.contains(k) implies held.contains(k) by {
                assert(r.contains((k as int) as usize));
            }
        }
        vstd::set_lib::lemma_len_subset(all, held);
    }
}

proof fn lemma_below(n: nat)
    requires
        n <= usize::MAX,
    ensures
        Set::new(|k: usize| k < n).finite(),
        Set::new(|k: usize| k < n).len() == n,
    decreases n,
{
    let all = Set::new(|k: usize| k < n);
    if n == 0 {
        assert(all =~= Set::<usize>::empty());
    } else {
        let m = (n - 1) as nat;
        lemma_below(m);
        assert(all =~= Set::new(|k: usize| k < m).insert(m as usize));
    }
}

/// The first `n` tensors by their place in the data section, or all where there
/// are fewer.
pub fn lowest(ts: &Vec<TensorInfo>, n: usize) -> (r: Vec<usize>)
    ensures
        r@.len() == if n < ts@.len() {
            n as nat
        } else {
            ts@.len()
        },
        first_by_place(r@, ts@),
{
    let mut r: Vec<usize> = Vec::new();
    while r.len() < n && r.len() < ts.len()
        invariant
            r@.len() <= n,
            r@.len() <= ts@.len(),
            first_by_place(r@, ts@),
        decreases n - r@.len(),
    {
        let b = next_by_place(ts, &r);
        r.push(b);
    }
    r
}

impl Gguf {
    /// Where tensor `i` starts in the file.
    pub fn position(&self, i: usize) -> (r: u64)
        requires
            i < self.tensors@.len(),
            self.data_offset + self.tensors@[i as int].offset <= u64::MAX,
        ensures
            r == self.data_offset + self.tensors@[i as int].offset,
    {
        self.data_offset + self.tensors[i].offset
    }
}

} // verus!
