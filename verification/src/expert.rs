//! Where the routed experts of a model lie in its file.

use crate::plan::Read;
use crate::text::{decimal, ends_with, is_tail, list_text, push_decimal, push_list};
use vstd::prelude::*;

verus! {

/// What the directory of a model file says of one tensor.
pub struct TensorInfo {
    pub name: String,
    /// the name of the element type
    pub ty: String,
    pub dims: Vec<u64>,
    /// position in the data section
    pub offset: u64,
    /// bytes of a row of `dims[0]` elements, where the type's layout is known
    pub row_bytes: Option<u64>,
    /// bytes of the whole tensor, where the type's layout is known
    pub byte_size: Option<u64>,
}

/// What the header of a model file says.
pub struct Gguf {
    /// the number of routed experts of a layer, where the header gives it
    pub expert_count: Option<u64>,
    /// where the data section starts
    pub data_offset: u64,
    pub tensors: Vec<TensorInfo>,
}

impl TensorInfo {
    /// A routed-expert tensor: one slab for each expert.
    pub open spec fn streamed(&self) -> bool {
        is_tail(self.name@, "_exps.weight"@)
    }

    /// The directory entry has the shape of an expert tensor of `n` experts.
    pub open spec fn has_experts(&self, n: u64) -> bool {
        self.dims@.len() == 3 && self.dims@[2] == n
    }

    /// Bytes of one expert's slab.
    pub open spec fn expert_bytes(&self) -> int {
        self.row_bytes.unwrap() * self.dims@[1]
    }

    /// Where slab `e` starts in the file.
    pub open spec fn slab_offset(&self, data_offset: u64, e: int) -> int {
        data_offset + self.offset + e * self.expert_bytes()
    }

    /// The first expert from `e` on, of `n`, whose slab does not end in a file
    /// of `model_len` bytes.
    pub open spec fn first_beyond(
        &self,
        data_offset: u64,
        model_len: u64,
        n: u64,
        e: int,
    ) -> Option<int>
        decreases n - e,
    {
        if e >= n {
            None
        } else if self.slab_offset(data_offset, e) + self.expert_bytes() > model_len {
            Some(e)
        } else {
            self.first_beyond(data_offset, model_len, n, e + 1)
        }
    }

    /// The reads of this tensor's slabs, or what is wrong with it.
    pub open spec fn slab_reads(&self, data_offset: u64, model_len: u64, n: u64) -> Result<
        Seq<Read>,
        Seq<char>,
    > {
        if !self.has_experts(n) {
            Err(self.name@ + ": unexpected exps dims "@ + list_text(self.dims@))
        } else if self.row_bytes is None {
            Err(self.name@ + ": unmodeled type "@ + self.ty@)
        } else {
            match self.first_beyond(data_offset, model_len, n, 0) {
                Some(e) => Err(self.name@ + ": expert "@ + decimal(e as nat) + " beyond eof"@),
                None => Ok(
                    Seq::new(
                        n as nat,
                        |e: int|
                            Read {
                                offset: self.slab_offset(data_offset, e) as u64,
                                len: self.expert_bytes() as u64,
                            },
                    ),
                ),
            }
        }
    }

    /// The positions of the slabs that are looked at fit in 64 bits.
    pub open spec fn in_range(&self, data_offset: u64, model_len: u64, n: u64) -> bool {
        self.has_experts(n) && self.row_bytes is Some ==> {
            &&& self.expert_bytes() <= u64::MAX
            &&& data_offset + self.offset <= u64::MAX
            &&& forall|e: int|
                0 <= e < n && (e == 0 || #[trigger] self.slab_offset(data_offset, e) <= model_len)
                    ==> self.slab_offset(data_offset, e) + self.expert_bytes() <= u64::MAX
        }
    }
}

impl Gguf {
    /// The reads of the expert tensors from number `i` on, in file directory
    /// order, or what is wrong with the first bad one.
    pub open spec fn reads_from(&self, model_len: u64, n: u64, i: int) -> Result<
        Seq<Read>,
        Seq<char>,
    >
        decreases self.tensors@.len() - i,
    {
        if i >= self.tensors@.len() {
            Ok(Seq::empty())
        } else if !self.tensors@[i].streamed() {
            self.reads_from(model_len, n, i + 1)
        } else {
            match self.tensors@[i].slab_reads(self.data_offset, model_len, n) {
                Err(e) => Err(e),
                Ok(v) => match self.reads_from(model_len, n, i + 1) {
                    Err(e) => Err(e),
                    Ok(rest) => Ok(v + rest),
                },
            }
        }
    }

    /// No expert tensor before number `i` is bad.
    pub open spec fn good_before(&self, model_len: u64, n: u64, i: int) -> bool {
        forall|j: int|
            0 <= j < i && (#[trigger] self.tensors@[j]).streamed()
                ==> self.tensors@[j].slab_reads(self.data_offset, model_len, n) is Ok
    }

    /// The positions of the slabs that are looked at fit in 64 bits, up to and
    /// with the first bad tensor.
    pub open spec fn in_range(&self, model_len: u64) -> bool {
        self.expert_count matches Some(n) ==> forall|i: int|
            0 <= i < self.tensors@.len() && (#[trigger] self.tensors@[i]).streamed()
                && self.good_before(model_len, n, i) ==> self.tensors@[i].in_range(
                self.data_offset,
                model_len,
                n,
            )
    }

    /// The reads of all expert slabs, or the complaint.
    pub open spec fn all_reads(&self, model_len: u64) -> Result<Seq<Read>, Seq<char>> {
        match self.expert_count {
            None => Err("missing expert_count"@),
            Some(n) => match self.reads_from(model_len, n, 0) {
                Err(e) => Err(e),
                Ok(v) => if v.len() == 0 {
                    Err("no *_exps.weight tensors found"@)
                } else {
                    Ok(v)
                },
            },
        }
    }
}

/// Where slab number `e` lies, in whole numbers that do not overflow.
fn slab_at(t: &TensorInfo, data_offset: u64, model_len: u64, n: u64, bytes: u64, e: u64) -> (r:
    u64)
    requires
        t.has_experts(n),
        t.row_bytes is Some,
        t.in_range(data_offset, model_len, n),
        bytes == t.expert_bytes(),
        e < n,
        e > 0 ==> t.slab_offset(data_offset, e as int) <= model_len,
    ensures
        r == t.slab_offset(data_offset, e as int),
        r + bytes <= u64::MAX,
{
    assert(t.slab_offset(data_offset, e as int) + t.expert_bytes() <= u64::MAX);
    assert(0 <= e * bytes <= u64::MAX) by (nonlinear_arith)
        requires
            0 <= e,
            0 <= bytes,
            e * bytes <= u64::MAX,
    ;
    data_offset + t.offset + e * bytes
}

/// Appends the reads of one expert tensor.  Gives the complaint where the
/// tensor is bad.
fn push_slabs(
    t: &TensorInfo,
    data_offset: u64,
    model_len: u64,
    n: u64,
    out: &mut Vec<Read>,
) -> (r: Result<(), String>)
    requires
        t.in_range(data_offset, model_len, n),
    ensures
        match r {
            Ok(_) => t.slab_reads(data_offset, model_len, n) matches Ok(v) && final(out)@ == old(
                out,
            )@ + v,
            Err(e) => t.slab_reads(data_offset, model_len, n) == Err::<Seq<Read>, Seq<char>>(e@),
        },
{
    if t.dims.len() != 3 || t.dims[2] != n {
        let mut e = t.name.clone();
        e.append(": unexpected exps dims ");
        push_list(&mut e, &t.dims);
        return Err(e);
    }
    let row = match t.row_bytes {
        None => {
            let mut e = t.name.clone();
            e.append(": unmodeled type ");
            e.append(t.ty.as_str());
            return Err(e);
        },
        Some(row) => row,
    };
    let bytes: u64 = row * t.dims[1];
    let ghost before = out@;
    let ghost want = Seq::new(
        n as nat,
        |e: int|
            Read {
                offset: t.slab_offset(data_offset, e) as u64,
                len: t.expert_bytes() as u64,
            },
    );
    let mut e: u64 = 0;
    assert(want.take(0) =~= Seq::<Read>::empty());
    assert(out@ =~= before + want.take(0));
    while e < n
        invariant
            e <= n,
            t.has_experts(n),
            t.row_bytes is Some,
            t.in_range(data_offset, model_len, n),
            bytes == t.expert_bytes(),
            e > 0 ==> t.slab_offset(data_offset, e as int) <= model_len,
            want == Seq::new(
                n as nat,
                |e: int|
                    Read {
                        offset: t.slab_offset(data_offset, e) as u64,
                        len: t.expert_bytes() as u64,
                    },
            ),
            out@ == before + want.take(e as int),
            t.first_beyond(data_offset, model_len, n, 0) == t.first_beyond(
                data_offset,
                model_len,
                n,
                e as int,
            ),
        decreases n - e,
    {
        let offset = slab_at(t, data_offset, model_len, n, bytes, e);
        if offset + bytes > model_len {
            let mut m = t.name.clone();
            m.append(": expert ");
            push_decimal(&mut m, e);
            m.append(" beyond eof");
            return Err(m);
        }
        out.push(Read { offset, len: bytes });
        assert(want[e as int] == Read { offset, len: bytes });
        assert(want.take(e + 1) =~= want.take(e as int).push(want[e as int]));
        assert(out@ =~= before + want.take(e + 1));
        assert((e + 1) * bytes == e * bytes + bytes) by (nonlinear_arith);
        e = e + 1;
    }
    assert(want.take(n as int) =~= want);
    Ok(())
}

/// Build the universe of per-expert slab reads for every streamed layer of
/// a MoE gguf: for each routed-expert tensor (gate/up/down) of each layer,
/// one Read per expert.  Slab e lives at tensor_base + e * expert_bytes.
pub fn expert_reads(g: &Gguf, model_len: u64) -> (r: Result<Vec<Read>, String>)
    requires
        g.in_range(model_len),
    ensures
        match r {
            Ok(v) => g.all_reads(model_len) == Ok::<Seq<Read>, Seq<char>>(v@),
            Err(e) => g.all_reads(model_len) == Err::<Seq<Read>, Seq<char>>(e@),
        },
{
    let n = match g.expert_count {
        None => {
            let mut e = String::new();
            e.append("missing expert_count");
            assert(e@ =~= "missing expert_count"@);
            return Err(e);
        },
        Some(n) => n,
    };
    let mut out: Vec<Read> = Vec::new();
    let mut i: usize = 0;
    let ghost whole = g.reads_from(model_len, n, 0);
    assert(match whole {
        Ok(rest) => out@ + rest =~= rest,
        Err(e) => true,
    });
    while i < g.tensors.len()
        invariant
            i <= g.tensors.len(),
            g.expert_count == Some(n),
            g.in_range(model_len),
            g.good_before(model_len, n, i as int),
            whole == g.reads_from(model_len, n, 0),
            match g.reads_from(model_len, n, i as int) {
                Ok(rest) => whole == Ok::<Seq<Read>, Seq<char>>(out@ + rest),
                Err(e) => whole == Err::<Seq<Read>, Seq<char>>(e),
            },
        decreases g.tensors.len() - i,
    {
        let t = &g.tensors[i];
        if ends_with(t.name.as_str(), "_exps.weight") {
            let ghost before = out@;
            match push_slabs(t, g.data_offset, model_len, n, &mut out) {
                Err(e) => {
                    return Err(e);
                },
                Ok(_) => {},
            }
            proof {
                let v = t.slab_reads(g.data_offset, model_len, n)->Ok_0;
                if let Ok(rest) = g.reads_from(model_len, n, i + 1) {
                    assert(before + (v + rest) =~= (before + v) + rest);
                }
            }
        }
        i = i + 1;
    }
    assert(out@ + Seq::<Read>::empty() =~= out@);
    if out.len() == 0 {
        let mut e = String::new();
        e.append("no *_exps.weight tensors found");
        assert(e@ =~= "no *_exps.weight tensors found"@);
        return Err(e);
    }
    Ok(out)
}

/// Every read that is planned lies in the file.
pub proof fn reads_stay_in_file(g: &Gguf, model_len: u64)
    requires
        g.in_range(model_len),
    ensures
        g.all_reads(model_len) matches Ok(v) ==> forall|k: int|
            0 <= k < v.len() ==> (#[trigger] v[k]).offset + v[k].len <= model_len,
{
    if let Some(n) = g.expert_count {
        lemma_reads_from_in_file(g, model_len, n, 0);
    }
}

proof fn lemma_reads_from_in_file(g: &Gguf, model_len: u64, n: u64, i: int)
    requires
        g.in_range(model_len),
        g.expert_count == Some(n),
        0 <= i,
        g.good_before(model_len, n, i),
    ensures
        g.reads_from(model_len, n, i) matches Ok(v) ==> forall|k: int|
            0 <= k < v.len() ==> (#[trigger] v[k]).offset + v[k].len <= model_len,
    decreases g.tensors@.len() - i,
{
    if i < g.tensors@.len() {
        let t = g.tensors@[i];
        if !t.streamed() {
            lemma_reads_from_in_file(g, model_len, n, i + 1);
        } else if let Ok(v) = t.slab_reads(g.data_offset, model_len, n) {
            lemma_reads_from_in_file(g, model_len, n, i + 1);
            assert forall|k: int| 0 <= k < v.len() implies (#[trigger] v[k]).offset + v[k].len
                <= model_len by {
                lemma_none_beyond(&t, g.data_offset, model_len, n, 0, k);
                assert(0 <= t.expert_bytes()) by (nonlinear_arith)
                    requires
                        t.expert_bytes() == t.row_bytes.unwrap() * t.dims@[1],
                ;
                assert(0 <= k * t.expert_bytes()) by (nonlinear_arith)
                    requires
                        0 <= k,
                        0 <= t.expert_bytes(),
                ;
            }
        }
    }
}

proof fn lemma_none_beyond(t: &TensorInfo, data_offset: u64, model_len: u64, n: u64, e: int, k: int)
    requires
        t.first_beyond(data_offset, model_len, n, e) is None,
        e <= k < n,
    ensures
        t.slab_offset(data_offset, k) + t.expert_bytes() <= model_len,
    decreases n - e,
{
    if e < k {
        lemma_none_beyond(t, data_offset, model_len, n, e + 1, k);
    }
}

/// The number of expert tensors from number `i` on.
pub open spec fn streamed_from(g: &Gguf, i: int) -> nat
    decreases g.tensors@.len() - i,
{
    if i >= g.tensors@.len() {
        0
    } else if g.tensors@[i].streamed() {
        1 + streamed_from(g, i + 1)
    } else {
        streamed_from(g, i + 1)
    }
}

/// A plan holds one read per expert of each expert tensor.
pub proof fn one_read_per_expert(g: &Gguf, model_len: u64)
    ensures
        g.all_reads(model_len) matches Ok(v) ==> v.len() == streamed_from(g, 0)
            * g.expert_count.unwrap(),
{
    if let Some(n) = g.expert_count {
        lemma_read_count(g, model_len, n, 0);
    }
}

proof fn lemma_read_count(g: &Gguf, model_len: u64, n: u64, i: int)
    requires
        0 <= i,
    ensures
        g.reads_from(model_len, n, i) matches Ok(v) ==> v.len() == streamed_from(g, i) * n,
    decreases g.tensors@.len() - i,
{
    if i < g.tensors@.len() {
        lemma_read_count(g, model_len, n, i + 1);
        let k = streamed_from(g, i + 1);
        assert((1 + k) * n == k * n + n) by (nonlinear_arith);
    }
}

/// A name that ends in a text, whatever stands before it.
pub open spec fn ends_in(name: Seq<char>, end: Seq<char>) -> bool {
    exists|head: Seq<char>| name == #[trigger] (head + end)
}

/// The tensor holds routed experts: `n` slabs of rows whose bytes are known.
pub open spec fn holds_slabs(t: TensorInfo, n: u64) -> bool {
    t.dims@.len() == 3 && t.dims@[2] == n && t.row_bytes is Some
}

/// Slab `e` of a tensor: the rows of one expert, behind those of the experts
/// before it.
pub open spec fn is_slab(g: &Gguf, t: TensorInfo, e: int, r: Read) -> bool {
    let bytes = t.row_bytes->Some_0 * t.dims@[1];
    r.len == bytes && r.offset == g.data_offset + t.offset + e * bytes
}

/// The numbers of the tensors whose names end in `_exps.weight`, in directory
/// order.
pub open spec fn lists_experts(g: &Gguf, pick: Seq<int>) -> bool {
    &&& forall|a: int, b: int| 0 <= a < b < pick.len() ==> pick[a] < pick[b]
    &&& forall|a: int|
        0 <= a < pick.len() ==> 0 <= #[trigger] pick[a] < g.tensors@.len() && ends_in(
            g.tensors@[pick[a]].name@,
            "_exps.weight"@,
        )
    &&& forall|i: int|
        0 <= i < g.tensors@.len() && ends_in((#[trigger] g.tensors@[i]).name@, "_exps.weight"@)
            ==> pick.contains(i)
}

/// The place of slab `e` of the `j`-th tensor among the reads.
pub open spec fn nth_slab(n: int, j: int, e: int) -> int {
    j * n + e
}

/// The reads hold, for each of the tensors in turn, each of its slabs in turn, and
/// nothing else.
pub open spec fn reads_slabs(g: &Gguf, n: u64, pick: Seq<int>, v: Seq<Read>) -> bool {
    &&& v.len() == pick.len() * n
    &&& forall|j: int, e: int|
        0 <= j < pick.len() && 0 <= e < n ==> is_slab(
            g,
            g.tensors@[pick[j]],
            e,
            v[#[trigger] nth_slab(n as int, j, e)],
        )
}

/// Every slab of an expert tensor ends in the file.
pub open spec fn inside(g: &Gguf, t: TensorInfo, n: u64, model_len: u64) -> bool {
    forall|e: int|
        0 <= e < n ==> g.data_offset + t.offset + #[trigger] (e * (t.row_bytes->Some_0
            * t.dims@[1])) + t.row_bytes->Some_0 * t.dims@[1] <= model_len
}

/// The expert tensors from number `i` on.
spec fn picks_from(g: &Gguf, i: int) -> Seq<int>
    decreases g.tensors@.len() - i,
{
    if i >= g.tensors@.len() {
        Seq::empty()
    } else if ends_in(g.tensors@[i].name@, "_exps.weight"@) {
        seq![i] + picks_from(g, i + 1)
    } else {
        picks_from(g, i + 1)
    }
}

proof fn lemma_ends(s: Seq<char>, end: Seq<char>)
    ensures
        is_tail(s, end) <==> ends_in(s, end),
{
    if is_tail(s, end) {
        let head = s.take(s.len() - end.len());
        assert(s =~= head + end);
    }
    if ends_in(s, end) {
        let head = choose|head: Seq<char>| s == #[trigger] (head + end);
        assert(s.skip(s.len() - end.len()) =~= end);
    }
}

proof fn lemma_picks(g: &Gguf, i: int)
    requires
        0 <= i,
    ensures
        ({
            let p = picks_from(g, i);
            &&& forall|a: int, b: int| 0 <= a < b < p.len() ==> p[a] < p[b]
            &&& forall|a: int|
                0 <= a < p.len() ==> i <= #[trigger] p[a] < g.tensors@.len() && ends_in(
                    g.tensors@[p[a]].name@,
                    "_exps.weight"@,
                )
            &&& forall|k: int|
                i <= k < g.tensors@.len() && ends_in(
                    (#[trigger] g.tensors@[k]).name@,
                    "_exps.weight"@,
                ) ==> p.contains(k)
        }),
    decreases g.tensors@.len() - i,
{
    if i < g.tensors@.len() {
        lemma_picks(g, i + 1);
        let p = picks_from(g, i);
        let q = picks_from(g, i + 1);
        if ends_in(g.tensors@[i].name@, "_exps.weight"@) {
            assert(p[0] == i);
            assert forall|a: int| 1 <= a < p.len() implies #[trigger] p[a] == q[a - 1] by {}
            assert forall|k: int|
                i <= k < g.tensors@.len() && ends_in(
                    (#[trigger] g.tensors@[k]).name@,
                    "_exps.weight"@,
                ) implies p.contains(k) by {
                if k > i {
                    let a = choose|a: int| 0 <= a < q.len() && q[a] == k;
                    assert(p[a + 1] == k);
                }
            }
        }
    }
}

proof fn lemma_slabs(g: &Gguf, t: TensorInfo, model_len: u64, n: u64)
    requires
        t.in_range(g.data_offset, model_len, n),
    ensures
        t.slab_reads(g.data_offset, model_len, n) is Ok <==> holds_slabs(t, n) && inside(
            g,
            t,
            n,
            model_len,
        ),
        t.slab_reads(g.data_offset, model_len, n) matches Ok(v) ==> v.len() == n && forall|e: int|
            0 <= e < n ==> is_slab(g, t, e, #[trigger] v[e]),
{
    if holds_slabs(t, n) {
        let bytes = t.row_bytes->Some_0 * t.dims@[1];
        assert(0 <= bytes) by (nonlinear_arith)
            requires
                bytes == t.row_bytes->Some_0 * t.dims@[1],
        ;
        if t.first_beyond(g.data_offset, model_len, n, 0) is None {
            assert forall|e: int| 0 <= e < n implies t.slab_offset(g.data_offset, e) + bytes
                <= model_len && 0 <= #[trigger] (e * bytes) by {
                lemma_none_beyond(&t, g.data_offset, model_len, n, 0, e);
                assert(0 <= e * bytes) by (nonlinear_arith)
                    requires
                        0 <= e,
                        0 <= bytes,
                ;
            }
            let v = t.slab_reads(g.data_offset, model_len, n)->Ok_0;
            assert forall|e: int| 0 <= e < n implies is_slab(g, t, e, #[trigger] v[e]) by {
                assert(0 <= e * bytes);
            }
        } else {
            lemma_some_beyond(&t, g.data_offset, model_len, n, 0);
            let e = t.first_beyond(g.data_offset, model_len, n, 0)->Some_0;
            assert(e * (t.row_bytes->Some_0 * t.dims@[1]) == e * bytes);
        }
    }
}

proof fn lemma_some_beyond(t: &TensorInfo, data_offset: u64, model_len: u64, n: u64, e: int)
    requires
        0 <= e,
        t.first_beyond(data_offset, model_len, n, e) is Some,
    ensures
        ({
            let k = t.first_beyond(data_offset, model_len, n, e)->Some_0;
            e <= k < n && t.slab_offset(data_offset, k) + t.expert_bytes() > model_len
        }),
    decreases n - e,
{
    if e < n && t.slab_offset(data_offset, e) + t.expert_bytes() <= model_len {
        lemma_some_beyond(t, data_offset, model_len, n, e + 1);
    }
}

proof fn lemma_reads_from(g: &Gguf, model_len: u64, n: u64, i: int)
    requires
        g.in_range(model_len),
        g.expert_count == Some(n),
        0 <= i,
        g.good_before(model_len, n, i),
    ensures
        g.reads_from(model_len, n, i) is Ok <==> forall|k: int|
            i <= k < g.tensors@.len() && ends_in(
                (#[trigger] g.tensors@[k]).name@,
                "_exps.weight"@,
            ) ==> holds_slabs(g.tensors@[k], n) && inside(g, g.tensors@[k], n, model_len),
        g.reads_from(model_len, n, i) matches Ok(v) ==> reads_slabs(g, n, picks_from(g, i), v),
    decreases g.tensors@.len() - i,
{
    if i < g.tensors@.len() {
        let t = g.tensors@[i];
        lemma_ends(t.name@, "_exps.weight"@);
        if !t.streamed() {
            lemma_reads_from(g, model_len, n, i + 1);
        } else {
            lemma_slabs(g, t, model_len, n);
            if let Ok(mine) = t.slab_reads(g.data_offset, model_len, n) {
                lemma_reads_from(g, model_len, n, i + 1);
                if let Ok(rest) = g.reads_from(model_len, n, i + 1) {
                    let v = mine + rest;
                    let p = picks_from(g, i);
                    let q = picks_from(g, i + 1);
                    assert((1 + q.len()) * n == n + q.len() * n) by (nonlinear_arith);
                    assert forall|j: int, e: int| 0 <= j < p.len() && 0 <= e < n implies is_slab(
                        g,
                        g.tensors@[p[j]],
                        e,
                        v[#[trigger] nth_slab(n as int, j, e)],
                    ) by {
                        if j == 0 {
                            assert(v[e] == mine[e]);
                        } else {
                            assert(p[j] == q[j - 1]);
                            assert(j * n + e == n + ((j - 1) * n + e)) by (nonlinear_arith);
                            assert(0 <= (j - 1) * n && (j - 1) * n + e < q.len() * n)
                                by (nonlinear_arith)
                                requires
                                    1 <= j,
                                    j - 1 < q.len(),
                                    0 <= e < n,
                            ;
                            assert(v[nth_slab(n as int, j, e)] == rest[nth_slab(
                                n as int,
                                j - 1,
                                e,
                            )]);
                        }
                    }
                }
            }
        }
    } else {
        assert(picks_from(g, i).len() * n == 0) by (nonlinear_arith)
            requires
                picks_from(g, i).len() == 0,
        ;
    }
}

/// The reads of a model are the slabs of every tensor whose name ends in
/// `_exps.weight`, whatever stands before that ending, tensor by tensor and expert
/// by expert; a model with the number of its experts and such a tensor is refused
/// exactly where one of them has other dims, an unknown row, or a slab past the
/// end of the file.
pub proof fn every_expert_is_read(g: &Gguf, model_len: u64)
    requires
        g.in_range(model_len),
    ensures
        g.all_reads(model_len) is Ok <==> {
            &&& g.expert_count matches Some(n) && n > 0
            &&& exists|i: int|
                0 <= i < g.tensors@.len() && ends_in(
                    (#[trigger] g.tensors@[i]).name@,
                    "_exps.weight"@,
                )
            &&& forall|i: int|
                0 <= i < g.tensors@.len() && ends_in(
                    (#[trigger] g.tensors@[i]).name@,
                    "_exps.weight"@,
                ) ==> holds_slabs(g.tensors@[i], g.expert_count->Some_0) && inside(
                    g,
                    g.tensors@[i],
                    g.expert_count->Some_0,
                    model_len,
                )
        },
        g.all_reads(model_len) matches Ok(v) ==> exists|pick: Seq<int>| #[trigger]
            lists_experts(g, pick) && reads_slabs(g, g.expert_count->Some_0, pick, v),
{
    if let Some(n) = g.expert_count {
        lemma_reads_from(g, model_len, n, 0);
        lemma_picks(g, 0);
        let p = picks_from(g, 0);
        assert(lists_experts(g, p));
        if let Ok(v) = g.reads_from(model_len, n, 0) {
            if p.len() > 0 && n > 0 {
                assert(v.len() > 0) by (nonlinear_arith)
                    requires
                        v.len() == p.len() * n,
                        p.len() > 0,
                        n > 0,
                ;
                assert(ends_in(g.tensors@[p[0]].name@, "_exps.weight"@));
            } else {
                assert(v.len() == 0) by (nonlinear_arith)
                    requires
                        v.len() == p.len() * n,
                        p.len() == 0 || n == 0,
                ;
                if n > 0 {
                    assert forall|i: int| 0 <= i < g.tensors@.len() implies !ends_in(
                        (#[trigger] g.tensors@[i]).name@,
                        "_exps.weight"@,
                    ) by {
                        if ends_in(g.tensors@[i].name@, "_exps.weight"@) {
                            assert(p.contains(i));
                        }
                    }
                }
            }
        }
    }
}

} // verus!
