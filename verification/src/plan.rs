//! The plan of a run: which byte ranges are read, and its text form.

use crate::text::{
    after_line, blank, chars_of, decimal, decimal_reads_back, first_line, is_white,
    lemma_decimal_digits, lemma_line_len, lemma_line_len_is, lemma_word_len_is,
    lemma_words_end_white, lemma_words_skip_white, line_len, lines, next_line, next_word, parse_u64,
    parsed_u64, push_decimal, words,
};
use vstd::prelude::*;

verus! {

/// One disk read: an expert tensor slab at an absolute file offset.
#[derive(Debug, Clone, Copy, PartialEq, Eq, Structural)]
pub struct Read {
    pub offset: u64,
    pub len: u64,
}

/// The line of one read.
pub open spec fn read_text(r: Read) -> Seq<char> {
    decimal(r.offset as nat) + seq![' '] + decimal(r.len as nat)
}

/// The text of a plan: one line for each read, in order.
pub open spec fn plan_text(reads: Seq<Read>) -> Seq<char>
    decreases reads.len(),
{
    if reads.len() == 0 {
        Seq::empty()
    } else {
        plan_text(reads.drop_last()) + read_text(reads.last()) + seq!['\n']
    }
}

/// Plan file: "offset len\n" per read.
pub fn plan_to_string(reads: &[Read]) -> (s: String)
    ensures
        s@ == plan_text(reads@),
{
    let mut s = String::new();
    assert(reads@.take(0) =~= Seq::<Read>::empty());
    for i in 0..reads.len()
        invariant
            s@ == plan_text(reads@.take(i as int)),
    {
        let r = reads[i];
        let ghost before = s@;
        push_decimal(&mut s, r.offset);
        proof {
            reveal_strlit(" ");
            reveal_strlit("\n");
        }
        s.append(" ");
        push_decimal(&mut s, r.len);
        s.append("\n");
        assert(s@ =~= before + read_text(r) + seq!['\n']);
        assert(reads@.take(i + 1).drop_last() =~= reads@.take(i as int));
    }
    assert(reads@.take(reads@.len() as int) =~= reads@);
    s
}

/// The read that a line states in its first two words; what follows them is
/// not looked at.
pub open spec fn read_of_line(l: Seq<char>) -> Option<Read> {
    let w = words(l);
    if w.len() < 2 {
        None
    } else {
        match (parsed_u64(w[0]), parsed_u64(w[1])) {
            (Some(offset), Some(len)) => Some(Read { offset, len }),
            _ => None,
        }
    }
}

/// What is said of a line that states no read.
pub open spec fn bad_line(l: Seq<char>) -> Seq<char> {
    "bad plan line: "@ + l
}

/// The reads of the lines that are not blank, in order, or the complaint about
/// the first of them that states none.
pub open spec fn reads_of_lines(ls: Seq<Seq<char>>) -> Result<Seq<Read>, Seq<char>>
    decreases ls.len(),
{
    if ls.len() == 0 {
        Ok(Seq::empty())
    } else if blank(ls[0]) {
        reads_of_lines(ls.skip(1))
    } else {
        match read_of_line(ls[0]) {
            None => Err(bad_line(ls[0])),
            Some(r) => match reads_of_lines(ls.skip(1)) {
                Ok(rest) => Ok(seq![r] + rest),
                Err(e) => Err(e),
            },
        }
    }
}

/// Reads a plan file back.
pub fn plan_from_str(s: &str) -> (r: Result<Vec<Read>, String>)
    ensures
        match r {
            Ok(v) => reads_of_lines(lines(s@)) == Ok::<Seq<Read>, Seq<char>>(v@),
            Err(e) => reads_of_lines(lines(s@)) == Err::<Seq<Read>, Seq<char>>(e@),
        },
{
    let cs = chars_of(s);
    let n = cs.len();
    let mut out: Vec<Read> = Vec::new();
    let mut pos: usize = 0;
    let ghost whole = reads_of_lines(lines(s@));
    assert(cs@.skip(0) =~= s@);
    proof {
        lemma_then_empty(whole);
    }
    while pos < n
        invariant
            n == cs.len(),
            pos <= n,
            cs@ == s@,
            whole == reads_of_lines(lines(s@)),
            whole == reads_then(out@, reads_of_lines(lines(cs@.skip(pos as int)))),
        decreases n - pos,
    {
        let ghost rest = cs@.skip(pos as int);
        let (end, next) = next_line(&cs, pos);
        let ghost l = cs@.subrange(pos as int, end as int);
        assert(lines(rest)[0] == l);
        assert(lines(rest).skip(1) =~= lines(cs@.skip(next as int)));
        let (a0, b0) = next_word(&cs, pos, end);
        if a0 == b0 {
            assert(blank(l));
        } else {
            assert(!blank(l)) by {
                lemma_word_not_blank(cs@, pos as int, a0 as int, b0 as int, end as int);
            }
            let (a1, b1) = next_word(&cs, b0, end);
            let offset = parse_u64(&cs, a0, b0);
            let ghost w = words(l);
            assert(w[0] == cs@.subrange(a0 as int, b0 as int));
            if a1 < b1 {
                assert(w[1] == cs@.subrange(a1 as int, b1 as int));
            }
            let len = if a1 < b1 {
                parse_u64(&cs, a1, b1)
            } else {
                None
            };
            match (offset, len) {
                (Some(offset), Some(len)) => {
                    let ghost before = out@;
                    out.push(Read { offset, len });
                    proof {
                        lemma_then_push(
                            before,
                            Read { offset, len },
                            reads_of_lines(lines(cs@.skip(next as int))),
                        );
                    }
                },
                _ => {
                    let mut e = String::new();
                    e.append("bad plan line: ");
                    e.append(s.substring_char(pos, end));
                    assert(e@ =~= bad_line(l));
                    return Err(e);
                },
            }
        }
        pos = next;
    }
    assert(cs@.skip(n as int).len() == 0);
    assert(out@ + Seq::<Read>::empty() =~= out@);
    Ok(out)
}

/// The reads in hand, followed by what the rest of the lines gives.
spec fn reads_then(
    done: Seq<Read>,
    rest: Result<Seq<Read>, Seq<char>>,
) -> Result<Seq<Read>, Seq<char>> {
    match rest {
        Ok(v) => Ok(done + v),
        Err(e) => Err(e),
    }
}

proof fn lemma_then_empty(r: Result<Seq<Read>, Seq<char>>)
    ensures
        reads_then(Seq::empty(), r) == r,
{
    if let Ok(v) = r {
        assert(Seq::<Read>::empty() + v =~= v);
    }
}

proof fn lemma_then_push(done: Seq<Read>, r: Read, rest: Result<Seq<Read>, Seq<char>>)
    ensures
        reads_then(done.push(r), rest) == reads_then(
            done,
            match rest {
                Ok(v) => Ok(seq![r] + v),
                Err(e) => Err(e),
            },
        ),
{
    if let Ok(v) = rest {
        assert(done.push(r) + v =~= done + (seq![r] + v));
    }
}

proof fn lemma_word_not_blank(cs: Seq<char>, from: int, a: int, b: int, to: int)
    requires
        0 <= from <= a < b <= to <= cs.len(),
        words(cs.subrange(from, to)) == seq![cs.subrange(a, b)] + words(cs.subrange(b, to)),
    ensures
        !blank(cs.subrange(from, to)),
{
    let l = cs.subrange(from, to);
    if blank(l) {
        assert(l.take(l.len() as int) =~= l);
        lemma_words_skip_white(l, l.len() as int);
        assert(l.skip(l.len() as int) =~= Seq::<char>::empty());
        assert(words(l).len() == 0);
    }
}

/// Writing a plan and reading it back gives the plan.
pub proof fn plan_reads_back(reads: Seq<Read>)
    ensures
        reads_of_lines(lines(plan_text(reads))) == Ok::<Seq<Read>, Seq<char>>(reads),
    decreases reads.len(),
{
    if reads.len() == 0 {
        assert(reads =~= Seq::<Read>::empty());
    } else {
        let r = reads[0];
        let rest = reads.skip(1);
        lemma_plan_text_first(reads);
        plan_reads_back(rest);
        lemma_read_text(r);
        lemma_lines_first(read_text(r), plan_text(rest));
        assert(seq![r] + rest =~= reads);
    }
}

/// A plan, a line feed and another plan: the reads of the first, and then what
/// the second gives.
pub proof fn plans_join(a: Seq<char>, b: Seq<char>)
    requires
        reads_of_lines(lines(a)) is Ok,
    ensures
        reads_of_lines(lines(a + seq!['\n'] + b)) == (match reads_of_lines(lines(b)) {
            Ok(y) => Ok::<Seq<Read>, Seq<char>>(reads_of_lines(lines(a))->Ok_0 + y),
            Err(e) => Err(e),
        }),
    decreases a.len(),
{
    let text = a + seq!['\n'] + b;
    let n = line_len(a);
    lemma_line_len(a);
    assert forall|i: int| 0 <= i < n implies #[trigger] text[i] != '\n' by {
        assert(text[i] == a[i]);
    }
    if n < a.len() {
        assert(text[n as int] == a[n as int]);
    }
    lemma_line_len_is(text, n);
    let first = first_line(text);
    let rest = after_line(text);
    assert(lines(text).skip(1) =~= lines(rest));
    if a.len() == 0 {
        assert(rest =~= b);
        if let Ok(y) = reads_of_lines(lines(b)) {
            assert(Seq::<Read>::empty() + y =~= y);
        }
    } else {
        let more = after_line(a);
        assert(lines(a).skip(1) =~= lines(more));
        if n < a.len() {
            assert(first =~= first_line(a));
            assert(rest =~= more + seq!['\n'] + b);
            plans_join(more, b);
        } else {
            assert(first_line(a) =~= a);
            assert(rest =~= b);
            assert(lines(more) =~= Seq::<Seq<char>>::empty());
            if a.last() == '\r' {
                assert(first =~= a.drop_last());
                assert(first.push('\r') =~= a);
                lemma_words_end_white(first, '\r');
                if blank(first) {
                    assert forall|i: int| 0 <= i < a.len() implies is_white(#[trigger] a[i]) by {
                        if i < first.len() {
                            assert(first[i] == a[i]);
                        }
                    }
                }
                if blank(a) {
                    assert forall|i: int| 0 <= i < first.len() implies is_white(
                        #[trigger] first[i],
                    ) by {
                        assert(first[i] == a[i]);
                    }
                }
            } else {
                assert(first =~= a);
            }
            if let Ok(y) = reads_of_lines(lines(b)) {
                assert(Seq::<Read>::empty() + y =~= y);
            }
        }
        if !blank(first) {
            if let (Ok(x), Ok(y)) = (reads_of_lines(lines(more)), reads_of_lines(lines(b))) {
                let r = read_of_line(first)->Some_0;
                assert(seq![r] + x + y =~= seq![r] + (x + y));
            }
        }
    }
}

/// A line without line feed or carriage return, a line feed, and a text: the
/// lines are that line and the lines of the text.
proof fn lemma_lines_first(l: Seq<char>, rest: Seq<char>)
    requires
        l.len() > 0,
        l.last() != '\r',
        forall|i: int| 0 <= i < l.len() ==> #[trigger] l[i] != '\n',
    ensures
        ({
            let text = l + seq!['\n'] + rest;
            &&& lines(text).len() > 0
            &&& lines(text)[0] == l
            &&& lines(text).skip(1) == lines(rest)
        }),
{
    let text = l + seq!['\n'] + rest;
    assert forall|i: int| 0 <= i < l.len() implies #[trigger] text[i] != '\n' by {
        assert(text[i] == l[i]);
    }
    assert(text[l.len() as int] == '\n');
    lemma_line_len_is(text, l.len());
    assert(text[l.len() - 1] == l.last());
    assert(first_line(text) =~= l);
    assert(after_line(text) =~= rest);
    assert(lines(text) == seq![l] + lines(rest));
    assert(lines(text).skip(1) =~= lines(rest));
}

/// The text of a plan starts with the line of its first read.
proof fn lemma_plan_text_first(reads: Seq<Read>)
    requires
        reads.len() > 0,
    ensures
        plan_text(reads) == read_text(reads[0]) + seq!['\n'] + plan_text(reads.skip(1)),
    decreases reads.len(),
{
    if reads.len() == 1 {
        assert(reads.drop_last() =~= Seq::<Read>::empty());
        assert(reads.skip(1) =~= Seq::<Read>::empty());
        assert(plan_text(reads.drop_last()) =~= Seq::<char>::empty());
        assert(plan_text(reads) =~= read_text(reads[0]) + seq!['\n'] + plan_text(reads.skip(1)));
    } else {
        let front = reads.drop_last();
        lemma_plan_text_first(front);
        assert(front.skip(1) =~= reads.skip(1).drop_last());
        assert(plan_text(reads) =~= read_text(reads[0]) + seq!['\n'] + plan_text(reads.skip(1)));
    }
}

proof fn lemma_read_text(r: Read)
    ensures
        read_of_line(read_text(r)) == Some(r),
        !blank(read_text(r)),
        forall|i: int| 0 <= i < read_text(r).len() ==> #[trigger] read_text(r)[i] != '\n',
        read_text(r).last() != '\r',
        read_text(r).len() > 0,
{
    let a = decimal(r.offset as nat);
    let b = decimal(r.len as nat);
    let l = read_text(r);
    lemma_decimal_digits(r.offset as nat);
    lemma_decimal_digits(r.len as nat);
    decimal_reads_back(r.offset);
    decimal_reads_back(r.len);
    assert forall|i: int| 0 <= i < l.len() implies #[trigger] l[i] != '\n' by {
        if i < a.len() {
            assert(l[i] == a[i]);
        } else if i > a.len() {
            assert(l[i] == b[i - a.len() - 1]);
        }
    }
    assert(l.last() == b.last());
    assert(l[0] == a[0]);
    lemma_word_len_is(l, a.len());
    assert(l.take(a.len() as int) =~= a);
    let t = l.skip(a.len() as int);
    assert(t[0] == ' ');
    assert(t.skip(1) =~= b);
    lemma_word_len_is(b, b.len());
    assert(b.take(b.len() as int) =~= b);
    assert(b.skip(b.len() as int) =~= Seq::<char>::empty());
    assert(words(b.skip(b.len() as int)) =~= Seq::<Seq<char>>::empty());
    assert(words(b) =~= seq![b]);
    assert(words(t) == words(b));
    assert(words(l) =~= seq![a, b]);
}

} // verus!
