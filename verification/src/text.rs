//! Decimal numbers, white space and lines, on characters.

use vstd::prelude::*;

verus! {

/// The character of a decimal digit.
pub open spec fn digit_char(d: nat) -> char {
    if d == 0 {
        '0'
    } else if d == 1 {
        '1'
    } else if d == 2 {
        '2'
    } else if d == 3 {
        '3'
    } else if d == 4 {
        '4'
    } else if d == 5 {
        '5'
    } else if d == 6 {
        '6'
    } else if d == 7 {
        '7'
    } else if d == 8 {
        '8'
    } else {
        '9'
    }
}

/// The decimal digits of `n`, without leading zeros.
pub open spec fn decimal(n: nat) -> Seq<char>
    decreases n,
{
    if n < 10 {
        seq![digit_char(n)]
    } else {
        decimal(n / 10).push(digit_char(n % 10))
    }
}

/// Appends the decimal digits of `n`.
pub fn push_decimal(out: &mut String, n: u64)
    ensures
        final(out)@ == old(out)@ + decimal(n as nat),
    decreases n,
{
    if n >= 10 {
        push_decimal(out, n / 10);
    }
    let ghost before = out@;
    let d: u64 = n % 10;
    proof {
        reveal_strlit("0");
        reveal_strlit("1");
        reveal_strlit("2");
        reveal_strlit("3");
        reveal_strlit("4");
        reveal_strlit("5");
        reveal_strlit("6");
        reveal_strlit("7");
        reveal_strlit("8");
        reveal_strlit("9");
    }
    if d == 0 {
        out.append("0");
    } else if d == 1 {
        out.append("1");
    } else if d == 2 {
        out.append("2");
    } else if d == 3 {
        out.append("3");
    } else if d == 4 {
        out.append("4");
    } else if d == 5 {
        out.append("5");
    } else if d == 6 {
        out.append("6");
    } else if d == 7 {
        out.append("7");
    } else if d == 8 {
        out.append("8");
    } else {
        out.append("9");
    }
    assert(out@ =~= before.push(digit_char(d as nat)));
    assert(out@ =~= old(out)@ + decimal(n as nat));
}

/// The characters of a string, one by one.
pub fn chars_of(s: &str) -> (cs: Vec<char>)
    ensures
        cs@ == s@,
{
    let mut cs: Vec<char> = Vec::new();
    for c in it: s.chars()
        invariant
            it.seq() == s@,
            cs@ == it.seq().take(it.index()),
    {
        cs.push(c);
    }
    cs
}

/// The value of a decimal digit.
pub open spec fn digit_value(c: char) -> Option<nat> {
    if '0' <= c <= '9' {
        Some((c as int - '0' as int) as nat)
    } else {
        None
    }
}

/// The value of a string of decimal digits; of the empty string, zero.
pub open spec fn digits_value(s: Seq<char>) -> Option<nat>
    decreases s.len(),
{
    if s.len() == 0 {
        Some(0)
    } else {
        match (digits_value(s.drop_last()), digit_value(s.last())) {
            (Some(v), Some(d)) => Some(10 * v + d),
            _ => None,
        }
    }
}

/// What a word says as an unsigned 64-bit number: one or more decimal digits,
/// after at most one plus sign, whose value fits.
pub open spec fn parsed_u64(w: Seq<char>) -> Option<u64> {
    let body = if w.len() > 0 && w[0] == '+' {
        w.skip(1)
    } else {
        w
    };
    if body.len() == 0 {
        None
    } else {
        match digits_value(body) {
            Some(v) => if v <= u64::MAX {
                Some(v as u64)
            } else {
                None
            },
            None => None,
        }
    }
}

/// A string whose first digits are already too large, or no digits at all,
/// does not become a number by more digits.
proof fn lemma_bad_prefix(s: Seq<char>, k: int)
    requires
        0 <= k <= s.len(),
    ensures
        digits_value(s.take(k)) is None ==> digits_value(s) is None,
        digits_value(s.take(k)) matches Some(v) ==> (digits_value(s) matches Some(w) ==> v <= w),
    decreases s.len() - k,
{
    if k < s.len() {
        lemma_bad_prefix(s, k + 1);
        assert(s.take(k + 1).drop_last() =~= s.take(k));
    } else {
        assert(s.take(k) =~= s);
    }
}

/// The number that the characters from `from` up to `to` spell.
pub fn parse_u64(cs: &Vec<char>, from: usize, to: usize) -> (r: Option<u64>)
    requires
        from <= to <= cs.len(),
    ensures
        r == parsed_u64(cs@.subrange(from as int, to as int)),
{
    let ghost w = cs@.subrange(from as int, to as int);
    let start: usize = if from < to && cs[from] == '+' {
        from + 1
    } else {
        from
    };
    let ghost body = cs@.subrange(start as int, to as int);
    proof {
        if w.len() > 0 && w[0] == '+' {
            assert(w.skip(1) =~= body);
        } else {
            assert(w =~= body);
        }
    }
    if start == to {
        return None;
    }
    let mut v: u64 = 0;
    let mut i: usize = start;
    assert(body.take(0) =~= Seq::<char>::empty());
    while i < to
        invariant
            start <= i <= to <= cs.len(),
            start < to,
            from <= to,
            w == cs@.subrange(from as int, to as int),
            body == cs@.subrange(start as int, to as int),
            parsed_u64(w) == (match digits_value(body) {
                Some(x) => if x <= u64::MAX {
                    Some(x as u64)
                } else {
                    None
                },
                None => None,
            }),
            digits_value(body.take(i - start)) == Some(v as nat),
        decreases to - i,
    {
        let c = cs[i];
        assert(body.take(i - start + 1).drop_last() =~= body.take(i - start));
        assert(body.take(i - start + 1).last() == c);
        proof {
            lemma_bad_prefix(body, i - start + 1);
        }
        if c < '0' || c > '9' {
            return None;
        }
        let d: u64 = (c as u64) - ('0' as u64);
        if v > u64::MAX / 10 || v * 10 > u64::MAX - d {
            return None;
        }
        v = v * 10 + d;
        i = i + 1;
    }
    assert(body.take(to - start) =~= body);
    Some(v)
}

/// Printing a number and reading it back gives the number.
pub proof fn decimal_reads_back(n: u64)
    ensures
        parsed_u64(decimal(n as nat)) == Some(n),
{
    lemma_decimal_digits(n as nat);
}

pub(crate) proof fn lemma_decimal_digits(n: nat)
    ensures
        decimal(n).len() > 0,
        digits_value(decimal(n)) == Some(n),
        forall|i: int| 0 <= i < decimal(n).len() ==> '0' <= #[trigger] decimal(n)[i] <= '9',
    decreases n,
{
    assert(digit_value(digit_char(n % 10)) == Some(n % 10));
    assert(decimal(n).last() == digit_char(n % 10));
    if n < 10 {
        assert(decimal(n).drop_last() =~= Seq::<char>::empty());
        assert(digits_value(Seq::<char>::empty()) == Some(0nat));
    } else {
        lemma_decimal_digits(n / 10);
        assert(decimal(n).drop_last() =~= decimal(n / 10));
    }
}

/// The white space characters of Unicode.
pub open spec fn is_white(c: char) -> bool {
    let u = c as int;
    ||| 0x09 <= u <= 0x0d
    ||| u == 0x20
    ||| u == 0x85
    ||| u == 0xa0
    ||| u == 0x1680
    ||| 0x2000 <= u <= 0x200a
    ||| u == 0x2028
    ||| u == 0x2029
    ||| u == 0x202f
    ||| u == 0x205f
    ||| u == 0x3000
}

/// Whether a character is white space.
pub fn white(c: char) -> (r: bool)
    ensures
        r == is_white(c),
{
    let u: u32 = c as u32;
    (0x09 <= u && u <= 0x0d) || u == 0x20 || u == 0x85 || u == 0xa0 || u == 0x1680 || (0x2000 <= u
        && u <= 0x200a) || u == 0x2028 || u == 0x2029 || u == 0x202f || u == 0x205f || u == 0x3000
}

/// Nothing but white space.
pub open spec fn blank(s: Seq<char>) -> bool {
    forall|i: int| 0 <= i < s.len() ==> is_white(#[trigger] s[i])
}

/// The number of characters before the first white space.
pub open spec fn word_len(s: Seq<char>) -> nat
    decreases s.len(),
{
    if s.len() == 0 || is_white(s[0]) {
        0
    } else {
        1 + word_len(s.skip(1))
    }
}

/// `word_len` stops at the first white space, or at the end.
pub proof fn lemma_word_len(s: Seq<char>)
    ensures
        word_len(s) <= s.len(),
        forall|i: int| 0 <= i < word_len(s) ==> !is_white(#[trigger] s[i]),
        word_len(s) < s.len() ==> is_white(s[word_len(s) as int]),
    decreases s.len(),
{
    if s.len() > 0 && !is_white(s[0]) {
        lemma_word_len(s.skip(1));
        assert forall|i: int| 0 <= i < word_len(s) implies !is_white(#[trigger] s[i]) by {
            if i > 0 {
                assert(s[i] == s.skip(1)[i - 1]);
            }
        }
    }
}

/// The length of the word at the front is the only length of this kind.
pub(crate) proof fn lemma_word_len_is(s: Seq<char>, k: nat)
    requires
        k <= s.len(),
        forall|i: int| 0 <= i < k ==> !is_white(#[trigger] s[i]),
        k < s.len() ==> is_white(s[k as int]),
    ensures
        word_len(s) == k,
{
    lemma_word_len(s);
    let w = word_len(s);
    if w < k {
        assert(!is_white(s[w as int]));
    } else if k < w {
        assert(!is_white(s[k as int]));
    }
}

/// The words of a line: its longest runs without white space.
pub open spec fn words(s: Seq<char>) -> Seq<Seq<char>>
    decreases s.len(),
{
    if s.len() == 0 {
        Seq::empty()
    } else if is_white(s[0]) {
        words(s.skip(1))
    } else {
        proof {
            lemma_word_len(s);
        }
        seq![s.take(word_len(s) as int)] + words(s.skip(word_len(s) as int))
    }
}

/// Leading white space does not matter to the words.
pub(crate) proof fn lemma_words_skip_white(s: Seq<char>, k: int)
    requires
        0 <= k <= s.len(),
        blank(s.take(k)),
    ensures
        words(s) == words(s.skip(k)),
    decreases k,
{
    if k == 0 {
        assert(s.skip(0) =~= s);
    } else {
        assert(is_white(s.take(k)[0]));
        assert forall|i: int| 0 <= i < k - 1 implies is_white(#[trigger] s.skip(1).take(k - 1)[i]) by {
            assert(s.take(k)[i + 1] == s.skip(1).take(k - 1)[i]);
        }
        lemma_words_skip_white(s.skip(1), k - 1);
        assert(s.skip(1).skip(k - 1) =~= s.skip(k));
    }
}

/// Neither does white space at the end.
pub(crate) proof fn lemma_words_end_white(s: Seq<char>, w: char)
    requires
        is_white(w),
    ensures
        words(s.push(w)) == words(s),
    decreases s.len(),
{
    let t = s.push(w);
    if s.len() == 0 {
        assert(t.skip(1) =~= s);
    } else if is_white(s[0]) {
        lemma_words_end_white(s.skip(1), w);
        assert(t.skip(1) =~= s.skip(1).push(w));
    } else {
        lemma_word_len(s);
        let k = word_len(s);
        assert forall|i: int| 0 <= i < k implies !is_white(#[trigger] t[i]) by {
            assert(t[i] == s[i]);
        }
        lemma_word_len_is(t, k);
        assert(t.take(k as int) =~= s.take(k as int));
        lemma_words_end_white(s.skip(k as int), w);
        assert(t.skip(k as int) =~= s.skip(k as int).push(w));
    }
}

/// The next word of `cs[from..to]`: where it starts and where it ends.  Both
/// are `to` where there is none.
pub fn next_word(cs: &Vec<char>, from: usize, to: usize) -> (r: (usize, usize))
    requires
        from <= to <= cs.len(),
    ensures
        from <= r.0 <= r.1 <= to,
        blank(cs@.subrange(from as int, r.0 as int)),
        r.0 == r.1 ==> r.0 == to,
        r.0 < r.1 ==> words(cs@.subrange(from as int, to as int)) == seq![
            cs@.subrange(r.0 as int, r.1 as int),
        ] + words(cs@.subrange(r.1 as int, to as int)),
        r.0 == r.1 ==> words(cs@.subrange(from as int, to as int)).len() == 0,
{
    let mut a: usize = from;
    while a < to && white(cs[a])
        invariant
            from <= a <= to <= cs.len(),
            blank(cs@.subrange(from as int, a as int)),
        decreases to - a,
    {
        assert(cs@.subrange(from as int, a + 1) =~= cs@.subrange(from as int, a as int).push(
            cs@[a as int],
        ));
        a = a + 1;
    }
    let mut b: usize = a;
    while b < to && !white(cs[b])
        invariant
            from <= a <= b <= to <= cs.len(),
            forall|i: int| a <= i < b ==> !is_white(#[trigger] cs@[i]),
        decreases to - b,
    {
        b = b + 1;
    }
    proof {
        let line = cs@.subrange(from as int, to as int);
        let rest = cs@.subrange(a as int, to as int);
        assert(line.take(a - from) =~= cs@.subrange(from as int, a as int));
        assert(line.skip(a - from) =~= rest);
        lemma_words_skip_white(line, a - from);
        if a < b {
            lemma_word_len_is(rest, (b - a) as nat);
            assert(rest.take(b - a) =~= cs@.subrange(a as int, b as int));
            assert(rest.skip(b - a) =~= cs@.subrange(b as int, to as int));
        }
    }
    (a, b)
}

/// The number of characters before the first line feed.
pub open spec fn line_len(s: Seq<char>) -> nat
    decreases s.len(),
{
    if s.len() == 0 || s[0] == '\n' {
        0
    } else {
        1 + line_len(s.skip(1))
    }
}

/// `line_len` stops at the first line feed, or at the end.
pub proof fn lemma_line_len(s: Seq<char>)
    ensures
        line_len(s) <= s.len(),
        forall|i: int| 0 <= i < line_len(s) ==> #[trigger] s[i] != '\n',
        line_len(s) < s.len() ==> s[line_len(s) as int] == '\n',
    decreases s.len(),
{
    if s.len() > 0 && s[0] != '\n' {
        lemma_line_len(s.skip(1));
        assert forall|i: int| 0 <= i < line_len(s) implies #[trigger] s[i] != '\n' by {
            if i > 0 {
                assert(s[i] == s.skip(1)[i - 1]);
            }
        }
    }
}

pub(crate) proof fn lemma_line_len_is(s: Seq<char>, k: nat)
    requires
        k <= s.len(),
        forall|i: int| 0 <= i < k ==> #[trigger] s[i] != '\n',
        k < s.len() ==> s[k as int] == '\n',
    ensures
        line_len(s) == k,
{
    lemma_line_len(s);
    let w = line_len(s);
    if w < k {
        assert(s[w as int] != '\n');
    } else if k < w {
        assert(s[k as int] != '\n');
    }
}

/// The first line, without its ending: a line feed, or a carriage return and a
/// line feed.  A carriage return that no line feed follows stays.
pub open spec fn first_line(s: Seq<char>) -> Seq<char> {
    let n = line_len(s) as int;
    if n < s.len() && n > 0 && s[n - 1] == '\r' {
        s.take(n - 1)
    } else {
        s.take(n)
    }
}

/// What follows the first line and its ending.
pub open spec fn after_line(s: Seq<char>) -> Seq<char> {
    let n = line_len(s) as int;
    if n < s.len() {
        s.skip(n + 1)
    } else {
        Seq::empty()
    }
}

/// The lines of a text.  A line feed at the end starts no further line.
pub open spec fn lines(s: Seq<char>) -> Seq<Seq<char>>
    decreases s.len(),
{
    if s.len() == 0 {
        Seq::empty()
    } else {
        proof {
            lemma_line_len(s);
        }
        seq![first_line(s)] + lines(after_line(s))
    }
}

/// The first line of `cs[from..]`: its end, and where the next line starts.
pub fn next_line(cs: &Vec<char>, from: usize) -> (r: (usize, usize))
    requires
        from < cs.len(),
    ensures
        from <= r.0 <= r.1 <= cs.len(),
        from < r.1,
        cs@.subrange(from as int, r.0 as int) == first_line(cs@.skip(from as int)),
        cs@.skip(r.1 as int) == after_line(cs@.skip(from as int)),
{
    let n = cs.len();
    let mut b: usize = from;
    while b < n && cs[b] != '\n'
        invariant
            from <= b <= n,
            n == cs.len(),
            forall|i: int| from <= i < b ==> #[trigger] cs@[i] != '\n',
        decreases n - b,
    {
        b = b + 1;
    }
    let ghost s = cs@.skip(from as int);
    proof {
        lemma_line_len_is(s, (b - from) as nat);
        assert(s.take(b - from) =~= cs@.subrange(from as int, b as int));
    }
    if b < n {
        assert(s.skip(b - from + 1) =~= cs@.skip(b + 1));
        if b > from && cs[b - 1] == '\r' {
            assert(s.take(b - from - 1) =~= cs@.subrange(from as int, b - 1));
            (b - 1, b + 1)
        } else {
            (b, b + 1)
        }
    } else {
        assert(cs@.skip(n as int) =~= Seq::<char>::empty());
        (b, n)
    }
}

/// Whether `s` ends in `tail`.
pub open spec fn is_tail(s: Seq<char>, tail: Seq<char>) -> bool {
    tail.len() <= s.len() && s.skip(s.len() - tail.len()) == tail
}

/// Whether `part` stands in `s` from position `at` on.
pub open spec fn stands_at(s: Seq<char>, part: Seq<char>, at: int) -> bool {
    0 <= at && at + part.len() <= s.len() && s.subrange(at, at + part.len()) == part
}

/// Whether `part` stands somewhere in `s`.
pub open spec fn is_part(s: Seq<char>, part: Seq<char>) -> bool {
    exists|at: int| stands_at(s, part, at)
}

fn same_at(cs: &Vec<char>, ps: &Vec<char>, at: usize) -> (r: bool)
    requires
        at + ps.len() <= cs.len(),
    ensures
        r == stands_at(cs@, ps@, at as int),
{
    let n = ps.len();
    let mut i: usize = 0;
    while i < n
        invariant
            i <= n == ps.len(),
            at + n <= cs.len(),
            forall|j: int| 0 <= j < i ==> cs@[at + j] == #[trigger] ps@[j],
        decreases n - i,
    {
        if cs[at + i] != ps[i] {
            assert(cs@.subrange(at as int, at + ps@.len())[i as int] != ps@[i as int]);
            return false;
        }
        i = i + 1;
    }
    assert(cs@.subrange(at as int, at + ps@.len()) =~= ps@);
    true
}

/// Whether the two say the same.
pub fn same(a: &str, b: &str) -> (r: bool)
    ensures
        r == (a@ == b@),
{
    let ca = chars_of(a);
    let cb = chars_of(b);
    if ca.len() != cb.len() {
        return false;
    }
    assert(ca@.subrange(0, cb@.len() as int) =~= ca@);
    same_at(&ca, &cb, 0)
}

/// Whether `s` ends in `tail`.
pub fn ends_with(s: &str, tail: &str) -> (r: bool)
    ensures
        r == is_tail(s@, tail@),
{
    let cs = chars_of(s);
    let ts = chars_of(tail);
    if ts.len() > cs.len() {
        return false;
    }
    assert(cs@.skip(cs@.len() - ts@.len()) =~= cs@.subrange(
        cs@.len() - ts@.len(),
        cs@.len() - ts@.len() + ts@.len(),
    ));
    same_at(&cs, &ts, cs.len() - ts.len())
}

/// Whether `part` stands somewhere in `s`.
pub fn contains(s: &str, part: &str) -> (r: bool)
    ensures
        r == is_part(s@, part@),
{
    let cs = chars_of(s);
    let ps = chars_of(part);
    if ps.len() > cs.len() {
        return false;
    }
    let last = cs.len() - ps.len();
    let mut at: usize = 0;
    while at <= last
        invariant
            cs@ == s@,
            ps@ == part@,
            ps.len() <= cs.len(),
            last == cs.len() - ps.len(),
            at <= last + 1,
            forall|k: int| 0 <= k < at ==> !stands_at(cs@, ps@, k),
        decreases last + 1 - at,
    {
        if same_at(&cs, &ps, at) {
            return true;
        }
        if at == last {
            return false;
        }
        at = at + 1;
    }
    false
}

/// A list of numbers as it is printed: `[1, 2, 3]`.
pub open spec fn list_text(v: Seq<u64>) -> Seq<char> {
    seq!['['] + items_text(v) + seq![']']
}

/// The numbers of a list with a comma and a space between them.
pub open spec fn items_text(v: Seq<u64>) -> Seq<char>
    decreases v.len(),
{
    if v.len() == 0 {
        Seq::empty()
    } else if v.len() == 1 {
        decimal(v[0] as nat)
    } else {
        items_text(v.drop_last()) + seq![',', ' '] + decimal(v.last() as nat)
    }
}

/// Appends a list of numbers.
pub fn push_list(out: &mut String, v: &Vec<u64>)
    ensures
        final(out)@ == old(out)@ + list_text(v@),
{
    proof {
        reveal_strlit("[");
        reveal_strlit("]");
        reveal_strlit(", ");
    }
    out.append("[");
    let ghost start = out@;
    assert(start =~= old(out)@ + seq!['[']);
    assert(start =~= start + items_text(v@.take(0)));
    for i in 0..v.len()
        invariant
            out@ == start + items_text(v@.take(i as int)),
    {
        proof {
            reveal_strlit(", ");
        }
        let ghost before = out@;
        if i > 0 {
            out.append(", ");
        }
        push_decimal(out, v[i]);
        assert(v@.take(i + 1).drop_last() =~= v@.take(i as int));
        if i > 0 {
            assert(out@ =~= before + (seq![',', ' '] + decimal(v@[i as int] as nat)));
        }
        assert(out@ =~= start + items_text(v@.take(i + 1)));
    }
    assert(v@.take(v@.len() as int) =~= v@);
    out.append("]");
    assert(out@ =~= old(out)@ + list_text(v@));
}

} // verus!
