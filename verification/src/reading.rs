//! How a text is taken apart: into lines, words and numbers.

use crate::engine::k3::tensors::{differs, first_named, kda_layers, missing, wrong, Wanted};
use crate::expert::{Gguf, TensorInfo};
use crate::plan::{plan_text, read_of_line, reads_of_lines, Read};
use crate::text::{
    after_line, blank, decimal, decimal_reads_back, digits_value, first_line, is_part, is_white, items_text,
    lemma_decimal_digits, lemma_line_len_is, lemma_word_len, lemma_word_len_is, lines, list_text, parsed_u64,
    stands_at, word_len, words,
};
use vstd::prelude::*;

verus! {

/// A text without white space.
pub open spec fn solid(s: Seq<char>) -> bool {
    forall|i: int| 0 <= i < s.len() ==> !is_white(#[trigger] s[i])
}

/// A text without white space is one word; no text is none.
pub proof fn solid_text_is_a_word(w: Seq<char>)
    requires
        solid(w),
    ensures
        w.len() > 0 ==> words(w) == seq![w],
        w.len() == 0 ==> words(w) == Seq::<Seq<char>>::empty(),
{
    if w.len() > 0 {
        lemma_word_len_is(w, w.len());
        assert(w.take(w.len() as int) =~= w);
        assert(w.skip(w.len() as int) =~= Seq::<char>::empty());
        assert(words(w.skip(w.len() as int)) =~= Seq::<Seq<char>>::empty());
        assert(words(w) =~= seq![w]);
    }
}

/// White space, of any length, parts the words before it from those behind it.
pub proof fn white_parts_words(a: Seq<char>, c: char, b: Seq<char>)
    requires
        is_white(c),
    ensures
        words(a + seq![c] + b) == words(a) + words(b),
    decreases a.len(),
{
    let t = a + seq![c] + b;
    if a.len() == 0 {
        assert(t.skip(1) =~= b);
        assert(t[0] == c);
        assert(words(a) + words(b) =~= words(b));
    } else if is_white(a[0]) {
        white_parts_words(a.skip(1), c, b);
        assert(t[0] == a[0]);
        assert(t.skip(1) =~= a.skip(1) + seq![c] + b);
    } else {
        lemma_word_len(a);
        let k = word_len(a);
        assert(t[0] == a[0]);
        assert forall|i: int| 0 <= i < k implies !is_white(#[trigger] t[i]) by {
            assert(t[i] == a[i]);
        }
        if k < a.len() {
            assert(t[k as int] == a[k as int]);
        } else {
            assert(t[k as int] == c);
        }
        lemma_word_len_is(t, k);
        white_parts_words(a.skip(k as int), c, b);
        assert(t.skip(k as int) =~= a.skip(k as int) + seq![c] + b);
        assert(t.take(k as int) =~= a.take(k as int));
        assert(words(t) =~= words(a) + words(b));
    }
}

/// White space is what Unicode lists as such.
pub proof fn white_is_listed(c: char)
    ensures
        is_white(c) <==> seq![
            0x09int,
            0x0aint,
            0x0bint,
            0x0cint,
            0x0dint,
            0x20int,
            0x85int,
            0xa0int,
            0x1680int,
            0x2000int,
            0x2001int,
            0x2002int,
            0x2003int,
            0x2004int,
            0x2005int,
            0x2006int,
            0x2007int,
            0x2008int,
            0x2009int,
            0x200aint,
            0x2028int,
            0x2029int,
            0x202fint,
            0x205fint,
            0x3000int,
        ].contains(c as int),
{
    let listed = seq![
        0x09int,
        0x0aint,
        0x0bint,
        0x0cint,
        0x0dint,
        0x20int,
        0x85int,
        0xa0int,
        0x1680int,
        0x2000int,
        0x2001int,
        0x2002int,
        0x2003int,
        0x2004int,
        0x2005int,
        0x2006int,
        0x2007int,
        0x2008int,
        0x2009int,
        0x200aint,
        0x2028int,
        0x2029int,
        0x202fint,
        0x205fint,
        0x3000int,
    ];
    let u = c as int;
    if is_white(c) {
        if u <= 0x0d {
            assert(listed[u - 0x09] == u);
        } else if 0x2000 <= u <= 0x200a {
            assert(listed[9 + (u - 0x2000)] == u);
        } else if u == 0x20 {
            assert(listed[5] == u);
        } else if u == 0x85 {
            assert(listed[6] == u);
        } else if u == 0xa0 {
            assert(listed[7] == u);
        } else if u == 0x1680 {
            assert(listed[8] == u);
        } else if u == 0x2028 {
            assert(listed[20] == u);
        } else if u == 0x2029 {
            assert(listed[21] == u);
        } else if u == 0x202f {
            assert(listed[22] == u);
        } else if u == 0x205f {
            assert(listed[23] == u);
        } else {
            assert(listed[24] == u);
        }
    }
}

/// A text without a line feed is one line as it stands; no text is none.
pub proof fn last_line_stays_whole(l: Seq<char>)
    requires
        !l.contains('\n'),
    ensures
        l.len() > 0 ==> lines(l) == seq![l],
        l.len() == 0 ==> lines(l) == Seq::<Seq<char>>::empty(),
{
    if l.len() > 0 {
        lemma_line_len_is(l, l.len());
        assert(first_line(l) =~= l);
        assert(after_line(l) =~= Seq::<char>::empty());
        assert(lines(after_line(l)) =~= Seq::<Seq<char>>::empty());
        assert(lines(l) =~= seq![l]);
    }
}

/// A line feed ends a line, and takes a carriage return before it along.
pub proof fn line_feed_ends_a_line(l: Seq<char>, rest: Seq<char>)
    requires
        !l.contains('\n'),
    ensures
        lines(l + seq!['\r', '\n'] + rest) == seq![l] + lines(rest),
        l.len() == 0 || l.last() != '\r' ==> lines(l + seq!['\n'] + rest) == seq![l] + lines(rest),
{
    let t = l + seq!['\r', '\n'] + rest;
    assert forall|i: int| 0 <= i < l.len() + 1 implies #[trigger] t[i] != '\n' by {
        if i < l.len() {
            assert(t[i] == l[i]);
            assert(l.contains(l[i]));
        } else {
            assert(t[i] == '\r');
        }
    }
    assert(t[l.len() as int + 1] == '\n');
    lemma_line_len_is(t, l.len() + 1);
    assert(t[l.len() as int] == '\r');
    assert(first_line(t) =~= l);
    assert(after_line(t) =~= rest);
    if l.len() == 0 || l.last() != '\r' {
        let u = l + seq!['\n'] + rest;
        assert forall|i: int| 0 <= i < l.len() implies #[trigger] u[i] != '\n' by {
            assert(u[i] == l[i]);
            assert(l.contains(l[i]));
        }
        assert(u[l.len() as int] == '\n');
        lemma_line_len_is(u, l.len());
        if l.len() > 0 {
            assert(u[l.len() - 1] == l.last());
        }
        assert(first_line(u) =~= l);
        assert(after_line(u) =~= rest);
    }
}

/// Digits count tenfold for every digit behind them.
pub proof fn digits_stand_in_places(a: Seq<char>, b: Seq<char>)
    ensures
        match (digits_value(a), digits_value(b)) {
            (Some(x), Some(y)) => digits_value(a + b) == Some(
                (x * vstd::arithmetic::power::pow(10, b.len()) + y) as nat,
            ),
            _ => digits_value(a + b) is None,
        },
    decreases b.len(),
{
    if b.len() == 0 {
        assert(a + b =~= a);
        vstd::arithmetic::power::lemma_pow0(10);
    } else {
        let c = b.drop_last();
        digits_stand_in_places(a, c);
        assert((a + b).drop_last() =~= a + c);
        assert((a + b).last() == b.last());
        vstd::arithmetic::power::lemma_pow_positive(10, c.len());
        let p = vstd::arithmetic::power::pow(10, c.len());
        assert(vstd::arithmetic::power::pow(10, b.len()) == 10 * p) by {
            reveal(vstd::arithmetic::power::pow);
        }
        match (digits_value(a), digits_value(c)) {
            (Some(x), Some(y)) => {
                assert(10 * (x * p) == x * (10 * p)) by (nonlinear_arith);
                assert(x * p >= 0) by (nonlinear_arith)
                    requires
                        x >= 0,
                        p > 0,
                ;
            },
            _ => {},
        }
    }
}

/// A plus sign before a number does not matter, and neither do zeros; a second sign
/// or a sign alone is no number.
pub proof fn sign_and_zeros_do_not_matter(w: Seq<char>)
    ensures
        w.len() > 0 && w[0] != '+' ==> parsed_u64(seq!['+'] + w) == parsed_u64(w),
        w.len() > 0 && w[0] != '+' ==> parsed_u64(seq!['0'] + w) == parsed_u64(w),
        parsed_u64(seq!['+', '+'] + w) is None,
        parsed_u64(seq!['+']) is None,
        parsed_u64(Seq::<char>::empty()) is None,
{
    let a = seq!['+'] + w;
    assert(a.skip(1) =~= w);
    let z = seq!['0'] + w;
    digits_stand_in_places(seq!['0'], w);
    assert(seq!['0'].drop_last() =~= Seq::<char>::empty());
    assert(digits_value(seq!['0']) == Some(0nat)) by {
        reveal_with_fuel(digits_value, 2);
        assert(seq!['0'].last() == '0');
    }
    if w.len() > 0 && w[0] != '+' {
        assert(0 * vstd::arithmetic::power::pow(10, w.len()) == 0) by (nonlinear_arith);
        assert(z[0] == '0');
    }
    let d = seq!['+', '+'] + w;
    let e = seq!['+'] + w;
    assert(d.skip(1) =~= e);
    digits_stand_in_places(seq!['+'], w);
    assert(digits_value(seq!['+']) is None) by {
        reveal_with_fuel(digits_value, 2);
        assert(seq!['+'].last() == '+');
    }
    assert(seq!['+'].skip(1) =~= Seq::<char>::empty());
}

/// A line gives the read whose place its first word names and whose length its
/// second names; what stands behind them does not matter.
pub proof fn line_names_a_read(offset: u64, len: u64, c: char, rest: Seq<char>)
    requires
        is_white(c),
        rest.len() > 0 ==> is_white(rest[0]),
    ensures
        read_of_line(decimal(offset as nat) + seq![c] + decimal(len as nat) + rest) == Some(
            (Read { offset, len }),
        ),
{
    let a = decimal(offset as nat);
    let b = decimal(len as nat);
    lemma_decimal_digits(offset as nat);
    lemma_decimal_digits(len as nat);
    decimal_reads_back(offset);
    decimal_reads_back(len);
    let l = a + seq![c] + b + rest;
    solid_text_is_a_word(a);
    solid_text_is_a_word(b);
    assert(l =~= a + seq![c] + (b + rest));
    white_parts_words(a, c, b + rest);
    if rest.len() > 0 {
        let more = rest.skip(1);
        assert(b + rest =~= b + seq![rest[0]] + more);
        white_parts_words(b, rest[0], more);
    } else {
        assert(b + rest =~= b);
    }
    assert(words(l)[0] == a);
    assert(words(l)[1] == b);
}

/// A line of white space names no read and is no error.
pub proof fn blank_line_is_passed_over(l: Seq<char>, rest: Seq<char>)
    requires
        blank(l),
        !l.contains('\n'),
        l.len() == 0 || l.last() != '\r',
    ensures
        reads_of_lines(lines(l + seq!['\n'] + rest)) == reads_of_lines(lines(rest)),
{
    line_feed_ends_a_line(l, rest);
    assert((seq![l] + lines(rest)).skip(1) =~= lines(rest));
}

/// The first line that is neither blank nor a read is what the error tells, and it
/// ends the reading.
pub proof fn bad_line_is_told(l: Seq<char>, rest: Seq<char>)
    requires
        !blank(l),
        !l.contains('\n'),
        l.last() != '\r',
        words(l).len() < 2 || parsed_u64(words(l)[0]) is None || parsed_u64(words(l)[1]) is None,
    ensures
        reads_of_lines(lines(l + seq!['\n'] + rest)) == Err::<Seq<Read>, Seq<char>>(
            "bad plan line: "@ + l,
        ),
{
    line_feed_ends_a_line(l, rest);
}

/// A text holds another where it is what stands before it, the other, and what
/// stands behind it.
pub proof fn part_stands_between(a: Seq<char>, part: Seq<char>, b: Seq<char>, s: Seq<char>)
    ensures
        is_part(a + part + b, part),
        is_part(s, part) ==> exists|x: Seq<char>, y: Seq<char>| s == #[trigger] (x + part + y),
{
    let t = a + part + b;
    assert(t.subrange(a.len() as int, a.len() as int + part.len()) =~= part);
    assert(stands_at(t, part, a.len() as int));
    if is_part(s, part) {
        let at = choose|at: int| stands_at(s, part, at);
        let x = s.take(at);
        let y = s.skip(at + part.len());
        assert(s =~= x + part + y);
    }
}

/// A tensor is found where its name stands first.
pub proof fn first_of_the_name_is_found(ts: Seq<TensorInfo>, name: Seq<char>, from: int)
    requires
        0 <= from,
    ensures
        match first_named(ts, name, from) {
            Some(i) => from <= i < ts.len() && ts[i].name@ == name && forall|k: int|
                from <= k < i ==> (#[trigger] ts[k]).name@ != name,
            None => forall|k: int| from <= k < ts.len() ==> (#[trigger] ts[k]).name@ != name,
        },
    decreases ts.len() - from,
{
    if from < ts.len() && ts[from].name@ != name {
        first_of_the_name_is_found(ts, name, from + 1);
    }
}

/// A name is reported as missing exactly where it is wanted and no tensor has it.
pub proof fn missing_is_wanted_and_absent(g: &Gguf, ws: Seq<Wanted>, name: Seq<char>)
    ensures
        missing(g, ws).contains(name) <==> (exists|i: int|
            0 <= i < ws.len() && (#[trigger] ws[i]).name == name) && (forall|k: int|
            0 <= k < g.tensors@.len() ==> (#[trigger] g.tensors@[k]).name@ != name),
    decreases ws.len(),
{
    if ws.len() > 0 {
        let front = ws.drop_last();
        let before = missing(g, front);
        missing_is_wanted_and_absent(g, front, name);
        first_of_the_name_is_found(g.tensors@, ws.last().name, 0);
        let all = missing(g, ws);
        assert forall|x: Seq<char>| before.contains(x) implies before.push(
            ws.last().name,
        ).contains(x) by {
            let k = choose|k: int| 0 <= k < before.len() && before[k] == x;
            assert(before.push(ws.last().name)[k] == x);
        }
        assert(before.push(ws.last().name)[before.len() as int] == ws.last().name);
        if exists|i: int| 0 <= i < front.len() && (#[trigger] front[i]).name == name {
            let i = choose|i: int| 0 <= i < front.len() && (#[trigger] front[i]).name == name;
            assert(ws[i].name == name);
        }
        if exists|i: int| 0 <= i < ws.len() && (#[trigger] ws[i]).name == name {
            let i = choose|i: int| 0 <= i < ws.len() && (#[trigger] ws[i]).name == name;
            if i < front.len() {
                assert(front[i].name == name);
            }
        }
        assert(ws[ws.len() - 1] == ws.last());
        if all.contains(name) {
            let k = choose|k: int| 0 <= k < all.len() && all[k] == name;
            if k < before.len() {
                assert(before[k] == name);
            }
        }
    }
}

/// The decimal text of a number has no zeros before it: it starts with a zero only
/// where the number is zero, and then is that zero alone.
pub proof fn decimal_starts_with_its_first_digit(n: nat)
    ensures
        decimal(n).len() > 0,
        decimal(n)[0] == '0' <==> n == 0,
        n == 0 ==> decimal(n) == seq!['0'],
        forall|i: int| 0 <= i < decimal(n).len() ==> '0' <= #[trigger] decimal(n)[i] <= '9',
    decreases n,
{
    lemma_decimal_digits(n);
    if n >= 10 {
        decimal_starts_with_its_first_digit(n / 10);
        lemma_decimal_digits(n / 10);
        assert(decimal(n)[0] == decimal(n / 10)[0]);
    }
}

/// The text of a plan with one read more has one line more: the place, a space, the
/// length and a line feed.
pub proof fn one_line_per_read(reads: Seq<Read>, r: Read)
    ensures
        plan_text(Seq::<Read>::empty()) == Seq::<char>::empty(),
        plan_text(reads.push(r)) == plan_text(reads) + decimal(r.offset as nat) + seq![' ']
            + decimal(r.len as nat) + seq!['\n'],
{
    assert(reads.push(r).drop_last() =~= reads);
    assert(plan_text(reads.push(r)) =~= plan_text(reads) + decimal(r.offset as nat) + seq![' ']
        + decimal(r.len as nat) + seq!['\n']);
}

/// The text of a list with one number more: the number behind a comma and a space,
/// or alone, in brackets.
pub proof fn list_text_grows(v: Seq<u64>, x: u64)
    ensures
        list_text(Seq::<u64>::empty()) == seq!['[', ']'],
        list_text(seq![x]) == seq!['['] + decimal(x as nat) + seq![']'],
        v.len() > 0 ==> list_text(v.push(x)) == list_text(v).drop_last() + seq![',', ' '] + decimal(
            x as nat,
        ) + seq![']'],
{
    assert(list_text(Seq::<u64>::empty()) =~= seq!['[', ']']);
    assert(v.push(x).drop_last() =~= v);
    if v.len() > 0 {
        assert(list_text(v).drop_last() =~= seq!['['] + items_text(v));
        assert(list_text(v.push(x)) =~= list_text(v).drop_last() + seq![',', ' '] + decimal(
            x as nat,
        ) + seq![']']);
    }
}

/// A tensor is complained of where it has as many dimensions as are wanted, or more,
/// and one of those that are wanted is another.
pub proof fn a_dimension_differs(dims: Seq<u64>, want: Seq<u64>)
    ensures
        differs(dims, want) <==> dims.len() >= want.len() && exists|j: int|
            0 <= j < want.len() && #[trigger] dims[j] != want[j],
{
    if dims.len() >= want.len() {
        let front = dims.take(want.len() as int);
        if exists|j: int| 0 <= j < want.len() && #[trigger] dims[j] != want[j] {
            let j = choose|j: int| 0 <= j < want.len() && #[trigger] dims[j] != want[j];
            assert(front[j] != want[j]);
        } else if want.len() > 0 {
            assert forall|j: int| 0 <= j < want.len() implies front[j] == want[j] by {
                assert(dims[j] == want[j]);
            }
            assert(front =~= want);
        }
    }
}

/// A complaint is made exactly of what is wanted, found, and of other dimensions; it
/// tells the name, what is wanted and what there is.
pub proof fn complaints_are_of_wanted_tensors(g: &Gguf, ws: Seq<Wanted>, x: Seq<char>)
    ensures
        wrong(g, ws).contains(x) <==> exists|i: int|
            0 <= i < ws.len() && #[trigger] complained(g, ws[i], x),
    decreases ws.len(),
{
    if ws.len() > 0 {
        let front = ws.drop_last();
        let before = wrong(g, front);
        let all = wrong(g, ws);
        let w = ws.last();
        complaints_are_of_wanted_tensors(g, front, x);
        if before.contains(x) {
            let k = choose|k: int| 0 <= k < before.len() && before[k] == x;
            assert(all[k] == x);
            let i = choose|i: int| 0 <= i < front.len() && #[trigger] complained(g, front[i], x);
            assert(complained(g, ws[i], x));
        }
        if complained(g, w, x) {
            assert(all[before.len() as int] == x);
            assert(complained(g, ws[ws.len() - 1], x));
        }
        if all.contains(x) {
            let k = choose|k: int| 0 <= k < all.len() && all[k] == x;
            if k < before.len() {
                assert(before[k] == x);
            } else {
                assert(complained(g, ws[ws.len() - 1], x));
            }
        }
        if exists|i: int| 0 <= i < ws.len() && #[trigger] complained(g, ws[i], x) {
            let i = choose|i: int| 0 <= i < ws.len() && #[trigger] complained(g, ws[i], x);
            if i < front.len() {
                assert(complained(g, front[i], x));
            }
        }
    }
}

/// The text `x` complains of a wanted tensor.
pub open spec fn complained(g: &Gguf, w: Wanted, x: Seq<char>) -> bool {
    first_named(g.tensors@, w.name, 0) matches Some(i) && {
        let dims = g.tensors@[i].dims@;
        &&& differs(dims, w.dims)
        &&& x == w.name + ": want "@ + list_text(w.dims) + " got "@ + list_text(dims)
    }
}

/// The layer has a tensor of decays.
pub open spec fn has_decays(g: &Gguf, il: int) -> bool {
    exists|k: int|
        0 <= k < g.tensors@.len() && (#[trigger] g.tensors@[k]).name@ == "blk."@ + decimal(
            il as nat,
        ) + "."@ + "ssm_a"@
}

/// The delta-rule layers that are counted are those that have a tensor of decays.
pub proof fn layers_with_decays_are_counted(g: &Gguf, n: int)
    requires
        0 <= n <= u32::MAX,
    ensures
        kda_layers(g, 0) == 0,
        n > 0 && has_decays(g, n - 1) ==> kda_layers(g, n) == kda_layers(g, n - 1) + 1,
        n > 0 && !has_decays(g, n - 1) ==> kda_layers(g, n) == kda_layers(g, n - 1),
{
    if n > 0 {
        let name = "blk."@ + decimal((n - 1) as nat) + "."@ + "ssm_a"@;
        first_of_the_name_is_found(g.tensors@, name, 0);
        if has_decays(g, n - 1) {
            let k = choose|k: int|
                0 <= k < g.tensors@.len() && (#[trigger] g.tensors@[k]).name@ == name;
            assert(g.tensors@[k].name@ == name);
        }
    }
}

} // verus!
