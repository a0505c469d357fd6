//! Facts about trimming, searching, splitting and joining.

use vstd::prelude::*;
use crate::text::{
    contains, decimal, digit_char, first_occurrence, is_whitespace, join, leading_count,
    lemma_first_occurrence_from, lemma_first_occurrence_is, lemma_first_occurrence_none, lines,
    occurs_at, repeated, split, trimmed, trimmed_end, trimmed_start, without_carriage_return,
    without_leading, without_surrounding, without_trailing,
};

verus! {

/// Whether `s` has no whitespace at its start and none at its end.
pub open spec fn is_trimmed(s: Seq<char>) -> bool {
    s.len() == 0 || (!is_whitespace(s[0]) && !is_whitespace(s.last()))
}

/// What is left of `s` without its leading whitespace is the end of `s`,
/// and begins with no whitespace.
pub proof fn lemma_trimmed_start(s: Seq<char>)
    ensures
        trimmed_start(s).len() <= s.len(),
        trimmed_start(s) == s.skip(s.len() - trimmed_start(s).len()),
        trimmed_start(s).len() > 0 ==> !is_whitespace(trimmed_start(s)[0]),
        trimmed_start(s).len() == s.len() ==> trimmed_start(s) == s,
    decreases s.len(),
{
    if s.len() > 0 && is_whitespace(s[0]) {
        lemma_trimmed_start(s.skip(1));
        let t = trimmed_start(s.skip(1));
        assert(s.skip(1).skip(s.skip(1).len() - t.len()) =~= s.skip(s.len() - t.len()));
    } else {
        assert(s.skip(0) =~= s);
    }
}

/// What is left of `s` without its trailing whitespace is the start of
/// `s`, and ends with no whitespace.
pub proof fn lemma_trimmed_end(s: Seq<char>)
    ensures
        trimmed_end(s).len() <= s.len(),
        trimmed_end(s) == s.take(trimmed_end(s).len() as int),
        trimmed_end(s).len() > 0 ==> !is_whitespace(trimmed_end(s).last()),
        trimmed_end(s).len() == s.len() ==> trimmed_end(s) == s,
    decreases s.len(),
{
    if s.len() > 0 && is_whitespace(s.last()) {
        lemma_trimmed_end(s.drop_last());
        let t = trimmed_end(s.drop_last());
        assert(s.drop_last().take(t.len() as int) =~= s.take(t.len() as int));
    } else {
        assert(s.take(s.len() as int) =~= s);
    }
}

/// Trimming leaves a text as it is if and only if the text has no
/// whitespace at its start and none at its end.
pub proof fn lemma_trimmed_is_self(s: Seq<char>)
    ensures
        trimmed(s) == s <==> is_trimmed(s),
{
    lemma_trimmed_start(s);
    lemma_trimmed_end(trimmed_start(s));
    if is_trimmed(s) {
        assert(trimmed_start(s) == s);
        assert(trimmed_end(s) == s);
    }
    if trimmed(s) == s && s.len() > 0 {
        assert(trimmed_start(s).len() == s.len());
        assert(trimmed_start(s) == s);
        assert(trimmed_end(s) == s);
    }
}

/// The join of a first text and others: the first, the separator, and the
/// join of the others.
pub proof fn lemma_join_first(a: Seq<char>, rest: Seq<Seq<char>>, sep: Seq<char>)
    requires
        rest.len() > 0,
    ensures
        join(seq![a] + rest, sep) == a + sep + join(rest, sep),
    decreases rest.len(),
{
    let all = seq![a] + rest;
    assert(all.last() == rest.last());
    assert(all.drop_last() =~= seq![a] + rest.drop_last());
    if rest.len() == 1 {
        assert(all.drop_last() =~= seq![a]);
        assert(seq![a].len() == 1);
        assert(join(seq![a], sep) == a);
        assert(join(rest, sep) == rest.last());
        assert(join(all, sep) =~= a + sep + rest.last());
    } else {
        lemma_join_first(a, rest.drop_last(), sep);
        assert(join(all, sep) =~= a + sep + join(rest, sep));
    }
}

/// In the text `a`, the pattern `pat` and the text `r` in a row, where `a`
/// holds no `pat` and none begins in `a` and ends outside it, the first
/// `pat` is the one after `a`.
pub proof fn lemma_first_occurrence_after(a: Seq<char>, pat: Seq<char>, r: Seq<char>)
    requires
        pat.len() > 0,
        !contains(a, pat),
        forall|j: int| 0 <= j < a.len() && j + pat.len() > a.len() ==> !occurs_at(a + pat + r, pat, j),
    ensures
        first_occurrence(a + pat + r, pat) == Some(a.len() as int),
{
    let s = a + pat + r;
    lemma_first_occurrence_from(a, pat, 0);
    assert(s.subrange(a.len() as int, (a.len() + pat.len()) as int) =~= pat);
    assert forall|j: int| 0 <= j < a.len() implies !occurs_at(s, pat, j) by {
        if j + pat.len() <= a.len() {
            assert(s.subrange(j, j + pat.len()) =~= a.subrange(j, j + pat.len()));
            assert(!occurs_at(a, pat, j));
        }
    }
    lemma_first_occurrence_is(s, pat, a.len() as int);
}

/// A text that holds no `pat` is its own single piece.
pub proof fn lemma_split_none(a: Seq<char>, pat: Seq<char>)
    requires
        !contains(a, pat),
    ensures
        split(a, pat) == seq![a],
{
}

/// The pieces of the text `a`, the pattern `pat` and the text `r` in a row,
/// under the conditions of `lemma_first_occurrence_after`: `a` and the
/// pieces of `r`.
pub proof fn lemma_split_after(a: Seq<char>, pat: Seq<char>, r: Seq<char>)
    requires
        pat.len() > 0,
        !contains(a, pat),
        forall|j: int| 0 <= j < a.len() && j + pat.len() > a.len() ==> !occurs_at(a + pat + r, pat, j),
    ensures
        split(a + pat + r, pat) == seq![a] + split(r, pat),
{
    let s = a + pat + r;
    lemma_first_occurrence_after(a, pat, r);
    assert(s.take(a.len() as int) =~= a);
    assert(s.skip((a.len() + pat.len()) as int) =~= r);
}

/// A text that begins with no whitespace begins, trimmed, as before.
pub proof fn lemma_trimmed_first(s: Seq<char>)
    requires
        s.len() > 0,
        !is_whitespace(s[0]),
    ensures
        trimmed(s).len() > 0,
        trimmed(s)[0] == s[0],
{
    lemma_trimmed_end(s);
    let t = trimmed_end(s);
    assert(t.len() > 0) by {
        lemma_trimmed_end_keeps(s, 0);
    }
}

/// Trimming the end of a text keeps what stands up to a character that is
/// no whitespace.
pub proof fn lemma_trimmed_end_keeps(s: Seq<char>, i: int)
    requires
        0 <= i < s.len(),
        !is_whitespace(s[i]),
    ensures
        trimmed_end(s).len() > i,
    decreases s.len(),
{
    if is_whitespace(s.last()) {
        lemma_trimmed_end_keeps(s.drop_last(), i);
    }
}

/// The first line of a text that begins with no whitespace begins as the
/// text does.
pub proof fn lemma_first_line(s: Seq<char>)
    requires
        s.len() > 0,
        !is_whitespace(s[0]),
    ensures
        lines(s).len() > 0,
        lines(s)[0].len() > 0,
        lines(s)[0][0] == s[0],
{
    let feed = seq!['\n'];
    lemma_first_occurrence_from(s, feed, 0);
    match first_occurrence(s, feed) {
        Some(p) => {
            assert(s.subrange(p, p + 1)[0] == feed[0]);
            assert(s[p] == '\n');
            assert(p > 0);
            let line = s.take(p);
            assert(line[0] == s[0]);
            if line.len() > 0 && line.last() == '\r' {
                assert(is_whitespace('\r'));
                assert(line.len() > 1);
                assert(without_carriage_return(line)[0] == s[0]);
            }
        },
        None => {},
    }
}

/// A text that does not hold the character `c` does not hold the pattern
/// made of `c` alone.
pub proof fn lemma_without_char(s: Seq<char>, c: char)
    requires
        !s.contains(c),
    ensures
        !contains(s, seq![c]),
{
    assert forall|j: int| 0 <= j < s.len() implies !occurs_at(s, seq![c], j) by {
        if occurs_at(s, seq![c], j) {
            assert(s.subrange(j, j + 1)[0] == seq![c][0]);
            assert(s[j] == c);
        }
    }
    lemma_first_occurrence_none(s, seq![c]);
}

/// Texts that do not hold the character `c`, joined with `c`, are what the
/// join splits into at `c`.
pub proof fn lemma_split_join_char(parts: Seq<Seq<char>>, c: char)
    requires
        parts.len() > 0,
        forall|i: int| 0 <= i < parts.len() ==> !(#[trigger] parts[i]).contains(c),
    ensures
        split(join(parts, seq![c]), seq![c]) == parts,
    decreases parts.len(),
{
    let sep = seq![c];
    let a = parts[0];
    let rest = parts.skip(1);
    assert(parts =~= seq![a] + rest);
    lemma_without_char(a, c);
    if rest.len() == 0 {
        assert(parts =~= seq![a]);
        assert(join(parts, sep) == a);
        lemma_split_none(a, sep);
    } else {
        assert forall|i: int| 0 <= i < rest.len() implies !(#[trigger] rest[i]).contains(c) by {
            assert(rest[i] == parts[i + 1]);
        }
        lemma_split_join_char(rest, c);
        lemma_join_first(a, rest, sep);
        lemma_split_after(a, sep, join(rest, sep));
    }
}

/// Whether `x` can stand as one line of a section: it is not empty, has no
/// whitespace at its start or end, and holds no line feed.
pub open spec fn is_line(x: Seq<char>) -> bool {
    x.len() > 0 && is_trimmed(x) && !x.contains('\n')
}

/// Whether each of `ls` can stand as one line of a section.
pub open spec fn are_lines(ls: Seq<Seq<char>>) -> bool {
    forall|i: int| 0 <= i < ls.len() ==> is_line(#[trigger] ls[i])
}

/// What is left of lines without the first is lines.
pub proof fn lemma_are_lines_skip(ls: Seq<Seq<char>>)
    requires
        ls.len() > 0,
        are_lines(ls),
    ensures
        are_lines(ls.skip(1)),
        are_lines(ls.drop_last()),
        is_line(ls[0]),
        is_line(ls.last()),
{
    assert forall|i: int| 0 <= i < ls.skip(1).len() implies is_line(#[trigger] ls.skip(1)[i]) by {
        assert(ls.skip(1)[i] == ls[i + 1]);
    }
    assert forall|i: int| 0 <= i < ls.drop_last().len() implies is_line(
        #[trigger] ls.drop_last()[i],
    ) by {
        assert(ls.drop_last()[i] == ls[i]);
    }
}

/// Lines that were joined with line feeds are the lines of the join.
pub proof fn lemma_lines_join(ls: Seq<Seq<char>>)
    requires
        are_lines(ls),
    ensures
        lines(join(ls, seq!['\n'])) == ls,
    decreases ls.len(),
{
    let feed = seq!['\n'];
    if ls.len() == 0 {
        assert(lines(join(ls, feed)) =~= ls);
        return ;
    }
    lemma_are_lines_skip(ls);
    let a = ls[0];
    let rest = ls.skip(1);
    assert(ls =~= seq![a] + rest);
    lemma_without_char(a, '\n');
    assert(is_whitespace('\r'));
    assert(without_carriage_return(a) == a);
    if rest.len() == 0 {
        assert(ls =~= seq![a]);
        assert(join(ls, feed) == a);
        assert(lines(a) =~= seq![a]);
    } else {
        lemma_lines_join(rest);
        lemma_join_first(a, rest, feed);
        let r = join(rest, feed);
        let s = a + feed + r;
        lemma_first_occurrence_after(a, feed, r);
        assert(s.take(a.len() as int) =~= a);
        assert(s.skip((a.len() + 1) as int) =~= r);
        assert(lines(s) =~= seq![a] + rest);
    }
}

/// Lines that were joined with line feeds hold no blank line, and have no
/// whitespace at the start or the end.
pub proof fn lemma_join_of_lines(ls: Seq<Seq<char>>)
    requires
        ls.len() > 0,
        are_lines(ls),
    ensures
        join(ls, seq!['\n']).len() > 0,
        is_trimmed(join(ls, seq!['\n'])),
        !contains(join(ls, seq!['\n']), seq!['\n', '\n']),
        join(ls, seq!['\n'])[0] == ls[0][0],
        join(ls, seq!['\n']).last() == ls.last().last(),
    decreases ls.len(),
{
    let feed = seq!['\n'];
    let blank = seq!['\n', '\n'];
    lemma_are_lines_skip(ls);
    let last = ls.last();
    let s = join(ls, feed);
    if ls.len() == 1 {
        assert(s == last);
        assert forall|j: int| 0 <= j < s.len() implies !occurs_at(s, blank, j) by {
            if occurs_at(s, blank, j) {
                assert(s.subrange(j, j + 2)[0] == blank[0]);
                assert(s[j] == '\n');
                assert(s.contains('\n'));
            }
        }
        lemma_first_occurrence_none(s, blank);
    } else {
        let front = join(ls.drop_last(), feed);
        lemma_join_of_lines(ls.drop_last());
        assert(s == front + feed + last);
        assert(ls.drop_last()[0] == ls[0]);
        lemma_first_occurrence_from(front, blank, 0);
        assert(is_whitespace('\n'));
        assert forall|j: int| 0 <= j < s.len() implies !occurs_at(s, blank, j) by {
            if occurs_at(s, blank, j) {
                assert(s.subrange(j, j + 2)[0] == blank[0]);
                assert(s.subrange(j, j + 2)[1] == blank[1]);
                assert(s[j] == '\n' && s[j + 1] == '\n');
                if j + 2 <= front.len() {
                    assert(front.subrange(j, j + 2) =~= s.subrange(j, j + 2));
                    assert(occurs_at(front, blank, j));
                } else if j == front.len() - 1 {
                    assert(s[j] == front.last());
                } else if j == front.len() {
                    assert(s[j + 1] == last[0]);
                } else {
                    assert(s[j] == last[j - front.len() - 1]);
                    assert(last.contains('\n'));
                }
            }
        }
        lemma_first_occurrence_none(s, blank);
    }
}

/// The digits of a number are digits, and there is at least one.
pub proof fn lemma_decimal_digits(n: nat)
    ensures
        decimal(n).len() > 0,
        forall|i: int| 0 <= i < decimal(n).len() ==> '0' <= #[trigger] decimal(n)[i] <= '9',
    decreases n,
{
    if n >= 10 {
        lemma_decimal_digits(n / 10);
        let d = digit_char(n % 10);
        assert('0' <= d <= '9');
    } else {
        let d = digit_char(n);
        assert('0' <= d <= '9');
    }
}

/// A join whose first text is not empty begins as that text does.
pub proof fn lemma_join_begins(parts: Seq<Seq<char>>, sep: Seq<char>)
    requires
        parts.len() > 0,
        parts[0].len() > 0,
    ensures
        join(parts, sep).len() > 0,
        join(parts, sep)[0] == parts[0][0],
{
    if parts.len() > 1 {
        assert(parts =~= seq![parts[0]] + parts.skip(1));
        lemma_join_first(parts[0], parts.skip(1), sep);
    }
}

/// A join whose last text is not empty ends as that text does.
pub proof fn lemma_join_finishes(parts: Seq<Seq<char>>, sep: Seq<char>)
    requires
        parts.len() > 0,
        parts.last().len() > 0,
    ensures
        join(parts, sep).len() > 0,
        join(parts, sep).last() == parts.last().last(),
{
}

/// The number of characters `c` at the start of `n` of them, followed by a
/// text that does not begin with one, is `n`.
pub proof fn lemma_leading_count_repeated(c: char, n: nat, rest: Seq<char>)
    requires
        rest.len() == 0 || rest[0] != c,
    ensures
        leading_count(repeated(c, n) + rest, c) == n,
        (repeated(c, n) + rest).skip(n as int) == rest,
    decreases n,
{
    let s = repeated(c, n) + rest;
    if n == 0 {
        assert(s =~= rest);
        assert(s.skip(0) =~= rest);
    } else {
        lemma_leading_count_repeated(c, (n - 1) as nat, rest);
        assert(s.skip(1) =~= repeated(c, (n - 1) as nat) + rest);
        assert(s.skip(n as int) =~= s.skip(1).skip(n - 1));
        assert(s[0] == c);
    }
}

/// One character `c` before and after a text that neither begins nor ends
/// with `c`, and is not empty, is all that leaves when the `c` around are
/// taken away.
pub proof fn lemma_without_surrounding_one(s: Seq<char>, c: char)
    requires
        s.len() > 0,
        s[0] != c,
        s.last() != c,
    ensures
        without_surrounding(seq![c] + s + seq![c], c) == s,
{
    let l = seq![c] + s + seq![c];
    assert(l.skip(1) =~= s + seq![c]);
    assert((s + seq![c])[0] == s[0]);
    assert(without_leading(s + seq![c], c) == s + seq![c]);
    assert(without_leading(l, c) == s + seq![c]);
    assert((s + seq![c]).drop_last() =~= s);
    assert(without_trailing(s, c) == s);
}

/// A join holds the character `c` only where one of the texts or the
/// separator does.
pub proof fn lemma_join_without_char(parts: Seq<Seq<char>>, sep: Seq<char>, c: char)
    requires
        forall|i: int| 0 <= i < parts.len() ==> !(#[trigger] parts[i]).contains(c),
        !sep.contains(c),
    ensures
        !join(parts, sep).contains(c),
    decreases parts.len(),
{
    let s = join(parts, sep);
    if parts.len() == 0 {
    } else if parts.len() == 1 {
        assert(!parts[0].contains(c));
    } else {
        let front = parts.drop_last();
        assert forall|i: int| 0 <= i < front.len() implies !(#[trigger] front[i]).contains(c) by {
            assert(front[i] == parts[i]);
        }
        lemma_join_without_char(front, sep, c);
        let f = join(front, sep);
        let last = parts.last();
        assert(!last.contains(c));
        if s.contains(c) {
            let i = choose|i: int| 0 <= i < s.len() && s[i] == c;
            if i < f.len() {
                assert(f[i] == c);
                assert(f.contains(c));
            } else if i < f.len() + sep.len() {
                assert(sep[i - f.len()] == c);
                assert(sep.contains(c));
            } else {
                assert(last[i - f.len() - sep.len()] == c);
                assert(last.contains(c));
            }
        }
    }
}

/// The join of texts in a row, divided between two of them.
pub proof fn lemma_join_concat(a: Seq<Seq<char>>, b: Seq<Seq<char>>, sep: Seq<char>)
    requires
        a.len() > 0,
        b.len() > 0,
    ensures
        join(a + b, sep) == join(a, sep) + sep + join(b, sep),
    decreases b.len(),
{
    let all = a + b;
    assert(all.last() == b.last());
    assert(all.drop_last() =~= a + b.drop_last());
    if b.len() == 1 {
        assert(all.drop_last() =~= a);
        assert(join(b, sep) == b.last());
    } else {
        lemma_join_concat(a, b.drop_last(), sep);
        assert(join(all, sep) =~= join(a, sep) + sep + join(b, sep));
    }
}

/// Whitespace after a text that is not empty and has none at its start or
/// end is what trimming takes away.
pub proof fn lemma_trimmed_with_whitespace_after(x: Seq<char>, ws: Seq<char>)
    requires
        x.len() > 0,
        is_trimmed(x),
        forall|i: int| 0 <= i < ws.len() ==> is_whitespace(#[trigger] ws[i]),
    ensures
        trimmed(x + ws) == x,
    decreases ws.len(),
{
    let s = x + ws;
    assert(s[0] == x[0]);
    assert(trimmed_start(s) == s);
    if ws.len() == 0 {
        assert(s =~= x);
        lemma_trimmed_is_self(x);
    } else {
        assert(s.last() == ws.last());
        assert(s.drop_last() =~= x + ws.drop_last());
        assert forall|i: int| 0 <= i < ws.drop_last().len() implies is_whitespace(
            #[trigger] ws.drop_last()[i],
        ) by {
            assert(ws.drop_last()[i] == ws[i]);
        }
        lemma_trimmed_with_whitespace_after(x, ws.drop_last());
        let shorter = x + ws.drop_last();
        assert(shorter[0] == x[0]);
        assert(trimmed_start(shorter) == shorter);
    }
}

/// Whitespace before a text is what trimming takes away.
pub proof fn lemma_trimmed_with_whitespace_before(c: char, x: Seq<char>)
    requires
        is_whitespace(c),
    ensures
        trimmed(seq![c] + x) == trimmed(x),
{
    assert((seq![c] + x).skip(1) =~= x);
}

/// After one character that the pattern does not begin with, the pattern
/// is found one index later.
pub proof fn lemma_first_occurrence_shift(c: char, s: Seq<char>, pat: Seq<char>)
    requires
        pat.len() > 0,
        pat[0] != c,
    ensures
        first_occurrence(seq![c] + s, pat) == match first_occurrence(s, pat) {
            Some(p) => Some(p + 1),
            None => None,
        },
{
    let t = seq![c] + s;
    lemma_first_occurrence_from(s, pat, 0);
    assert forall|j: int| 0 < j <= s.len() implies occurs_at(t, pat, j) == occurs_at(
        s,
        pat,
        j - 1,
    ) by {
        if j + pat.len() <= t.len() {
            assert(t.subrange(j, j + pat.len()) =~= s.subrange(j - 1, j - 1 + pat.len()));
        }
    }
    assert(!occurs_at(t, pat, 0)) by {
        if occurs_at(t, pat, 0) {
            assert(t.subrange(0, pat.len() as int)[0] == pat[0]);
        }
    }
    match first_occurrence(s, pat) {
        Some(p) => {
            assert forall|j: int| 0 <= j < p + 1 implies !occurs_at(t, pat, j) by {
                if j > 0 {
                    assert(!occurs_at(s, pat, j - 1));
                }
            }
            lemma_first_occurrence_is(t, pat, p + 1);
        },
        None => {
            assert forall|j: int| 0 <= j < t.len() implies !occurs_at(t, pat, j) by {
                if j > 0 {
                    assert(!occurs_at(s, pat, j - 1));
                }
            }
            lemma_first_occurrence_none(t, pat);
        },
    }
}

/// A join of texts that are not empty begins as the first and ends as the
/// last of them.
pub proof fn lemma_join_ends(parts: Seq<Seq<char>>, sep: Seq<char>)
    requires
        parts.len() > 0,
        forall|i: int| 0 <= i < parts.len() ==> (#[trigger] parts[i]).len() > 0,
    ensures
        join(parts, sep).len() > 0,
        join(parts, sep)[0] == parts[0][0],
        join(parts, sep).last() == parts.last().last(),
    decreases parts.len(),
{
    if parts.len() > 1 {
        let front = parts.drop_last();
        assert forall|i: int| 0 <= i < front.len() implies (#[trigger] front[i]).len() > 0 by {
            assert(front[i] == parts[i]);
        }
        lemma_join_ends(front, sep);
        assert(front[0] == parts[0]);
    }
}

} // verus!
