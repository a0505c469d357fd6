//! Character sequences: whitespace, trimming, searching, splitting, joining.
//!
//! The specification functions work on `Seq<char>`; the executable functions
//! work on slices of `char` and are proved against them.

use vstd::prelude::*;
use vstd::slice::{slice_subrange, slice_to_vec};

verus! {

/// Whether `c` has the Unicode property White_Space.
pub open spec fn is_whitespace(c: char) -> bool {
    ||| '\u{9}' <= c <= '\u{d}'
    ||| c == ' '
    ||| c == '\u{85}'
    ||| c == '\u{a0}'
    ||| c == '\u{1680}'
    ||| '\u{2000}' <= c <= '\u{200a}'
    ||| c == '\u{2028}'
    ||| c == '\u{2029}'
    ||| c == '\u{202f}'
    ||| c == '\u{205f}'
    ||| c == '\u{3000}'
}

/// `s` without its leading whitespace.
pub open spec fn trimmed_start(s: Seq<char>) -> Seq<char>
    decreases s.len(),
{
    if s.len() > 0 && is_whitespace(s[0]) {
        trimmed_start(s.skip(1))
    } else {
        s
    }
}

/// `s` without its trailing whitespace.
pub open spec fn trimmed_end(s: Seq<char>) -> Seq<char>
    decreases s.len(),
{
    if s.len() > 0 && is_whitespace(s.last()) {
        trimmed_end(s.drop_last())
    } else {
        s
    }
}

/// `s` without its leading and trailing whitespace.
pub open spec fn trimmed(s: Seq<char>) -> Seq<char> {
    trimmed_end(trimmed_start(s))
}

/// Whether `pat` stands in `s` at index `i`.
pub open spec fn occurs_at(s: Seq<char>, pat: Seq<char>, i: int) -> bool {
    0 <= i && i + pat.len() <= s.len() && s.subrange(i, i + pat.len()) == pat
}

/// The least index at or after `from` at which `pat` stands in `s`.
pub open spec fn first_occurrence_from(s: Seq<char>, pat: Seq<char>, from: int) -> Option<int>
    decreases s.len() - from,
{
    if from < 0 || from >= s.len() || from + pat.len() > s.len() {
        None
    } else if occurs_at(s, pat, from) {
        Some(from)
    } else {
        first_occurrence_from(s, pat, from + 1)
    }
}

/// The least index at which `pat` stands in `s`.
pub open spec fn first_occurrence(s: Seq<char>, pat: Seq<char>) -> Option<int> {
    first_occurrence_from(s, pat, 0)
}

/// Whether `pat` stands somewhere in `s`.
pub open spec fn contains(s: Seq<char>, pat: Seq<char>) -> bool {
    first_occurrence(s, pat) is Some
}

/// The pieces of `s` between the occurrences of `pat`, found from left to
/// right without overlap. There is always at least one piece, and an empty
/// pattern divides nothing.
pub open spec fn split(s: Seq<char>, pat: Seq<char>) -> Seq<Seq<char>>
    decreases s.len(),
    via split_decreases
{
    if pat.len() == 0 {
        seq![s]
    } else {
        match first_occurrence(s, pat) {
            None => seq![s],
            Some(p) => seq![s.take(p)] + split(s.skip(p + pat.len()), pat),
        }
    }
}

#[via_fn]
proof fn split_decreases(s: Seq<char>, pat: Seq<char>) {
    lemma_first_occurrence_from(s, pat, 0);
}

/// `line` without one trailing carriage return.
pub open spec fn without_carriage_return(line: Seq<char>) -> Seq<char> {
    if line.len() > 0 && line.last() == '\r' {
        line.drop_last()
    } else {
        line
    }
}

/// The lines of `s`. A line ends at a line feed; a carriage return directly
/// before that line feed belongs to the line ending. Nothing follows a final
/// line ending, and the empty text has no line.
pub open spec fn lines(s: Seq<char>) -> Seq<Seq<char>>
    decreases s.len(),
    via lines_decreases
{
    if s.len() == 0 {
        seq![]
    } else {
        match first_occurrence(s, seq!['\n']) {
            None => seq![s],
            Some(p) => seq![without_carriage_return(s.take(p))] + lines(s.skip(p + 1)),
        }
    }
}

#[via_fn]
proof fn lines_decreases(s: Seq<char>) {
    lemma_first_occurrence_from(s, seq!['\n'], 0);
}

/// The texts of `parts` in order, with `sep` between neighbours.
pub open spec fn join(parts: Seq<Seq<char>>, sep: Seq<char>) -> Seq<char>
    decreases parts.len(),
{
    if parts.len() == 0 {
        seq![]
    } else if parts.len() == 1 {
        parts[0]
    } else {
        join(parts.drop_last(), sep) + sep + parts.last()
    }
}

/// `s` without the characters `c` at its start.
pub open spec fn without_leading(s: Seq<char>, c: char) -> Seq<char>
    decreases s.len(),
{
    if s.len() > 0 && s[0] == c {
        without_leading(s.skip(1), c)
    } else {
        s
    }
}

/// `s` without the characters `c` at its end.
pub open spec fn without_trailing(s: Seq<char>, c: char) -> Seq<char>
    decreases s.len(),
{
    if s.len() > 0 && s.last() == c {
        without_trailing(s.drop_last(), c)
    } else {
        s
    }
}

/// `s` without the characters `c` at its start and at its end.
pub open spec fn without_surrounding(s: Seq<char>, c: char) -> Seq<char> {
    without_trailing(without_leading(s, c), c)
}

/// How many characters `c` stand at the start of `s`.
pub open spec fn leading_count(s: Seq<char>, c: char) -> nat
    decreases s.len(),
{
    if s.len() > 0 && s[0] == c {
        1 + leading_count(s.skip(1), c)
    } else {
        0
    }
}

/// The character of the decimal digit `d`.
pub open spec fn digit_char(d: nat) -> char {
    ((d + 48) as u8) as char
}

/// `n` written in decimal, without leading zeros.
pub open spec fn decimal(n: nat) -> Seq<char>
    decreases n,
{
    if n < 10 {
        seq![digit_char(n)]
    } else {
        decimal(n / 10).push(digit_char(n % 10))
    }
}

/// The character `c`, `n` times.
pub open spec fn repeated(c: char, n: nat) -> Seq<char> {
    Seq::new(n, |i: int| c)
}

/// The texts that the vectors of `v` hold.
pub open spec fn texts(v: Seq<Vec<char>>) -> Seq<Seq<char>> {
    v.map_values(|x: Vec<char>| x@)
}

/// Whether `c` has the Unicode property White_Space.
pub fn is_whitespace_char(c: char) -> (r: bool)
    ensures
        r == is_whitespace(c),
{
    ('\u{9}' <= c && c <= '\u{d}') || c == ' ' || c == '\u{85}' || c == '\u{a0}'
        || c == '\u{1680}' || ('\u{2000}' <= c && c <= '\u{200a}') || c == '\u{2028}'
        || c == '\u{2029}' || c == '\u{202f}' || c == '\u{205f}' || c == '\u{3000}'
}

/// The characters of `s` as a vector.
pub fn chars_of(s: &str) -> (v: Vec<char>)
    ensures
        v@ == s@,
{
    let mut v: Vec<char> = Vec::new();
    for c in it: s.chars()
        invariant
            v@ == it.seq().take(it.index() as int),
            it.seq() == s@,
    {
        v.push(c);
    }
    v
}

/// Not proved. `std::string::String::push`, by its documentation, appends
/// the character to the end of the string; the contract says that, of the
/// string as a sequence of characters.
pub assume_specification[ String::push ](s: &mut String, c: char)
    ensures
        final(s)@ == old(s)@.push(c),
;

/// The string that holds the characters of `v`.
pub fn string_of(v: &[char]) -> (s: String)
    ensures
        s@ == v@,
{
    let mut s = String::new();
    let mut i: usize = 0;
    while i < v.len()
        invariant
            i <= v.len(),
            s@ == v@.take(i as int),
        decreases v.len() - i,
    {
        s.push(v[i]);
        i += 1;
    }
    s
}

/// The index of the first character of `s` that is no whitespace, or the
/// length of `s`.
pub fn trim_start_index(s: &[char]) -> (i: usize)
    ensures
        i <= s.len(),
        trimmed_start(s@) == s@.skip(i as int),
{
    let mut i: usize = 0;
    assert(s@.skip(0) =~= s@);
    while i < s.len() && is_whitespace_char(s[i])
        invariant
            i <= s.len(),
            trimmed_start(s@) == trimmed_start(s@.skip(i as int)),
        decreases s.len() - i,
    {
        assert(s@.skip(i as int).skip(1) =~= s@.skip(i + 1));
        i += 1;
    }
    i
}

/// The index after the last character of `s` that is no whitespace, or 0.
pub fn trim_end_index(s: &[char]) -> (j: usize)
    ensures
        j <= s.len(),
        trimmed_end(s@) == s@.take(j as int),
{
    let mut j: usize = s.len();
    assert(s@.take(j as int) =~= s@);
    while j > 0 && is_whitespace_char(s[j - 1])
        invariant
            j <= s.len(),
            trimmed_end(s@) == trimmed_end(s@.take(j as int)),
        decreases j,
    {
        assert(s@.take(j as int).drop_last() =~= s@.take(j - 1));
        j -= 1;
    }
    j
}

/// `s` without its leading whitespace.
pub fn trim_start<'a>(s: &'a [char]) -> (r: &'a [char])
    ensures
        r@ == trimmed_start(s@),
{
    let i = trim_start_index(s);
    let r = slice_subrange(s, i, s.len());
    assert(r@ =~= s@.skip(i as int));
    r
}

/// `s` without its trailing whitespace.
pub fn trim_end<'a>(s: &'a [char]) -> (r: &'a [char])
    ensures
        r@ == trimmed_end(s@),
{
    let j = trim_end_index(s);
    let r = slice_subrange(s, 0, j);
    assert(r@ =~= s@.take(j as int));
    r
}

/// `s` without its leading and trailing whitespace.
pub fn trim<'a>(s: &'a [char]) -> (r: &'a [char])
    ensures
        r@ == trimmed(s@),
{
    trim_end(trim_start(s))
}

/// What `first_occurrence_from` finds is an occurrence, and the first one
/// at or after `from`.
pub proof fn lemma_first_occurrence_from(s: Seq<char>, pat: Seq<char>, from: int)
    requires
        0 <= from,
    ensures
        match first_occurrence_from(s, pat, from) {
            Some(p) => from <= p < s.len() && occurs_at(s, pat, p) && forall|j: int|
                from <= j < p ==> !occurs_at(s, pat, j),
            None => forall|j: int| from <= j < s.len() ==> !occurs_at(s, pat, j),
        },
    decreases s.len() - from,
{
    if from >= s.len() || from + pat.len() > s.len() {
    } else if occurs_at(s, pat, from) {
    } else {
        lemma_first_occurrence_from(s, pat, from + 1);
    }
}

/// An occurrence before which there is none is the first occurrence.
pub proof fn lemma_first_occurrence_is(s: Seq<char>, pat: Seq<char>, p: int)
    requires
        0 <= p < s.len(),
        occurs_at(s, pat, p),
        forall|j: int| 0 <= j < p ==> !occurs_at(s, pat, j),
    ensures
        first_occurrence(s, pat) == Some(p),
{
    lemma_first_occurrence_from(s, pat, 0);
}

/// Where no occurrence stands, none is found.
pub proof fn lemma_first_occurrence_none(s: Seq<char>, pat: Seq<char>)
    requires
        forall|j: int| 0 <= j < s.len() ==> !occurs_at(s, pat, j),
    ensures
        first_occurrence(s, pat) is None,
{
    lemma_first_occurrence_from(s, pat, 0);
}

/// Whether `pat` stands in `s` at index `i`.
pub fn stands_at(s: &[char], pat: &[char], i: usize) -> (r: bool)
    ensures
        r == occurs_at(s@, pat@, i as int),
{
    if i > s.len() || pat.len() > s.len() - i {
        return false;
    }
    let mut k: usize = 0;
    while k < pat.len()
        invariant
            k <= pat.len(),
            i + pat.len() <= s.len(),
            forall|j: int| 0 <= j < k ==> s@[i + j] == pat@[j],
        decreases pat.len() - k,
    {
        if s[i + k] != pat[k] {
            assert(s@.subrange(i as int, i + pat.len())[k as int] != pat@[k as int]);
            return false;
        }
        k += 1;
    }
    assert(s@.subrange(i as int, i + pat.len()) =~= pat@);
    true
}

/// The least index at which `pat` stands in `s`.
pub fn find(s: &[char], pat: &[char]) -> (r: Option<usize>)
    ensures
        match r {
            Some(p) => first_occurrence(s@, pat@) == Some(p as int) && p + pat.len() <= s.len(),
            None => first_occurrence(s@, pat@) is None,
        },
{
    let mut i: usize = 0;
    while i < s.len() && pat.len() <= s.len() - i
        invariant
            i <= s.len(),
            first_occurrence_from(s@, pat@, i as int) == first_occurrence(s@, pat@),
        decreases s.len() - i,
    {
        if stands_at(s, pat, i) {
            return Some(i);
        }
        i += 1;
    }
    None
}

/// Whether `s` begins with `pat`.
pub fn starts_with(s: &[char], pat: &[char]) -> (r: bool)
    ensures
        r == pat@.is_prefix_of(s@),
{
    let r = stands_at(s, pat, 0);
    proof {
        if pat@.len() <= s@.len() {
            assert(s@.subrange(0, pat@.len() as int) =~= s@.take(pat@.len() as int));
            if r {
                assert(pat@ =~= s@.subrange(0, pat@.len() as int));
            }
            if pat@.is_prefix_of(s@) {
                assert(s@.subrange(0, pat@.len() as int) =~= pat@);
            }
        }
    }
    r
}

/// Adding one text to the vectors adds its view to their texts.
pub proof fn lemma_texts_push(v: Seq<Vec<char>>, x: Vec<char>)
    ensures
        texts(v.push(x)) == texts(v).push(x@),
{
    assert(texts(v.push(x)) =~= texts(v).push(x@));
}

/// The pieces of `s` between the occurrences of `pat`.
pub fn split_on(s: &[char], pat: &[char]) -> (parts: Vec<Vec<char>>)
    ensures
        texts(parts@) == split(s@, pat@),
{
    let mut parts: Vec<Vec<char>> = Vec::new();
    if pat.len() == 0 {
        parts.push(slice_to_vec(s));
        assert(texts(parts@) =~= seq![s@]);
        return parts;
    }
    let mut rest: &[char] = s;
    assert(texts(parts@) + split(rest@, pat@) =~= split(s@, pat@));
    loop
        invariant_except_break
            pat.len() > 0,
            texts(parts@) + split(rest@, pat@) == split(s@, pat@),
        ensures
            texts(parts@) == split(s@, pat@),
        decreases rest.len(),
    {
        match find(rest, pat) {
            None => {
                let ghost before = parts@;
                let piece = slice_to_vec(rest);
                parts.push(piece);
                proof {
                    lemma_texts_push(before, piece);
                    assert(texts(before).push(rest@) =~= texts(before) + seq![rest@]);
                }
                break ;
            },
            Some(p) => {
                let ghost before = parts@;
                let ghost old_rest = rest@;
                let piece = slice_to_vec(slice_subrange(rest, 0, p));
                parts.push(piece);
                rest = slice_subrange(rest, p + pat.len(), rest.len());
                proof {
                    lemma_texts_push(before, piece);
                    assert(piece@ =~= old_rest.take(p as int));
                    assert(rest@ =~= old_rest.skip(p + pat.len()));
                    assert(texts(before).push(piece@) + split(rest@, pat@) =~= texts(before) + (
                    seq![old_rest.take(p as int)] + split(old_rest.skip(p + pat.len()), pat@)));
                }
            },
        }
    }
    parts
}

/// The lines of `s`.
pub fn lines_of(s: &[char]) -> (parts: Vec<Vec<char>>)
    ensures
        texts(parts@) == lines(s@),
{
    let mut parts: Vec<Vec<char>> = Vec::new();
    let mut rest: &[char] = s;
    let feed: Vec<char> = vec!['\n'];
    assert(feed@ =~= seq!['\n']);
    assert(texts(parts@) + lines(rest@) =~= lines(s@));
    while rest.len() > 0
        invariant
            feed@ == seq!['\n'],
            texts(parts@) + lines(rest@) == lines(s@),
        decreases rest.len(),
    {
        let ghost before = parts@;
        let ghost old_rest = rest@;
        match find(rest, feed.as_slice()) {
            None => {
                let piece = slice_to_vec(rest);
                parts.push(piece);
                rest = slice_subrange(rest, rest.len(), rest.len());
                proof {
                    lemma_texts_push(before, piece);
                    assert(rest@ =~= Seq::<char>::empty());
                    assert(texts(before).push(old_rest) + lines(rest@) =~= texts(before)
                        + seq![old_rest]);
                }
            },
            Some(p) => {
                let end = if p > 0 && rest[p - 1] == '\r' {
                    p - 1
                } else {
                    p
                };
                let piece = slice_to_vec(slice_subrange(rest, 0, end));
                parts.push(piece);
                rest = slice_subrange(rest, p + 1, rest.len());
                proof {
                    lemma_texts_push(before, piece);
                    if p > 0 {
                        assert(old_rest.take(p as int).drop_last() =~= old_rest.take(p - 1));
                    }
                    assert(piece@ =~= without_carriage_return(old_rest.take(p as int)));
                    assert(rest@ =~= old_rest.skip(p + 1));
                    assert(texts(before).push(piece@) + lines(rest@) =~= texts(before) + (
                    seq![without_carriage_return(old_rest.take(p as int))] + lines(
                        old_rest.skip(p + 1),
                    )));
                }
            },
        }
    }
    assert(texts(parts@) + lines(rest@) =~= texts(parts@));
    parts
}

/// The texts of `parts` in order, with `sep` between neighbours.
pub fn join_with(parts: &Vec<Vec<char>>, sep: &[char]) -> (r: Vec<char>)
    ensures
        r@ == join(texts(parts@), sep@),
{
    let mut r: Vec<char> = Vec::new();
    let mut i: usize = 0;
    while i < parts.len()
        invariant
            i <= parts.len(),
            r@ == join(texts(parts@).take(i as int), sep@),
        decreases parts.len() - i,
    {
        let ghost before = r@;
        if i > 0 {
            r.extend_from_slice(sep);
        }
        r.extend_from_slice(parts[i].as_slice());
        proof {
            let t = texts(parts@);
            assert(t.take(i + 1).drop_last() =~= t.take(i as int));
            assert(t.take(i + 1).last() == parts@[i as int]@);
            if i == 0 {
                assert(r@ =~= parts@[i as int]@);
            } else {
                assert(r@ =~= before + sep@ + parts@[i as int]@);
            }
        }
        i += 1;
    }
    assert(texts(parts@).take(parts.len() as int) =~= texts(parts@));
    r
}

/// `s` without the characters `c` at its start and at its end.
pub fn strip_char<'a>(s: &'a [char], c: char) -> (r: &'a [char])
    ensures
        r@ == without_surrounding(s@, c),
{
    let mut i: usize = 0;
    assert(s@.skip(0) =~= s@);
    while i < s.len() && s[i] == c
        invariant
            i <= s.len(),
            without_leading(s@, c) == without_leading(s@.skip(i as int), c),
        decreases s.len() - i,
    {
        assert(s@.skip(i as int).skip(1) =~= s@.skip(i + 1));
        i += 1;
    }
    let mut j: usize = s.len();
    assert(s@.subrange(i as int, j as int) =~= s@.skip(i as int));
    while j > i && s[j - 1] == c
        invariant
            i <= j <= s.len(),
            without_surrounding(s@, c) == without_trailing(s@.subrange(i as int, j as int), c),
        decreases j,
    {
        assert(s@.subrange(i as int, j as int).drop_last() =~= s@.subrange(i as int, j - 1));
        j -= 1;
    }
    slice_subrange(s, i, j)
}

/// How many characters `c` stand at the start of `s`.
pub fn count_leading(s: &[char], c: char) -> (n: usize)
    ensures
        n == leading_count(s@, c),
        n <= s.len(),
{
    let mut i: usize = 0;
    assert(s@.skip(0) =~= s@);
    while i < s.len() && s[i] == c
        invariant
            i <= s.len(),
            leading_count(s@, c) == i + leading_count(s@.skip(i as int), c),
        decreases s.len() - i,
    {
        assert(s@.skip(i as int).skip(1) =~= s@.skip(i + 1));
        i += 1;
    }
    i
}

/// Appends `n` in decimal to `out`.
pub fn push_decimal(out: &mut Vec<char>, n: usize)
    ensures
        final(out)@ == old(out)@ + decimal(n as nat),
    decreases n,
{
    if n >= 10 {
        push_decimal(out, n / 10);
    }
    let d: u8 = (n % 10) as u8;
    let ghost before = out@;
    out.push((d + 48) as char);
    proof {
        if n >= 10 {
            assert(out@ =~= old(out)@ + decimal(n as nat));
        } else {
            assert(out@ =~= old(out)@ + decimal(n as nat));
        }
    }
}

/// Appends the character `c` to `out`, `n` times.
pub fn push_repeated(out: &mut Vec<char>, c: char, n: usize)
    ensures
        final(out)@ == old(out)@ + repeated(c, n as nat),
{
    let mut i: usize = 0;
    assert(out@ =~= old(out)@ + repeated(c, 0));
    while i < n
        invariant
            i <= n,
            out@ == old(out)@ + repeated(c, i as nat),
        decreases n - i,
    {
        out.push(c);
        i += 1;
        assert(out@ =~= old(out)@ + repeated(c, i as nat));
    }
}

/// Appends the characters of `s` to `out`.
pub fn push_str(out: &mut Vec<char>, s: &str)
    ensures
        final(out)@ == old(out)@ + s@,
{
    assert(out@ =~= old(out)@ + s@.take(0));
    for c in it: s.chars()
        invariant
            out@ == old(out)@ + it.seq().take(it.index() as int),
            it.seq() == s@,
    {
        out.push(c);
        assert(out@ =~= old(out)@ + it.seq().take(it.index() + 1));
    }
    assert(s@.take(s@.len() as int) =~= s@);
}

} // verus!
