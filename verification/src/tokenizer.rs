//! The inline tokenizer: the tokens of a run of text, and the balance
//! penalty that decides how three stars in a row are read.

use vstd::prelude::*;
use vstd::slice::{slice_subrange, slice_to_vec};
use crate::inline_facts::lemma_tokens_source;
use crate::inline_parser::source_text;

verus! {

/// One lexical unit of an inline run.
#[derive(Debug, Clone, PartialEq)]
pub enum Token {
    /// A run of literal characters.
    Text(Vec<char>),
    /// `**`
    Bold,
    /// `*`
    Italic,
    /// `` ` ``
    Code,
    /// `[`
    LinkStart,
    /// `](`
    LinkMiddle,
    /// `)`
    LinkEnd,
}

/// What a [`Token`] stands for.
pub enum TokenView {
    Text(Seq<char>),
    Bold,
    Italic,
    Code,
    LinkStart,
    LinkMiddle,
    LinkEnd,
}

impl View for Token {
    type V = TokenView;

    open spec fn view(&self) -> TokenView {
        match self {
            Token::Text(t) => TokenView::Text(t@),
            Token::Bold => TokenView::Bold,
            Token::Italic => TokenView::Italic,
            Token::Code => TokenView::Code,
            Token::LinkStart => TokenView::LinkStart,
            Token::LinkMiddle => TokenView::LinkMiddle,
            Token::LinkEnd => TokenView::LinkEnd,
        }
    }
}

/// What the tokens of `v` stand for, in order.
pub open spec fn tokens_view(v: Seq<Token>) -> Seq<TokenView> {
    v.map_values(|t: Token| t@)
}

/// The kind of an emphasis delimiter.
#[derive(Debug, Clone, Copy, PartialEq, Eq, Structural)]
pub enum Delimiter {
    /// `**`
    Bold,
    /// `*`
    Italic,
}

/// The index of the delimiter of kind `kind` nearest to the top of `stack`,
/// whose top is its last item.
pub open spec fn nearest(stack: Seq<Delimiter>, kind: Delimiter) -> Option<int>
    decreases stack.len(),
{
    if stack.len() == 0 {
        None
    } else if stack.last() == kind {
        Some(stack.len() - 1)
    } else {
        nearest(stack.drop_last(), kind)
    }
}

/// The stack after a closing delimiter of kind `kind` was matched against
/// it: the nearest open delimiter of that kind leaves, if there is one.
pub open spec fn stack_after_close(stack: Seq<Delimiter>, kind: Delimiter) -> Seq<Delimiter> {
    match nearest(stack, kind) {
        Some(pos) => stack.remove(pos),
        None => stack,
    }
}

/// The penalty of matching a closing delimiter of kind `kind` against
/// `stack`: 3 for each open delimiter above the one it closes, 15 where
/// it closes none.
pub open spec fn close_penalty(stack: Seq<Delimiter>, kind: Delimiter) -> int {
    match nearest(stack, kind) {
        Some(pos) => 3 * (stack.len() - 1 - pos),
        None => 15,
    }
}

/// The penalty at the end of the scan of `s` from index `i` on, where
/// `stack` holds the open delimiters and `penalty` was reached so far.
/// Two stars are a bold delimiter, one star is an italic one, and each
/// delimiter left open at the end costs 8.
pub open spec fn balance_from(s: Seq<char>, i: int, stack: Seq<Delimiter>, penalty: int) -> int
    decreases s.len() - i,
{
    if i < 0 || i >= s.len() {
        penalty + 8 * stack.len()
    } else if i + 1 < s.len() && s[i] == '*' && s[i + 1] == '*' {
        balance_from(
            s,
            i + 2,
            stack_after_close(stack, Delimiter::Bold),
            penalty + close_penalty(stack, Delimiter::Bold),
        )
    } else if s[i] == '*' {
        balance_from(
            s,
            i + 1,
            stack_after_close(stack, Delimiter::Italic),
            penalty + close_penalty(stack, Delimiter::Italic),
        )
    } else {
        balance_from(s, i + 1, stack, penalty)
    }
}

/// The open delimiters after the three stars that `s` begins with were read
/// as bold then italic (`bold_first`) or as italic then bold.
pub open spec fn opening_stack(bold_first: bool) -> Seq<Delimiter> {
    if bold_first {
        seq![Delimiter::Bold, Delimiter::Italic]
    } else {
        seq![Delimiter::Italic, Delimiter::Bold]
    }
}

/// The balance penalty of reading the three stars at the start of `s` as
/// bold then italic (`bold_first`) or as italic then bold.
pub open spec fn balance_penalty(s: Seq<char>, bold_first: bool) -> int {
    balance_from(s, 3, opening_stack(bold_first), 0)
}

/// Whether three stars at the start of `s` are read as bold then italic:
/// the reading with the lower penalty wins, and bold comes first on a tie.
pub open spec fn reads_bold_first(s: Seq<char>) -> bool {
    balance_penalty(s, true) <= balance_penalty(s, false)
}

/// The nearest delimiter of a kind is in the stack.
pub proof fn lemma_nearest(stack: Seq<Delimiter>, kind: Delimiter)
    ensures
        nearest(stack, kind) matches Some(pos) ==> 0 <= pos < stack.len() && stack[pos] == kind,
    decreases stack.len(),
{
    if stack.len() > 0 && stack.last() != kind {
        lemma_nearest(stack.drop_last(), kind);
    }
}

/// The scan adds at most 15 for each character that it reads, and 8 for
/// each of at most two delimiters that it leaves open.
pub proof fn lemma_balance_from_bounds(s: Seq<char>, i: int, stack: Seq<Delimiter>, penalty: int)
    requires
        0 <= i,
        stack.len() <= 2,
    ensures
        penalty <= balance_from(s, i, stack, penalty),
        i < s.len() ==> balance_from(s, i, stack, penalty) <= penalty + 15 * (s.len() - i) + 16,
        i >= s.len() ==> balance_from(s, i, stack, penalty) <= penalty + 16,
    decreases s.len() - i,
{
    if i < s.len() {
        lemma_nearest(stack, Delimiter::Bold);
        lemma_nearest(stack, Delimiter::Italic);
        if i + 1 < s.len() && s[i] == '*' && s[i + 1] == '*' {
            lemma_balance_from_bounds(
                s,
                i + 2,
                stack_after_close(stack, Delimiter::Bold),
                penalty + close_penalty(stack, Delimiter::Bold),
            );
        } else if s[i] == '*' {
            lemma_balance_from_bounds(
                s,
                i + 1,
                stack_after_close(stack, Delimiter::Italic),
                penalty + close_penalty(stack, Delimiter::Italic),
            );
        } else {
            lemma_balance_from_bounds(s, i + 1, stack, penalty);
        }
    }
}

/// The balance penalty is at most 15 for each character of the text, and
/// 16 more.
pub proof fn lemma_balance_penalty_bounds(s: Seq<char>, bold_first: bool)
    ensures
        0 <= balance_penalty(s, bold_first) <= 15 * s.len() + 16,
{
    lemma_balance_from_bounds(s, 3, opening_stack(bold_first), 0);
}

/// The index in `stack` of the delimiter of kind `kind` nearest to its top.
fn find_nearest(stack: &Vec<Delimiter>, kind: Delimiter) -> (r: Option<usize>)
    ensures
        match r {
            Some(pos) => nearest(stack@, kind) == Some(pos as int) && pos < stack.len(),
            None => nearest(stack@, kind) is None,
        },
{
    let mut j: usize = stack.len();
    assert(stack@.take(j as int) =~= stack@);
    while j > 0
        invariant
            j <= stack.len(),
            nearest(stack@, kind) == nearest(stack@.take(j as int), kind),
        decreases j,
    {
        if stack[j - 1] == kind {
            return Some(j - 1);
        }
        assert(stack@.take(j as int).drop_last() =~= stack@.take(j - 1));
        j -= 1;
    }
    None
}

/// The balance penalty of `text` under one reading of the three stars that
/// it begins with: bold then italic (`bold_first`), or italic then bold.
pub fn simulate_balance(text: &[char], bold_first: bool) -> (r: u128)
    ensures
        r == balance_penalty(text@, bold_first),
{
    let mut stack: Vec<Delimiter> = Vec::new();
    if bold_first {
        stack.push(Delimiter::Bold);
        stack.push(Delimiter::Italic);
    } else {
        stack.push(Delimiter::Italic);
        stack.push(Delimiter::Bold);
    }
    assert(stack@ =~= opening_stack(bold_first));
    let mut penalty: u128 = 0;
    let mut i: usize = 3;
    if text.len() < 3 {
        return 16;
    }
    while i < text.len()
        invariant
            3 <= i <= text.len(),
            stack.len() <= 2,
            penalty <= 15 * i,
            balance_from(text@, i as int, stack@, penalty as int) == balance_penalty(
                text@,
                bold_first,
            ),
        decreases text.len() - i,
    {
        if i + 1 < text.len() && text[i] == '*' && text[i + 1] == '*' {
            match find_nearest(&stack, Delimiter::Bold) {
                Some(pos) => {
                    let distance: usize = stack.len() - 1 - pos;
                    penalty = penalty + 3 * (distance as u128);
                    stack.remove(pos);
                },
                None => {
                    penalty = penalty + 15;
                },
            }
            i += 2;
        } else if text[i] == '*' {
            match find_nearest(&stack, Delimiter::Italic) {
                Some(pos) => {
                    let distance: usize = stack.len() - 1 - pos;
                    penalty = penalty + 3 * (distance as u128);
                    stack.remove(pos);
                },
                None => {
                    penalty = penalty + 15;
                },
            }
            i += 1;
        } else {
            i += 1;
        }
    }
    penalty + 8 * (stack.len() as u128)
}

/// The two tokens that three stars at the start of `rest` stand for: the
/// reading with the lower balance penalty, and bold first on a tie.
pub fn decide_triple_star(rest: &[char]) -> (r: (Token, Token))
    ensures
        reads_bold_first(rest@) ==> r.0@ == TokenView::Bold && r.1@ == TokenView::Italic,
        !reads_bold_first(rest@) ==> r.0@ == TokenView::Italic && r.1@ == TokenView::Bold,
{
    let bold_first_score = simulate_balance(rest, true);
    let italic_first_score = simulate_balance(rest, false);
    if bold_first_score <= italic_first_score {
        (Token::Bold, Token::Italic)
    } else {
        (Token::Italic, Token::Bold)
    }
}

/// Whether `c` is one of the characters that end a run of literal text.
pub open spec fn is_marker(c: char) -> bool {
    c == '*' || c == '`' || c == '[' || c == ']' || c == ')'
}

/// The end of the run of characters that are no markers and that begins
/// at index `i` of `s`.
pub open spec fn text_run_end(s: Seq<char>, i: int) -> int
    decreases s.len() - i,
{
    if 0 <= i < s.len() && !is_marker(s[i]) {
        text_run_end(s, i + 1)
    } else {
        i
    }
}

/// The tokens `acc` after a closing bracket that opens no link target was
/// read: it joins the literal text that `acc` ends with, or becomes a
/// literal text of its own.
pub open spec fn with_bracket(acc: Seq<TokenView>) -> Seq<TokenView> {
    if acc.len() > 0 && acc.last() is Text {
        acc.drop_last().push(TokenView::Text(acc.last()->Text_0.push(']')))
    } else {
        acc.push(TokenView::Text(seq![']']))
    }
}

/// The tokens of `s`, where `acc` holds the tokens of what stands before
/// index `i`.
///
/// Three stars are a bold and an italic delimiter, in the order that
/// `reads_bold_first` decides on what `s` holds from there on; two stars
/// are a bold delimiter and one star is an italic one. A backtick is a code
/// delimiter, an opening bracket opens a link, a closing bracket directly
/// before an opening parenthesis is a link middle, and a closing
/// parenthesis is a link end. Any other closing bracket is literal text, as
/// `with_bracket` says, and every other character belongs to a run of
/// literal text that goes on up to the next of these characters.
pub open spec fn tokens_from(s: Seq<char>, i: int, acc: Seq<TokenView>) -> Seq<TokenView>
    decreases s.len() - i,
    via tokens_from_decreases
{
    if i < 0 || i >= s.len() {
        acc
    } else if s[i] == '*' {
        if i + 2 < s.len() && s[i + 1] == '*' && s[i + 2] == '*' {
            if reads_bold_first(s.skip(i)) {
                tokens_from(s, i + 3, acc.push(TokenView::Bold).push(TokenView::Italic))
            } else {
                tokens_from(s, i + 3, acc.push(TokenView::Italic).push(TokenView::Bold))
            }
        } else if i + 1 < s.len() && s[i + 1] == '*' {
            tokens_from(s, i + 2, acc.push(TokenView::Bold))
        } else {
            tokens_from(s, i + 1, acc.push(TokenView::Italic))
        }
    } else if s[i] == '`' {
        tokens_from(s, i + 1, acc.push(TokenView::Code))
    } else if s[i] == '[' {
        tokens_from(s, i + 1, acc.push(TokenView::LinkStart))
    } else if s[i] == ']' {
        if i + 1 < s.len() && s[i + 1] == '(' {
            tokens_from(s, i + 2, acc.push(TokenView::LinkMiddle))
        } else {
            tokens_from(s, i + 1, with_bracket(acc))
        }
    } else if s[i] == ')' {
        tokens_from(s, i + 1, acc.push(TokenView::LinkEnd))
    } else {
        let end = text_run_end(s, i);
        tokens_from(s, end, acc.push(TokenView::Text(s.subrange(i, end))))
    }
}

#[via_fn]
proof fn tokens_from_decreases(s: Seq<char>, i: int, acc: Seq<TokenView>) {
    if 0 <= i < s.len() {
        lemma_text_run_end(s, i);
    }
}

/// The tokens of the inline run `s`.
pub open spec fn tokens_of(s: Seq<char>) -> Seq<TokenView> {
    tokens_from(s, 0, seq![])
}

/// A run of text ends within the text, and after its start where the start
/// is no marker.
pub proof fn lemma_text_run_end(s: Seq<char>, i: int)
    requires
        0 <= i <= s.len(),
    ensures
        i <= text_run_end(s, i) <= s.len(),
        i < s.len() && !is_marker(s[i]) ==> i < text_run_end(s, i),
        forall|j: int| i <= j < text_run_end(s, i) ==> !is_marker(s[j]),
        text_run_end(s, i) < s.len() ==> is_marker(s[text_run_end(s, i)]),
    decreases s.len() - i,
{
    if i < s.len() && !is_marker(s[i]) {
        lemma_text_run_end(s, i + 1);
    }
}

/// Adding one token adds its view.
pub proof fn lemma_tokens_view_push(v: Seq<Token>, t: Token)
    ensures
        tokens_view(v.push(t)) == tokens_view(v).push(t@),
{
    assert(tokens_view(v.push(t)) =~= tokens_view(v).push(t@));
}

/// Whether `c` is one of the characters that end a run of literal text.
fn is_marker_char(c: char) -> (r: bool)
    ensures
        r == is_marker(c),
{
    c == '*' || c == '`' || c == '[' || c == ']' || c == ')'
}

/// Appends `t` to `tokens`.
fn push_token(tokens: &mut Vec<Token>, t: Token)
    ensures
        tokens_view(final(tokens)@) == tokens_view(old(tokens)@).push(t@),
{
    proof {
        lemma_tokens_view_push(tokens@, t);
    }
    tokens.push(t);
}

/// Reads a closing bracket that opens no link target into `tokens`.
fn push_bracket(tokens: &mut Vec<Token>)
    ensures
        tokens_view(final(tokens)@) == with_bracket(tokens_view(old(tokens)@)),
{
    let ghost before = tokens@;
    match tokens.pop() {
        Some(Token::Text(mut t)) => {
            let ghost shorter = tokens@;
            let ghost text = t@;
            t.push(']');
            let joined = Token::Text(t);
            proof {
                lemma_tokens_view_push(shorter, joined);
                assert(shorter =~= before.drop_last());
                assert(tokens_view(shorter) =~= tokens_view(before).drop_last());
                assert(tokens_view(before).last() == TokenView::Text(text));
            }
            tokens.push(joined);
        },
        Some(other) => {
            let ghost shorter = tokens@;
            proof {
                assert(shorter.push(other) =~= before);
            }
            tokens.push(other);
            let bracket: Vec<char> = vec![']'];
            assert(bracket@ =~= seq![']']);
            push_token(tokens, Token::Text(bracket));
        },
        None => {
            let bracket: Vec<char> = vec![']'];
            assert(bracket@ =~= seq![']']);
            push_token(tokens, Token::Text(bracket));
            assert(tokens_view(before) =~= Seq::<TokenView>::empty());
        },
    }
}

/// The tokens of the inline run `input`. No character is lost: the tokens
/// were read from `input`, character for character.
pub fn tokenize(input: &[char]) -> (tokens: Vec<Token>)
    ensures
        tokens_view(tokens@) == tokens_of(input@),
        source_text(tokens_view(tokens@)) == input@,
{
    proof {
        lemma_tokens_source(input@);
    }
    let mut tokens: Vec<Token> = Vec::new();
    let mut i: usize = 0;
    assert(tokens_view(tokens@) =~= Seq::<TokenView>::empty());
    while i < input.len()
        invariant
            i <= input.len(),
            tokens_from(input@, i as int, tokens_view(tokens@)) == tokens_of(input@),
        decreases input.len() - i,
    {
        let c = input[i];
        if c == '*' {
            if input.len() - i > 2 && input[i + 1] == '*' && input[i + 2] == '*' {
                let rest = slice_subrange(input, i, input.len());
                assert(rest@ =~= input@.skip(i as int));
                let (first, second) = decide_triple_star(rest);
                push_token(&mut tokens, first);
                push_token(&mut tokens, second);
                i += 3;
            } else if i + 1 < input.len() && input[i + 1] == '*' {
                push_token(&mut tokens, Token::Bold);
                i += 2;
            } else {
                push_token(&mut tokens, Token::Italic);
                i += 1;
            }
        } else if c == '`' {
            push_token(&mut tokens, Token::Code);
            i += 1;
        } else if c == '[' {
            push_token(&mut tokens, Token::LinkStart);
            i += 1;
        } else if c == ']' {
            if i + 1 < input.len() && input[i + 1] == '(' {
                push_token(&mut tokens, Token::LinkMiddle);
                i += 2;
            } else {
                push_bracket(&mut tokens);
                i += 1;
            }
        } else if c == ')' {
            push_token(&mut tokens, Token::LinkEnd);
            i += 1;
        } else {
            let start = i;
            while i < input.len() && !is_marker_char(input[i])
                invariant
                    start <= i <= input.len(),
                    text_run_end(input@, start as int) == text_run_end(input@, i as int),
                decreases input.len() - i,
            {
                i += 1;
            }
            proof {
                lemma_text_run_end(input@, start as int);
            }
            let run = slice_to_vec(slice_subrange(input, start, i));
            push_token(&mut tokens, Token::Text(run));
        }
    }
    tokens
}

} // verus!
