//! The inline parser: the elements that a sequence of tokens stands for.

use vstd::prelude::*;
use vstd::slice::slice_subrange;
use crate::inline::{
    elements_view, lemma_elements_view_push, render_elements, InlineElement, InlineElementView,
};
use crate::inline_facts::lemma_elements_render_to_source;
use crate::text::{chars_of, string_of};
use crate::tokenizer::{tokens_view, Delimiter, Token, TokenView};

verus! {

/// The least index at or after `from` at which `tokens` holds `t`.
pub open spec fn first_token_from(tokens: Seq<TokenView>, t: TokenView, from: int) -> Option<int>
    decreases tokens.len() - from,
{
    if from < 0 || from >= tokens.len() {
        None
    } else if tokens[from] == t {
        Some(from)
    } else {
        first_token_from(tokens, t, from + 1)
    }
}

/// The least index at which `tokens` holds `t`.
pub open spec fn first_token(tokens: Seq<TokenView>, t: TokenView) -> Option<int> {
    first_token_from(tokens, t, 0)
}

/// The characters that the token `t` was read from.
pub open spec fn source_of(t: TokenView) -> Seq<char> {
    match t {
        TokenView::Text(text) => text,
        TokenView::Bold => seq!['*', '*'],
        TokenView::Italic => seq!['*'],
        TokenView::Code => seq!['`'],
        TokenView::LinkStart => seq!['['],
        TokenView::LinkMiddle => seq![']', '('],
        TokenView::LinkEnd => seq![')'],
    }
}

/// The characters that `tokens` were read from.
pub open spec fn source_text(tokens: Seq<TokenView>) -> Seq<char>
    decreases tokens.len(),
{
    if tokens.len() == 0 {
        seq![]
    } else {
        source_text(tokens.drop_last()) + source_of(tokens.last())
    }
}

/// The token that closes an emphasis of kind `kind`.
pub open spec fn delimiter_token(kind: Delimiter) -> TokenView {
    match kind {
        Delimiter::Bold => TokenView::Bold,
        Delimiter::Italic => TokenView::Italic,
    }
}

/// The link that `rest` continues after an opening bracket, with the
/// number of tokens of `rest` that belong to it. Its text is what was
/// written up to the first link middle, and its target is what was written
/// from there up to the next link end; neither is parsed, and nothing of
/// either is dropped. There is no link where either token is missing.
pub open spec fn link_of(rest: Seq<TokenView>) -> Option<(InlineElementView, int)> {
    match first_token(rest, TokenView::LinkMiddle) {
        Some(j) => {
            let after = rest.skip(j + 1);
            match first_token(after, TokenView::LinkEnd) {
                Some(k) => Some(
                    (
                        InlineElementView::Link {
                            text: source_text(rest.take(j)),
                            url: source_text(after.take(k)),
                        },
                        j + k + 2,
                    ),
                ),
                None => None,
            }
        },
        None => None,
    }
}

/// The elements that `tokens` stand for.
///
/// A text token is literal text. An emphasis delimiter opens an emphasis
/// that the next delimiter of its kind closes, and what stands between them
/// is parsed in turn; a backtick opens a code span that the next backtick
/// closes, and what stands between them is kept as it was written; an
/// opening bracket opens a link, as `link_of` says. A delimiter that opens
/// nothing, and a link middle or link end outside a link, is literal text.
/// So no character that the tokens were read from is lost.
pub open spec fn elements_of(tokens: Seq<TokenView>) -> Seq<InlineElementView>
    decreases tokens.len(),
    via elements_of_decreases
{
    if tokens.len() == 0 {
        seq![]
    } else {
        let rest = tokens.skip(1);
        match tokens[0] {
            TokenView::Text(text) => seq![InlineElementView::Text(text)] + elements_of(rest),
            TokenView::Bold => match first_token(rest, TokenView::Bold) {
                Some(j) => seq![InlineElementView::Bold(elements_of(rest.take(j)))] + elements_of(
                    rest.skip(j + 1),
                ),
                None => seq![InlineElementView::Text(seq!['*', '*'])] + elements_of(rest),
            },
            TokenView::Italic => match first_token(rest, TokenView::Italic) {
                Some(j) => seq![InlineElementView::Italic(elements_of(rest.take(j)))] + elements_of(
                    rest.skip(j + 1),
                ),
                None => seq![InlineElementView::Text(seq!['*'])] + elements_of(rest),
            },
            TokenView::Code => match first_token(rest, TokenView::Code) {
                Some(j) => seq![InlineElementView::Code(source_text(rest.take(j)))] + elements_of(
                    rest.skip(j + 1),
                ),
                None => seq![InlineElementView::Text(seq!['`'])] + elements_of(rest),
            },
            TokenView::LinkStart => match link_of(rest) {
                Some((link, used)) => seq![link] + elements_of(rest.skip(used)),
                None => seq![InlineElementView::Text(seq!['['])] + elements_of(rest),
            },
            TokenView::LinkMiddle => seq![InlineElementView::Text(seq![']', '('])] + elements_of(
                rest,
            ),
            TokenView::LinkEnd => seq![InlineElementView::Text(seq![')'])] + elements_of(rest),
        }
    }
}

#[via_fn]
proof fn elements_of_decreases(tokens: Seq<TokenView>) {
    if tokens.len() > 0 {
        let rest = tokens.skip(1);
        lemma_first_token_from(rest, TokenView::Bold, 0);
        lemma_first_token_from(rest, TokenView::Italic, 0);
        lemma_first_token_from(rest, TokenView::Code, 0);
        lemma_link_of(rest);
    }
}

/// What `first_token_from` finds is the first such token at or after `from`.
pub proof fn lemma_first_token_from(tokens: Seq<TokenView>, t: TokenView, from: int)
    requires
        0 <= from,
    ensures
        match first_token_from(tokens, t, from) {
            Some(j) => from <= j < tokens.len() && tokens[j] == t && forall|k: int|
                from <= k < j ==> tokens[k] != t,
            None => forall|k: int| from <= k < tokens.len() ==> tokens[k] != t,
        },
    decreases tokens.len() - from,
{
    if from < tokens.len() && tokens[from] != t {
        lemma_first_token_from(tokens, t, from + 1);
    }
}

/// Whether `t` is the token `marker`, which is no text.
fn is_marker_token(t: &Token, marker: &Token) -> (r: bool)
    requires
        !(marker is Text),
    ensures
        r == (t@ == marker@),
{
    match (t, marker) {
        (Token::Bold, Token::Bold) => true,
        (Token::Italic, Token::Italic) => true,
        (Token::Code, Token::Code) => true,
        (Token::LinkStart, Token::LinkStart) => true,
        (Token::LinkMiddle, Token::LinkMiddle) => true,
        (Token::LinkEnd, Token::LinkEnd) => true,
        _ => false,
    }
}

/// The least index at which `tokens` holds `marker`, which is no text.
fn find_token(tokens: &[Token], marker: &Token) -> (r: Option<usize>)
    requires
        !(marker is Text),
    ensures
        match r {
            Some(j) => first_token(tokens_view(tokens@), marker@) == Some(j as int) && j
                < tokens.len(),
            None => first_token(tokens_view(tokens@), marker@) is None,
        },
{
    let mut i: usize = 0;
    while i < tokens.len()
        invariant
            i <= tokens.len(),
            !(marker is Text),
            first_token_from(tokens_view(tokens@), marker@, i as int) == first_token(
                tokens_view(tokens@),
                marker@,
            ),
        decreases tokens.len() - i,
    {
        if is_marker_token(&tokens[i], marker) {
            return Some(i);
        }
        i += 1;
    }
    None
}

/// The characters that `tokens` were read from.
fn source_of_tokens(tokens: &[Token]) -> (text: Vec<char>)
    ensures
        text@ == source_text(tokens_view(tokens@)),
{
    let mut text: Vec<char> = Vec::new();
    let mut i: usize = 0;
    let ghost tv = tokens_view(tokens@);
    assert(tv.take(0) =~= Seq::<TokenView>::empty());
    while i < tokens.len()
        invariant
            i <= tokens.len(),
            tv == tokens_view(tokens@),
            text@ == source_text(tv.take(i as int)),
        decreases tokens.len() - i,
    {
        let ghost before = text@;
        match &tokens[i] {
            Token::Text(t) => {
                text.extend_from_slice(t.as_slice());
            },
            Token::Bold => {
                text.push('*');
                text.push('*');
            },
            Token::Italic => {
                text.push('*');
            },
            Token::Code => {
                text.push('`');
            },
            Token::LinkStart => {
                text.push('[');
            },
            Token::LinkMiddle => {
                text.push(']');
                text.push('(');
            },
            Token::LinkEnd => {
                text.push(')');
            },
        }
        proof {
            assert(tv.take(i + 1).drop_last() =~= tv.take(i as int));
            assert(tv.take(i + 1).last() == tokens@[i as int]@);
            assert(text@ =~= before + source_of(tokens@[i as int]@));
        }
        i += 1;
    }
    assert(tv.take(tokens.len() as int) =~= tv);
    text
}

/// The tokens of `tokens` from index `from` up to index `to`.
fn token_range<'a>(tokens: &'a [Token], from: usize, to: usize) -> (r: &'a [Token])
    requires
        from <= to <= tokens.len(),
    ensures
        r@ == tokens@.subrange(from as int, to as int),
        tokens_view(r@) == tokens_view(tokens@).subrange(from as int, to as int),
{
    let r = slice_subrange(tokens, from, to);
    assert(tokens_view(r@) =~= tokens_view(tokens@).subrange(from as int, to as int));
    r
}

/// The code span that the backtick at index `start` of `tokens` opens: its
/// text as it was written, and the number of tokens from the opening
/// backtick to the closing one. There is none where no backtick follows.
pub fn parse_code(tokens: &[Token], start: usize) -> (r: Option<(String, usize)>)
    ensures
        start >= tokens.len() ==> r is None,
        start < tokens.len() ==> match first_token(
            tokens_view(tokens@).skip(start + 1),
            TokenView::Code,
        ) {
            Some(j) => r matches Some((text, consumed)) && consumed == j + 2 && start + consumed
                <= tokens.len() && text@ == source_text(
                tokens_view(tokens@).skip(start + 1).take(j),
            ),
            None => r is None,
        },
{
    if start >= tokens.len() {
        return None;
    }
    let rest = token_range(tokens, start + 1, tokens.len());
    assert(tokens_view(rest@) =~= tokens_view(tokens@).skip(start + 1));
    match find_token(rest, &Token::Code) {
        Some(j) => {
            let inner = token_range(rest, 0, j);
            assert(tokens_view(inner@) =~= tokens_view(rest@).take(j as int));
            let text = source_of_tokens(inner);
            Some((string_of(text.as_slice()), j + 2))
        },
        None => None,
    }
}

/// The link that the bracket at index `start` of `tokens` opens, and the
/// number of tokens from the bracket to the link end. Its text and its
/// target are what was written between the brackets and between the
/// parentheses. There is none where the link middle or the link end is
/// missing.
pub fn parse_link(tokens: &[Token], start: usize) -> (r: Option<(InlineElement, usize)>)
    ensures
        start >= tokens.len() ==> r is None,
        start < tokens.len() ==> match link_of(tokens_view(tokens@).skip(start + 1)) {
            Some((link, used)) => r matches Some((element, consumed)) && element@ == link
                && consumed == used + 1 && 1 < consumed && start + consumed <= tokens.len(),
            None => r is None,
        },
{
    if start >= tokens.len() {
        return None;
    }
    let rest = token_range(tokens, start + 1, tokens.len());
    assert(tokens_view(rest@) =~= tokens_view(tokens@).skip(start + 1));
    match find_token(rest, &Token::LinkMiddle) {
        Some(j) => {
            let after = token_range(rest, j + 1, rest.len());
            assert(tokens_view(after@) =~= tokens_view(rest@).skip(j + 1));
            match find_token(after, &Token::LinkEnd) {
                Some(k) => {
                    let text_tokens = token_range(rest, 0, j);
                    assert(tokens_view(text_tokens@) =~= tokens_view(rest@).take(j as int));
                    let url_tokens = token_range(after, 0, k);
                    assert(tokens_view(url_tokens@) =~= tokens_view(after@).take(k as int));
                    let text = source_of_tokens(text_tokens);
                    let url = source_of_tokens(url_tokens);
                    let link = InlineElement::Link {
                        text: string_of(text.as_slice()),
                        url: string_of(url.as_slice()),
                    };
                    Some((link, j + k + 3))
                },
                None => None,
            }
        },
        None => None,
    }
}

/// What the emphasis delimiter at index `start` of `tokens` encloses, and
/// the number of tokens from it to the delimiter that closes it. There is
/// none where no delimiter of its kind follows.
pub fn parse_delimited(tokens: &[Token], start: usize, kind: Delimiter) -> (r: Option<
    (Vec<InlineElement>, usize),
>)
    ensures
        start >= tokens.len() ==> r is None,
        start < tokens.len() ==> match first_token(
            tokens_view(tokens@).skip(start + 1),
            delimiter_token(kind),
        ) {
            Some(j) => r matches Some((content, consumed)) && consumed == j + 2 && start + consumed
                <= tokens.len() && elements_view(content@) == elements_of(
                tokens_view(tokens@).skip(start + 1).take(j),
            ),
            None => r is None,
        },
    decreases tokens.len(), 0nat,
{
    if start >= tokens.len() {
        return None;
    }
    let rest = token_range(tokens, start + 1, tokens.len());
    assert(tokens_view(rest@) =~= tokens_view(tokens@).skip(start + 1));
    let marker = match kind {
        Delimiter::Bold => Token::Bold,
        Delimiter::Italic => Token::Italic,
    };
    match find_token(rest, &marker) {
        Some(j) => {
            let inner = token_range(rest, 0, j);
            assert(tokens_view(inner@) =~= tokens_view(rest@).take(j as int));
            let content = parse_tokens(inner);
            Some((content, j + 2))
        },
        None => None,
    }
}

/// Appends `e` to `elements`.
fn push_element(elements: &mut Vec<InlineElement>, e: InlineElement)
    ensures
        elements_view(final(elements)@) == elements_view(old(elements)@).push(e@),
{
    proof {
        lemma_elements_view_push(elements@, e);
    }
    elements.push(e);
}

/// The literal text element that holds the characters of `s`.
fn literal(s: &str) -> (e: InlineElement)
    ensures
        e@ == InlineElementView::Text(s@),
{
    let chars = chars_of(s);
    InlineElement::Text(string_of(chars.as_slice()))
}

/// How `elements_of` goes on after the token at the start of `here`, for
/// each token that stands alone.
proof fn lemma_elements_of_single(here: Seq<TokenView>)
    requires
        here.len() > 0,
    ensures
        here[0] matches TokenView::Text(text) ==> elements_of(here) == seq![
            InlineElementView::Text(text),
        ] + elements_of(here.skip(1)),
        here[0] is LinkMiddle ==> elements_of(here) == seq![
            InlineElementView::Text(seq![']', '(']),
        ] + elements_of(here.skip(1)),
        here[0] is LinkEnd ==> elements_of(here) == seq![InlineElementView::Text(seq![')'])]
            + elements_of(here.skip(1)),
        here[0] is Bold && first_token(here.skip(1), TokenView::Bold) is None ==> elements_of(here)
            == seq![InlineElementView::Text(seq!['*', '*'])] + elements_of(here.skip(1)),
        here[0] is Italic && first_token(here.skip(1), TokenView::Italic) is None ==> elements_of(
            here,
        ) == seq![InlineElementView::Text(seq!['*'])] + elements_of(here.skip(1)),
        here[0] is Code && first_token(here.skip(1), TokenView::Code) is None ==> elements_of(here)
            == seq![InlineElementView::Text(seq!['`'])] + elements_of(here.skip(1)),
        here[0] is LinkStart && link_of(here.skip(1)) is None ==> elements_of(here) == seq![
            InlineElementView::Text(seq!['[']),
        ] + elements_of(here.skip(1)),
{
}

/// How `elements_of` goes on after an emphasis or a code span that is
/// closed at index `j` of what follows its opening token.
proof fn lemma_elements_of_closed(here: Seq<TokenView>, j: int)
    requires
        here.len() > 0,
        here[0] is Bold || here[0] is Italic || here[0] is Code,
        first_token(here.skip(1), here[0]) == Some(j),
    ensures
        0 <= j < here.len() - 1,
        here[0] is Bold ==> elements_of(here) == seq![
            InlineElementView::Bold(elements_of(here.skip(1).take(j))),
        ] + elements_of(here.skip(j + 2)),
        here[0] is Italic ==> elements_of(here) == seq![
            InlineElementView::Italic(elements_of(here.skip(1).take(j))),
        ] + elements_of(here.skip(j + 2)),
        here[0] is Code ==> elements_of(here) == seq![
            InlineElementView::Code(source_text(here.skip(1).take(j))),
        ] + elements_of(here.skip(j + 2)),
{
    lemma_first_token_from(here.skip(1), here[0], 0);
    assert(here.skip(1).skip(j + 1) =~= here.skip(j + 2));
}

/// A link uses at least its middle and its end, and no more tokens than
/// there are.
pub proof fn lemma_link_of(rest: Seq<TokenView>)
    ensures
        link_of(rest) matches Some((link, used)) ==> 2 <= used <= rest.len(),
{
    lemma_first_token_from(rest, TokenView::LinkMiddle, 0);
    match first_token(rest, TokenView::LinkMiddle) {
        Some(j) => {
            lemma_first_token_from(rest.skip(j + 1), TokenView::LinkEnd, 0);
        },
        None => {},
    }
}

/// How `elements_of` goes on after a link.
proof fn lemma_elements_of_link(here: Seq<TokenView>)
    requires
        here.len() > 0,
        here[0] is LinkStart,
        link_of(here.skip(1)) is Some,
    ensures
        ({
            let (link, used) = link_of(here.skip(1))->0;
            2 <= used <= here.len() - 1 && elements_of(here) == seq![link] + elements_of(
                here.skip(used + 1),
            )
        }),
{
    lemma_link_of(here.skip(1));
    let (link, used) = link_of(here.skip(1))->0;
    assert(here.skip(1).skip(used) =~= here.skip(used + 1));
}

/// The element that begins at index `i` of `tokens`, and the index after it.
fn parse_element(tokens: &[Token], i: usize) -> (r: (InlineElement, usize))
    requires
        i < tokens.len(),
    ensures
        i < r.1 <= tokens.len(),
        elements_of(tokens_view(tokens@).skip(i as int)) == seq![r.0@] + elements_of(
            tokens_view(tokens@).skip(r.1 as int),
        ),
    decreases tokens.len(), 1nat,
{
    let ghost tv = tokens_view(tokens@);
    let ghost here = tv.skip(i as int);
    proof {
        reveal_strlit("**");
        reveal_strlit("*");
        reveal_strlit("`");
        reveal_strlit("[");
        reveal_strlit("](");
        reveal_strlit(")");
        assert("**"@ =~= seq!['*', '*']);
        assert("*"@ =~= seq!['*']);
        assert("`"@ =~= seq!['`']);
        assert("["@ =~= seq!['[']);
        assert("]("@ =~= seq![']', '(']);
        assert(")"@ =~= seq![')']);
        assert(here.skip(1) =~= tv.skip(i + 1));
        assert(here[0] == tokens@[i as int]@);
        lemma_elements_of_single(here);
    }
    match &tokens[i] {
        Token::Text(text) => (InlineElement::Text(string_of(text.as_slice())), i + 1),
        Token::Bold => {
            match parse_delimited(tokens, i, Delimiter::Bold) {
                Some((content, consumed)) => {
                    proof {
                        lemma_elements_of_closed(here, consumed - 2);
                        assert(here.skip(consumed as int) =~= tv.skip(i + consumed));
                    }
                    (InlineElement::Bold(content), i + consumed)
                },
                None => (literal("**"), i + 1),
            }
        },
        Token::Italic => {
            match parse_delimited(tokens, i, Delimiter::Italic) {
                Some((content, consumed)) => {
                    proof {
                        lemma_elements_of_closed(here, consumed - 2);
                        assert(here.skip(consumed as int) =~= tv.skip(i + consumed));
                    }
                    (InlineElement::Italic(content), i + consumed)
                },
                None => (literal("*"), i + 1),
            }
        },
        Token::Code => {
            match parse_code(tokens, i) {
                Some((text, consumed)) => {
                    proof {
                        lemma_elements_of_closed(here, consumed - 2);
                        assert(here.skip(consumed as int) =~= tv.skip(i + consumed));
                    }
                    (InlineElement::Code(text), i + consumed)
                },
                None => (literal("`"), i + 1),
            }
        },
        Token::LinkStart => {
            match parse_link(tokens, i) {
                Some((link, consumed)) => {
                    proof {
                        lemma_elements_of_link(here);
                        assert(here.skip(consumed as int) =~= tv.skip(i + consumed));
                    }
                    (link, i + consumed)
                },
                None => (literal("["), i + 1),
            }
        },
        Token::LinkMiddle => (literal("]("), i + 1),
        Token::LinkEnd => (literal(")"), i + 1),
    }
}

/// The elements that `tokens` stand for. No token is lost: the elements
/// render to the text that the tokens were read from.
pub fn parse_tokens(tokens: &[Token]) -> (elements: Vec<InlineElement>)
    ensures
        elements_view(elements@) == elements_of(tokens_view(tokens@)),
        render_elements(elements_view(elements@)) == source_text(tokens_view(tokens@)),
    decreases tokens.len(), 2nat,
{
    proof {
        lemma_elements_render_to_source(tokens_view(tokens@));
    }
    let mut elements: Vec<InlineElement> = Vec::new();
    let mut i: usize = 0;
    let ghost tv = tokens_view(tokens@);
    proof {
        assert(tv.skip(0) =~= tv);
        assert(elements_view(elements@) =~= Seq::<InlineElementView>::empty());
        assert(elements_view(elements@) + elements_of(tv.skip(0)) =~= elements_of(tv));
    }
    while i < tokens.len()
        invariant
            i <= tokens.len(),
            tv == tokens_view(tokens@),
            elements_view(elements@) + elements_of(tv.skip(i as int)) == elements_of(tv),
        decreases tokens.len() - i,
    {
        let ghost before = elements_view(elements@);
        let (element, next) = parse_element(tokens, i);
        proof {
            assert(before.push(element@) + elements_of(tv.skip(next as int)) =~= before + (
            seq![element@] + elements_of(tv.skip(next as int))));
        }
        push_element(&mut elements, element);
        i = next;
    }
    assert(elements_of(tv.skip(tokens.len() as int)) =~= Seq::<InlineElementView>::empty());
    assert(elements_view(elements@) + Seq::<InlineElementView>::empty() =~= elements_view(
        elements@,
    ));
    elements
}

} // verus!
