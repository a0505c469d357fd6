//! What rendering gives back of a parsed run of text: the text itself.
//!
//! The tokenizer loses no character, the parser keeps every token that it
//! cannot use as literal text, and a code span and a link keep what was
//! written inside them. So every text renders back, after parsing as an
//! inline run, to itself.

use vstd::prelude::*;
use crate::inline::{inline_of, render_element, render_elements, InlineElementView};
use crate::inline_parser::{
    elements_of, first_token, lemma_first_token_from, lemma_link_of, link_of, source_of,
    source_text,
};
use crate::tokenizer::{
    lemma_text_run_end, reads_bold_first, text_run_end, tokens_from, tokens_of, with_bracket,
    TokenView,
};

verus! {

/// The source text of tokens in a row is the source text of the first ones
/// followed by that of the others.
pub proof fn lemma_source_text_concat(a: Seq<TokenView>, b: Seq<TokenView>)
    ensures
        source_text(a + b) == source_text(a) + source_text(b),
    decreases b.len(),
{
    if b.len() == 0 {
        assert(a + b =~= a);
        assert(source_text(a) + source_text(b) =~= source_text(a));
    } else {
        lemma_source_text_concat(a, b.drop_last());
        assert((a + b).drop_last() =~= a + b.drop_last());
        assert((a + b).last() == b.last());
        assert(source_text(a) + source_text(b.drop_last()) + source_of(b.last()) =~= source_text(a)
            + (source_text(b.drop_last()) + source_of(b.last())));
    }
}

/// The source text of one token.
pub proof fn lemma_source_text_single(t: TokenView)
    ensures
        source_text(seq![t]) == source_of(t),
{
    let one = seq![t];
    assert(one.drop_last().len() == 0);
    assert(source_text(one.drop_last()) =~= Seq::<char>::empty());
    assert(one.last() == t);
    assert(source_text(one) =~= source_of(t));
}

/// The text of elements in a row is the text of the first ones followed by
/// that of the others.
pub proof fn lemma_render_elements_concat(a: Seq<InlineElementView>, b: Seq<InlineElementView>)
    ensures
        render_elements(a + b) == render_elements(a) + render_elements(b),
    decreases b.len(),
{
    if b.len() == 0 {
        assert(a + b =~= a);
        assert(render_elements(a) + render_elements(b) =~= render_elements(a));
    } else {
        lemma_render_elements_concat(a, b.drop_last());
        assert((a + b).drop_last() =~= a + b.drop_last());
        assert((a + b).last() == b.last());
        assert(render_elements(a) + render_elements(b.drop_last()) + render_element(b.last())
            =~= render_elements(a) + (render_elements(b.drop_last()) + render_element(b.last())));
    }
}

/// The text of one element.
pub proof fn lemma_render_elements_single(e: InlineElementView)
    ensures
        render_elements(seq![e]) == render_element(e),
{
    let one = seq![e];
    assert(one.drop_last().len() == 0);
    assert(render_elements(one.drop_last()) =~= Seq::<char>::empty());
    assert(one.last() == e);
    assert(render_elements(one) =~= render_element(e));
}

/// The source text of `tokens`, divided at the token at index `j`.
pub proof fn lemma_source_text_at(tokens: Seq<TokenView>, j: int)
    requires
        0 <= j < tokens.len(),
    ensures
        source_text(tokens) == source_text(tokens.take(j)) + source_of(tokens[j]) + source_text(
            tokens.skip(j + 1),
        ),
{
    assert(tokens =~= tokens.take(j) + seq![tokens[j]] + tokens.skip(j + 1));
    lemma_source_text_concat(tokens.take(j) + seq![tokens[j]], tokens.skip(j + 1));
    lemma_source_text_concat(tokens.take(j), seq![tokens[j]]);
    lemma_source_text_single(tokens[j]);
}

/// The text of an element followed by others.
pub proof fn lemma_render_elements_first(e: InlineElementView, es: Seq<InlineElementView>)
    ensures
        render_elements(seq![e] + es) == render_element(e) + render_elements(es),
{
    lemma_render_elements_concat(seq![e], es);
    lemma_render_elements_single(e);
}

/// The parser loses nothing: the elements that `tokens` stand for render
/// to the text that the tokens were read from.
pub proof fn lemma_elements_render_to_source(tokens: Seq<TokenView>)
    ensures
        render_elements(elements_of(tokens)) == source_text(tokens),
    decreases tokens.len(),
{
    if tokens.len() == 0 {
        return ;
    }
    let rest = tokens.skip(1);
    assert(tokens.take(0) =~= Seq::<TokenView>::empty());
    lemma_source_text_at(tokens, 0);
    assert(source_text(tokens) =~= source_of(tokens[0]) + source_text(rest));
    match tokens[0] {
        TokenView::Text(text) => {
            lemma_elements_render_to_source(rest);
            lemma_render_elements_first(InlineElementView::Text(text), elements_of(rest));
        },
        TokenView::Bold => {
            lemma_first_token_from(rest, TokenView::Bold, 0);
            match first_token(rest, TokenView::Bold) {
                Some(j) => {
                    lemma_elements_render_to_source(rest.take(j));
                    lemma_elements_render_to_source(rest.skip(j + 1));
                    lemma_source_text_at(rest, j);
                    lemma_render_elements_first(
                        InlineElementView::Bold(elements_of(rest.take(j))),
                        elements_of(rest.skip(j + 1)),
                    );
                    assert(render_elements(elements_of(tokens)) =~= source_text(tokens));
                },
                None => {
                    lemma_elements_render_to_source(rest);
                    lemma_render_elements_first(
                        InlineElementView::Text(seq!['*', '*']),
                        elements_of(rest),
                    );
                },
            }
        },
        TokenView::Italic => {
            lemma_first_token_from(rest, TokenView::Italic, 0);
            match first_token(rest, TokenView::Italic) {
                Some(j) => {
                    lemma_elements_render_to_source(rest.take(j));
                    lemma_elements_render_to_source(rest.skip(j + 1));
                    lemma_source_text_at(rest, j);
                    lemma_render_elements_first(
                        InlineElementView::Italic(elements_of(rest.take(j))),
                        elements_of(rest.skip(j + 1)),
                    );
                    assert(render_elements(elements_of(tokens)) =~= source_text(tokens));
                },
                None => {
                    lemma_elements_render_to_source(rest);
                    lemma_render_elements_first(
                        InlineElementView::Text(seq!['*']),
                        elements_of(rest),
                    );
                },
            }
        },
        TokenView::Code => {
            lemma_first_token_from(rest, TokenView::Code, 0);
            match first_token(rest, TokenView::Code) {
                Some(j) => {
                    lemma_elements_render_to_source(rest.skip(j + 1));
                    lemma_source_text_at(rest, j);
                    lemma_render_elements_first(
                        InlineElementView::Code(source_text(rest.take(j))),
                        elements_of(rest.skip(j + 1)),
                    );
                    assert(render_elements(elements_of(tokens)) =~= source_text(tokens));
                },
                None => {
                    lemma_elements_render_to_source(rest);
                    lemma_render_elements_first(
                        InlineElementView::Text(seq!['`']),
                        elements_of(rest),
                    );
                },
            }
        },
        TokenView::LinkStart => {
            lemma_link_of(rest);
            match link_of(rest) {
                Some((link, used)) => {
                    lemma_first_token_from(rest, TokenView::LinkMiddle, 0);
                    let j = first_token(rest, TokenView::LinkMiddle)->0;
                    let after = rest.skip(j + 1);
                    lemma_first_token_from(after, TokenView::LinkEnd, 0);
                    let k = first_token(after, TokenView::LinkEnd)->0;
                    assert(used == j + k + 2);
                    assert(after.skip(k + 1) =~= rest.skip(used));
                    lemma_elements_render_to_source(rest.skip(used));
                    lemma_source_text_at(rest, j);
                    lemma_source_text_at(after, k);
                    lemma_render_elements_first(link, elements_of(rest.skip(used)));
                    assert(render_elements(elements_of(tokens)) =~= source_text(tokens));
                },
                None => {
                    lemma_elements_render_to_source(rest);
                    lemma_render_elements_first(
                        InlineElementView::Text(seq!['[']),
                        elements_of(rest),
                    );
                },
            }
        },
        TokenView::LinkMiddle => {
            lemma_elements_render_to_source(rest);
            lemma_render_elements_first(
                InlineElementView::Text(seq![']', '(']),
                elements_of(rest),
            );
        },
        TokenView::LinkEnd => {
            lemma_elements_render_to_source(rest);
            lemma_render_elements_first(InlineElementView::Text(seq![')']), elements_of(rest));
        },
    }
}

/// The source text of tokens and one more.
pub proof fn lemma_source_text_push(acc: Seq<TokenView>, t: TokenView)
    ensures
        source_text(acc.push(t)) == source_text(acc) + source_of(t),
{
    assert(acc.push(t).drop_last() =~= acc);
}

/// A closing bracket that is read as text adds itself to the source text.
pub proof fn lemma_source_text_with_bracket(acc: Seq<TokenView>)
    ensures
        source_text(with_bracket(acc)) == source_text(acc) + seq![']'],
{
    if acc.len() > 0 && acc.last() is Text {
        let text = acc.last()->Text_0;
        lemma_source_text_push(acc.drop_last(), TokenView::Text(text.push(']')));
        assert(source_text(acc.drop_last()) + text.push(']') =~= source_text(acc.drop_last())
            + text + seq![']']);
    } else {
        lemma_source_text_push(acc, TokenView::Text(seq![']']));
    }
}

/// One step of the tokenizer: the token `t`, read from the `k` characters
/// at index `i` of `s`, adds those characters to the source text.
proof fn lemma_token_step(s: Seq<char>, i: int, k: int, acc: Seq<TokenView>, t: TokenView)
    requires
        0 <= i,
        0 <= k,
        i + k <= s.len(),
        s.subrange(i, i + k) == source_of(t),
    ensures
        source_text(acc.push(t)) + s.skip(i + k) == source_text(acc) + s.skip(i),
{
    lemma_source_text_push(acc, t);
    assert(s.subrange(i, i + k) + s.skip(i + k) =~= s.skip(i));
    assert(source_text(acc) + source_of(t) + s.skip(i + k) =~= source_text(acc) + (source_of(t)
        + s.skip(i + k)));
}

/// The tokenizer loses nothing: the tokens that it adds from index `i` on
/// were read from what `s` holds from there on.
pub proof fn lemma_tokens_from_source(s: Seq<char>, i: int, acc: Seq<TokenView>)
    requires
        0 <= i <= s.len(),
    ensures
        source_text(tokens_from(s, i, acc)) == source_text(acc) + s.skip(i),
    decreases s.len() - i,
{
    if i >= s.len() {
        assert(source_text(acc) + s.skip(i) =~= source_text(acc));
        return ;
    }
    let c = s[i];
    if c == '*' {
        if i + 2 < s.len() && s[i + 1] == '*' && s[i + 2] == '*' {
            let first = if reads_bold_first(s.skip(i)) {
                TokenView::Bold
            } else {
                TokenView::Italic
            };
            let second = if reads_bold_first(s.skip(i)) {
                TokenView::Italic
            } else {
                TokenView::Bold
            };
            let k: int = if reads_bold_first(s.skip(i)) {
                2
            } else {
                1
            };
            lemma_tokens_from_source(s, i + 3, acc.push(first).push(second));
            assert(s.subrange(i, i + k) =~= source_of(first));
            assert(s.subrange(i + k, i + 3) =~= source_of(second));
            lemma_token_step(s, i, k, acc, first);
            lemma_token_step(s, i + k, 3 - k, acc.push(first), second);
        } else if i + 1 < s.len() && s[i + 1] == '*' {
            lemma_tokens_from_source(s, i + 2, acc.push(TokenView::Bold));
            assert(s.subrange(i, i + 2) =~= source_of(TokenView::Bold));
            lemma_token_step(s, i, 2, acc, TokenView::Bold);
        } else {
            lemma_tokens_from_source(s, i + 1, acc.push(TokenView::Italic));
            assert(s.subrange(i, i + 1) =~= source_of(TokenView::Italic));
            lemma_token_step(s, i, 1, acc, TokenView::Italic);
        }
    } else if c == '`' {
        lemma_tokens_from_source(s, i + 1, acc.push(TokenView::Code));
        assert(s.subrange(i, i + 1) =~= source_of(TokenView::Code));
        lemma_token_step(s, i, 1, acc, TokenView::Code);
    } else if c == '[' {
        lemma_tokens_from_source(s, i + 1, acc.push(TokenView::LinkStart));
        assert(s.subrange(i, i + 1) =~= source_of(TokenView::LinkStart));
        lemma_token_step(s, i, 1, acc, TokenView::LinkStart);
    } else if c == ']' {
        if i + 1 < s.len() && s[i + 1] == '(' {
            lemma_tokens_from_source(s, i + 2, acc.push(TokenView::LinkMiddle));
            assert(s.subrange(i, i + 2) =~= source_of(TokenView::LinkMiddle));
            lemma_token_step(s, i, 2, acc, TokenView::LinkMiddle);
        } else {
            lemma_tokens_from_source(s, i + 1, with_bracket(acc));
            lemma_source_text_with_bracket(acc);
            assert(seq![']'] + s.skip(i + 1) =~= s.skip(i));
            assert(source_text(acc) + seq![']'] + s.skip(i + 1) =~= source_text(acc) + (seq![']']
                + s.skip(i + 1)));
        }
    } else if c == ')' {
        lemma_tokens_from_source(s, i + 1, acc.push(TokenView::LinkEnd));
        assert(s.subrange(i, i + 1) =~= source_of(TokenView::LinkEnd));
        lemma_token_step(s, i, 1, acc, TokenView::LinkEnd);
    } else {
        lemma_text_run_end(s, i);
        let end = text_run_end(s, i);
        let run = TokenView::Text(s.subrange(i, end));
        lemma_tokens_from_source(s, end, acc.push(run));
        lemma_token_step(s, i, end - i, acc, run);
    }
}

/// The tokenizer loses nothing: the tokens of `s` were read from `s`.
pub proof fn lemma_tokens_source(s: Seq<char>)
    ensures
        source_text(tokens_of(s)) == s,
{
    lemma_tokens_from_source(s, 0, seq![]);
    assert(source_text(Seq::<TokenView>::empty()) + s.skip(0) =~= s);
}

/// Inline round trip. Every text renders back, after parsing as an inline
/// run, to itself: a delimiter that is not closed, a link that is not
/// complete, and a link middle or link end outside a link stay in the text
/// as they were written.
pub proof fn lemma_inline_round_trip(s: Seq<char>)
    ensures
        render_elements(inline_of(s)) == s,
{
    lemma_tokens_source(s);
    lemma_elements_render_to_source(tokens_of(s));
}

} // verus!
