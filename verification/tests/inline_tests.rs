use pinniped_core::inline::{parse_inline, simulate_balance_debug, InlineElement, InlineText};
use pinniped_core::inline_parser::{parse_code, parse_delimited, parse_link, parse_tokens};
use pinniped_core::tokenizer::{decide_triple_star, simulate_balance, tokenize, Delimiter, Token};

fn cs(s: &str) -> Vec<char> {
    s.chars().collect()
}

fn text(s: &str) -> InlineElement {
    InlineElement::Text(s.to_string())
}

fn tok(s: &str) -> Token {
    Token::Text(cs(s))
}

#[test]
fn tokenize_plain_text_is_one_token() {
    assert_eq!(tokenize(&cs("hello world")), vec![tok("hello world")]);
    assert_eq!(tokenize(&cs("")), Vec::<Token>::new());
}

#[test]
fn tokenize_every_marker() {
    assert_eq!(
        tokenize(&cs("a**b*c`d[e](f)")),
        vec![
            tok("a"),
            Token::Bold,
            tok("b"),
            Token::Italic,
            tok("c"),
            Token::Code,
            tok("d"),
            Token::LinkStart,
            tok("e"),
            Token::LinkMiddle,
            tok("f"),
            Token::LinkEnd,
        ]
    );
}

#[test]
fn tokenize_closing_bracket_joins_the_text_before_it() {
    assert_eq!(tokenize(&cs("a]b")), vec![tok("a]"), tok("b")]);
    assert_eq!(tokenize(&cs("]")), vec![tok("]")]);
    assert_eq!(tokenize(&cs("]]")), vec![tok("]]")]);
    assert_eq!(tokenize(&cs("*]")), vec![Token::Italic, tok("]")]);
    assert_eq!(tokenize(&cs("](")), vec![Token::LinkMiddle]);
}

#[test]
fn tokenize_four_stars() {
    assert_eq!(tokenize(&cs("****")), vec![Token::Bold, Token::Italic, Token::Italic]);
    assert_eq!(parse_inline("****").to_markdown(), "****");
}

#[test]
fn balance_penalties_are_exact() {
    let one = cs("***bold and italic* just bold**");
    assert_eq!(simulate_balance(&one, true), 0);
    assert_eq!(simulate_balance(&one, false), 3);
    let two = cs("***bold and italic** just italic*");
    assert_eq!(simulate_balance(&two, true), 3);
    assert_eq!(simulate_balance(&two, false), 0);
    let closers = cs("***a*b*c*");
    assert_eq!(simulate_balance(&closers, true), 38);
    assert_eq!(simulate_balance(&closers, false), 41);
}

#[test]
fn balance_of_a_text_without_closers_is_sixteen() {
    assert_eq!(simulate_balance(&cs("***"), true), 16);
    assert_eq!(simulate_balance(&cs("***"), false), 16);
    assert_eq!(simulate_balance(&cs("ab"), true), 16);
    assert_eq!(simulate_balance(&cs(""), false), 16);
    assert_eq!(simulate_balance_debug("***plain", true), 16);
}

#[test]
fn balance_debug_agrees_with_balance() {
    let s = "***bold and italic** just italic*";
    assert_eq!(simulate_balance_debug(s, true), 3);
    assert_eq!(simulate_balance_debug(s, false), 0);
}

#[test]
fn triple_star_tie_reads_bold_first() {
    assert_eq!(decide_triple_star(&cs("***")), (Token::Bold, Token::Italic));
    assert_eq!(decide_triple_star(&cs("***x")), (Token::Bold, Token::Italic));
    assert_eq!(
        decide_triple_star(&cs("***bold and italic** just italic*")),
        (Token::Italic, Token::Bold)
    );
}

#[test]
fn nested_emphasis_tree() {
    let run = parse_inline("**bold *italic* bold**");
    assert_eq!(
        run.elements,
        vec![InlineElement::Bold(vec![
            text("bold "),
            InlineElement::Italic(vec![text("italic")]),
            text(" bold"),
        ])]
    );
}

#[test]
fn triple_star_trees() {
    assert_eq!(
        parse_inline("***bold and italic* just bold**").elements,
        vec![InlineElement::Bold(vec![
            InlineElement::Italic(vec![text("bold and italic")]),
            text(" just bold"),
        ])]
    );
    assert_eq!(
        parse_inline("***bold and italic** just italic*").elements,
        vec![InlineElement::Italic(vec![
            InlineElement::Bold(vec![text("bold and italic")]),
            text(" just italic"),
        ])]
    );
}

#[test]
fn code_span_keeps_what_was_written() {
    assert_eq!(
        parse_inline("`a*b**c[d](e)`").elements,
        vec![InlineElement::Code("a*b**c[d](e)".to_string())]
    );
    assert_eq!(
        parse_inline("a``b").elements,
        vec![text("a"), InlineElement::Code(String::new()), text("b")]
    );
}

#[test]
fn link_tree() {
    assert_eq!(
        parse_inline("[Google](https://google.com)").elements,
        vec![InlineElement::Link {
            text: "Google".to_string(),
            url: "https://google.com".to_string(),
        }]
    );
}

#[test]
fn link_keeps_what_was_written() {
    let run = parse_inline("[a*b](u`v)");
    assert_eq!(
        run.elements,
        vec![InlineElement::Link { text: "a*b".to_string(), url: "u`v".to_string() }]
    );
    assert_eq!(run.to_markdown(), "[a*b](u`v)");
    let star = parse_inline("[a*b](u)");
    assert_eq!(
        star.elements,
        vec![InlineElement::Link { text: "a*b".to_string(), url: "u".to_string() }]
    );
    assert_eq!(star.to_markdown(), "[a*b](u)");
}

#[test]
fn link_text_is_not_parsed() {
    let run = parse_inline("[**bold** [x](http://e.x/*y*)");
    assert_eq!(
        run.elements,
        vec![InlineElement::Link {
            text: "**bold** [x".to_string(),
            url: "http://e.x/*y*".to_string(),
        }]
    );
    assert_eq!(run.to_markdown(), "[**bold** [x](http://e.x/*y*)");
    let empty = parse_inline("[]()");
    assert_eq!(
        empty.elements,
        vec![InlineElement::Link { text: String::new(), url: String::new() }]
    );
}

#[test]
fn link_without_end_is_literal() {
    let run = parse_inline("[unclosed link](incomplete");
    assert_eq!(
        run.elements,
        vec![text("["), text("unclosed link"), text("]("), text("incomplete")]
    );
    assert_eq!(run.to_markdown(), "[unclosed link](incomplete");
}

#[test]
fn link_without_middle_is_literal() {
    let run = parse_inline("[a) b");
    assert_eq!(run.elements, vec![text("["), text("a"), text(")"), text(" b")]);
    assert_eq!(run.to_markdown(), "[a) b");
}

#[test]
fn closers_outside_a_link_are_literal() {
    let run = parse_inline("f(x) and a](b");
    assert_eq!(
        run.elements,
        vec![text("f(x"), text(")"), text(" and a"), text("]("), text("b")]
    );
    assert_eq!(run.to_markdown(), "f(x) and a](b");
}

#[test]
fn unmatched_delimiters_are_literal() {
    assert_eq!(parse_inline("**a").elements, vec![text("**"), text("a")]);
    assert_eq!(parse_inline("*a").elements, vec![text("*"), text("a")]);
    assert_eq!(parse_inline("`a").elements, vec![text("`"), text("a")]);
    assert_eq!(parse_inline("[a").elements, vec![text("["), text("a")]);
}

#[test]
fn third_delimiter_of_a_kind_stays_open() {
    let run = parse_inline("**a**b**");
    assert_eq!(
        run.elements,
        vec![InlineElement::Bold(vec![text("a")]), text("b"), text("**")]
    );
    assert_eq!(run.to_markdown(), "**a**b**");
}

#[test]
fn inline_round_trip_of_any_text() {
    for s in [
        "plain",
        "[a*b](u)",
        "[x[y](u) and [*](v) and ](w)",
        "*[a](b*c)* ]( ) [ `[c](d` ](",
        "***[***](***)***",
        "**open bold",
        "*a **b* c**",
        "`code **not bold**` and *it*",
        "stars *** in ** the * middle",
        "x) y ) z",
    ] {
        assert_eq!(parse_inline(s).to_markdown(), s);
    }
}

#[test]
fn parse_tokens_on_given_tokens() {
    let tokens = vec![Token::Italic, tok("a"), Token::Italic, Token::LinkEnd];
    assert_eq!(
        parse_tokens(&tokens),
        vec![InlineElement::Italic(vec![text("a")]), text(")")]
    );
}

#[test]
fn parse_delimited_finds_the_closing_delimiter() {
    let tokens = vec![tok("x"), Token::Bold, tok("a"), Token::Italic, Token::Bold, tok("y")];
    assert_eq!(
        parse_delimited(&tokens, 1, Delimiter::Bold),
        Some((vec![text("a"), text("*")], 4))
    );
    assert_eq!(parse_delimited(&tokens, 3, Delimiter::Italic), None);
}

#[test]
fn parse_code_collects_up_to_the_next_backtick() {
    let tokens = vec![Token::Code, tok("a"), Token::Bold, Token::LinkMiddle, Token::Code];
    assert_eq!(parse_code(&tokens, 0), Some(("a**](".to_string(), 5)));
    assert_eq!(parse_code(&tokens, 4), None);
}

#[test]
fn parse_link_needs_middle_and_end() {
    let tokens = vec![Token::LinkStart, tok("t"), Token::LinkMiddle, tok("u"), Token::LinkEnd];
    assert_eq!(
        parse_link(&tokens, 0),
        Some((InlineElement::Link { text: "t".to_string(), url: "u".to_string() }, 5))
    );
    let marked = vec![
        Token::LinkStart,
        tok("a"),
        Token::Italic,
        tok("b"),
        Token::LinkMiddle,
        Token::Bold,
        tok("u"),
        Token::LinkEnd,
        tok("z"),
    ];
    assert_eq!(
        parse_link(&marked, 0),
        Some((InlineElement::Link { text: "a*b".to_string(), url: "**u".to_string() }, 8))
    );
    let no_end = vec![Token::LinkStart, tok("t"), Token::LinkMiddle, tok("u")];
    assert_eq!(parse_link(&no_end, 0), None);
    let no_middle = vec![Token::LinkStart, tok("t"), Token::LinkEnd];
    assert_eq!(parse_link(&no_middle, 0), None);
}

#[test]
fn elements_render_one_rule_each() {
    assert_eq!(text("plain").to_markdown(), "plain");
    assert_eq!(InlineElement::Bold(vec![text("b")]).to_markdown(), "**b**");
    assert_eq!(InlineElement::Italic(vec![text("i")]).to_markdown(), "*i*");
    assert_eq!(InlineElement::Code("c".to_string()).to_markdown(), "`c`");
    assert_eq!(
        InlineElement::Link { text: "t".to_string(), url: "u".to_string() }.to_markdown(),
        "[t](u)"
    );
    assert_eq!(
        InlineElement::Bold(vec![InlineElement::Italic(vec![text("x")]), text("y")]).to_markdown(),
        "***x*y**"
    );
}

#[test]
fn inline_text_constructors() {
    let plain = InlineText::from_plain("a *b*".to_string());
    assert_eq!(plain.elements, vec![text("a *b*")]);
    assert_eq!(plain.to_markdown(), "a *b*");
    let run = InlineText::new(vec![text("a"), InlineElement::Code("b".to_string())]);
    assert_eq!(run.elements.len(), 2);
    assert_eq!(run.to_markdown(), "a`b`");
    assert_eq!(InlineText::new(Vec::new()).to_markdown(), "");
}

#[test]
fn clone_copies_the_tree() {
    let e = InlineElement::Bold(vec![
        InlineElement::Italic(vec![text("x")]),
        InlineElement::Link { text: "t".to_string(), url: "u".to_string() },
        InlineElement::Code("c".to_string()),
    ]);
    assert_eq!(e.clone(), e);
}
