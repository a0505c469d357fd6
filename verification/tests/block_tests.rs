use pinniped_core::block::Block;
use pinniped_core::document::Document;
use pinniped_core::error::Error;
use pinniped_core::inline::{InlineElement, InlineText};
use pinniped_core::parser::{
    block_text, classify, every_line_has_kind, line_has_kind, parse, parse_section, to_markdown,
    LineKind,
};
use pinniped_core::table::Table;

fn cs(s: &str) -> Vec<char> {
    s.chars().collect()
}

fn run(s: &str) -> InlineText {
    InlineText::new(vec![InlineElement::Text(s.to_string())])
}

fn blocks(s: &str) -> Vec<Block> {
    Document::parse(s).unwrap().blocks
}

fn round(s: &str) -> String {
    Document::parse(s).unwrap().to_markdown()
}

fn row(cells: &[&str]) -> Vec<String> {
    cells.iter().map(|c| c.to_string()).collect()
}

#[test]
fn header_level_is_the_number_of_hashes() {
    assert_eq!(blocks("### Title"), vec![Block::Header { level: 3, text: run("Title") }]);
    assert_eq!(blocks("#######x"), vec![Block::Header { level: 7, text: run("x") }]);
    assert_eq!(round("#######x"), "####### x");
}

#[test]
fn header_level_is_not_capped() {
    let hashes = "#".repeat(300);
    let parsed = blocks(&format!("{} deep", hashes));
    assert_eq!(parsed, vec![Block::Header { level: 300, text: run("deep") }]);
    assert_eq!(round(&format!("{}   deep", hashes)), format!("{} deep", hashes));
}

#[test]
fn header_without_text() {
    assert_eq!(blocks("#"), vec![Block::Header { level: 1, text: InlineText::new(Vec::new()) }]);
    assert_eq!(round("#"), "# ");
}

#[test]
fn header_takes_the_whole_section() {
    assert_eq!(blocks("# a\nb"), vec![Block::Header { level: 1, text: run("a\nb") }]);
}

#[test]
fn quote_is_one_run() {
    assert_eq!(blocks("> a\n> b"), vec![Block::Blockquote(run("a\nb"))]);
    assert_eq!(round(">   a  \n  > b"), ">   a\n> b");
    assert_eq!(round("> a  \n  > b"), "> a\n> b");
}

#[test]
fn quote_needs_the_space_on_every_line() {
    assert_eq!(blocks("> a\n>b"), vec![Block::Paragraph(run("> a\n>b"))]);
    assert_eq!(blocks("> a\n> "), vec![Block::Paragraph(run("> a\n>"))]);
}

#[test]
fn unordered_list_items() {
    assert_eq!(
        blocks("- one\n- two"),
        vec![Block::UnorderedList(vec![run("one"), run("two")])]
    );
    assert_eq!(round("  - one\n- two  "), "- one\n- two");
}

#[test]
fn ordered_list_items_follow_the_first_dot() {
    assert_eq!(
        blocks("1. a. b\n2. c"),
        vec![Block::OrderedList(vec![run("a. b"), run("c")])]
    );
    assert_eq!(blocks("1x. a"), vec![Block::OrderedList(vec![run("a")])]);
}

#[test]
fn ordered_list_is_numbered_from_one() {
    assert_eq!(round("5. a\n9. b"), "1. a\n2. b");
    let source: Vec<String> = (1..=12).map(|i| format!("{}. item", i)).collect();
    let text = source.join("\n");
    assert_eq!(round(&text), text);
    assert!(round(&text).ends_with("10. item\n11. item\n12. item"));
}

#[test]
fn one_stray_line_makes_a_paragraph() {
    assert_eq!(
        blocks("- a\nb\n- c"),
        vec![Block::Paragraph(InlineText::new(vec![InlineElement::Text(
            "- a\nb\n- c".to_string()
        )]))]
    );
}

#[test]
fn lines_end_at_carriage_return_line_feed() {
    assert_eq!(blocks("- a\r\n- b"), vec![Block::UnorderedList(vec![run("a"), run("b")])]);
    assert_eq!(round("- a\r\n- b"), "- a\n- b");
}

#[test]
fn table_rows_and_cells() {
    assert_eq!(
        blocks("| a | b |\n|---|:-:|"),
        vec![Block::Table(Table::new_with_header(
            vec![row(&["a", "b"]), row(&["---", ":-:"])],
            true
        ))]
    );
    assert_eq!(round("| a | b |\n|---|:-:|"), "|a|b|\n|---|:-:|");
}

#[test]
fn table_rows_may_differ_in_length() {
    assert_eq!(
        blocks("|Name|Age|\n|John|\n|Jane|30|Extra|"),
        vec![Block::Table(Table::new_with_header(
            vec![row(&["Name", "Age"]), row(&["John"]), row(&["Jane", "30", "Extra"])],
            false
        ))]
    );
    assert_eq!(round("|Name|Age|\n|John|\n|Jane|30|Extra|"), "|Name|Age|\n|John|\n|Jane|30|Extra|");
}

#[test]
fn table_without_outer_bars() {
    assert_eq!(
        blocks("a|b"),
        vec![Block::Table(Table::new_with_header(vec![row(&["a", "b"])], false))]
    );
    assert_eq!(round("a|b"), "|a|b|");
    assert_eq!(
        blocks("||"),
        vec![Block::Table(Table::new_with_header(vec![row(&[""])], false))]
    );
    assert_eq!(round("||"), "||");
}

#[test]
fn table_needs_a_bar_on_every_line() {
    assert_eq!(blocks("a|b\nc"), vec![Block::Paragraph(run("a|b\nc"))]);
}

#[test]
fn list_rules_come_before_the_table_rule() {
    assert_eq!(blocks("- a|b"), vec![Block::UnorderedList(vec![run("a|b")])]);
}

#[test]
fn code_block_with_language() {
    assert_eq!(
        blocks("```rust\nfn main() {}\n```"),
        vec![Block::CodeBlock {
            language: Some("rust".to_string()),
            code: "fn main() {}\n".to_string(),
        }]
    );
}

#[test]
fn code_block_language_is_trimmed() {
    assert_eq!(
        blocks("```  py  \nx\n```"),
        vec![Block::CodeBlock { language: Some("py".to_string()), code: "x\n".to_string() }]
    );
    assert_eq!(round("```  py  \nx  \n\n```"), "```py\nx\n```");
}

#[test]
fn code_block_without_closing_fence() {
    assert_eq!(
        blocks("```\ncode"),
        vec![Block::CodeBlock { language: None, code: "code".to_string() }]
    );
    assert_eq!(round("```\ncode"), "```\ncode\n```");
    assert_eq!(
        blocks("```lang"),
        vec![Block::CodeBlock { language: Some("lang".to_string()), code: String::new() }]
    );
}

#[test]
fn rest_of_the_closing_fence_line_is_dropped() {
    assert_eq!(
        blocks("```\nx\n``` trailing\nnext"),
        vec![
            Block::CodeBlock { language: None, code: "x\n".to_string() },
            Block::Paragraph(run("next")),
        ]
    );
}

#[test]
fn fence_may_stand_within_a_line() {
    assert_eq!(
        blocks("para```\ncode\n```"),
        vec![
            Block::Paragraph(run("para")),
            Block::CodeBlock { language: None, code: "code\n".to_string() },
        ]
    );
}

#[test]
fn backticks_inside_a_fence_are_code() {
    let source = "```\na``b and `c`\n```";
    assert_eq!(
        blocks(source),
        vec![Block::CodeBlock { language: None, code: "a``b and `c`\n".to_string() }]
    );
    assert_eq!(round(source), source);
}

#[test]
fn code_is_not_parsed_as_inline_text() {
    let source = "```\n**not bold** [x](y)\n\n# no header\n```";
    assert_eq!(blocks(source).len(), 1);
    assert_eq!(round(source), source);
}

#[test]
fn sections_between_code_blocks() {
    let source = "# T\n\n```\na\n```\n\nmid\n\n```js\nb\n```\n\nend";
    let parsed = blocks(source);
    assert_eq!(parsed.len(), 5);
    assert_eq!(parsed[2], Block::Paragraph(run("mid")));
    assert_eq!(round(source), source);
}

#[test]
fn paragraph_keeps_single_line_feeds() {
    assert_eq!(blocks("a\nb"), vec![Block::Paragraph(run("a\nb"))]);
    assert_eq!(round("a\nb"), "a\nb");
}

#[test]
fn blank_sections_are_dropped() {
    assert_eq!(blocks("  # T  \n\n \t \n\n\n  para  ").len(), 2);
    assert_eq!(round("  # T  \n\n \t \n\n\n  para  "), "# T\n\npara");
    assert_eq!(blocks(" \n\n \n"), Vec::<Block>::new());
}

#[test]
fn odd_runs_of_line_feeds() {
    assert_eq!(round("a\n\n\nb"), "a\n\nb");
    assert_eq!(round("a\n\n\n\n\nb"), "a\n\nb");
}

#[test]
fn unclosed_delimiters_round_trip_in_a_document() {
    for s in [
        "This has **unclosed bold text",
        "This has *unclosed italic text",
        "This has `unclosed inline code",
        "[unclosed link](incomplete",
        "a (parenthesis) and a ] bracket",
        "Text ***with* stray** stars*",
    ] {
        assert_eq!(round(s), s);
    }
}

#[test]
fn round_trip_of_supported_constructs() {
    for s in [
        "# Hello World",
        "This is **bold** and this is *italic* text.",
        "|Name|Age|\n|---|---|\n|John|25|\n|Jane|30|",
        "|a|b|\n|c|d|",
        "> quoted *text*\n> second line",
        "1. one\n2. two",
        "- [link](url)\n- `code`",
    ] {
        assert_eq!(round(s), s);
    }
}

#[test]
fn table_header_cases_from_text() {
    match &blocks("|Name|Age|\n|---|---|\n|John|25|\n|Jane|30|")[0] {
        Block::Table(t) => {
            assert!(t.has_header);
            assert_eq!(t.rows.len(), 4);
        }
        other => panic!("no table: {:?}", other),
    }
    match &blocks("|a|b|\n|c|d|")[0] {
        Block::Table(t) => assert!(!t.has_header),
        other => panic!("no table: {:?}", other),
    }
}

#[test]
fn empty_input_has_no_blocks() {
    let doc = Document::parse("").unwrap();
    assert_eq!(doc.blocks.len(), 0);
    assert_eq!(doc.to_markdown(), "");
    assert_eq!(Document::new(Vec::new()).to_markdown(), "");
}

#[test]
fn parse_never_fails() {
    for s in ["# \x00", "**", "```", "`", "[](", "|\n|", "\r\n", "]()[", "- ", "1. ", "> "] {
        assert!(parse(s).is_ok());
        assert!(Document::parse(s).is_ok());
    }
}

#[test]
fn document_new_holds_the_blocks() {
    let doc = Document::new(vec![
        Block::Header { level: 2, text: run("T") },
        Block::Paragraph(run("p")),
        Block::UnorderedList(vec![run("a"), run("b")]),
        Block::OrderedList(vec![run("a"), run("b")]),
        Block::CodeBlock { language: None, code: "c \n".to_string() },
        Block::Blockquote(run("q\nr")),
        Block::Table(Table::new_with_header(vec![row(&["x", "y"]), row(&["1"])], true)),
    ]);
    assert_eq!(doc.blocks.len(), 7);
    assert_eq!(
        doc.to_markdown(),
        "## T\n\np\n\n- a\n- b\n\n1. a\n2. b\n\n```\nc\n```\n\n> q\n> r\n\n|x|y|\n|1|"
    );
    assert_eq!(to_markdown(&doc), doc.to_markdown());
}

#[test]
fn block_text_of_each_kind() {
    let text: String = block_text(&Block::Header { level: 0, text: run("t") }).iter().collect();
    assert_eq!(text, " t");
    let quote: String = block_text(&Block::Blockquote(InlineText::new(Vec::new()))).iter().collect();
    assert_eq!(quote, "");
    let code: String = block_text(&Block::CodeBlock {
        language: Some("c".to_string()),
        code: String::new(),
    })
    .iter()
    .collect();
    assert_eq!(code, "```c\n\n```");
    let table: String =
        block_text(&Block::Table(Table::new(Vec::new()))).iter().collect();
    assert_eq!(table, "");
}

#[test]
fn classify_one_section() {
    assert_eq!(classify(&cs("#a")), Block::Header { level: 1, text: run("a") });
    assert_eq!(classify(&cs("text")), Block::Paragraph(run("text")));
    assert_eq!(classify(&cs("3. x")), Block::OrderedList(vec![run("x")]));
}

#[test]
fn parse_section_appends() {
    let mut out = vec![Block::Paragraph(run("before"))];
    parse_section(&cs("a\n\n\n\n- b\n\n"), &mut out);
    assert_eq!(
        out,
        vec![
            Block::Paragraph(run("before")),
            Block::Paragraph(run("a")),
            Block::UnorderedList(vec![run("b")]),
        ]
    );
}

#[test]
fn line_kinds() {
    assert!(line_has_kind(LineKind::Quote, &cs("  > q")));
    assert!(!line_has_kind(LineKind::Quote, &cs(">q")));
    assert!(line_has_kind(LineKind::Bullet, &cs("- b")));
    assert!(!line_has_kind(LineKind::Bullet, &cs("-")));
    assert!(line_has_kind(LineKind::Numbered, &cs("12. n")));
    assert!(!line_has_kind(LineKind::Numbered, &cs("12.n")));
    assert!(!line_has_kind(LineKind::Numbered, &cs("a. n")));
    assert!(line_has_kind(LineKind::Row, &cs("a|b")));
    assert!(!line_has_kind(LineKind::Row, &cs("ab")));
    assert!(every_line_has_kind(LineKind::Row, &Vec::new()));
    assert!(!every_line_has_kind(LineKind::Bullet, &vec![cs("- a"), cs("b")]));
}

#[test]
fn error_describes_itself() {
    let e = Error::ParseError("boom".to_string());
    assert_eq!(e.to_string(), "Parse error: boom");
}
