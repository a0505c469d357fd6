//! What rendering gives back of a parsed text.
//!
//! A text made of sections and fenced code blocks, with blank lines between
//! them, has one block for each part, and renders back to itself where each
//! of its sections does.

use vstd::prelude::*;
use crate::block::BlockView;
use crate::block_facts::{
    are_sections, begins_block, bullet_lines, code_block_of, code_block_text, header_text,
    is_code_block, is_row, is_section, lemma_bullets_render_back, lemma_code_block_renders,
    lemma_header_is_section, lemma_header_renders_back, lemma_numbered_render_back,
    lemma_paragraph_renders_back, lemma_plain_section_is_paragraph, lemma_quote_renders_back,
    lemma_table_renders_back, numbered_lines, quote_lines, renders_back,
};
use crate::inline::inline_of;
use crate::inline_facts::lemma_inline_round_trip;
use crate::parser::{
    after_line, blank_line, block_of, document_blocks, fence, fenced_blocks, first_line,
    language_of, lemma_after_line, line_feed, piece_blocks, pieces_blocks, render_block,
    render_document, render_row, section_blocks,
};
use crate::table::detects_header;
use crate::text::{
    contains, first_occurrence, is_whitespace, join, lemma_first_occurrence_from,
    lemma_first_occurrence_is, lemma_first_occurrence_none, occurs_at, repeated, split, trimmed,
};
use crate::text_facts::{
    are_lines, lemma_first_occurrence_after, lemma_first_occurrence_shift, lemma_join_concat,
    lemma_join_ends, lemma_join_first, lemma_split_after, lemma_split_none, lemma_trimmed_is_self,
    lemma_trimmed_with_whitespace_after, lemma_trimmed_with_whitespace_before, lemma_without_char,
};

verus! {

/// Sections that were joined with blank lines are what the join splits
/// into at blank lines.
pub proof fn lemma_split_sections(sections: Seq<Seq<char>>)
    requires
        sections.len() > 0,
        are_sections(sections),
    ensures
        split(join(sections, blank_line()), blank_line()) == sections,
    decreases sections.len(),
{
    let a = sections[0];
    let rest = sections.skip(1);
    assert(is_section(a));
    assert(sections =~= seq![a] + rest);
    if rest.len() == 0 {
        assert(sections =~= seq![a]);
        assert(join(sections, blank_line()) == a);
        lemma_split_none(a, blank_line());
    } else {
        assert(are_sections(rest)) by {
            assert forall|i: int| 0 <= i < rest.len() implies is_section(#[trigger] rest[i]) by {
                assert(rest[i] == sections[i + 1]);
            }
        }
        lemma_split_sections(rest);
        lemma_join_first(a, rest, blank_line());
        let r = join(rest, blank_line());
        let s = a + blank_line() + r;
        assert forall|j: int| 0 <= j < a.len() && j + blank_line().len() > a.len() implies !occurs_at(
            s,
            blank_line(),
            j,
        ) by {
            if occurs_at(s, blank_line(), j) {
                assert(s.subrange(j, j + 2)[0] == blank_line()[0]);
                assert(s[j] == a.last());
            }
        }
        lemma_split_after(a, blank_line(), r);
    }
}

/// Each section gives one block: its own.
pub proof fn lemma_pieces_blocks_of_sections(sections: Seq<Seq<char>>)
    requires
        are_sections(sections),
    ensures
        pieces_blocks(sections) == sections.map_values(|sec: Seq<char>| block_of(sec)),
    decreases sections.len(),
{
    let blocks = sections.map_values(|sec: Seq<char>| block_of(sec));
    if sections.len() == 0 {
        assert(pieces_blocks(sections) =~= blocks);
    } else {
        let front = sections.drop_last();
        let last = sections.last();
        assert(are_sections(front)) by {
            assert forall|i: int| 0 <= i < front.len() implies is_section(#[trigger] front[i]) by {
                assert(front[i] == sections[i]);
            }
        }
        lemma_pieces_blocks_of_sections(front);
        assert(is_section(last));
        lemma_trimmed_is_self(last);
        assert(piece_blocks(last) == seq![block_of(last)]);
        assert(pieces_blocks(sections) =~= blocks);
    }
}

/// The blocks of sections that are joined with blank lines, in a text
/// without a fence: one block for each section.
pub proof fn lemma_document_of_sections(sections: Seq<Seq<char>>)
    requires
        are_sections(sections),
        !contains(join(sections, blank_line()), fence()),
    ensures
        document_blocks(join(sections, blank_line())) == sections.map_values(
            |sec: Seq<char>| block_of(sec),
        ),
{
    let s = join(sections, blank_line());
    if sections.len() == 0 {
        assert(trimmed(s) == s);
        assert(split(s, blank_line()) == seq![s]) by {
            assert(first_occurrence(s, blank_line()) is None);
        }
        assert(seq![s].drop_last() =~= Seq::<Seq<char>>::empty());
        assert(pieces_blocks(seq![s].drop_last()) =~= Seq::<BlockView>::empty());
        assert(pieces_blocks(seq![s]) =~= Seq::<BlockView>::empty());
        assert(document_blocks(s) =~= sections.map_values(|sec: Seq<char>| block_of(sec)));
    } else {
        assert forall|i: int| 0 <= i < sections.len() implies (#[trigger] sections[i]).len()
            > 0 by {
            assert(is_section(sections[i]));
        }
        lemma_join_ends(sections, blank_line());
        assert(is_section(sections[0]));
        assert(is_section(sections.last()));
        lemma_trimmed_is_self(s);
        lemma_split_sections(sections);
        lemma_pieces_blocks_of_sections(sections);
    }
}

/// A text without a fence, made of sections with blank lines between them,
/// renders back, after parsing, to itself, where each of its sections
/// does.
pub proof fn lemma_document_round_trip(sections: Seq<Seq<char>>)
    requires
        are_sections(sections),
        forall|i: int| 0 <= i < sections.len() ==> renders_back(#[trigger] sections[i]),
        !contains(join(sections, blank_line()), fence()),
    ensures
        render_document(document_blocks(join(sections, blank_line()))) == join(
            sections,
            blank_line(),
        ),
{
    lemma_document_of_sections(sections);
    let blocks = sections.map_values(|sec: Seq<char>| block_of(sec));
    assert(blocks.map_values(|b: BlockView| render_block(b)) =~= sections);
}

/// Degradation loses nothing. A text of one section that begins with none
/// of `#`, `>`, `-` and the digits, and holds no bar and no fence, renders
/// back, after parsing, to itself, whatever delimiters and links it leaves
/// open.
pub proof fn lemma_plain_text_round_trip(s: Seq<char>)
    requires
        is_section(s),
        !begins_block(s[0]),
        !contains(s, seq!['|']),
        !contains(s, fence()),
    ensures
        document_blocks(s) == seq![BlockView::Paragraph(inline_of(s))],
        render_document(document_blocks(s)) == s,
{
    let sections = seq![s];
    assert(join(sections, blank_line()) == s);
    lemma_plain_section_is_paragraph(s);
    lemma_inline_round_trip(s);
    lemma_document_of_sections(sections);
    lemma_document_round_trip(sections);
    assert(sections.map_values(|sec: Seq<char>| block_of(sec)) =~= seq![block_of(s)]);
}

/// Whether the block `b`, if it is a table, has a header exactly where its
/// rows show one: there are at least two rows, and the second is a
/// separator row.
pub open spec fn header_is_detected(b: BlockView) -> bool {
    b matches BlockView::Table(t) ==> t.has_header == detects_header(t.rows)
}

/// Whether `header_is_detected` holds of each of `blocks`.
pub open spec fn headers_are_detected(blocks: Seq<BlockView>) -> bool {
    forall|i: int| 0 <= i < blocks.len() ==> header_is_detected(#[trigger] blocks[i])
}

/// In the blocks of pieces, each table has a header exactly where its rows
/// show one.
pub proof fn lemma_pieces_headers(pieces: Seq<Seq<char>>)
    ensures
        headers_are_detected(pieces_blocks(pieces)),
    decreases pieces.len(),
{
    if pieces.len() > 0 {
        assert(header_is_detected(block_of(trimmed(pieces.last())))) by {
            reveal(block_of);
        }
        lemma_pieces_headers(pieces.drop_last());
        let front = pieces_blocks(pieces.drop_last());
        let last = piece_blocks(pieces.last());
        assert forall|i: int| 0 <= i < (front + last).len() implies header_is_detected(
            #[trigger] (front + last)[i],
        ) by {
            if i < front.len() {
                assert((front + last)[i] == front[i]);
            } else {
                assert((front + last)[i] == last[i - front.len()]);
            }
        }
    }
}

/// In every parsed document, each table has a header exactly where its
/// rows show one.
pub proof fn lemma_document_headers(s: Seq<char>)
    ensures
        headers_are_detected(document_blocks(s)),
    decreases s.len(), 1nat,
{
    lemma_first_occurrence_from(s, fence(), 0);
    match first_occurrence(s, fence()) {
        Some(p) => {
            let front = section_blocks(trimmed(s.take(p)));
            let back = fenced_blocks(s.skip(p + 3));
            lemma_pieces_headers(split(trimmed(s.take(p)), blank_line()));
            lemma_fenced_headers(s.skip(p + 3));
            assert forall|i: int| 0 <= i < (front + back).len() implies header_is_detected(
                #[trigger] (front + back)[i],
            ) by {
                if i < front.len() {
                    assert((front + back)[i] == front[i]);
                } else {
                    assert((front + back)[i] == back[i - front.len()]);
                }
            }
        },
        None => {
            lemma_pieces_headers(split(trimmed(s), blank_line()));
        },
    }
}

/// In the blocks that follow an opening fence, each table has a header
/// exactly where its rows show one.
pub proof fn lemma_fenced_headers(r: Seq<char>)
    ensures
        headers_are_detected(fenced_blocks(r)),
    decreases r.len(), 0nat,
{
    let body = after_line(r);
    lemma_after_line(r);
    lemma_first_occurrence_from(body, fence(), 0);
    match first_occurrence(body, fence()) {
        Some(q) => {
            let code = seq![
                BlockView::CodeBlock { language: language_of(first_line(r)), code: body.take(q) },
            ];
            let rest = after_line(body.skip(q + 3));
            lemma_after_line(body.skip(q + 3));
            let back = document_blocks(rest);
            lemma_document_headers(rest);
            assert forall|i: int| 0 <= i < (code + back).len() implies header_is_detected(
                #[trigger] (code + back)[i],
            ) by {
                if i >= code.len() {
                    assert((code + back)[i] == back[i - code.len()]);
                }
            }
        },
        None => {},
    }
}

/// The empty text has no blocks, and a document without blocks renders to
/// the empty text.
pub proof fn lemma_empty_document()
    ensures
        document_blocks(Seq::<char>::empty()) == Seq::<BlockView>::empty(),
        render_document(Seq::<BlockView>::empty()) == Seq::<char>::empty(),
{
    lemma_document_of_sections(Seq::<Seq<char>>::empty());
    assert(join(Seq::<Seq<char>>::empty(), blank_line()) =~= Seq::<char>::empty());
    assert(Seq::<Seq<char>>::empty().map_values(|sec: Seq<char>| block_of(sec))
        =~= Seq::<BlockView>::empty());
    assert(Seq::<BlockView>::empty().map_values(|b: BlockView| render_block(b))
        =~= Seq::<Seq<char>>::empty());
}

/// In code without a fence, followed by a line feed and a fence, the first
/// fence is the one after the line feed, whatever follows it.
proof fn lemma_closing_fence(code: Seq<char>, tail: Seq<char>)
    requires
        !contains(code, fence()),
    ensures
        first_occurrence(code + line_feed() + fence() + tail, fence()) == Some(
            (code.len() + 1) as int,
        ),
{
    let body = code + line_feed() + fence() + tail;
    let q: int = (code.len() + 1) as int;
    assert(body.subrange(q, q + 3) =~= fence());
    lemma_first_occurrence_from(code, fence(), 0);
    assert forall|j: int| 0 <= j < q implies !occurs_at(body, fence(), j) by {
        if occurs_at(body, fence(), j) {
            if j + 3 <= code.len() {
                assert(code.subrange(j, j + 3) =~= body.subrange(j, j + 3));
                assert(occurs_at(code, fence(), j));
            } else {
                let k = code.len() - j;
                assert(body.subrange(j, j + 3)[k] == fence()[k]);
                assert(body[code.len() as int] == '\n');
            }
        }
    }
    lemma_first_occurrence_is(body, fence(), q);
}

/// What follows the opening fence of a code block is the block, and then
/// the blocks of what follows the line of the closing fence.
proof fn lemma_fenced_code_block(language: Seq<char>, code: Seq<char>, tail: Seq<char>)
    requires
        is_code_block(language, code),
    ensures
        fenced_blocks(language + line_feed() + (code + line_feed() + fence() + tail)) == seq![
            code_block_of(language, code),
        ] + document_blocks(after_line(tail)),
{
    let body = code + line_feed() + fence() + tail;
    let r = language + line_feed() + body;
    lemma_without_char(language, '\n');
    lemma_first_occurrence_after(language, line_feed(), body);
    assert(r.take(language.len() as int) =~= language);
    assert(r.skip((language.len() + 1) as int) =~= body);
    assert(first_line(r) == language);
    assert(after_line(r) == body);
    lemma_trimmed_is_self(language);
    assert(language_of(language) == if language.len() == 0 {
        None
    } else {
        Some(language)
    });
    lemma_closing_fence(code, tail);
    let q: int = (code.len() + 1) as int;
    assert(body.take(q) =~= code + line_feed());
    assert(body.skip(q + 3) =~= tail);
}

/// The blocks of the text of a code block: the block alone.
pub proof fn lemma_code_block_blocks(language: Seq<char>, code: Seq<char>)
    requires
        is_code_block(language, code),
    ensures
        document_blocks(code_block_text(language, code)) == seq![code_block_of(language, code)],
{
    let s = code_block_text(language, code);
    let none = Seq::<char>::empty();
    let r = language + line_feed() + (code + line_feed() + fence() + none);
    lemma_fenced_code_block(language, code, none);
    lemma_empty_document();
    assert(code + line_feed() + fence() + none =~= code + line_feed() + fence());
    assert(after_line(none) =~= none);
    assert(seq![code_block_of(language, code)] + Seq::<BlockView>::empty() =~= seq![
        code_block_of(language, code),
    ]);
    assert(s.subrange(0, 3) =~= fence());
    lemma_first_occurrence_from(s, fence(), 0);
    assert(first_occurrence(s, fence()) == Some(0int));
    assert(s.take(0) =~= Seq::<char>::empty());
    assert(s.skip(3) =~= r);
    assert(section_blocks(trimmed(Seq::<char>::empty())) =~= Seq::<BlockView>::empty()) by {
        assert(first_occurrence(Seq::<char>::empty(), fence()) is None);
    }
    assert(Seq::<BlockView>::empty() + seq![code_block_of(language, code)] =~= seq![
        code_block_of(language, code),
    ]);
}

/// A fenced code block renders back, after parsing, to itself.
pub proof fn lemma_code_block_round_trip(language: Seq<char>, code: Seq<char>)
    requires
        is_code_block(language, code),
    ensures
        render_document(document_blocks(code_block_text(language, code))) == code_block_text(
            language,
            code,
        ),
{
    lemma_code_block_blocks(language, code);
    lemma_code_block_renders(language, code);
    let block = code_block_of(language, code);
    assert(seq![block].map_values(|b: BlockView| render_block(b)) =~= seq![render_block(block)]);
}

/// One part of a text: a section, or a fenced code block with its language
/// tag and its code.
pub enum Unit {
    Section(Seq<char>),
    Code { language: Seq<char>, code: Seq<char> },
}

/// The text of the part `u`.
pub open spec fn unit_text(u: Unit) -> Seq<char> {
    match u {
        Unit::Section(sec) => sec,
        Unit::Code { language, code } => code_block_text(language, code),
    }
}

/// The block that the part `u` stands for.
pub open spec fn unit_block(u: Unit) -> BlockView {
    match u {
        Unit::Section(sec) => block_of(sec),
        Unit::Code { language, code } => code_block_of(language, code),
    }
}

/// Whether the part `u` can stand in a text as it is: a section that holds
/// no fence, or a code block.
pub open spec fn is_unit(u: Unit) -> bool {
    match u {
        Unit::Section(sec) => is_section(sec) && !contains(sec, fence()),
        Unit::Code { language, code } => is_code_block(language, code),
    }
}

/// Whether each of `units` can stand in a text as it is.
pub open spec fn are_units(units: Seq<Unit>) -> bool {
    forall|i: int| 0 <= i < units.len() ==> is_unit(#[trigger] units[i])
}

/// Whether each section among `units` renders back to itself.
pub open spec fn units_render_back(units: Seq<Unit>) -> bool {
    forall|i: int|
        0 <= i < units.len() ==> ((#[trigger] units[i]) matches Unit::Section(sec)
            ==> renders_back(sec))
}

/// The texts of `units`, in order.
pub open spec fn unit_texts(units: Seq<Unit>) -> Seq<Seq<char>> {
    units.map_values(|u: Unit| unit_text(u))
}

/// The text made of `units`, with a blank line between neighbours.
pub open spec fn document_text(units: Seq<Unit>) -> Seq<char> {
    join(unit_texts(units), blank_line())
}

/// Whether each of `sections` holds no fence.
pub open spec fn are_fence_free(sections: Seq<Seq<char>>) -> bool {
    forall|i: int| 0 <= i < sections.len() ==> !contains(#[trigger] sections[i], fence())
}

/// A text that holds a fence holds a backtick at each of its three places.
proof fn lemma_fence_is_backticks(s: Seq<char>, j: int)
    requires
        occurs_at(s, fence(), j),
    ensures
        s[j] == '`',
        s[j + 1] == '`',
        s[j + 2] == '`',
{
    assert(s.subrange(j, j + 3)[0] == fence()[0]);
    assert(s.subrange(j, j + 3)[1] == fence()[1]);
    assert(s.subrange(j, j + 3)[2] == fence()[2]);
}

/// Sections without a fence, joined with blank lines, hold no fence, also
/// where one more blank line follows.
proof fn lemma_sections_fence_free(sections: Seq<Seq<char>>)
    requires
        are_fence_free(sections),
    ensures
        !contains(join(sections, blank_line()), fence()),
        !contains(join(sections, blank_line()) + blank_line(), fence()),
    decreases sections.len(),
{
    let s = join(sections, blank_line());
    if sections.len() == 0 {
    } else if sections.len() == 1 {
        assert(s == sections[0]);
    } else {
        let front = sections.drop_last();
        assert forall|i: int| 0 <= i < front.len() implies !contains(
            #[trigger] front[i],
            fence(),
        ) by {
            assert(front[i] == sections[i]);
        }
        lemma_sections_fence_free(front);
        let f = join(front, blank_line()) + blank_line();
        let last = sections.last();
        assert(s =~= f + last);
        lemma_first_occurrence_from(f, fence(), 0);
        lemma_first_occurrence_from(last, fence(), 0);
        assert forall|j: int| 0 <= j < s.len() implies !occurs_at(s, fence(), j) by {
            if occurs_at(s, fence(), j) {
                lemma_fence_is_backticks(s, j);
                if j + 3 <= f.len() {
                    assert(f.subrange(j, j + 3) =~= s.subrange(j, j + 3));
                    assert(occurs_at(f, fence(), j));
                } else if j >= f.len() {
                    assert(last.subrange(j - f.len(), j - f.len() + 3) =~= s.subrange(j, j + 3));
                    assert(occurs_at(last, fence(), j - f.len()));
                } else {
                    assert(s[f.len() - 1] == '\n');
                }
            }
        }
        lemma_first_occurrence_none(s, fence());
    }
    let t = s + blank_line();
    lemma_first_occurrence_from(s, fence(), 0);
    assert forall|j: int| 0 <= j < t.len() implies !occurs_at(t, fence(), j) by {
        if occurs_at(t, fence(), j) {
            lemma_fence_is_backticks(t, j);
            if j + 3 <= s.len() {
                assert(s.subrange(j, j + 3) =~= t.subrange(j, j + 3));
                assert(occurs_at(s, fence(), j));
            } else {
                assert(t[j + 2] == '\n');
            }
        }
    }
    lemma_first_occurrence_none(t, fence());
}

/// A line feed before a text changes nothing of its blocks.
proof fn lemma_document_after_line_feed(d: Seq<char>)
    ensures
        document_blocks(seq!['\n'] + d) == document_blocks(d),
{
    let s = seq!['\n'] + d;
    lemma_first_occurrence_shift('\n', d, fence());
    lemma_first_occurrence_from(d, fence(), 0);
    assert(is_whitespace('\n'));
    match first_occurrence(d, fence()) {
        Some(p) => {
            assert(s.take(p + 1) =~= seq!['\n'] + d.take(p));
            lemma_trimmed_with_whitespace_before('\n', d.take(p));
            assert(s.skip(p + 1 + 3) =~= d.skip(p + 3));
        },
        None => {
            lemma_trimmed_with_whitespace_before('\n', d);
        },
    }
}

/// The blocks of sections that are joined with blank lines, with or
/// without one more blank line after them: one block for each section.
proof fn lemma_section_blocks_of_sections(sections: Seq<Seq<char>>)
    requires
        are_sections(sections),
    ensures
        section_blocks(trimmed(join(sections, blank_line()))) == sections.map_values(
            |sec: Seq<char>| block_of(sec),
        ),
        sections.len() > 0 ==> section_blocks(trimmed(join(sections, blank_line()) + blank_line()))
            == sections.map_values(|sec: Seq<char>| block_of(sec)),
{
    let s = join(sections, blank_line());
    if sections.len() == 0 {
        lemma_empty_document();
        assert(first_occurrence(s, fence()) is None);
        assert(sections.map_values(|sec: Seq<char>| block_of(sec)) =~= Seq::<BlockView>::empty());
    } else {
        assert forall|i: int| 0 <= i < sections.len() implies (#[trigger] sections[i]).len()
            > 0 by {
            assert(is_section(sections[i]));
        }
        lemma_join_ends(sections, blank_line());
        assert(is_section(sections[0]));
        assert(is_section(sections.last()));
        lemma_trimmed_is_self(s);
        assert(is_whitespace('\n'));
        lemma_trimmed_with_whitespace_after(s, blank_line());
        lemma_split_sections(sections);
        lemma_pieces_blocks_of_sections(sections);
    }
}

/// The text of a code block between what stands before it, `pre`, and
/// what follows it, `tail`, where `pre` holds no fence and ends with a
/// line feed or is empty: the blocks are those of `pre`, the code block,
/// and those of what follows the line of its closing fence.
proof fn lemma_document_at_code_block(
    pre: Seq<char>,
    language: Seq<char>,
    code: Seq<char>,
    tail: Seq<char>,
)
    requires
        is_code_block(language, code),
        !contains(pre, fence()),
        pre.len() == 0 || pre.last() == '\n',
    ensures
        document_blocks(pre + code_block_text(language, code) + tail) == section_blocks(
            trimmed(pre),
        ) + seq![code_block_of(language, code)] + document_blocks(after_line(tail)),
{
    let r = language + line_feed() + (code + line_feed() + fence() + tail);
    let s = pre + code_block_text(language, code) + tail;
    assert(s =~= pre + fence() + r);
    assert forall|j: int| 0 <= j < pre.len() && j + fence().len() > pre.len() implies !occurs_at(
        pre + fence() + r,
        fence(),
        j,
    ) by {
        if occurs_at(pre + fence() + r, fence(), j) {
            lemma_fence_is_backticks(pre + fence() + r, j);
            assert((pre + fence() + r)[pre.len() - 1] == pre.last());
        }
    }
    lemma_first_occurrence_after(pre, fence(), r);
    assert(s.take(pre.len() as int) =~= pre);
    assert(s.skip((pre.len() + 3) as int) =~= r);
    lemma_fenced_code_block(language, code, tail);
    assert(section_blocks(trimmed(pre)) + (seq![code_block_of(language, code)] + document_blocks(
        after_line(tail),
    )) =~= section_blocks(trimmed(pre)) + seq![code_block_of(language, code)] + document_blocks(
        after_line(tail),
    ));
}

/// What follows the line feed that a blank line begins with.
proof fn lemma_after_blank_line(d: Seq<char>)
    ensures
        after_line(blank_line() + d) == seq!['\n'] + d,
{
    let t = blank_line() + d;
    assert(t.subrange(0, 1) =~= line_feed());
    lemma_first_occurrence_from(t, line_feed(), 0);
    assert(t.skip(1) =~= seq!['\n'] + d);
}

/// The text of `sections` up to a code block that follows them: the
/// sections and one more blank line, or nothing where there is no section.
spec fn text_before(sections: Seq<Seq<char>>) -> Seq<char> {
    if sections.len() > 0 {
        join(sections, blank_line()) + blank_line()
    } else {
        seq![]
    }
}

/// The text of `texts` after a code block that they follow: a blank line
/// and the texts, or nothing where there is no text.
spec fn text_after(texts: Seq<Seq<char>>) -> Seq<char> {
    if texts.len() > 0 {
        blank_line() + join(texts, blank_line())
    } else {
        seq![]
    }
}

/// A text with a code block in it, divided at the code block.
proof fn lemma_text_around(sections: Seq<Seq<char>>, c: Seq<char>, texts: Seq<Seq<char>>)
    ensures
        join(sections + (seq![c] + texts), blank_line()) == text_before(sections) + c + text_after(
            texts,
        ),
{
    let blank = blank_line();
    let from_code = seq![c] + texts;
    assert(join(seq![c], blank) == c);
    assert(join(from_code, blank) =~= c + text_after(texts)) by {
        if texts.len() > 0 {
            lemma_join_concat(seq![c], texts, blank);
        } else {
            assert(from_code =~= seq![c]);
        }
    }
    if sections.len() > 0 {
        lemma_join_concat(sections, from_code, blank);
        assert(join(sections + from_code, blank) =~= text_before(sections) + c + text_after(texts));
    } else {
        assert(sections + from_code =~= from_code);
        assert(join(from_code, blank) =~= text_before(sections) + c + text_after(texts));
    }
}

/// What stands before a code block: it holds no fence, ends with a line
/// feed or is empty, and its blocks are those of its sections.
proof fn lemma_text_before(sections: Seq<Seq<char>>)
    requires
        are_sections(sections),
        are_fence_free(sections),
    ensures
        !contains(text_before(sections), fence()),
        text_before(sections).len() == 0 || text_before(sections).last() == '\n',
        section_blocks(trimmed(text_before(sections))) == sections.map_values(
            |sec: Seq<char>| block_of(sec),
        ),
{
    lemma_sections_fence_free(sections);
    lemma_section_blocks_of_sections(sections);
    if sections.len() == 0 {
        assert(join(sections, blank_line()) =~= text_before(sections));
    }
}

/// What follows the line of a closing fence has the blocks of the texts
/// that follow the code block.
proof fn lemma_text_after(texts: Seq<Seq<char>>)
    ensures
        document_blocks(after_line(text_after(texts))) == document_blocks(
            join(texts, blank_line()),
        ),
{
    if texts.len() > 0 {
        lemma_after_blank_line(join(texts, blank_line()));
        lemma_document_after_line_feed(join(texts, blank_line()));
    } else {
        assert(after_line(text_after(texts)) =~= Seq::<char>::empty());
        assert(join(texts, blank_line()) =~= Seq::<char>::empty());
    }
}

/// Sections and one more are sections.
proof fn lemma_sections_push(sections: Seq<Seq<char>>, sec: Seq<char>)
    requires
        are_sections(sections),
        are_fence_free(sections),
        is_section(sec),
        !contains(sec, fence()),
    ensures
        are_sections(sections.push(sec)),
        are_fence_free(sections.push(sec)),
{
    let more = sections.push(sec);
    assert forall|i: int| 0 <= i < more.len() implies is_section(#[trigger] more[i]) && !contains(
        more[i],
        fence(),
    ) by {
        if i < sections.len() {
            assert(more[i] == sections[i]);
        }
    }
}

/// The blocks of the text made of `sections` and then of `units`, with
/// blank lines between neighbours: one block for each, in order.
proof fn lemma_document_of_sections_and_units(sections: Seq<Seq<char>>, units: Seq<Unit>)
    requires
        are_sections(sections),
        are_fence_free(sections),
        are_units(units),
    ensures
        document_blocks(join(sections + unit_texts(units), blank_line())) == sections.map_values(
            |sec: Seq<char>| block_of(sec),
        ) + units.map_values(|u: Unit| unit_block(u)),
    decreases units.len(),
{
    let head = sections.map_values(|sec: Seq<char>| block_of(sec));
    let blocks = units.map_values(|u: Unit| unit_block(u));
    let texts = sections + unit_texts(units);
    if units.len() == 0 {
        assert(texts =~= sections);
        lemma_sections_fence_free(sections);
        lemma_document_of_sections(sections);
        assert(head + blocks =~= head);
        return ;
    }
    let rest = units.skip(1);
    let later = rest.map_values(|u: Unit| unit_block(u));
    assert(is_unit(units[0]));
    assert(are_units(rest)) by {
        assert forall|i: int| 0 <= i < rest.len() implies is_unit(#[trigger] rest[i]) by {
            assert(rest[i] == units[i + 1]);
        }
    }
    assert(unit_texts(units) =~= seq![unit_text(units[0])] + unit_texts(rest));
    assert(blocks =~= seq![unit_block(units[0])] + later);
    match units[0] {
        Unit::Section(sec) => {
            let more = sections.push(sec);
            lemma_sections_push(sections, sec);
            lemma_document_of_sections_and_units(more, rest);
            assert(texts =~= more + unit_texts(rest));
            assert(more.map_values(|sec: Seq<char>| block_of(sec)) + later =~= head + blocks);
        },
        Unit::Code { language, code } => {
            let none = Seq::<Seq<char>>::empty();
            let c = code_block_text(language, code);
            let pre = text_before(sections);
            let tail = text_after(unit_texts(rest));
            lemma_text_around(sections, c, unit_texts(rest));
            lemma_text_before(sections);
            lemma_document_at_code_block(pre, language, code, tail);
            lemma_text_after(unit_texts(rest));
            lemma_document_of_sections_and_units(none, rest);
            assert(none + unit_texts(rest) =~= unit_texts(rest));
            assert(none.map_values(|sec: Seq<char>| block_of(sec)) + later =~= later);
            assert(head + seq![code_block_of(language, code)] + later =~= head + blocks);
        },
    }
}

/// The blocks of a text made of sections and code blocks with blank lines
/// between them: one block for each part, in order.
pub proof fn lemma_document_of_units(units: Seq<Unit>)
    requires
        are_units(units),
    ensures
        document_blocks(document_text(units)) == units.map_values(|u: Unit| unit_block(u)),
{
    let none = Seq::<Seq<char>>::empty();
    lemma_document_of_sections_and_units(none, units);
    assert(none + unit_texts(units) =~= unit_texts(units));
    assert(none.map_values(|sec: Seq<char>| block_of(sec)) + units.map_values(
        |u: Unit| unit_block(u),
    ) =~= units.map_values(|u: Unit| unit_block(u)));
}

/// Round trip. A text made of sections and code blocks with blank lines
/// between them renders back, after parsing, to itself, where each of its
/// sections does.
pub proof fn lemma_round_trip(units: Seq<Unit>)
    requires
        are_units(units),
        units_render_back(units),
    ensures
        render_document(document_blocks(document_text(units))) == document_text(units),
{
    lemma_document_of_units(units);
    let blocks = units.map_values(|u: Unit| unit_block(u));
    assert(blocks.map_values(|b: BlockView| render_block(b)) =~= unit_texts(units)) by {
        assert forall|i: int| 0 <= i < units.len() implies render_block(blocks[i]) == unit_texts(
            units,
        )[i] by {
            assert(is_unit(units[i]));
            match units[i] {
                Unit::Section(sec) => {
                    assert(renders_back(sec));
                },
                Unit::Code { language, code } => {
                    lemma_code_block_renders(language, code);
                },
            }
        }
    }
}

/// The blocks of a first piece and others: those of the first, then those
/// of the others.
proof fn lemma_pieces_blocks_first(a: Seq<char>, rest: Seq<Seq<char>>)
    ensures
        pieces_blocks(seq![a] + rest) == piece_blocks(a) + pieces_blocks(rest),
    decreases rest.len(),
{
    let all = seq![a] + rest;
    if rest.len() == 0 {
        assert(all.drop_last() =~= Seq::<Seq<char>>::empty());
        assert(pieces_blocks(all.drop_last()) =~= Seq::<BlockView>::empty());
        assert(pieces_blocks(all) =~= piece_blocks(a) + pieces_blocks(rest));
    } else {
        lemma_pieces_blocks_first(a, rest.drop_last());
        assert(all.drop_last() =~= seq![a] + rest.drop_last());
        assert(all.last() == rest.last());
        assert(pieces_blocks(all) =~= piece_blocks(a) + pieces_blocks(rest));
    }
}

/// Line feeds before a section give no block of their own.
proof fn lemma_section_after_line_feeds(b: Seq<char>, m: nat)
    requires
        is_section(b),
    ensures
        section_blocks(repeated('\n', m) + b) == seq![block_of(b)],
    decreases m,
{
    let blank = blank_line();
    let none = Seq::<Seq<char>>::empty();
    let s = repeated('\n', m) + b;
    lemma_trimmed_is_self(b);
    assert(is_whitespace('\n'));
    assert(seq![b] + none =~= seq![b]);
    assert(pieces_blocks(none) =~= Seq::<BlockView>::empty());
    if m == 0 {
        assert(s =~= b);
        lemma_split_none(b, blank);
        lemma_pieces_blocks_first(b, none);
        assert(piece_blocks(b) + Seq::<BlockView>::empty() =~= seq![block_of(b)]);
    } else if m == 1 {
        assert(s =~= seq!['\n'] + b);
        lemma_first_occurrence_from(b, blank, 0);
        assert forall|j: int| 0 <= j < s.len() implies !occurs_at(s, blank, j) by {
            if occurs_at(s, blank, j) {
                assert(s.subrange(j, j + 2)[1] == blank[1]);
                if j == 0 {
                    assert(s[1] == b[0]);
                } else {
                    assert(b.subrange(j - 1, j + 1) =~= s.subrange(j, j + 2));
                    assert(occurs_at(b, blank, j - 1));
                }
            }
        }
        lemma_first_occurrence_none(s, blank);
        assert(split(s, blank) == seq![s]);
        lemma_trimmed_with_whitespace_before('\n', b);
        assert(seq![s] + none =~= seq![s]);
        lemma_pieces_blocks_first(s, none);
        assert(piece_blocks(s) + Seq::<BlockView>::empty() =~= seq![block_of(b)]);
    } else {
        let rest = repeated('\n', (m - 2) as nat) + b;
        lemma_section_after_line_feeds(b, (m - 2) as nat);
        assert(s =~= blank + rest);
        assert(s.subrange(0, 2) =~= blank);
        lemma_first_occurrence_from(s, blank, 0);
        assert(s.take(0) =~= Seq::<char>::empty());
        assert(s.skip(2) =~= rest);
        assert(split(s, blank) == seq![Seq::<char>::empty()] + split(rest, blank));
        lemma_pieces_blocks_first(Seq::<char>::empty(), split(rest, blank));
        assert(piece_blocks(Seq::<char>::empty()) =~= Seq::<BlockView>::empty());
        assert(Seq::<BlockView>::empty() + seq![block_of(b)] =~= seq![block_of(b)]);
    }
}

/// Blank lines collapse. Two sections with two or more line feeds between
/// them, in a text without a fence, give the same two blocks however many
/// line feeds there are.
pub proof fn lemma_blank_lines_collapse(a: Seq<char>, b: Seq<char>, k: nat)
    requires
        is_section(a),
        is_section(b),
        k >= 2,
        !contains(a + repeated('\n', k) + b, fence()),
    ensures
        document_blocks(a + repeated('\n', k) + b) == seq![block_of(a), block_of(b)],
        render_document(document_blocks(a + repeated('\n', k) + b)) == render_block(block_of(a))
            + blank_line() + render_block(block_of(b)),
{
    let blank = blank_line();
    let s = a + repeated('\n', k) + b;
    let rest = repeated('\n', (k - 2) as nat) + b;
    assert(s =~= a + blank + rest);
    assert(s[0] == a[0]);
    assert(s.last() == b.last());
    lemma_trimmed_is_self(s);
    lemma_trimmed_is_self(a);
    assert(is_whitespace('\n'));
    assert forall|j: int| 0 <= j < a.len() && j + blank.len() > a.len() implies !occurs_at(
        a + blank + rest,
        blank,
        j,
    ) by {
        if occurs_at(a + blank + rest, blank, j) {
            assert((a + blank + rest).subrange(j, j + 2)[0] == blank[0]);
            assert((a + blank + rest)[j] == a.last());
        }
    }
    lemma_split_after(a, blank, rest);
    lemma_pieces_blocks_first(a, split(rest, blank));
    lemma_section_after_line_feeds(b, (k - 2) as nat);
    let blocks = seq![block_of(a), block_of(b)];
    assert(piece_blocks(a) + seq![block_of(b)] =~= blocks);
    let texts = blocks.map_values(|x: BlockView| render_block(x));
    assert(texts.drop_last() =~= seq![render_block(block_of(a))]);
    assert(join(texts.drop_last(), blank) == render_block(block_of(a)));
    assert(texts.last() == render_block(block_of(b)));
}


/// One part of a text in the form in which it is rendered: a paragraph, a
/// header with its level and title, a list with its items, a quote with
/// the lines of its text, a table with its rows of cells, or a fenced code
/// block with its language tag and code.
pub enum Construct {
    Paragraph(Seq<char>),
    Header { level: nat, title: Seq<char> },
    UnorderedList(Seq<Seq<char>>),
    OrderedList(Seq<Seq<char>>),
    Blockquote(Seq<Seq<char>>),
    Table(Seq<Seq<Seq<char>>>),
    CodeBlock { language: Seq<char>, code: Seq<char> },
}

/// The part of a text that the construct `c` is written as.
pub open spec fn construct_unit(c: Construct) -> Unit {
    match c {
        Construct::Paragraph(text) => Unit::Section(text),
        Construct::Header { level, title } => Unit::Section(header_text(level, title)),
        Construct::UnorderedList(items) => Unit::Section(join(bullet_lines(items), line_feed())),
        Construct::OrderedList(items) => Unit::Section(join(numbered_lines(items), line_feed())),
        Construct::Blockquote(xs) => Unit::Section(join(quote_lines(xs), line_feed())),
        Construct::Table(rows) => Unit::Section(
            join(rows.map_values(|row: Seq<Seq<char>>| render_row(row)), line_feed()),
        ),
        Construct::CodeBlock { language, code } => Unit::Code { language, code },
    }
}

/// The text that the construct `c` is written as.
pub open spec fn construct_text(c: Construct) -> Seq<char> {
    unit_text(construct_unit(c))
}

/// Whether the construct `c` is written without anything that parsing
/// would normalize away, and so that it is read as what it is.
///
/// A paragraph is a section that is read as a paragraph. The title of a
/// header is a section that begins with no hash. A list has items, and each
/// is a line; so has a quote. A table has rows, each with cells that hold
/// no bar, no line feed and no whitespace around them, the first and the
/// last not empty. A code block is as `is_code_block` says. No construct
/// but a code block holds a fence.
pub open spec fn is_construct(c: Construct) -> bool {
    &&& !(c is CodeBlock) ==> !contains(construct_text(c), fence())
    &&& match c {
        Construct::Paragraph(text) => is_section(text) && block_of(text) is Paragraph,
        Construct::Header { level, title } => level >= 1 && is_section(title) && title[0] != '#',
        Construct::UnorderedList(items) => items.len() > 0 && are_lines(items),
        Construct::OrderedList(items) => items.len() > 0 && are_lines(items),
        Construct::Blockquote(xs) => xs.len() > 0 && are_lines(xs),
        Construct::Table(rows) => rows.len() > 0 && forall|i: int|
            0 <= i < rows.len() ==> is_row(#[trigger] rows[i]),
        Construct::CodeBlock { language, code } => is_code_block(language, code),
    }
}

/// Whether `is_construct` holds of each of `cs`.
pub open spec fn are_constructs(cs: Seq<Construct>) -> bool {
    forall|i: int| 0 <= i < cs.len() ==> is_construct(#[trigger] cs[i])
}

/// The text made of the constructs `cs`, with a blank line between
/// neighbours.
pub open spec fn constructs_text(cs: Seq<Construct>) -> Seq<char> {
    document_text(cs.map_values(|c: Construct| construct_unit(c)))
}

/// A construct is a part that can stand in a text as it is, and if it is a
/// section, it renders back to itself.
pub proof fn lemma_construct_renders_back(c: Construct)
    requires
        is_construct(c),
    ensures
        is_unit(construct_unit(c)),
        construct_unit(c) matches Unit::Section(sec) ==> renders_back(sec),
{
    match c {
        Construct::Paragraph(text) => {
            lemma_paragraph_renders_back(text);
        },
        Construct::Header { level, title } => {
            lemma_header_is_section(level, title);
            lemma_header_renders_back(level, title);
        },
        Construct::UnorderedList(items) => {
            lemma_bullets_render_back(items);
        },
        Construct::OrderedList(items) => {
            lemma_numbered_render_back(items);
        },
        Construct::Blockquote(xs) => {
            lemma_quote_renders_back(xs);
        },
        Construct::Table(rows) => {
            lemma_table_renders_back(rows);
        },
        Construct::CodeBlock { language, code } => {},
    }
}

/// The blocks of a text made of constructs: one block for each, in order.
pub proof fn lemma_document_of_constructs(cs: Seq<Construct>)
    requires
        are_constructs(cs),
    ensures
        document_blocks(constructs_text(cs)) == cs.map_values(
            |c: Construct| unit_block(construct_unit(c)),
        ),
{
    let units = cs.map_values(|c: Construct| construct_unit(c));
    assert forall|i: int| 0 <= i < units.len() implies is_unit(#[trigger] units[i]) by {
        assert(is_construct(cs[i]));
        lemma_construct_renders_back(cs[i]);
    }
    lemma_document_of_units(units);
    assert(units.map_values(|u: Unit| unit_block(u)) =~= cs.map_values(
        |c: Construct| unit_block(construct_unit(c)),
    ));
}

/// Round trip of the supported constructs. A text made of paragraphs,
/// headers, lists, quotes, tables and fenced code blocks, each written as
/// it is rendered and with a blank line between neighbours, renders back,
/// after parsing, to itself.
pub proof fn lemma_constructs_round_trip(cs: Seq<Construct>)
    requires
        are_constructs(cs),
    ensures
        document_blocks(constructs_text(cs)) == cs.map_values(
            |c: Construct| unit_block(construct_unit(c)),
        ),
        render_document(document_blocks(constructs_text(cs))) == constructs_text(cs),
{
    let units = cs.map_values(|c: Construct| construct_unit(c));
    lemma_document_of_constructs(cs);
    assert forall|i: int| 0 <= i < units.len() implies is_unit(#[trigger] units[i]) && (
    units[i] matches Unit::Section(sec) ==> renders_back(sec)) by {
        assert(is_construct(cs[i]));
        lemma_construct_renders_back(cs[i]);
    }
    lemma_round_trip(units);
}

} // verus!
