//! What rendering gives back of one parsed section, kind by kind.

use vstd::prelude::*;
use crate::block::BlockView;
use crate::inline::{inline_of, render_elements, InlineElementView};
use crate::inline_facts::lemma_inline_round_trip;
use crate::parser::{
    after_marker, after_number, blank_line, block_of, every_line_is, fence, is_digit, line_feed,
    line_is, render_block, render_row, row_cells, LineKind,
};
use crate::table::table_of;
use crate::text::{
    contains, decimal, is_whitespace, join, leading_count, lemma_first_occurrence_from,
    lemma_first_occurrence_none, lines, occurs_at, repeated, split, trimmed, trimmed_end,
    trimmed_start,
};
use crate::text_facts::{
    are_lines, is_line, is_trimmed, lemma_decimal_digits, lemma_first_line,
    lemma_first_occurrence_after, lemma_join_begins, lemma_join_finishes, lemma_join_of_lines,
    lemma_join_without_char, lemma_leading_count_repeated, lemma_lines_join, lemma_split_join_char,
    lemma_trimmed_first, lemma_trimmed_is_self, lemma_without_surrounding_one,
};

verus! {

/// Whether `sec` can stand as one section of a text: it is not empty, has
/// no whitespace at its start or end, and holds no blank line.
pub open spec fn is_section(sec: Seq<char>) -> bool {
    sec.len() > 0 && is_trimmed(sec) && !contains(sec, blank_line())
}

/// Whether each of `sections` can stand as one section of a text.
pub open spec fn are_sections(sections: Seq<Seq<char>>) -> bool {
    forall|i: int| 0 <= i < sections.len() ==> is_section(#[trigger] sections[i])
}

/// Whether the section `sec` renders back, after parsing, to itself.
pub open spec fn renders_back(sec: Seq<char>) -> bool {
    render_block(block_of(sec)) == sec
}

/// Whether `c` can begin a block that is no paragraph.
pub open spec fn begins_block(c: char) -> bool {
    c == '#' || c == '>' || c == '-' || is_digit(c)
}

/// A section that begins with none of `#`, `>`, `-` and the digits, and
/// holds no bar, is a paragraph.
pub proof fn lemma_plain_section_is_paragraph(sec: Seq<char>)
    requires
        sec.len() > 0,
        !is_whitespace(sec[0]),
        !begins_block(sec[0]),
        !contains(sec, seq!['|']),
    ensures
        block_of(sec) == BlockView::Paragraph(inline_of(sec)),
{
    reveal(block_of);
    lemma_first_line(sec);
    let first = lines(sec)[0];
    lemma_trimmed_first(first);
    let t = trimmed(first);
    assert(t[0] == sec[0]);
    assert(!line_is(LineKind::Quote, first)) by {
        if seq!['>', ' '].is_prefix_of(t) {
            assert(t[0] == seq!['>', ' '][0]);
        }
    }
    assert(!line_is(LineKind::Bullet, first)) by {
        if seq!['-', ' '].is_prefix_of(t) {
            assert(t[0] == seq!['-', ' '][0]);
        }
    }
    assert(!line_is(LineKind::Numbered, first));
}

/// A section that is a paragraph renders back to itself.
pub proof fn lemma_paragraph_renders_back(sec: Seq<char>)
    requires
        block_of(sec) is Paragraph,
    ensures
        renders_back(sec),
{
    reveal(block_of);
    lemma_inline_round_trip(sec);
}

/// A section that begins with `#` is a header whose level is the number of
/// `#` that it begins with, and whose text is what follows them, without
/// the whitespace around it.
pub proof fn lemma_header_level(sec: Seq<char>)
    requires
        sec.len() > 0,
        sec[0] == '#',
    ensures
        leading_count(sec, '#') >= 1,
        block_of(sec) == (BlockView::Header {
            level: leading_count(sec, '#'),
            text: inline_of(trimmed(sec.skip(leading_count(sec, '#') as int))),
        }),
{
    reveal(block_of);
}

/// A header renders as its `#`, one space, and its text without the
/// whitespace around it.
pub proof fn lemma_header_renders_normalized(sec: Seq<char>)
    requires
        sec.len() > 0,
        sec[0] == '#',
    ensures
        render_block(block_of(sec)) == repeated('#', leading_count(sec, '#')) + seq![' ']
            + trimmed(sec.skip(leading_count(sec, '#') as int)),
{
    lemma_header_level(sec);
    lemma_inline_round_trip(trimmed(sec.skip(leading_count(sec, '#') as int)));
}

/// The text of a header: `level` hashes, one space and the title.
pub open spec fn header_text(level: nat, title: Seq<char>) -> Seq<char> {
    repeated('#', level) + seq![' '] + title
}

/// A header whose title is a section is a section.
pub proof fn lemma_header_is_section(level: nat, title: Seq<char>)
    requires
        level >= 1,
        is_section(title),
    ensures
        is_section(header_text(level, title)),
{
    let blank = blank_line();
    let head = repeated('#', level) + seq![' '];
    let sec = header_text(level, title);
    assert(sec =~= head + title);
    assert(sec[0] == '#');
    assert(sec.last() == title.last());
    lemma_first_occurrence_from(title, blank, 0);
    assert forall|j: int| 0 <= j < sec.len() implies !occurs_at(sec, blank, j) by {
        if occurs_at(sec, blank, j) {
            assert(sec.subrange(j, j + 2)[0] == blank[0]);
            if j >= head.len() {
                assert(title.subrange(j - head.len(), j - head.len() + 2) =~= sec.subrange(
                    j,
                    j + 2,
                ));
                assert(occurs_at(title, blank, j - head.len()));
            } else {
                assert(sec[j] == head[j]);
            }
        }
    }
    lemma_first_occurrence_none(sec, blank);
}

/// A header of `level` hashes, one space and a title renders back to
/// itself, where the title has no whitespace around it and begins with no
/// hash.
pub proof fn lemma_header_renders_back(level: nat, title: Seq<char>)
    requires
        level >= 1,
        title.len() > 0,
        is_trimmed(title),
        title[0] != '#',
    ensures
        renders_back(header_text(level, title)),
        block_of(header_text(level, title)) == (BlockView::Header {
            level,
            text: inline_of(title),
        }),
{
    let rest = seq![' '] + title;
    let sec = header_text(level, title);
    assert(sec =~= repeated('#', level) + rest);
    lemma_leading_count_repeated('#', level, rest);
    assert(sec[0] == '#');
    assert(rest.skip(1) =~= title);
    assert(trimmed(rest) == title) by {
        assert(trimmed_start(rest) == trimmed_start(title));
        lemma_trimmed_is_self(title);
    }
    lemma_header_level(sec);
    assert(sec.skip(level as int) == rest);
    lemma_header_renders_normalized(sec);
}

/// The lines of an unordered list of `items`.
pub open spec fn bullet_lines(items: Seq<Seq<char>>) -> Seq<Seq<char>> {
    items.map_values(|x: Seq<char>| seq!['-', ' '] + x)
}

/// The lines of an ordered list of `items`, numbered from 1.
pub open spec fn numbered_lines(items: Seq<Seq<char>>) -> Seq<Seq<char>> {
    Seq::new(items.len(), |i: int| decimal((i + 1) as nat) + seq!['.', ' '] + items[i])
}

/// The lines of a quote of the lines `xs`.
pub open spec fn quote_lines(xs: Seq<Seq<char>>) -> Seq<Seq<char>> {
    xs.map_values(|x: Seq<char>| seq!['>', ' '] + x)
}

/// A line made of a marker and an item is a line.
proof fn lemma_marked_line(marker: Seq<char>, x: Seq<char>)
    requires
        marker.len() > 0,
        !is_whitespace(marker[0]),
        !marker.contains('\n'),
        is_line(x),
    ensures
        is_line(marker + x),
        trimmed(marker + x) == marker + x,
        (marker + x).skip(marker.len() as int) == x,
        marker.is_prefix_of(marker + x),
{
    let l = marker + x;
    assert(l[0] == marker[0]);
    assert(l.last() == x.last());
    assert(!l.contains('\n')) by {
        if l.contains('\n') {
            let i = choose|i: int| 0 <= i < l.len() && l[i] == '\n';
            if i < marker.len() {
                assert(marker[i] == '\n');
                assert(marker.contains('\n'));
            } else {
                assert(x[i - marker.len()] == '\n');
                assert(x.contains('\n'));
            }
        }
    }
    lemma_trimmed_is_self(l);
    assert(l.skip(marker.len() as int) =~= x);
    assert(l.subrange(0, marker.len() as int) =~= marker);
}

/// Lines of one kind, joined into a section: the section is the join, its
/// lines are those lines, and it is a section.
proof fn lemma_lines_section(ls: Seq<Seq<char>>)
    requires
        ls.len() > 0,
        are_lines(ls),
    ensures
        lines(join(ls, line_feed())) == ls,
        is_section(join(ls, line_feed())),
        join(ls, line_feed())[0] == ls[0][0],
{
    lemma_lines_join(ls);
    lemma_join_of_lines(ls);
}

/// A section whose first line, trimmed, begins with the character `c` has
/// no line of a kind that begins otherwise.
proof fn lemma_first_line_rules_out(ls: Seq<Seq<char>>, c: char)
    requires
        ls.len() > 0,
        trimmed(ls[0]).len() > 0,
        trimmed(ls[0])[0] == c,
    ensures
        c != '>' ==> !every_line_is(LineKind::Quote, ls),
        c != '-' ==> !every_line_is(LineKind::Bullet, ls),
        !is_digit(c) ==> !every_line_is(LineKind::Numbered, ls),
{
    let t = trimmed(ls[0]);
    if seq!['>', ' '].is_prefix_of(t) {
        assert(t[0] == seq!['>', ' '][0]);
    }
    if seq!['-', ' '].is_prefix_of(t) {
        assert(t[0] == seq!['-', ' '][0]);
    }
    if c != '>' {
        assert(!line_is(LineKind::Quote, ls[0]));
    }
    if c != '-' {
        assert(!line_is(LineKind::Bullet, ls[0]));
    }
    if !is_digit(c) {
        assert(!line_is(LineKind::Numbered, ls[0]));
    }
}

/// An unordered list renders back to itself: one line for each item, a
/// dash and a space before it.
pub proof fn lemma_bullets_render_back(items: Seq<Seq<char>>)
    requires
        items.len() > 0,
        are_lines(items),
    ensures
        is_section(join(bullet_lines(items), line_feed())),
        block_of(join(bullet_lines(items), line_feed())) == BlockView::UnorderedList(
            items.map_values(|x: Seq<char>| inline_of(x)),
        ),
        renders_back(join(bullet_lines(items), line_feed())),
{
    let marker = seq!['-', ' '];
    let ls = bullet_lines(items);
    let sec = join(ls, line_feed());
    assert forall|i: int| 0 <= i < ls.len() implies is_line(#[trigger] ls[i]) && line_is(
        LineKind::Bullet,
        ls[i],
    ) && after_marker(ls[i]) == items[i] by {
        assert(is_line(items[i]));
        lemma_marked_line(marker, items[i]);
    }
    lemma_lines_section(ls);
    lemma_marked_line(marker, items[0]);
    assert(ls[0][0] == '-');
    lemma_first_line_rules_out(ls, '-');
    let views = items.map_values(|x: Seq<char>| inline_of(x));
    assert(ls.map_values(|l: Seq<char>| inline_of(after_marker(l))) =~= views);
    assert(block_of(sec) == BlockView::UnorderedList(views)) by {
        reveal(block_of);
    }
    assert(views.map_values(
        |item: Seq<InlineElementView>| seq!['-', ' '] + render_elements(item),
    ) =~= ls) by {
        assert forall|i: int| 0 <= i < items.len() implies seq!['-', ' '] + render_elements(
            views[i],
        ) == ls[i] by {
            lemma_inline_round_trip(items[i]);
        }
    }
}

/// A numbered line: the number, a dot, a space and the item. It is a line
/// of the numbered kind, and what follows its first dot and space is the
/// item.
proof fn lemma_numbered_line(n: nat, x: Seq<char>)
    requires
        is_line(x),
    ensures
        is_line(decimal(n) + seq!['.', ' '] + x),
        line_is(LineKind::Numbered, decimal(n) + seq!['.', ' '] + x),
        after_number(decimal(n) + seq!['.', ' '] + x) == x,
        is_digit((decimal(n) + seq!['.', ' '] + x)[0]),
{
    let d = decimal(n);
    let dot = seq!['.', ' '];
    let l = d + dot + x;
    lemma_decimal_digits(n);
    assert(l[0] == d[0]);
    assert(l.last() == x.last());
    assert(!l.contains('\n')) by {
        if l.contains('\n') {
            let i = choose|i: int| 0 <= i < l.len() && l[i] == '\n';
            if i < d.len() {
                assert(l[i] == d[i]);
            } else if i >= d.len() + 2 {
                assert(x[i - d.len() - 2] == '\n');
                assert(x.contains('\n'));
            }
        }
    }
    lemma_trimmed_is_self(l);
    assert(!contains(d, dot)) by {
        assert forall|j: int| 0 <= j < d.len() implies !occurs_at(d, dot, j) by {
            if occurs_at(d, dot, j) {
                assert(d.subrange(j, j + 2)[0] == dot[0]);
            }
        }
        lemma_first_occurrence_none(d, dot);
    }
    assert forall|j: int| 0 <= j < d.len() && j + dot.len() > d.len() implies !occurs_at(
        l,
        dot,
        j,
    ) by {
        if occurs_at(l, dot, j) {
            assert(l.subrange(j, j + 2)[0] == dot[0]);
            assert(l[j] == d[j]);
        }
    }
    lemma_first_occurrence_after(d, dot, x);
    assert(l.skip((d.len() + 2) as int) =~= x);
}

/// An ordered list renders back to itself: one line for each item, with
/// its number from 1 on, a dot and a space before it.
pub proof fn lemma_numbered_render_back(items: Seq<Seq<char>>)
    requires
        items.len() > 0,
        are_lines(items),
    ensures
        is_section(join(numbered_lines(items), line_feed())),
        block_of(join(numbered_lines(items), line_feed())) == BlockView::OrderedList(
            items.map_values(|x: Seq<char>| inline_of(x)),
        ),
        renders_back(join(numbered_lines(items), line_feed())),
{
    let ls = numbered_lines(items);
    let sec = join(ls, line_feed());
    assert forall|i: int| 0 <= i < ls.len() implies is_line(#[trigger] ls[i]) && line_is(
        LineKind::Numbered,
        ls[i],
    ) && after_number(ls[i]) == items[i] by {
        assert(is_line(items[i]));
        lemma_numbered_line((i + 1) as nat, items[i]);
    }
    lemma_lines_section(ls);
    lemma_numbered_line(1, items[0]);
    let c = ls[0][0];
    assert(is_digit(c));
    lemma_trimmed_is_self(ls[0]);
    lemma_first_line_rules_out(ls, c);
    let views = items.map_values(|x: Seq<char>| inline_of(x));
    assert(ls.map_values(|l: Seq<char>| inline_of(after_number(l))) =~= views);
    assert(block_of(sec) == BlockView::OrderedList(views)) by {
        reveal(block_of);
    }
    assert(Seq::new(
        views.len(),
        |i: int| decimal((i + 1) as nat) + seq!['.', ' '] + render_elements(views[i]),
    ) =~= ls) by {
        assert forall|i: int| 0 <= i < items.len() implies decimal((i + 1) as nat) + seq!['.', ' ']
            + render_elements(views[i]) == ls[i] by {
            lemma_inline_round_trip(items[i]);
        }
    }
}

/// A quote renders back to itself: one line for each line of its text, a
/// `>` and a space before it.
pub proof fn lemma_quote_renders_back(xs: Seq<Seq<char>>)
    requires
        xs.len() > 0,
        are_lines(xs),
    ensures
        is_section(join(quote_lines(xs), line_feed())),
        block_of(join(quote_lines(xs), line_feed())) == BlockView::Blockquote(
            inline_of(join(xs, line_feed())),
        ),
        renders_back(join(quote_lines(xs), line_feed())),
{
    let marker = seq!['>', ' '];
    let ls = quote_lines(xs);
    let sec = join(ls, line_feed());
    assert forall|i: int| 0 <= i < ls.len() implies is_line(#[trigger] ls[i]) && line_is(
        LineKind::Quote,
        ls[i],
    ) && after_marker(ls[i]) == xs[i] by {
        assert(is_line(xs[i]));
        lemma_marked_line(marker, xs[i]);
    }
    lemma_lines_section(ls);
    assert(ls.map_values(|l: Seq<char>| after_marker(l)) =~= xs);
    assert(sec[0] == '>') by {
        lemma_marked_line(marker, xs[0]);
    }
    assert(block_of(sec) == BlockView::Blockquote(inline_of(join(xs, line_feed())))) by {
        reveal(block_of);
    }
    lemma_inline_round_trip(join(xs, line_feed()));
    lemma_lines_join(xs);
    assert(xs.map_values(|l: Seq<char>| seq!['>', ' '] + l) =~= ls);
}

/// Whether `cell` can stand as one cell of a table row: it has no
/// whitespace at its start or end, and holds no bar and no line feed.
pub open spec fn is_cell(cell: Seq<char>) -> bool {
    is_trimmed(cell) && !cell.contains('|') && !cell.contains('\n')
}

/// Whether `row` can stand as one row of a table: it has cells, and the
/// first and the last are not empty.
pub open spec fn is_row(row: Seq<Seq<char>>) -> bool {
    row.len() > 0 && row[0].len() > 0 && row.last().len() > 0 && forall|i: int|
        0 <= i < row.len() ==> is_cell(#[trigger] row[i])
}

/// The line of a table row is a line that holds a bar, and its cells are
/// the cells of the row.
proof fn lemma_row_line(row: Seq<Seq<char>>)
    requires
        is_row(row),
    ensures
        is_line(render_row(row)),
        render_row(row)[0] == '|',
        line_is(LineKind::Row, render_row(row)),
        row_cells(render_row(row)) == row,
{
    let bar = seq!['|'];
    let j = join(row, bar);
    let l = render_row(row);
    assert(is_cell(row[0]) && is_cell(row.last()));
    lemma_join_begins(row, bar);
    lemma_join_finishes(row, bar);
    assert(j[0] != '|') by {
        if row[0][0] == '|' {
            assert(row[0].contains('|'));
        }
    }
    assert(j.last() != '|') by {
        if row.last().last() == '|' {
            assert(row.last().contains('|'));
        }
    }
    assert forall|i: int| 0 <= i < row.len() implies !(#[trigger] row[i]).contains('\n') by {
        assert(is_cell(row[i]));
    }
    assert(!bar.contains('\n'));
    lemma_join_without_char(row, bar, '\n');
    assert(l[0] == '|');
    assert(l.last() == '|');
    assert(!l.contains('\n')) by {
        if l.contains('\n') {
            let i = choose|i: int| 0 <= i < l.len() && l[i] == '\n';
            assert(j[i - 1] == '\n');
            assert(j.contains('\n'));
        }
    }
    lemma_trimmed_is_self(l);
    lemma_without_surrounding_one(j, '|');
    assert forall|i: int| 0 <= i < row.len() implies !(#[trigger] row[i]).contains('|') by {
        assert(is_cell(row[i]));
    }
    lemma_split_join_char(row, '|');
    assert(split(j, bar).map_values(|cell: Seq<char>| trimmed(cell)) =~= row) by {
        assert forall|i: int| 0 <= i < row.len() implies trimmed(#[trigger] row[i]) == row[i] by {
            assert(is_cell(row[i]));
            lemma_trimmed_is_self(row[i]);
        }
    }
    assert(occurs_at(l, bar, 0)) by {
        assert(l.subrange(0, 1) =~= bar);
    }
    lemma_first_occurrence_from(l, bar, 0);
}

/// A table renders back to itself: one line for each row, a bar before
/// each cell and after the last.
pub proof fn lemma_table_renders_back(rows: Seq<Seq<Seq<char>>>)
    requires
        rows.len() > 0,
        forall|i: int| 0 <= i < rows.len() ==> is_row(#[trigger] rows[i]),
    ensures
        is_section(join(rows.map_values(|row: Seq<Seq<char>>| render_row(row)), line_feed())),
        block_of(join(rows.map_values(|row: Seq<Seq<char>>| render_row(row)), line_feed()))
            == BlockView::Table(table_of(rows)),
        renders_back(join(rows.map_values(|row: Seq<Seq<char>>| render_row(row)), line_feed())),
{
    let bar = seq!['|'];
    let ls = rows.map_values(|row: Seq<Seq<char>>| render_row(row));
    let sec = join(ls, line_feed());
    assert forall|i: int| 0 <= i < ls.len() implies is_line(#[trigger] ls[i]) && line_is(
        LineKind::Row,
        ls[i],
    ) && row_cells(ls[i]) == rows[i] by {
        assert(is_row(rows[i]));
        lemma_row_line(rows[i]);
    }
    lemma_lines_section(ls);
    lemma_row_line(rows[0]);
    assert(sec[0] == '|');
    lemma_trimmed_is_self(ls[0]);
    lemma_first_line_rules_out(ls, '|');
    assert(contains(sec, bar)) by {
        assert(sec.subrange(0, 1) =~= bar);
        assert(occurs_at(sec, bar, 0));
        lemma_first_occurrence_from(sec, bar, 0);
    }
    assert(ls.map_values(|l: Seq<char>| row_cells(l)) =~= rows);
    assert(block_of(sec) == BlockView::Table(table_of(rows))) by {
        reveal(block_of);
    }
}

/// The text of a fenced code block with a language tag and code: the
/// opening fence with the tag, the code on lines of its own, and the
/// closing fence.
pub open spec fn code_block_text(language: Seq<char>, code: Seq<char>) -> Seq<char> {
    fence() + language + line_feed() + code + line_feed() + fence()
}

/// The block that `code_block_text` stands for. It keeps the line feed
/// before the closing fence as part of its code.
pub open spec fn code_block_of(language: Seq<char>, code: Seq<char>) -> BlockView {
    BlockView::CodeBlock {
        language: if language.len() == 0 {
            None
        } else {
            Some(language)
        },
        code: code + line_feed(),
    }
}

/// Whether `language` and `code` can stand in a fenced code block as they
/// are: the language tag is one word or empty, and the code holds no fence
/// and ends with no whitespace.
pub open spec fn is_code_block(language: Seq<char>, code: Seq<char>) -> bool {
    is_trimmed(language) && !language.contains('\n') && !contains(code, fence()) && (code.len()
        == 0 || !is_whitespace(code.last()))
}

/// The block of a code block renders to the text of the code block.
pub proof fn lemma_code_block_renders(language: Seq<char>, code: Seq<char>)
    requires
        is_code_block(language, code),
    ensures
        render_block(code_block_of(language, code)) == code_block_text(language, code),
{
    let kept = code + line_feed();
    assert(kept.drop_last() =~= code);
    assert(is_whitespace('\n'));
    assert(kept.last() == '\n');
    assert(trimmed_end(kept) == trimmed_end(code));
    assert(trimmed_end(code) == code);
    if language.len() == 0 {
        assert(fence() + language =~= fence() + Seq::<char>::empty());
    }
}

} // verus!
