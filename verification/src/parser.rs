//! Documents from text and back: the fence pass, the section pass, the
//! classification of sections and the rendering of blocks.

use vstd::prelude::*;
use vstd::slice::{slice_subrange, slice_to_vec};
use crate::block::{blocks_view, items_view, language_view, Block, BlockView};
use crate::document::Document;
use crate::error::Error;
use crate::inline::{
    inline_of, parse_inline_chars, render_elements, render_run, InlineElementView, InlineText,
};
use crate::table::{row_view, rows_view, table_of, Table};
use crate::text::{
    chars_of, contains, count_leading, decimal, find, first_occurrence, join, join_with,
    leading_count, lemma_first_occurrence_from, lines, lines_of, push_decimal, push_repeated,
    push_str, repeated, split, split_on, starts_with, string_of, strip_char, texts, trim, trim_end,
    trimmed, trimmed_end, without_surrounding,
};

verus! {

/// Three backticks: the line that opens or closes a fenced code block
/// begins with them.
pub open spec fn fence() -> Seq<char> {
    seq!['`', '`', '`']
}

/// One line feed.
pub open spec fn line_feed() -> Seq<char> {
    seq!['\n']
}

/// Two line feeds: what separates the sections of a text.
pub open spec fn blank_line() -> Seq<char> {
    seq!['\n', '\n']
}

/// What a line can be tested for.
#[derive(Debug, Clone, Copy, PartialEq, Eq, Structural)]
pub enum LineKind {
    /// The line begins with `> `.
    Quote,
    /// The line begins with `- `.
    Bullet,
    /// The line begins with a digit and holds `. `.
    Numbered,
    /// The line holds `|`.
    Row,
}

/// Whether `c` is one of the digits `0` to `9`.
pub open spec fn is_digit(c: char) -> bool {
    '0' <= c <= '9'
}

/// Whether `line` is of kind `kind`. Except for table rows, the test is made
/// on the line without the whitespace around it.
pub open spec fn line_is(kind: LineKind, line: Seq<char>) -> bool {
    match kind {
        LineKind::Quote => seq!['>', ' '].is_prefix_of(trimmed(line)),
        LineKind::Bullet => seq!['-', ' '].is_prefix_of(trimmed(line)),
        LineKind::Numbered => trimmed(line).len() > 0 && is_digit(trimmed(line)[0]) && contains(
            trimmed(line),
            seq!['.', ' '],
        ),
        LineKind::Row => contains(line, seq!['|']),
    }
}

/// Whether each of `ls` is of kind `kind`.
pub open spec fn every_line_is(kind: LineKind, ls: Seq<Seq<char>>) -> bool {
    forall|i: int| 0 <= i < ls.len() ==> line_is(kind, #[trigger] ls[i])
}

/// What a quote or bullet line holds after its two-character marker.
pub open spec fn after_marker(line: Seq<char>) -> Seq<char> {
    trimmed(line).skip(2)
}

/// What a numbered line holds after the first `. `.
pub open spec fn after_number(line: Seq<char>) -> Seq<char> {
    let t = trimmed(line);
    match first_occurrence(t, seq!['.', ' ']) {
        Some(p) => t.skip(p + 2),
        None => t,
    }
}

/// The cells of the table row `line`: the line without the whitespace and
/// then the bars around it, split at its bars, each cell without the
/// whitespace around it.
pub open spec fn row_cells(line: Seq<char>) -> Seq<Seq<char>> {
    split(without_surrounding(trimmed(line), '|'), seq!['|']).map_values(
        |cell: Seq<char>| trimmed(cell),
    )
}

/// The block that the section `t` stands for, where `t` has no whitespace
/// around it. The first of these that fits decides:
/// a section that begins with `#` is a header, whose level is the number of
/// `#` it begins with; one whose lines all begin with `> ` is a quote; one
/// whose lines all begin with `- ` is an unordered list; one whose lines
/// all begin with a digit and hold `. ` is an ordered list; one whose lines
/// all hold `|` is a table; any other is a paragraph.
#[verifier::opaque]
pub open spec fn block_of(t: Seq<char>) -> BlockView {
    let ls = lines(t);
    if t.len() > 0 && t[0] == '#' {
        BlockView::Header {
            level: leading_count(t, '#'),
            text: inline_of(trimmed(t.skip(leading_count(t, '#') as int))),
        }
    } else if every_line_is(LineKind::Quote, ls) {
        BlockView::Blockquote(
            inline_of(join(ls.map_values(|l: Seq<char>| after_marker(l)), line_feed())),
        )
    } else if every_line_is(LineKind::Bullet, ls) {
        BlockView::UnorderedList(ls.map_values(|l: Seq<char>| inline_of(after_marker(l))))
    } else if every_line_is(LineKind::Numbered, ls) {
        BlockView::OrderedList(ls.map_values(|l: Seq<char>| inline_of(after_number(l))))
    } else if contains(t, seq!['|']) && every_line_is(LineKind::Row, ls) {
        BlockView::Table(table_of(ls.map_values(|l: Seq<char>| row_cells(l))))
    } else {
        BlockView::Paragraph(inline_of(t))
    }
}

/// The blocks of one piece of a section: none where the piece is blank,
/// else the block of the piece without the whitespace around it.
pub open spec fn piece_blocks(piece: Seq<char>) -> Seq<BlockView> {
    if trimmed(piece).len() == 0 {
        seq![]
    } else {
        seq![block_of(trimmed(piece))]
    }
}

/// The blocks of `pieces`, in order.
pub open spec fn pieces_blocks(pieces: Seq<Seq<char>>) -> Seq<BlockView>
    decreases pieces.len(),
{
    if pieces.len() == 0 {
        seq![]
    } else {
        pieces_blocks(pieces.drop_last()) + piece_blocks(pieces.last())
    }
}

/// The blocks of the text `s`, which holds no fence: `s` is split at blank
/// lines, and each piece that is not blank gives one block.
pub open spec fn section_blocks(s: Seq<char>) -> Seq<BlockView> {
    pieces_blocks(split(s, blank_line()))
}

/// What follows the first line feed of `s`; nothing where `s` has none.
pub open spec fn after_line(s: Seq<char>) -> Seq<char> {
    match first_occurrence(s, line_feed()) {
        Some(n) => s.skip(n + 1),
        None => seq![],
    }
}

/// What stands before the first line feed of `s`; all of `s` where it has
/// none.
pub open spec fn first_line(s: Seq<char>) -> Seq<char> {
    match first_occurrence(s, line_feed()) {
        Some(n) => s.take(n),
        None => s,
    }
}

/// The language that the rest of an opening fence line names: the line
/// without the whitespace around it, or none where that is empty.
pub open spec fn language_of(tag: Seq<char>) -> Option<Seq<char>> {
    if trimmed(tag).len() == 0 {
        None
    } else {
        Some(trimmed(tag))
    }
}

/// The blocks of the text `s`.
///
/// Up to the first fence, `s` is divided into sections. What follows an
/// opening fence is a code block; see [`fenced_blocks`].
pub open spec fn document_blocks(s: Seq<char>) -> Seq<BlockView>
    decreases s.len(), 1nat,
    via document_blocks_decreases
{
    match first_occurrence(s, fence()) {
        Some(p) => section_blocks(trimmed(s.take(p))) + fenced_blocks(s.skip(p + 3)),
        None => section_blocks(trimmed(s)),
    }
}

#[via_fn]
proof fn document_blocks_decreases(s: Seq<char>) {
    lemma_first_occurrence_from(s, fence(), 0);
}

/// The blocks of the text `r`, which follows an opening fence.
///
/// The rest of the fence line names the language. The code runs from the
/// next line up to the next fence, or to the end of the text where none
/// follows. The rest of the closing fence line is dropped, and the text
/// after that line goes on as a document.
pub open spec fn fenced_blocks(r: Seq<char>) -> Seq<BlockView>
    decreases r.len(), 0nat,
    via fenced_blocks_decreases
{
    let language = language_of(first_line(r));
    let body = after_line(r);
    match first_occurrence(body, fence()) {
        Some(q) => seq![BlockView::CodeBlock { language, code: body.take(q) }] + document_blocks(
            after_line(body.skip(q + 3)),
        ),
        None => seq![BlockView::CodeBlock { language, code: body }],
    }
}

#[via_fn]
proof fn fenced_blocks_decreases(r: Seq<char>) {
    let body = after_line(r);
    lemma_after_line(r);
    lemma_first_occurrence_from(body, fence(), 0);
    match first_occurrence(body, fence()) {
        Some(q) => {
            lemma_after_line(body.skip(q + 3));
        },
        None => {},
    }
}

/// What follows the first line feed of a text is no longer than the text.
pub proof fn lemma_after_line(s: Seq<char>)
    ensures
        after_line(s).len() <= s.len(),
{
    lemma_first_occurrence_from(s, line_feed(), 0);
}

/// The Markdown text of the table row `row`.
pub open spec fn render_row(row: Seq<Seq<char>>) -> Seq<char> {
    seq!['|'] + join(row, seq!['|']) + seq!['|']
}

/// The Markdown text of the block `b`.
pub open spec fn render_block(b: BlockView) -> Seq<char> {
    match b {
        BlockView::Paragraph(text) => render_elements(text),
        BlockView::Header { level, text } => repeated('#', level) + seq![' '] + render_elements(
            text,
        ),
        BlockView::UnorderedList(items) => join(
            items.map_values(|item: Seq<InlineElementView>| seq!['-', ' '] + render_elements(item)),
            line_feed(),
        ),
        BlockView::OrderedList(items) => join(
            Seq::new(
                items.len(),
                |i: int| decimal((i + 1) as nat) + seq!['.', ' '] + render_elements(items[i]),
            ),
            line_feed(),
        ),
        BlockView::CodeBlock { language, code } => fence() + (match language {
            Some(l) => l,
            None => seq![],
        }) + line_feed() + trimmed_end(code) + line_feed() + fence(),
        BlockView::Blockquote(text) => join(
            lines(render_elements(text)).map_values(|l: Seq<char>| seq!['>', ' '] + l),
            line_feed(),
        ),
        BlockView::Table(table) => join(
            table.rows.map_values(|row: Seq<Seq<char>>| render_row(row)),
            line_feed(),
        ),
    }
}

/// The Markdown text of the document that holds `blocks`: the texts of its
/// blocks with a blank line between neighbours.
pub open spec fn render_document(blocks: Seq<BlockView>) -> Seq<char> {
    join(blocks.map_values(|b: BlockView| render_block(b)), blank_line())
}

/// Whether `line` is of kind `kind`.
pub fn line_has_kind(kind: LineKind, line: &[char]) -> (r: bool)
    ensures
        r == line_is(kind, line@),
{
    match kind {
        LineKind::Quote => {
            let marker: Vec<char> = vec!['>', ' '];
            assert(marker@ =~= seq!['>', ' ']);
            starts_with(trim(line), marker.as_slice())
        },
        LineKind::Bullet => {
            let marker: Vec<char> = vec!['-', ' '];
            assert(marker@ =~= seq!['-', ' ']);
            starts_with(trim(line), marker.as_slice())
        },
        LineKind::Numbered => {
            let t = trim(line);
            let marker: Vec<char> = vec!['.', ' '];
            assert(marker@ =~= seq!['.', ' ']);
            t.len() > 0 && '0' <= t[0] && t[0] <= '9' && find(t, marker.as_slice()).is_some()
        },
        LineKind::Row => {
            let bar: Vec<char> = vec!['|'];
            assert(bar@ =~= seq!['|']);
            find(line, bar.as_slice()).is_some()
        },
    }
}

/// Whether each of `ls` is of kind `kind`.
pub fn every_line_has_kind(kind: LineKind, ls: &Vec<Vec<char>>) -> (r: bool)
    ensures
        r == every_line_is(kind, texts(ls@)),
{
    let mut i: usize = 0;
    while i < ls.len()
        invariant
            i <= ls.len(),
            forall|j: int| 0 <= j < i ==> line_is(kind, #[trigger] texts(ls@)[j]),
        decreases ls.len() - i,
    {
        if !line_has_kind(kind, ls[i].as_slice()) {
            assert(!line_is(kind, texts(ls@)[i as int]));
            return false;
        }
        i += 1;
    }
    true
}

/// What a quote or bullet line holds after its marker.
fn strip_marker<'a>(line: &'a [char]) -> (r: &'a [char])
    requires
        trimmed(line@).len() >= 2,
    ensures
        r@ == after_marker(line@),
{
    let t = trim(line);
    let r = slice_subrange(t, 2, t.len());
    assert(r@ =~= t@.skip(2));
    r
}

/// What a numbered line holds after the first `. `.
fn strip_number<'a>(line: &'a [char]) -> (r: &'a [char])
    ensures
        r@ == after_number(line@),
{
    let t = trim(line);
    let marker: Vec<char> = vec!['.', ' '];
    assert(marker@ =~= seq!['.', ' ']);
    match find(t, marker.as_slice()) {
        Some(p) => {
            let r = slice_subrange(t, p + 2, t.len());
            assert(r@ =~= t@.skip(p + 2));
            r
        },
        None => t,
    }
}

/// The cells of the table row `line`.
fn cells_of(line: &[char]) -> (row: Vec<String>)
    ensures
        row_view(row@) == row_cells(line@),
{
    let bar: Vec<char> = vec!['|'];
    assert(bar@ =~= seq!['|']);
    let pieces = split_on(strip_char(trim(line), '|'), bar.as_slice());
    let mut row: Vec<String> = Vec::new();
    let mut i: usize = 0;
    let ghost cells = row_cells(line@);
    assert(cells.len() == pieces.len());
    while i < pieces.len()
        invariant
            i <= pieces.len(),
            cells == texts(pieces@).map_values(|cell: Seq<char>| trimmed(cell)),
            row_view(row@) =~= cells.take(i as int),
        decreases pieces.len() - i,
    {
        let cell = string_of(trim(pieces[i].as_slice()));
        let ghost before = row@;
        row.push(cell);
        proof {
            assert(row_view(row@) =~= row_view(before).push(cell@));
            assert(cells[i as int] == trimmed(texts(pieces@)[i as int]));
            assert(cells.take(i + 1) =~= cells.take(i as int).push(cells[i as int]));
        }
        i += 1;
    }
    assert(cells.take(pieces.len() as int) =~= cells);
    row
}

/// The text of a quote whose lines are `ls`: the lines without their
/// markers, with line feeds between them.
fn quote_text(ls: &Vec<Vec<char>>) -> (text: Vec<char>)
    requires
        every_line_is(LineKind::Quote, texts(ls@)),
    ensures
        text@ == join(texts(ls@).map_values(|l: Seq<char>| after_marker(l)), line_feed()),
{
    let mut stripped: Vec<Vec<char>> = Vec::new();
    let mut i: usize = 0;
    let ghost wanted = texts(ls@).map_values(|l: Seq<char>| after_marker(l));
    while i < ls.len()
        invariant
            i <= ls.len(),
            every_line_is(LineKind::Quote, texts(ls@)),
            wanted == texts(ls@).map_values(|l: Seq<char>| after_marker(l)),
            texts(stripped@) =~= wanted.take(i as int),
        decreases ls.len() - i,
    {
        assert(line_is(LineKind::Quote, texts(ls@)[i as int]));
        let line = slice_to_vec(strip_marker(ls[i].as_slice()));
        let ghost before = stripped@;
        stripped.push(line);
        proof {
            assert(texts(stripped@) =~= texts(before).push(line@));
            assert(wanted[i as int] == after_marker(texts(ls@)[i as int]));
            assert(wanted.take(i + 1) =~= wanted.take(i as int).push(wanted[i as int]));
        }
        i += 1;
    }
    assert(wanted.take(ls.len() as int) =~= wanted);
    let feed: Vec<char> = vec!['\n'];
    assert(feed@ =~= line_feed());
    join_with(&stripped, feed.as_slice())
}

/// The items of a list whose lines are `ls`, each line of kind `kind`,
/// which is `Bullet` or `Numbered`.
fn list_items(kind: LineKind, ls: &Vec<Vec<char>>) -> (items: Vec<InlineText>)
    requires
        kind == LineKind::Bullet || kind == LineKind::Numbered,
        every_line_is(kind, texts(ls@)),
    ensures
        kind == LineKind::Bullet ==> items_view(items@) == texts(ls@).map_values(
            |l: Seq<char>| inline_of(after_marker(l)),
        ),
        kind == LineKind::Numbered ==> items_view(items@) == texts(ls@).map_values(
            |l: Seq<char>| inline_of(after_number(l)),
        ),
{
    let mut items: Vec<InlineText> = Vec::new();
    let mut i: usize = 0;
    let ghost wanted = if kind == LineKind::Bullet {
        texts(ls@).map_values(|l: Seq<char>| inline_of(after_marker(l)))
    } else {
        texts(ls@).map_values(|l: Seq<char>| inline_of(after_number(l)))
    };
    while i < ls.len()
        invariant
            i <= ls.len(),
            kind == LineKind::Bullet || kind == LineKind::Numbered,
            every_line_is(kind, texts(ls@)),
            wanted == if kind == LineKind::Bullet {
                texts(ls@).map_values(|l: Seq<char>| inline_of(after_marker(l)))
            } else {
                texts(ls@).map_values(|l: Seq<char>| inline_of(after_number(l)))
            },
            items_view(items@) =~= wanted.take(i as int),
        decreases ls.len() - i,
    {
        assert(line_is(kind, texts(ls@)[i as int]));
        let item = match kind {
            LineKind::Bullet => parse_inline_chars(strip_marker(ls[i].as_slice())),
            _ => parse_inline_chars(strip_number(ls[i].as_slice())),
        };
        let ghost before = items@;
        items.push(item);
        proof {
            assert(items_view(items@) =~= items_view(before).push(item@));
            assert(wanted.take(i + 1) =~= wanted.take(i as int).push(wanted[i as int]));
        }
        i += 1;
    }
    assert(wanted.take(ls.len() as int) =~= wanted);
    items
}

/// The rows of a table whose lines are `ls`.
fn table_rows(ls: &Vec<Vec<char>>) -> (rows: Vec<Vec<String>>)
    ensures
        rows_view(rows@) == texts(ls@).map_values(|l: Seq<char>| row_cells(l)),
{
    let mut rows: Vec<Vec<String>> = Vec::new();
    let mut i: usize = 0;
    let ghost wanted = texts(ls@).map_values(|l: Seq<char>| row_cells(l));
    while i < ls.len()
        invariant
            i <= ls.len(),
            wanted == texts(ls@).map_values(|l: Seq<char>| row_cells(l)),
            rows_view(rows@) =~= wanted.take(i as int),
        decreases ls.len() - i,
    {
        let row = cells_of(ls[i].as_slice());
        let ghost before = rows@;
        rows.push(row);
        proof {
            assert(rows_view(rows@) =~= rows_view(before).push(row_view(row@)));
            assert(wanted[i as int] == row_cells(texts(ls@)[i as int]));
            assert(wanted.take(i + 1) =~= wanted.take(i as int).push(wanted[i as int]));
        }
        i += 1;
    }
    assert(wanted.take(ls.len() as int) =~= wanted);
    rows
}

/// The block that the section `t` stands for.
pub fn classify(t: &[char]) -> (b: Block)
    ensures
        b@ == block_of(t@),
{
    reveal(block_of);
    if t.len() > 0 && t[0] == '#' {
        let level = count_leading(t, '#');
        let rest = slice_subrange(t, level, t.len());
        assert(rest@ =~= t@.skip(level as int));
        return Block::Header { level, text: parse_inline_chars(trim(rest)) };
    }
    let ls = lines_of(t);
    if every_line_has_kind(LineKind::Quote, &ls) {
        let text = quote_text(&ls);
        Block::Blockquote(parse_inline_chars(text.as_slice()))
    } else if every_line_has_kind(LineKind::Bullet, &ls) {
        Block::UnorderedList(list_items(LineKind::Bullet, &ls))
    } else if every_line_has_kind(LineKind::Numbered, &ls) {
        Block::OrderedList(list_items(LineKind::Numbered, &ls))
    } else if line_has_kind(LineKind::Row, t) && every_line_has_kind(LineKind::Row, &ls) {
        Block::Table(Table::new(table_rows(&ls)))
    } else {
        Block::Paragraph(parse_inline_chars(t))
    }
}

/// Appends `b` to `blocks`.
fn push_block(blocks: &mut Vec<Block>, b: Block)
    ensures
        blocks_view(final(blocks)@) == blocks_view(old(blocks)@).push(b@),
{
    assert(blocks_view(blocks@.push(b)) =~= blocks_view(blocks@).push(b@));
    blocks.push(b);
}

/// Appends the blocks of `section`, which holds no fence, to `blocks`.
pub fn parse_section(section: &[char], blocks: &mut Vec<Block>)
    ensures
        blocks_view(final(blocks)@) == blocks_view(old(blocks)@) + section_blocks(section@),
{
    let blank: Vec<char> = vec!['\n', '\n'];
    assert(blank@ =~= blank_line());
    let pieces = split_on(section, blank.as_slice());
    let ghost all = texts(pieces@);
    let mut i: usize = 0;
    assert(all.take(0) =~= Seq::<Seq<char>>::empty());
    assert(blocks_view(blocks@) =~= blocks_view(old(blocks)@) + pieces_blocks(all.take(0)));
    while i < pieces.len()
        invariant
            i <= pieces.len(),
            all == texts(pieces@),
            blocks_view(blocks@) == blocks_view(old(blocks)@) + pieces_blocks(all.take(i as int)),
        decreases pieces.len() - i,
    {
        let t = trim(pieces[i].as_slice());
        let ghost before = blocks_view(blocks@);
        proof {
            assert(all.take(i + 1).drop_last() =~= all.take(i as int));
            assert(all.take(i + 1).last() == pieces@[i as int]@);
        }
        if t.len() > 0 {
            let b = classify(t);
            push_block(blocks, b);
            assert(before.push(b@) =~= before + seq![b@]);
            assert(blocks_view(old(blocks)@) + pieces_blocks(all.take(i as int)) + seq![b@]
                =~= blocks_view(old(blocks)@) + (pieces_blocks(all.take(i as int)) + seq![b@]));
        } else {
            assert(pieces_blocks(all.take(i as int)) + Seq::<BlockView>::empty()
                =~= pieces_blocks(all.take(i as int)));
        }
        i += 1;
    }
    assert(all.take(pieces.len() as int) =~= all);
}

/// What stands before the first line feed of `s`, and what follows it.
fn split_line<'a>(s: &'a [char]) -> (r: (&'a [char], &'a [char]))
    ensures
        r.0@ == first_line(s@),
        r.1@ == after_line(s@),
        r.1@.len() <= s@.len(),
{
    let feed: Vec<char> = vec!['\n'];
    assert(feed@ =~= line_feed());
    match find(s, feed.as_slice()) {
        Some(n) => {
            let head = slice_subrange(s, 0, n);
            let tail = slice_subrange(s, n + 1, s.len());
            assert(head@ =~= s@.take(n as int));
            assert(tail@ =~= s@.skip(n + 1));
            (head, tail)
        },
        None => {
            let tail = slice_subrange(s, s.len(), s.len());
            assert(tail@ =~= Seq::<char>::empty());
            (s, tail)
        },
    }
}

/// The language that the rest of an opening fence line names.
fn language_tag(tag: &[char]) -> (language: Option<String>)
    ensures
        language_view(language) == language_of(tag@),
{
    let t = trim(tag);
    if t.len() == 0 {
        None
    } else {
        Some(string_of(t))
    }
}

/// Appends the code block that `r` begins with to `blocks`, where `r`
/// follows an opening fence. Returns what follows the line of the closing
/// fence, or nothing where the fence is not closed.
fn parse_fenced<'a>(r: &'a [char], blocks: &mut Vec<Block>) -> (rest: Option<&'a [char]>)
    ensures
        match rest {
            Some(after) => after@.len() + 3 <= r@.len() && blocks_view(final(blocks)@)
                + document_blocks(after@) == blocks_view(old(blocks)@) + fenced_blocks(r@),
            None => blocks_view(final(blocks)@) == blocks_view(old(blocks)@) + fenced_blocks(r@),
        },
{
    let (tag, body) = split_line(r);
    let language = language_tag(tag);
    let marks: Vec<char> = vec!['`', '`', '`'];
    assert(marks@ =~= fence());
    let ghost before = blocks_view(blocks@);
    match find(body, marks.as_slice()) {
        Some(q) => {
            let code = slice_subrange(body, 0, q);
            assert(code@ =~= body@.take(q as int));
            let closing = slice_subrange(body, q + 3, body.len());
            assert(closing@ =~= body@.skip(q + 3));
            let (_, after) = split_line(closing);
            let b = Block::CodeBlock { language, code: string_of(code) };
            push_block(blocks, b);
            proof {
                assert(before.push(b@) + document_blocks(after@) =~= before + (seq![b@]
                    + document_blocks(after@)));
            }
            Some(after)
        },
        None => {
            let b = Block::CodeBlock { language, code: string_of(body) };
            push_block(blocks, b);
            proof {
                assert(before.push(b@) =~= before + seq![b@]);
            }
            None
        },
    }
}

/// The document that the text `input` stands for. Every text stands for
/// one: the result is never an error.
pub fn parse(input: &str) -> (r: Result<Document, Error>)
    ensures
        r matches Ok(doc) && doc@ == document_blocks(input@),
{
    let chars = chars_of(input);
    let mut blocks: Vec<Block> = Vec::new();
    let mut rest: &[char] = chars.as_slice();
    let marks: Vec<char> = vec!['`', '`', '`'];
    assert(marks@ =~= fence());
    assert(blocks_view(blocks@) + document_blocks(rest@) =~= document_blocks(input@));
    loop
        invariant_except_break
            marks@ == fence(),
            blocks_view(blocks@) + document_blocks(rest@) == document_blocks(input@),
        ensures
            blocks_view(blocks@) == document_blocks(input@),
        decreases rest.len(),
    {
        let ghost before = blocks_view(blocks@);
        let ghost here = rest@;
        match find(rest, marks.as_slice()) {
            Some(p) => {
                let head = slice_subrange(rest, 0, p);
                assert(head@ =~= here.take(p as int));
                parse_section(trim(head), &mut blocks);
                let fenced = slice_subrange(rest, p + 3, rest.len());
                assert(fenced@ =~= here.skip(p + 3));
                let ghost middle = blocks_view(blocks@);
                match parse_fenced(fenced, &mut blocks) {
                    Some(after) => {
                        rest = after;
                        proof {
                            assert(blocks_view(blocks@) + document_blocks(rest@) =~= before + (
                            section_blocks(trimmed(here.take(p as int))) + fenced_blocks(
                                here.skip(p + 3),
                            )));
                        }
                    },
                    None => {
                        proof {
                            assert(blocks_view(blocks@) =~= before + (section_blocks(
                                trimmed(here.take(p as int)),
                            ) + fenced_blocks(here.skip(p + 3))));
                        }
                        break ;
                    },
                }
            },
            None => {
                parse_section(trim(rest), &mut blocks);
                break ;
            },
        }
    }
    Ok(Document::new(blocks))
}

/// The Markdown text of the table row `row`.
fn row_text(row: &Vec<String>) -> (out: Vec<char>)
    ensures
        out@ == render_row(row_view(row@)),
{
    let mut out: Vec<char> = Vec::new();
    out.push('|');
    let mut i: usize = 0;
    let ghost cells = row_view(row@);
    assert(cells.take(0) =~= Seq::<Seq<char>>::empty());
    assert(out@ =~= seq!['|'] + join(cells.take(0), seq!['|']));
    while i < row.len()
        invariant
            i <= row.len(),
            cells == row_view(row@),
            out@ == seq!['|'] + join(cells.take(i as int), seq!['|']),
        decreases row.len() - i,
    {
        let ghost before = out@;
        if i > 0 {
            out.push('|');
        }
        push_str(&mut out, row[i].as_str());
        proof {
            assert(cells.take(i + 1).drop_last() =~= cells.take(i as int));
            assert(cells.take(i + 1).last() == row@[i as int]@);
            if i == 0 {
                assert(out@ =~= seq!['|'] + join(cells.take(i + 1), seq!['|']));
            } else {
                assert(out@ =~= seq!['|'] + (join(cells.take(i as int), seq!['|']) + seq!['|']
                    + row@[i as int]@));
            }
        }
        i += 1;
    }
    assert(cells.take(row.len() as int) =~= cells);
    out.push('|');
    out
}

/// The Markdown text of the list `items`, numbered where `numbered` holds
/// and with a dash before each item where it does not.
fn list_text(items: &Vec<InlineText>, numbered: bool) -> (out: Vec<char>)
    ensures
        numbered ==> out@ == render_block(BlockView::OrderedList(items_view(items@))),
        !numbered ==> out@ == render_block(BlockView::UnorderedList(items_view(items@))),
{
    let mut parts: Vec<Vec<char>> = Vec::new();
    let mut i: usize = 0;
    let ghost views = items_view(items@);
    let ghost wanted = if numbered {
        Seq::new(
            views.len(),
            |i: int| decimal((i + 1) as nat) + seq!['.', ' '] + render_elements(views[i]),
        )
    } else {
        views.map_values(|item: Seq<InlineElementView>| seq!['-', ' '] + render_elements(item))
    };
    while i < items.len()
        invariant
            i <= items.len(),
            views == items_view(items@),
            wanted.len() == items.len(),
            forall|j: int|
                0 <= j < items.len() ==> #[trigger] wanted[j] == if numbered {
                    decimal((j + 1) as nat) + seq!['.', ' '] + render_elements(views[j])
                } else {
                    seq!['-', ' '] + render_elements(views[j])
                },
            texts(parts@) =~= wanted.take(i as int),
        decreases items.len() - i,
    {
        let mut line: Vec<char> = Vec::new();
        if numbered {
            push_decimal(&mut line, i + 1);
            line.push('.');
            line.push(' ');
        } else {
            line.push('-');
            line.push(' ');
        }
        render_run(&items[i], &mut line);
        let ghost before = parts@;
        proof {
            assert(line@ =~= wanted[i as int]);
        }
        parts.push(line);
        proof {
            assert(texts(parts@) =~= texts(before).push(line@));
            assert(wanted.take(i + 1) =~= wanted.take(i as int).push(wanted[i as int]));
        }
        i += 1;
    }
    assert(wanted.take(items.len() as int) =~= wanted);
    let feed: Vec<char> = vec!['\n'];
    assert(feed@ =~= line_feed());
    join_with(&parts, feed.as_slice())
}

/// The Markdown text of the quote that holds `text`.
fn quote_block_text(text: &InlineText) -> (out: Vec<char>)
    ensures
        out@ == render_block(BlockView::Blockquote(text@)),
{
    let mut rendered: Vec<char> = Vec::new();
    render_run(text, &mut rendered);
    assert(rendered@ =~= render_elements(text@));
    let ls = lines_of(rendered.as_slice());
    let mut parts: Vec<Vec<char>> = Vec::new();
    let mut i: usize = 0;
    let ghost wanted = texts(ls@).map_values(|l: Seq<char>| seq!['>', ' '] + l);
    while i < ls.len()
        invariant
            i <= ls.len(),
            wanted == texts(ls@).map_values(|l: Seq<char>| seq!['>', ' '] + l),
            texts(parts@) =~= wanted.take(i as int),
        decreases ls.len() - i,
    {
        let mut line: Vec<char> = Vec::new();
        line.push('>');
        line.push(' ');
        line.extend_from_slice(ls[i].as_slice());
        let ghost before = parts@;
        proof {
            assert(wanted[i as int] == seq!['>', ' '] + texts(ls@)[i as int]);
            assert(line@ =~= wanted[i as int]);
        }
        parts.push(line);
        proof {
            assert(texts(parts@) =~= texts(before).push(line@));
            assert(wanted.take(i + 1) =~= wanted.take(i as int).push(wanted[i as int]));
        }
        i += 1;
    }
    assert(wanted.take(ls.len() as int) =~= wanted);
    let feed: Vec<char> = vec!['\n'];
    assert(feed@ =~= line_feed());
    join_with(&parts, feed.as_slice())
}

/// The Markdown text of `table`.
fn table_text(table: &Table) -> (out: Vec<char>)
    ensures
        out@ == render_block(BlockView::Table(table@)),
{
    let mut parts: Vec<Vec<char>> = Vec::new();
    let mut i: usize = 0;
    let ghost wanted = table@.rows.map_values(|row: Seq<Seq<char>>| render_row(row));
    while i < table.rows.len()
        invariant
            i <= table.rows.len(),
            wanted == table@.rows.map_values(|row: Seq<Seq<char>>| render_row(row)),
            texts(parts@) =~= wanted.take(i as int),
        decreases table.rows.len() - i,
    {
        let line = row_text(&table.rows[i]);
        let ghost before = parts@;
        proof {
            assert(wanted[i as int] == render_row(table@.rows[i as int]));
        }
        parts.push(line);
        proof {
            assert(texts(parts@) =~= texts(before).push(line@));
            assert(wanted.take(i + 1) =~= wanted.take(i as int).push(wanted[i as int]));
        }
        i += 1;
    }
    assert(wanted.take(table.rows.len() as int) =~= wanted);
    let feed: Vec<char> = vec!['\n'];
    assert(feed@ =~= line_feed());
    join_with(&parts, feed.as_slice())
}

/// The Markdown text of the code block with the language `language` and
/// the code `code`.
fn code_text(language: &Option<String>, code: &String) -> (out: Vec<char>)
    ensures
        out@ == render_block(
            BlockView::CodeBlock {
                language: language_view(*language),
                code: code@,
            },
        ),
{
    let mut out: Vec<char> = Vec::new();
    out.push('`');
    out.push('`');
    out.push('`');
    match language {
        Some(l) => {
            push_str(&mut out, l.as_str());
        },
        None => {},
    }
    out.push('\n');
    let chars = chars_of(code.as_str());
    out.extend_from_slice(trim_end(chars.as_slice()));
    out.push('\n');
    out.push('`');
    out.push('`');
    out.push('`');
    proof {
        let lang = match language_view(*language) {
            Some(l) => l,
            None => seq![],
        };
        assert(out@ =~= fence() + lang + line_feed() + trimmed_end(code@) + line_feed() + fence());
    }
    out
}

/// The Markdown text of the block `b`.
pub fn block_text(b: &Block) -> (out: Vec<char>)
    ensures
        out@ == render_block(b@),
{
    match b {
        Block::Paragraph(text) => {
            let mut out: Vec<char> = Vec::new();
            render_run(text, &mut out);
            assert(out@ =~= render_elements(text@));
            out
        },
        Block::Header { level, text } => {
            let mut out: Vec<char> = Vec::new();
            push_repeated(&mut out, '#', *level);
            out.push(' ');
            render_run(text, &mut out);
            assert(out@ =~= repeated('#', *level as nat) + seq![' '] + render_elements(text@));
            out
        },
        Block::UnorderedList(items) => list_text(items, false),
        Block::OrderedList(items) => list_text(items, true),
        Block::CodeBlock { language, code } => code_text(language, code),
        Block::Blockquote(text) => quote_block_text(text),
        Block::Table(table) => table_text(table),
    }
}

/// The Markdown text of `doc`.
pub fn to_markdown(doc: &Document) -> (r: String)
    ensures
        r@ == render_document(doc@),
{
    let mut parts: Vec<Vec<char>> = Vec::new();
    let mut i: usize = 0;
    let ghost wanted = doc@.map_values(|b: BlockView| render_block(b));
    while i < doc.blocks.len()
        invariant
            i <= doc.blocks.len(),
            wanted == doc@.map_values(|b: BlockView| render_block(b)),
            texts(parts@) =~= wanted.take(i as int),
        decreases doc.blocks.len() - i,
    {
        let part = block_text(&doc.blocks[i]);
        let ghost before = parts@;
        proof {
            assert(wanted[i as int] == render_block(doc@[i as int]));
        }
        parts.push(part);
        proof {
            assert(texts(parts@) =~= texts(before).push(part@));
            assert(wanted.take(i + 1) =~= wanted.take(i as int).push(wanted[i as int]));
        }
        i += 1;
    }
    assert(wanted.take(doc.blocks.len() as int) =~= wanted);
    let blank: Vec<char> = vec!['\n', '\n'];
    assert(blank@ =~= blank_line());
    let out = join_with(&parts, blank.as_slice());
    string_of(out.as_slice())
}

} // verus!
