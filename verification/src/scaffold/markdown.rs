//! Parser from a subset of Markdown to blocks.
//!
//! | Markdown | block |
//! |---|---|
//! | `#` to `#######` | `Heading`, its level the number of `#` |
//! | consecutive lines | one `Paragraph`, the lines joined by one space |
//! | `-`, `*`, `+` items | one `Paragraph` each, behind a bullet |
//! | `1.`, `1)` items | one `Paragraph` each, the number kept |
//! | pipe table | `Table`, without its separator rows |
//! | fenced code | one `Paragraph` per line, as it stands |
//! | `>` quote | the prefix goes, the rest is paragraph text |
//! | `---`, `***`, `___` | nothing |
//!
//! Every text is a draft: what is none of these is paragraph text, never an error.

use crate::scaffold::inline::{plain_text, strip_inline_chars};
use crate::scaffold::schema::{Block, BlockView};
use crate::text::{
    append_chars, count_leading, drop_leading, drop_trailing, find_from, from_chars,
    is_white_space, join_with_space, joined, leading, lemma_next_index, next_index, occurrences,
    strip_leading, strip_trailing, to_chars, trim, trim_start, trimmed, trimmed_start, CharClass,
};
use vstd::prelude::*;
use vstd::slice::slice_subrange;

verus! {

// ---- Lines ----

/// The lines of a text: it is split behind each `\n`, and a line ends before its `\n` and
/// before the `\r`s in front of that. Nothing follows a last `\n`.
pub open spec fn lines_of(s: Seq<char>) -> Seq<Seq<char>>
    decreases s.len(),
{
    if s.len() == 0 {
        seq![]
    } else {
        let k = next_index(s, '\n', 0);
        let line = drop_trailing(s.take(k), CharClass::Only('\r'));
        if k < s.len() {
            proof {
                lemma_newline(s);
            }
            seq![line] + lines_of(s.skip(k + 1))
        } else {
            seq![line]
        }
    }
}

/// The first newline of a text, if any, is one of its characters.
pub proof fn lemma_newline(s: Seq<char>)
    ensures
        0 <= next_index(s, '\n', 0) <= s.len(),
{
    lemma_next_index(s, '\n', 0);
}

/// A slice of characters is its own deep view.
proof fn lemma_deep_chars(s: &[char])
    ensures
        s.deep_view() == s@,
{
    assert(s.deep_view() =~= s@);
}

/// The lines of `s`.
fn split_lines(s: &[char]) -> (lines: Vec<&[char]>)
    ensures
        lines.deep_view() == lines_of(s@),
{
    let mut lines: Vec<&[char]> = Vec::new();
    let mut i: usize = 0;
    assert(s@.skip(0) =~= s@);
    assert(lines.deep_view() + lines_of(s@.skip(0)) =~= lines_of(s@));
    while i < s.len()
        invariant
            i <= s@.len(),
            lines.deep_view() + lines_of(s@.skip(i as int)) == lines_of(s@),
        decreases s.len() - i,
    {
        let rest = slice_subrange(s, i, s.len());
        assert(rest@ == s@.skip(i as int));
        let ghost before = lines.deep_view();
        let k: usize = find_from(rest, '\n', 0);
        let line = strip_trailing(slice_subrange(rest, 0, k), CharClass::Only('\r'));
        proof {
            lemma_deep_chars(line);
        }
        lines.push(line);
        assert(lines.deep_view() =~= before.push(line@));
        if k < rest.len() {
            i = i + k + 1;
            assert(rest@.skip(k + 1) =~= s@.skip(i as int));
            assert(lines.deep_view() + lines_of(s@.skip(i as int)) =~= before + (seq![line@]
                + lines_of(s@.skip(i as int))));
        } else {
            i = s.len();
            assert(s@.skip(i as int) =~= seq![]);
            assert(lines.deep_view() + lines_of(s@.skip(i as int)) =~= before + seq![line@]);
        }
    }
    assert(lines.deep_view() + lines_of(s@.skip(i as int)) =~= lines.deep_view());
    lines
}

// ---- What a line is ----

/// Whether `line` opens or closes fenced code with the marker `m`: it starts with three of them.
pub open spec fn is_fence(line: Seq<char>, m: char) -> bool {
    line.len() >= 3 && line[0] == m && line[1] == m && line[2] == m
}

/// Whether `line` is a horizontal rule: at least three of one of `-`, `*` and `_`, and nothing
/// else but white space.
pub open spec fn is_rule(line: Seq<char>) -> bool {
    is_rule_of(line, '-') || is_rule_of(line, '*') || is_rule_of(line, '_')
}

/// Whether `line` holds at least three `m` and nothing else but white space.
pub open spec fn is_rule_of(line: Seq<char>, m: char) -> bool {
    &&& occurrences(line, m) >= 3
    &&& forall|i: int| 0 <= i < line.len() ==> is_white_space(#[trigger] line[i]) || line[i] == m
}

/// The number of `#` that `line` starts with.
pub open spec fn hashes(line: Seq<char>) -> nat {
    leading(line, CharClass::Only('#'))
}

/// Whether `line` is a heading: one to seven `#`, then a space or nothing.
pub open spec fn is_heading(line: Seq<char>) -> bool {
    &&& 1 <= hashes(line) <= 7
    &&& hashes(line) < line.len() ==> line[hashes(line) as int] == ' '
}

/// The text of a heading: what follows the `#`s, without the `#`s that close the line and
/// without a number in front.
pub open spec fn heading_text(line: Seq<char>) -> Seq<char> {
    without_ordinal(
        trimmed(drop_trailing(trimmed(line.skip(hashes(line) as int)), CharClass::Only('#'))),
    )
}

/// The punctuation that ends a group of digits in a number.
pub open spec fn is_ordinal_mark(c: char) -> bool {
    c == '.' || c == ')'
}

/// The number that `s` starts with, such as `1.`, `1.1` or `2)`: how many groups of digits it
/// has, and how many characters. Each group but the last one ends in punctuation.
pub open spec fn numbering(s: Seq<char>) -> (nat, nat)
    decreases s.len(),
{
    let d = leading(s, CharClass::Digit);
    if d == 0 {
        (0, 0)
    } else if d < s.len() && is_ordinal_mark(s[d as int]) {
        let (groups, len) = numbering(s.skip(d as int + 1));
        (groups + 1, d + 1 + len)
    } else {
        (1, d)
    }
}

/// Whether `s` starts with a number in parentheses and a space: `(3) `.
pub open spec fn has_parenthesised_ordinal(s: Seq<char>) -> bool {
    let d = leading(s.skip(1), CharClass::Digit) as int;
    &&& s.len() > 0
    &&& s[0] == '('
    &&& d > 0
    &&& d + 2 < s.len()
    &&& s[d + 1] == ')'
    &&& s[d + 2] == ' '
}

/// Whether `s` starts with a number and a space, where the number ends in punctuation or has at
/// least two groups: `1. `, `2) `, `1.1 `. One bare group of digits is no number: it may be part
/// of the text.
pub open spec fn has_ordinal(s: Seq<char>) -> bool {
    let (groups, len) = numbering(s);
    &&& groups > 0
    &&& len < s.len()
    &&& s[len as int] == ' '
    &&& groups >= 2 || is_ordinal_mark(s[len - 1])
}

/// `s` without the number in front, if it has one.
pub open spec fn without_ordinal(s: Seq<char>) -> Seq<char> {
    if has_parenthesised_ordinal(s) {
        trimmed_start(s.skip(leading(s.skip(1), CharClass::Digit) as int + 2))
    } else if has_ordinal(s) {
        trimmed_start(s.skip(numbering(s).1 as int + 1))
    } else {
        s
    }
}

/// Whether `line` is a row of a table: it starts with `|`, and more follows.
pub open spec fn is_row(line: Seq<char>) -> bool {
    line.len() > 1 && line[0] == '|'
}

/// What a row is split into cells from: no `|` in front, and one less at the end.
pub open spec fn row_inner(line: Seq<char>) -> Seq<char> {
    let inner = drop_leading(trimmed(line), CharClass::Only('|'));
    if inner.len() > 0 && inner.last() == '|' {
        inner.drop_last()
    } else {
        inner
    }
}

/// The cells of a row from its current cell `cell` and what follows it, `s`. A `|` ends a cell,
/// and `\|` puts a `|` into it.
pub open spec fn cells_from(cell: Seq<char>, s: Seq<char>) -> Seq<Seq<char>>
    decreases s.len(),
{
    if s.len() == 0 {
        seq![trimmed(cell)]
    } else if s[0] == '\\' && s.len() > 1 && s[1] == '|' {
        cells_from(cell.push('|'), s.skip(2))
    } else if s[0] == '|' {
        seq![trimmed(cell)] + cells_from(seq![], s.skip(1))
    } else {
        cells_from(cell.push(s[0]), s.skip(1))
    }
}

/// The cells of the row `line`.
pub open spec fn row_cells(line: Seq<char>) -> Seq<Seq<char>> {
    cells_from(seq![], row_inner(line))
}

/// Whether a cell belongs to a separator row: dashes, colons and spaces, with at least one dash.
pub open spec fn is_separator_cell(cell: Seq<char>) -> bool {
    let t = trimmed(cell);
    &&& t.contains('-')
    &&& forall|i: int| 0 <= i < t.len() ==> #[trigger] t[i] == '-' || t[i] == ':' || t[i] == ' '
}

/// Whether the cells are those of a separator row.
pub open spec fn is_separator(cells: Seq<Seq<char>>) -> bool {
    &&& cells.len() > 0
    &&& forall|i: int| 0 <= i < cells.len() ==> is_separator_cell(#[trigger] cells[i])
}

/// Whether `line` is an item of a bullet list.
pub open spec fn is_bullet(line: Seq<char>) -> bool {
    line.len() >= 2 && (line[0] == '-' || line[0] == '*' || line[0] == '+') && line[1] == ' '
}

/// The paragraph that an item of a bullet list becomes.
pub open spec fn bullet_text(line: Seq<char>) -> Seq<char> {
    seq!['•', ' '] + plain_text(trimmed(line.skip(2)))
}

/// Whether `line` is an item of a numbered list: one to four digits, `.` or `)`, a space.
pub open spec fn is_ordered(line: Seq<char>) -> bool {
    let d = leading(line, CharClass::Digit) as int;
    &&& 1 <= d <= 4
    &&& d + 1 < line.len()
    &&& is_ordinal_mark(line[d])
    &&& line[d + 1] == ' '
}

/// The paragraph that an item of a numbered list becomes: its number stays.
pub open spec fn ordered_text(line: Seq<char>) -> Seq<char> {
    let d = leading(line, CharClass::Digit) as int;
    line.take(d + 1).push(' ') + plain_text(trimmed(line.skip(d + 2)))
}

/// The text that a line adds to a paragraph: the prefix of a quote goes.
pub open spec fn body_text(line: Seq<char>) -> Seq<char> {
    plain_text(
        if line.len() > 0 && line[0] == '>' {
            trimmed_start(line.skip(1))
        } else {
            line
        },
    )
}

/// What a line is.
pub enum LineKind {
    /// White space only.
    Blank,
    /// Three or more of one marker: code starts, up to the next such line.
    Fence(char),
    /// A horizontal rule.
    Rule,
    /// A heading.
    Heading,
    /// A row of a table.
    Row,
    /// An item of a list, with the text of its paragraph.
    Item(Seq<char>),
    /// Paragraph text.
    Text,
}

/// What the line `line` is, its white space trimmed: the first of these that it looks like.
pub open spec fn line_kind(line: Seq<char>) -> LineKind {
    if line.len() == 0 {
        LineKind::Blank
    } else if is_fence(line, '`') {
        LineKind::Fence('`')
    } else if is_fence(line, '~') {
        LineKind::Fence('~')
    } else if is_rule(line) {
        LineKind::Rule
    } else if is_heading(line) {
        LineKind::Heading
    } else if is_row(line) {
        LineKind::Row
    } else if is_bullet(line) {
        LineKind::Item(bullet_text(line))
    } else if is_ordered(line) {
        LineKind::Item(ordered_text(line))
    } else {
        LineKind::Text
    }
}

// ---- What lines become ----

/// The paragraph of the gathered lines, if there is text in them.
pub open spec fn paragraph_of(gathered: Seq<Seq<char>>) -> Seq<BlockView> {
    let text = trimmed(joined(gathered));
    if text.len() == 0 {
        seq![]
    } else {
        seq![BlockView::Paragraph { text }]
    }
}

/// How many lines stand before the first one that is a fence with the marker `m`.
pub open spec fn code_len(lines: Seq<Seq<char>>, m: char) -> nat
    decreases lines.len(),
{
    if lines.len() == 0 || is_fence(trimmed(lines[0]), m) {
        0
    } else {
        1 + code_len(lines.skip(1), m)
    }
}

/// How many lines a fenced block takes that starts at the first line: its fences, where the
/// closing one may be missing, and what is between them.
pub open spec fn fenced_len(lines: Seq<Seq<char>>, m: char) -> nat {
    let n = code_len(lines.skip(1), m);
    if n + 2 <= lines.len() {
        n + 2
    } else {
        lines.len()
    }
}

/// The paragraphs that lines of code become: one each, as it stands.
pub open spec fn code_paragraphs(lines: Seq<Seq<char>>) -> Seq<BlockView> {
    Seq::new(lines.len(), |i: int| BlockView::Paragraph { text: lines[i] })
}

/// How many lines from the first one on are rows of a table.
pub open spec fn rows_len(lines: Seq<Seq<char>>) -> nat
    decreases lines.len(),
{
    if lines.len() == 0 || !is_row(trimmed(lines[0])) {
        0
    } else {
        1 + rows_len(lines.skip(1))
    }
}

/// The plain text of each cell.
pub open spec fn plain_cells(cells: Seq<Seq<char>>) -> Seq<Seq<char>> {
    Seq::new(cells.len(), |i: int| plain_text(cells[i]))
}

/// The rows of a table made of `lines`: one for each line that is no separator.
pub open spec fn table_rows(lines: Seq<Seq<char>>) -> Seq<Seq<Seq<char>>>
    decreases lines.len(),
{
    if lines.len() == 0 {
        seq![]
    } else {
        let before = table_rows(lines.drop_last());
        let cells = row_cells(trimmed(lines.last()));
        if is_separator(cells) {
            before
        } else {
            before.push(plain_cells(cells))
        }
    }
}

/// The table made of `lines`, if any row is left.
pub open spec fn table_of(lines: Seq<Seq<char>>) -> Seq<BlockView> {
    let rows = table_rows(lines);
    if rows.len() == 0 {
        seq![]
    } else {
        seq![BlockView::Table { rows }]
    }
}

/// The heading that `line` becomes.
pub open spec fn heading_of(line: Seq<char>) -> BlockView {
    BlockView::Heading { level: hashes(line) as u8, text: plain_text(heading_text(line)) }
}

/// The blocks of `lines`, where `gathered` are the texts of the lines before them that belong to
/// a paragraph still open.
pub open spec fn blocks_of_lines(
    lines: Seq<Seq<char>>,
    gathered: Seq<Seq<char>>,
) -> Seq<BlockView>
    decreases lines.len(),
{
    if lines.len() == 0 {
        paragraph_of(gathered)
    } else {
        let line = trimmed(lines[0]);
        let closed = paragraph_of(gathered);
        match line_kind(line) {
            LineKind::Blank | LineKind::Rule => closed + blocks_of_lines(lines.skip(1), seq![]),
            LineKind::Fence(m) => {
                let n = code_len(lines.skip(1), m);
                proof {
                    lemma_code_len(lines.skip(1), m);
                }
                closed + code_paragraphs(lines.subrange(1, n as int + 1)) + blocks_of_lines(
                    lines.skip(fenced_len(lines, m) as int),
                    seq![],
                )
            },
            LineKind::Heading => closed.push(heading_of(line)) + blocks_of_lines(
                lines.skip(1),
                seq![],
            ),
            LineKind::Row => {
                let n = rows_len(lines);
                proof {
                    lemma_rows_len(lines);
                }
                closed + table_of(lines.take(n as int)) + blocks_of_lines(
                    lines.skip(n as int),
                    seq![],
                )
            },
            LineKind::Item(text) => closed.push(BlockView::Paragraph { text }) + blocks_of_lines(
                lines.skip(1),
                seq![],
            ),
            LineKind::Text => blocks_of_lines(lines.skip(1), gathered.push(body_text(line))),
        }
    }
}

/// The blocks of a Markdown text.
pub open spec fn markdown_blocks(s: Seq<char>) -> Seq<BlockView> {
    blocks_of_lines(lines_of(s), seq![])
}

/// The lines of code before a fence are lines of the text.
pub proof fn lemma_code_len(lines: Seq<Seq<char>>, m: char)
    ensures
        code_len(lines, m) <= lines.len(),
    decreases lines.len(),
{
    if lines.len() > 0 && !is_fence(trimmed(lines[0]), m) {
        lemma_code_len(lines.skip(1), m);
    }
}

/// The rows of a table are lines of the text, and the first line is one of them if it is a row.
pub proof fn lemma_rows_len(lines: Seq<Seq<char>>)
    ensures
        rows_len(lines) <= lines.len(),
        lines.len() > 0 && is_row(trimmed(lines[0])) ==> rows_len(lines) > 0,
    decreases lines.len(),
{
    if lines.len() > 0 && is_row(trimmed(lines[0])) {
        lemma_rows_len(lines.skip(1));
    }
}

// ---- The parser ----

/// Appends a block.
fn push_block(blocks: &mut Vec<Block>, block: Block)
    ensures
        final(blocks).deep_view() == old(blocks).deep_view().push(block.deep_view()),
{
    blocks.push(block);
    assert(blocks.deep_view() =~= old(blocks).deep_view().push(block.deep_view()));
}

/// Closes the paragraph of the gathered lines.
fn flush_para(buf: &mut Vec<Vec<char>>, blocks: &mut Vec<Block>)
    ensures
        final(buf)@.len() == 0,
        final(blocks).deep_view() == old(blocks).deep_view() + paragraph_of(old(buf).deep_view()),
{
    let gathered = join_with_space(buf);
    buf.clear();
    let text = trim(gathered.as_slice());
    if text.len() > 0 {
        push_block(blocks, Block::Paragraph { text: from_chars(text) });
    }
    assert(blocks.deep_view() =~= old(blocks).deep_view() + paragraph_of(old(buf).deep_view()));
}

/// Whether `line` starts with three markers `m`.
fn starts_fence(line: &[char], m: char) -> (b: bool)
    ensures
        b == is_fence(line@, m),
{
    line.len() >= 3 && line[0] == m && line[1] == m && line[2] == m
}

/// Whether `line` holds at least three `m` and nothing else but white space.
fn is_horizontal_rule_of(line: &[char], m: char) -> (b: bool)
    ensures
        b == is_rule_of(line@, m),
{
    let mut count: usize = 0;
    let mut i: usize = 0;
    while i < line.len()
        invariant
            i <= line@.len(),
            count <= i,
            count == occurrences(line@.take(i as int), m),
            forall|j: int|
                0 <= j < i ==> is_white_space(#[trigger] line@[j]) || line@[j] == m,
        decreases line.len() - i,
    {
        assert(line@.take(i + 1).drop_last() =~= line@.take(i as int));
        if line[i] == m {
            count += 1;
        } else if !line[i].is_whitespace() {
            return false;
        }
        i += 1;
    }
    assert(line@.take(i as int) =~= line@);
    count >= 3
}

/// Whether `line` is a horizontal rule.
fn is_horizontal_rule(line: &[char]) -> (b: bool)
    ensures
        b == is_rule(line@),
{
    is_horizontal_rule_of(line, '-') || is_horizontal_rule_of(line, '*') || is_horizontal_rule_of(
        line,
        '_',
    )
}

/// The level and the text of a heading.
fn parse_heading(line: &[char]) -> (res: Option<(u8, &[char])>)
    ensures
        res is Some <==> is_heading(line@),
        res matches Some((level, text)) ==> level == hashes(line@) && text@ == heading_text(line@),
{
    let n: usize = count_leading(line, CharClass::Only('#'));
    if n == 0 || n > 7 {
        return None;
    }
    if n < line.len() && line[n] != ' ' {
        return None;
    }
    let rest = slice_subrange(line, n, line.len());
    let text = trim(strip_trailing(trim(rest), CharClass::Only('#')));
    Some((n as u8, strip_leading_ordinal(text)))
}

/// Takes the number off the front of a heading: the outline level numbers it already.
fn strip_leading_ordinal(text: &[char]) -> (out: &[char])
    ensures
        out@ == without_ordinal(text@),
{
    if text.len() > 0 && text[0] == '(' {
        let inner = slice_subrange(text, 1, text.len());
        let digits: usize = count_leading(inner, CharClass::Digit);
        if digits > 0 && digits < inner.len() && inner[digits] == ')' && digits + 1 < inner.len()
            && inner[digits + 1] == ' ' {
            return trim_start(slice_subrange(text, digits + 2, text.len()));
        }
        return text;
    }
    let mut i: usize = 0;
    let mut groups: usize = 0;
    let mut more: bool = true;
    assert(text@.skip(0) =~= text@);
    while more && i < text.len()
        invariant
            i <= text@.len(),
            groups <= i,
            groups > 0 ==> i > 0,
            more ==> numbering(text@).0 == groups + numbering(text@.skip(i as int)).0,
            more ==> numbering(text@).1 == i + numbering(text@.skip(i as int)).1,
            !more ==> numbering(text@) == (groups as nat, i as nat),
        decreases text.len() - i,
            (if more {
                1int
            } else {
                0int
            }),
    {
        let rest = slice_subrange(text, i, text.len());
        let digits: usize = count_leading(rest, CharClass::Digit);
        if digits == 0 {
            more = false;
        } else {
            groups += 1;
            i += digits;
            if digits < rest.len() && (rest[digits] == '.' || rest[digits] == ')') {
                i += 1;
                assert(rest@.skip(digits + 1) =~= text@.skip(i as int));
            } else {
                more = false;
            }
        }
    }
    assert(numbering(text@) == (groups as nat, i as nat));
    if groups == 0 || i >= text.len() || text[i] != ' ' {
        return text;
    }
    let ended_with_punct: bool = text[i - 1] == '.' || text[i - 1] == ')';
    if ended_with_punct || groups >= 2 {
        trim_start(slice_subrange(text, i + 1, text.len()))
    } else {
        text
    }
}

/// Whether `line` is a row of a table.
fn is_table_line(line: &[char]) -> (b: bool)
    ensures
        b == is_row(line@),
{
    line.len() > 1 && line[0] == '|'
}

/// The cells of a row.
fn split_table_row(line: &[char]) -> (cells: Vec<Vec<char>>)
    ensures
        cells.deep_view() == row_cells(line@),
{
    let mut inner = strip_leading(trim(line), CharClass::Only('|'));
    if inner.len() > 0 && inner[inner.len() - 1] == '|' {
        inner = slice_subrange(inner, 0, inner.len() - 1);
    }
    assert(inner@ =~= row_inner(line@));
    let mut cells: Vec<Vec<char>> = Vec::new();
    let mut cur: Vec<char> = Vec::new();
    let mut i: usize = 0;
    assert(inner@.skip(0) =~= inner@);
    assert(cells.deep_view() + cells_from(cur@, inner@.skip(0)) =~= row_cells(line@));
    while i < inner.len()
        invariant
            i <= inner@.len(),
            cells.deep_view() + cells_from(cur@, inner@.skip(i as int)) == row_cells(line@),
        decreases inner.len() - i,
    {
        let ghost rest = inner@.skip(i as int);
        let ghost before = cells.deep_view();
        let ghost cell = cur@;
        let c: char = inner[i];
        if c == '\\' && i + 1 < inner.len() && inner[i + 1] == '|' {
            cur.push('|');
            i += 2;
            assert(rest.skip(2) =~= inner@.skip(i as int));
        } else if c == '|' {
            push_cell(&mut cells, trim(cur.as_slice()));
            cur.clear();
            i += 1;
            assert(rest.skip(1) =~= inner@.skip(i as int));
            assert(cur@ =~= seq![]);
            assert(before + (seq![trimmed(cell)] + cells_from(seq![], rest.skip(1)))
                =~= cells.deep_view() + cells_from(seq![], rest.skip(1)));
        } else {
            cur.push(c);
            i += 1;
            assert(rest.skip(1) =~= inner@.skip(i as int));
        }
    }
    let ghost before = cells.deep_view();
    push_cell(&mut cells, trim(cur.as_slice()));
    assert(before + seq![trimmed(cur@)] =~= cells.deep_view());
    cells
}

/// Appends a copy of `cell`.
fn push_cell(cells: &mut Vec<Vec<char>>, cell: &[char])
    ensures
        final(cells).deep_view() == old(cells).deep_view().push(cell@),
{
    let mut copy: Vec<char> = Vec::new();
    append_chars(&mut copy, cell);
    assert(copy.deep_view() =~= cell@);
    cells.push(copy);
    assert(cells.deep_view() =~= old(cells).deep_view().push(cell@));
}

/// Whether `cell` belongs to a separator row.
fn is_dashes(cell: &[char]) -> (b: bool)
    ensures
        b == is_separator_cell(cell@),
{
    let t = trim(cell);
    let mut dash: bool = false;
    let mut i: usize = 0;
    while i < t.len()
        invariant
            i <= t@.len(),
            t@ == trimmed(cell@),
            dash <==> t@.take(i as int).contains('-'),
            forall|j: int|
                0 <= j < i ==> #[trigger] t@[j] == '-' || t@[j] == ':' || t@[j] == ' ',
        decreases t.len() - i,
    {
        let ghost seen = t@.take(i as int);
        assert(t@.take(i + 1) =~= seen.push(t@[i as int]));
        if t[i] == '-' {
            assert(seen.push(t@[i as int])[i as int] == '-');
            dash = true;
        } else if t[i] != ':' && t[i] != ' ' {
            return false;
        }
        proof {
            if seen.contains('-') {
                let j = choose|j: int| 0 <= j < seen.len() && seen[j] == '-';
                assert(seen.push(t@[i as int])[j] == '-');
            }
            if seen.push(t@[i as int]).contains('-') && t@[i as int] != '-' {
                let j = choose|j: int|
                    0 <= j < seen.len() + 1 && seen.push(t@[i as int])[j] == '-';
                assert(seen[j] == '-');
            }
        }
        i += 1;
    }
    assert(t@.take(i as int) =~= t@);
    dash
}

/// Whether the cells are those of a separator row.
fn is_separator_row(cells: &Vec<Vec<char>>) -> (b: bool)
    ensures
        b == is_separator(cells.deep_view()),
{
    let ghost all = cells.deep_view();
    let mut i: usize = 0;
    while i < cells.len()
        invariant
            i <= cells@.len(),
            all == cells.deep_view(),
            forall|j: int| 0 <= j < i ==> is_separator_cell(#[trigger] all[j]),
        decreases cells.len() - i,
    {
        assert(cells@[i as int].deep_view() =~= cells@[i as int]@);
        assert(all[i as int] == cells@[i as int]@);
        if !is_dashes(cells[i].as_slice()) {
            return false;
        }
        i += 1;
    }
    cells.len() > 0
}

/// The text of an item of a bullet list, behind its marker.
fn parse_bullet(line: &[char]) -> (res: Option<&[char]>)
    ensures
        res is Some <==> is_bullet(line@),
        res matches Some(item) ==> item@ == trimmed(line@.skip(2)),
{
    if line.len() >= 2 && (line[0] == '-' || line[0] == '*' || line[0] == '+') && line[1] == ' ' {
        Some(trim(slice_subrange(line, 2, line.len())))
    } else {
        None
    }
}

/// The number of an item of a numbered list, and its text.
fn parse_ordered(line: &[char]) -> (res: Option<(&[char], &[char])>)
    ensures
        res is Some <==> is_ordered(line@),
        res matches Some((marker, item)) ==> {
            let d = leading(line@, CharClass::Digit) as int;
            marker@ == line@.take(d + 1) && item@ == trimmed(line@.skip(d + 2))
        },
{
    let digits: usize = count_leading(line, CharClass::Digit);
    if digits == 0 || digits > 4 {
        return None;
    }
    if digits + 1 < line.len() && (line[digits] == '.' || line[digits] == ')') && line[digits + 1]
        == ' ' {
        Some(
            (
                slice_subrange(line, 0, digits + 1),
                trim(slice_subrange(line, digits + 2, line.len())),
            ),
        )
    } else {
        None
    }
}

/// Appends a paragraph for each line of code from `from` up to the fence that closes it, and
/// returns the index behind that fence.
fn take_code(lines: &Vec<&[char]>, from: usize, m: char, blocks: &mut Vec<Block>) -> (next: usize)
    requires
        0 < from <= lines@.len(),
    ensures
        from <= next <= lines@.len(),
        ({
            let rest = lines.deep_view().skip(from - 1);
            let n = code_len(rest.skip(1), m) as int;
            &&& next == from - 1 + fenced_len(rest, m)
            &&& final(blocks).deep_view() == old(blocks).deep_view() + code_paragraphs(
                rest.subrange(1, n + 1),
            )
        }),
{
    let ghost all = lines.deep_view();
    let ghost rest = all.skip(from - 1);
    let ghost before = blocks.deep_view();
    let ghost len = code_len(rest.skip(1), m) as int;
    let mut i: usize = from;
    assert(rest.skip(1) =~= all.skip(from as int));
    proof {
        lemma_code_len(rest.skip(1), m);
    }
    assert(before + code_paragraphs(all.subrange(from as int, from as int)) =~= before);
    while i < lines.len() && !starts_fence(trim(lines[i]), m)
        invariant
            0 < from <= i <= lines@.len(),
            all == lines.deep_view(),
            len == (i - from) + code_len(all.skip(i as int), m),
            blocks.deep_view() == before + code_paragraphs(all.subrange(from as int, i as int)),
        decreases lines.len() - i,
    {
        proof {
            lemma_deep_chars(lines@[i as int]);
            assert(all[i as int] == lines@[i as int]@);
            assert(all.skip(i as int).skip(1) =~= all.skip(i + 1));
        }
        push_block(blocks, Block::Paragraph { text: from_chars(lines[i]) });
        i += 1;
        assert(blocks.deep_view() =~= before + code_paragraphs(
            all.subrange(from as int, i as int),
        ));
    }
    proof {
        if i < lines.len() {
            lemma_deep_chars(lines@[i as int]);
            assert(all[i as int] == lines@[i as int]@);
        }
        assert(len == i - from);
        assert(rest.subrange(1, len + 1) =~= all.subrange(from as int, i as int));
    }
    if i < lines.len() {
        i + 1
    } else {
        i
    }
}

/// Appends the table of the rows from `from` on, and returns the index behind them.
fn take_table(lines: &Vec<&[char]>, from: usize, blocks: &mut Vec<Block>) -> (next: usize)
    requires
        from < lines@.len(),
    ensures
        from <= next <= lines@.len(),
        ({
            let rest = lines.deep_view().skip(from as int);
            let n = rows_len(rest) as int;
            &&& next == from + n
            &&& final(blocks).deep_view() == old(blocks).deep_view() + table_of(rest.take(n))
        }),
{
    let ghost all = lines.deep_view();
    let ghost rest = all.skip(from as int);
    let mut rows: Vec<Vec<String>> = Vec::new();
    let mut i: usize = from;
    assert(rows.deep_view() =~= table_rows(all.subrange(from as int, from as int)));
    while i < lines.len() && is_table_line(trim(lines[i]))
        invariant
            from <= i <= lines@.len(),
            all == lines.deep_view(),
            rest == all.skip(from as int),
            rows_len(rest) == (i - from) + rows_len(all.skip(i as int)),
            rows.deep_view() == table_rows(all.subrange(from as int, i as int)),
        decreases lines.len() - i,
    {
        proof {
            lemma_deep_chars(lines@[i as int]);
            assert(all[i as int] == lines@[i as int]@);
            assert(all.skip(i as int).skip(1) =~= all.skip(i + 1));
            assert(all.subrange(from as int, i + 1).drop_last() =~= all.subrange(
                from as int,
                i as int,
            ));
        }
        let cells = split_table_row(trim(lines[i]));
        if !is_separator_row(&cells) {
            let row = plain_row(&cells);
            let ghost before = rows.deep_view();
            rows.push(row);
            assert(rows.deep_view() =~= before.push(row.deep_view()));
        }
        i += 1;
    }
    proof {
        if i < lines.len() {
            lemma_deep_chars(lines@[i as int]);
            assert(all[i as int] == lines@[i as int]@);
        }
        assert(rows_len(rest) == i - from);
        assert(rest.take(i - from) =~= all.subrange(from as int, i as int));
    }
    if rows.len() > 0 {
        push_block(blocks, Block::Table { rows });
    }
    assert(blocks.deep_view() =~= old(blocks).deep_view() + table_of(rest.take(i - from)));
    i
}

/// The plain text of each cell.
fn plain_row(cells: &Vec<Vec<char>>) -> (row: Vec<String>)
    ensures
        row.deep_view() == plain_cells(cells.deep_view()),
{
    let ghost all = cells.deep_view();
    let mut row: Vec<String> = Vec::new();
    let mut i: usize = 0;
    while i < cells.len()
        invariant
            i <= cells@.len(),
            all == cells.deep_view(),
            row.deep_view() == plain_cells(all.take(i as int)),
        decreases cells.len() - i,
    {
        let ghost before = row.deep_view();
        assert(cells@[i as int].deep_view() =~= cells@[i as int]@);
        assert(all[i as int] == cells@[i as int]@);
        let text = strip_inline_chars(cells[i].as_slice());
        let text = from_chars(text.as_slice());
        row.push(text);
        i += 1;
        assert(row.deep_view() =~= before.push(text@));
        assert(row.deep_view() =~= plain_cells(all.take(i as int)));
    }
    assert(all.take(i as int) =~= all);
    row
}

/// What a line is, with the text that it contributes.
enum ParsedLine {
    Blank,
    Fence(char),
    Rule,
    Heading(u8, Vec<char>),
    Row,
    Item(Vec<char>),
    Text(Vec<char>),
}

/// What the line `line` is, its white space trimmed.
fn parse_line(line: &[char]) -> (parsed: ParsedLine)
    ensures
        match parsed {
            ParsedLine::Blank => line_kind(line@) == LineKind::Blank,
            ParsedLine::Fence(m) => line_kind(line@) == LineKind::Fence(m),
            ParsedLine::Rule => line_kind(line@) == LineKind::Rule,
            ParsedLine::Heading(level, text) => {
                &&& line_kind(line@) == LineKind::Heading
                &&& heading_of(line@) == (BlockView::Heading { level, text: text@ })
            },
            ParsedLine::Row => line_kind(line@) == LineKind::Row,
            ParsedLine::Item(text) => line_kind(line@) == LineKind::Item(text@),
            ParsedLine::Text(text) => {
                &&& line_kind(line@) == LineKind::Text
                &&& text@ == body_text(line@)
            },
        },
{
    if line.len() == 0 {
        return ParsedLine::Blank;
    }
    if starts_fence(line, '`') || starts_fence(line, '~') {
        return ParsedLine::Fence(line[0]);
    }
    if is_horizontal_rule(line) {
        return ParsedLine::Rule;
    }
    if let Some((level, text)) = parse_heading(line) {
        return ParsedLine::Heading(level, strip_inline_chars(text));
    }
    if is_table_line(line) {
        return ParsedLine::Row;
    }
    if let Some(item) = parse_bullet(line) {
        let mut text: Vec<char> = Vec::new();
        text.push('•');
        text.push(' ');
        append_chars(&mut text, strip_inline_chars(item).as_slice());
        assert(text@ =~= bullet_text(line@));
        return ParsedLine::Item(text);
    }
    if let Some((marker, item)) = parse_ordered(line) {
        let mut text: Vec<char> = Vec::new();
        append_chars(&mut text, marker);
        text.push(' ');
        append_chars(&mut text, strip_inline_chars(item).as_slice());
        assert(text@ =~= ordered_text(line@));
        return ParsedLine::Item(text);
    }
    let body = if line[0] == '>' {
        trim_start(slice_subrange(line, 1, line.len()))
    } else {
        line
    };
    ParsedLine::Text(strip_inline_chars(body))
}

/// Blocks in a row are the same however they are grouped.
proof fn lemma_grouping(
    before: Seq<BlockView>,
    closed: Seq<BlockView>,
    own: Seq<BlockView>,
    tail: Seq<BlockView>,
)
    ensures
        before + (closed + own + tail) == ((before + closed) + own) + tail,
{
    assert(before + (closed + own + tail) =~= ((before + closed) + own) + tail);
}

/// Blocks in a row are the same however they are grouped around one of them.
proof fn lemma_grouping_around(
    before: Seq<BlockView>,
    closed: Seq<BlockView>,
    block: BlockView,
    tail: Seq<BlockView>,
)
    ensures
        before + (closed.push(block) + tail) == (before + closed).push(block) + tail,
{
    assert(before + (closed.push(block) + tail) =~= (before + closed).push(block) + tail);
}

/// Turns a Markdown text into blocks. A text without any line that bears content becomes no
/// block.
pub fn parse_markdown_blocks(markdown: &str) -> (blocks: Vec<Block>)
    ensures
        blocks.deep_view() == markdown_blocks(markdown@),
{
    let chars: Vec<char> = to_chars(markdown);
    let lines: Vec<&[char]> = split_lines(chars.as_slice());
    let mut blocks: Vec<Block> = Vec::new();
    let mut para_buf: Vec<Vec<char>> = Vec::new();
    let mut i: usize = 0;
    let ghost all = lines.deep_view();
    let ghost total = markdown_blocks(markdown@);
    proof {
        assert(all.skip(0) =~= all);
        assert(para_buf.deep_view() =~= seq![]);
        assert(blocks.deep_view() + blocks_of_lines(all.skip(0), para_buf.deep_view()) =~= total);
    }
    while i < lines.len()
        invariant
            i <= lines@.len(),
            all == lines.deep_view(),
            blocks.deep_view() + blocks_of_lines(all.skip(i as int), para_buf.deep_view()) == total,
        decreases lines.len() - i,
    {
        let ghost rest = all.skip(i as int);
        let ghost before = blocks.deep_view();
        let ghost gathered = para_buf.deep_view();
        let ghost closed = paragraph_of(gathered);
        proof {
            lemma_deep_chars(lines@[i as int]);
            assert(rest[0] == lines@[i as int]@);
            assert(rest.skip(1) =~= all.skip(i + 1));
        }
        let line = trim(lines[i]);
        let ghost tail = blocks_of_lines(rest.skip(1), seq![]);
        match parse_line(line) {
            ParsedLine::Blank | ParsedLine::Rule => {
                flush_para(&mut para_buf, &mut blocks);
                i += 1;
                assert(para_buf.deep_view() =~= seq![]);
                assert(before + (closed + tail) =~= (before + closed) + tail);
            },
            ParsedLine::Fence(m) => {
                flush_para(&mut para_buf, &mut blocks);
                i = take_code(&lines, i + 1, m, &mut blocks);
                proof {
                    assert(para_buf.deep_view() =~= seq![]);
                    let n = code_len(rest.skip(1), m) as int;
                    let code = code_paragraphs(rest.subrange(1, n + 1));
                    assert(rest.skip(fenced_len(rest, m) as int) =~= all.skip(i as int));
                    let tail = blocks_of_lines(all.skip(i as int), seq![]);
                    lemma_grouping(before, closed, code, tail);
                }
            },
            ParsedLine::Heading(level, text) => {
                flush_para(&mut para_buf, &mut blocks);
                push_block(
                    &mut blocks,
                    Block::Heading { level, text: from_chars(text.as_slice()) },
                );
                i += 1;
                proof {
                    assert(para_buf.deep_view() =~= seq![]);
                    lemma_grouping_around(before, closed, heading_of(line@), tail);
                }
            },
            ParsedLine::Row => {
                flush_para(&mut para_buf, &mut blocks);
                i = take_table(&lines, i, &mut blocks);
                proof {
                    lemma_rows_len(rest);
                    assert(para_buf.deep_view() =~= seq![]);
                    let n = rows_len(rest) as int;
                    let table = table_of(rest.take(n));
                    assert(rest.skip(n) =~= all.skip(i as int));
                    let tail = blocks_of_lines(all.skip(i as int), seq![]);
                    lemma_grouping(before, closed, table, tail);
                }
            },
            ParsedLine::Item(text) => {
                flush_para(&mut para_buf, &mut blocks);
                push_block(&mut blocks, Block::Paragraph { text: from_chars(text.as_slice()) });
                i += 1;
                proof {
                    assert(para_buf.deep_view() =~= seq![]);
                    let block = BlockView::Paragraph { text: text@ };
                    lemma_grouping_around(before, closed, block, tail);
                }
            },
            ParsedLine::Text(text) => {
                assert(text.deep_view() =~= text@);
                para_buf.push(text);
                i += 1;
                assert(para_buf.deep_view() =~= gathered.push(body_text(line@)));
            },
        }
    }
    flush_para(&mut para_buf, &mut blocks);
    assert(all.skip(i as int) =~= seq![]);
    blocks
}

}
