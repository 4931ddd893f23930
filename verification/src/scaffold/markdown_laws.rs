//! What holds of the blocks of every Markdown text.

use crate::scaffold::inline::plain_text;
use crate::scaffold::inline_laws::{
    lacks, law_plain_text_only_removes, lemma_next_index_is, lemma_sub_lacks, lemma_trimmed_ends,
    lemma_trimmed_same,
};
use crate::scaffold::insert::{bodies, headings, tables};
use crate::scaffold::markdown::{
    blocks_of_lines, body_text, bullet_text, cells_from, code_len, code_paragraphs, fenced_len,
    has_ordinal, has_parenthesised_ordinal, hashes, heading_of, heading_text, is_bullet, is_fence,
    is_ordinal_mark, is_row, is_rule, is_separator, lemma_code_len, lemma_newline, lemma_rows_len,
    line_kind, lines_of, markdown_blocks, numbering, ordered_text, paragraph_of, row_cells,
    row_inner, rows_len, table_of, table_rows, without_ordinal, LineKind,
};
use crate::scaffold::schema::BlockView;
use crate::text::{
    drop_trailing, in_class, is_white_space, joined, leading, lemma_leading, lemma_leading_run,
    lemma_next_index, lemma_trailing, lemma_trailing_run, next_index, trailing, trimmed,
    trimmed_start, CharClass,
};
use vstd::prelude::*;

verus! {

// ---- Which blocks there are ----

/// Whether a block is one that a parser may make: a heading has a level from 1 to 7, and a table
/// has a row, and a cell in each row.
pub open spec fn is_sound(block: BlockView) -> bool {
    match block {
        BlockView::Heading { level, .. } => 1 <= level <= 7,
        BlockView::Paragraph { .. } => true,
        BlockView::Table { rows } => rows.len() > 0 && forall|i: int|
            0 <= i < rows.len() ==> (#[trigger] rows[i]).len() > 0,
    }
}

/// A row has at least one cell.
proof fn lemma_cells(cell: Seq<char>, s: Seq<char>)
    ensures
        cells_from(cell, s).len() > 0,
    decreases s.len(),
{
    if s.len() > 0 {
        if s[0] == '\\' && s.len() > 1 && s[1] == '|' {
            lemma_cells(cell.push('|'), s.skip(2));
        } else if s[0] != '|' {
            lemma_cells(cell.push(s[0]), s.skip(1));
        }
    }
}

/// Each row of a table has a cell.
proof fn lemma_rows_have_cells(lines: Seq<Seq<char>>, i: int)
    requires
        0 <= i < table_rows(lines).len(),
    ensures
        table_rows(lines)[i].len() > 0,
    decreases lines.len(),
{
    let cells = row_cells(trimmed(lines.last()));
    lemma_cells(seq![], row_inner(trimmed(lines.last())));
    if i < table_rows(lines.drop_last()).len() {
        lemma_rows_have_cells(lines.drop_last(), i);
    }
}

/// The blocks of lines are sound.
proof fn lemma_blocks_sound(lines: Seq<Seq<char>>, gathered: Seq<Seq<char>>, i: int)
    requires
        0 <= i < blocks_of_lines(lines, gathered).len(),
    ensures
        is_sound(blocks_of_lines(lines, gathered)[i]),
    decreases lines.len(),
{
    if lines.len() > 0 {
        let line = trimmed(lines[0]);
        let closed = paragraph_of(gathered).len() as int;
        match line_kind(line) {
            LineKind::Blank | LineKind::Rule => {
                if i >= closed {
                    lemma_blocks_sound(lines.skip(1), seq![], i - closed);
                }
            },
            LineKind::Fence(m) => {
                let n = code_len(lines.skip(1), m) as int;
                lemma_code_len(lines.skip(1), m);
                if i >= closed + n {
                    lemma_blocks_sound(
                        lines.skip(fenced_len(lines, m) as int),
                        seq![],
                        i - closed - n,
                    );
                }
            },
            LineKind::Heading => {
                if i > closed {
                    lemma_blocks_sound(lines.skip(1), seq![], i - closed - 1);
                }
            },
            LineKind::Row => {
                lemma_rows_len(lines);
                let n = rows_len(lines) as int;
                let table = table_of(lines.take(n));
                if i >= closed + table.len() {
                    lemma_blocks_sound(lines.skip(n), seq![], i - closed - table.len());
                } else if i >= closed {
                    assert forall|k: int| 0 <= k < table_rows(lines.take(n)).len() implies (
                    #[trigger] table_rows(lines.take(n))[k]).len() > 0 by {
                        lemma_rows_have_cells(lines.take(n), k);
                    }
                }
            },
            LineKind::Item(_) => {
                if i > closed {
                    lemma_blocks_sound(lines.skip(1), seq![], i - closed - 1);
                }
            },
            LineKind::Text => {
                lemma_blocks_sound(lines.skip(1), gathered.push(body_text(line)), i);
            },
        }
    }
}

/// Every block of a Markdown text is sound: headings have levels from 1 to 7, and tables have
/// rows with cells.
pub proof fn law_blocks_are_sound(s: Seq<char>)
    ensures
        forall|i: int|
            0 <= i < markdown_blocks(s).len() ==> is_sound(#[trigger] markdown_blocks(s)[i]),
{
    assert forall|i: int| 0 <= i < markdown_blocks(s).len() implies is_sound(
        #[trigger] markdown_blocks(s)[i],
    ) by {
        lemma_blocks_sound(lines_of(s), seq![], i);
    }
}

/// No block of a Markdown text is lost on its way into a document: each one is counted as a
/// heading, a paragraph or a table with cells, and so makes a paragraph there.
pub proof fn law_every_block_counts(s: Seq<char>)
    ensures
        headings(markdown_blocks(s)) + bodies(markdown_blocks(s)) + tables(markdown_blocks(s))
            == markdown_blocks(s).len(),
{
    law_blocks_are_sound(s);
    lemma_sound_blocks_count(markdown_blocks(s));
}

/// Sound blocks are all counted.
proof fn lemma_sound_blocks_count(blocks: Seq<BlockView>)
    requires
        forall|i: int| 0 <= i < blocks.len() ==> is_sound(#[trigger] blocks[i]),
    ensures
        headings(blocks) + bodies(blocks) + tables(blocks) == blocks.len(),
    decreases blocks.len(),
{
    if blocks.len() > 0 {
        assert forall|i: int| 0 <= i < blocks.drop_last().len() implies is_sound(
            #[trigger] blocks.drop_last()[i],
        ) by {
            assert(blocks.drop_last()[i] == blocks[i]);
        }
        lemma_sound_blocks_count(blocks.drop_last());
        assert(is_sound(blocks[blocks.len() - 1]));
        if let BlockView::Table { rows } = blocks.last() {
            assert(rows[0].len() > 0);
        }
    }
}

// ---- Blank texts ----

/// A text of white space only is trimmed to nothing.
proof fn lemma_trimmed_blank(s: Seq<char>)
    requires
        forall|i: int| 0 <= i < s.len() ==> is_white_space(#[trigger] s[i]),
    ensures
        trimmed(s).len() == 0,
{
    lemma_trimmed_ends(s);
    if trimmed(s).len() > 0 {
        assert(s.contains(trimmed(s)[0]));
    }
}

/// No lines make no paragraph.
pub(crate) proof fn lemma_nothing_gathered()
    ensures
        paragraph_of(seq![]) == Seq::<BlockView>::empty(),
{
    lemma_trimmed_blank(joined(seq![]));
}

/// The lines of a text of white space only are such texts.
proof fn lemma_blank_lines(s: Seq<char>, i: int)
    requires
        forall|k: int| 0 <= k < s.len() ==> is_white_space(#[trigger] s[k]),
        0 <= i < lines_of(s).len(),
    ensures
        trimmed(lines_of(s)[i]).len() == 0,
    decreases s.len(),
{
    lemma_newline(s);
    let k = next_index(s, '\n', 0);
    if i == 0 {
        let line = drop_trailing(s.take(k), CharClass::Only('\r'));
        lemma_trailing_run(s.take(k), CharClass::Only('\r'));
        assert forall|j: int| 0 <= j < line.len() implies is_white_space(#[trigger] line[j]) by {
            assert(line[j] == s[j]);
        }
        lemma_trimmed_blank(line);
    } else {
        let rest = s.skip(k + 1);
        assert forall|j: int| 0 <= j < rest.len() implies is_white_space(#[trigger] rest[j]) by {
            assert(rest[j] == s[j + k + 1]);
        }
        lemma_blank_lines(rest, i - 1);
    }
}

/// Blank lines make no blocks.
proof fn lemma_blank_lines_make_nothing(lines: Seq<Seq<char>>)
    requires
        forall|i: int| 0 <= i < lines.len() ==> trimmed(#[trigger] lines[i]).len() == 0,
    ensures
        blocks_of_lines(lines, seq![]) == Seq::<BlockView>::empty(),
    decreases lines.len(),
{
    lemma_nothing_gathered();
    if lines.len() > 0 {
        assert(trimmed(lines[0]).len() == 0);
        assert forall|i: int| 0 <= i < lines.skip(1).len() implies trimmed(
            #[trigger] lines.skip(1)[i],
        ).len() == 0 by {
            assert(lines.skip(1)[i] == lines[i + 1]);
        }
        lemma_blank_lines_make_nothing(lines.skip(1));
        assert(paragraph_of(seq![]) + blocks_of_lines(lines.skip(1), seq![]) =~= seq![]);
    }
}

/// A text of white space only has no blocks; so has an empty one.
pub proof fn law_blank_text_has_no_blocks(s: Seq<char>)
    requires
        forall|i: int| 0 <= i < s.len() ==> is_white_space(#[trigger] s[i]),
    ensures
        markdown_blocks(s) == Seq::<BlockView>::empty(),
{
    assert forall|i: int| 0 <= i < lines_of(s).len() implies trimmed(
        #[trigger] lines_of(s)[i],
    ).len() == 0 by {
        lemma_blank_lines(s, i);
    }
    lemma_blank_lines_make_nothing(lines_of(s));
}

// ---- Runs of lines of one kind ----

/// The texts that lines add to a paragraph.
pub open spec fn body_texts(lines: Seq<Seq<char>>) -> Seq<Seq<char>> {
    Seq::new(lines.len(), |i: int| body_text(trimmed(lines[i])))
}

/// Lines of text are gathered.
proof fn lemma_text_is_gathered(lines: Seq<Seq<char>>, gathered: Seq<Seq<char>>)
    requires
        forall|i: int|
            0 <= i < lines.len() ==> line_kind(trimmed(#[trigger] lines[i])) == LineKind::Text,
    ensures
        blocks_of_lines(lines, gathered) == paragraph_of(gathered + body_texts(lines)),
    decreases lines.len(),
{
    if lines.len() == 0 {
        assert(gathered + body_texts(lines) =~= gathered);
    } else {
        let rest = lines.skip(1);
        assert(line_kind(trimmed(lines[0])) == LineKind::Text);
        assert forall|i: int| 0 <= i < rest.len() implies line_kind(trimmed(#[trigger] rest[i]))
            == LineKind::Text by {
            assert(rest[i] == lines[i + 1]);
        }
        let next = gathered.push(body_text(trimmed(lines[0])));
        lemma_text_is_gathered(rest, next);
        assert(next + body_texts(rest) =~= gathered + body_texts(lines));
    }
}

/// Consecutive lines of text are one paragraph: their texts, with one space between them.
pub proof fn law_text_lines_are_one_paragraph(lines: Seq<Seq<char>>)
    requires
        forall|i: int|
            0 <= i < lines.len() ==> line_kind(trimmed(#[trigger] lines[i])) == LineKind::Text,
    ensures
        blocks_of_lines(lines, seq![]) == paragraph_of(body_texts(lines)),
{
    lemma_text_is_gathered(lines, seq![]);
    assert(seq![] + body_texts(lines) =~= body_texts(lines));
}

/// Items of lists are one paragraph each.
pub proof fn law_items_are_paragraphs(lines: Seq<Seq<char>>)
    requires
        forall|i: int| 0 <= i < lines.len() ==> line_kind(trimmed(#[trigger] lines[i])) is Item,
    ensures
        blocks_of_lines(lines, seq![]).len() == lines.len(),
        forall|i: int|
            0 <= i < lines.len() ==> #[trigger] blocks_of_lines(lines, seq![])[i] == (
            BlockView::Paragraph { text: line_kind(trimmed(lines[i]))->Item_0 }),
    decreases lines.len(),
{
    lemma_nothing_gathered();
    if lines.len() > 0 {
        let rest = lines.skip(1);
        assert(line_kind(trimmed(lines[0])) is Item);
        assert forall|i: int| 0 <= i < rest.len() implies line_kind(
            trimmed(#[trigger] rest[i]),
        ) is Item by {
            assert(rest[i] == lines[i + 1]);
        }
        law_items_are_paragraphs(rest);
        let first = BlockView::Paragraph { text: line_kind(trimmed(lines[0]))->Item_0 };
        let tail = blocks_of_lines(rest, seq![]);
        assert(blocks_of_lines(lines, seq![]) =~= seq![first] + tail);
        assert forall|i: int| 0 <= i < lines.len() implies #[trigger] blocks_of_lines(
            lines,
            seq![],
        )[i] == (BlockView::Paragraph { text: line_kind(trimmed(lines[i]))->Item_0 }) by {
            if i > 0 {
                assert(tail[i - 1] == (BlockView::Paragraph {
                    text: line_kind(trimmed(rest[i - 1]))->Item_0,
                }));
            }
        }
    }
}

/// Lines that are all rows are counted as such.
proof fn lemma_all_rows(lines: Seq<Seq<char>>)
    requires
        forall|i: int| 0 <= i < lines.len() ==> is_row(trimmed(#[trigger] lines[i])),
    ensures
        rows_len(lines) == lines.len(),
    decreases lines.len(),
{
    if lines.len() > 0 {
        assert(is_row(trimmed(lines[0])));
        assert forall|i: int| 0 <= i < lines.skip(1).len() implies is_row(
            trimmed(#[trigger] lines.skip(1)[i]),
        ) by {
            assert(lines.skip(1)[i] == lines[i + 1]);
        }
        lemma_all_rows(lines.skip(1));
    }
}

/// A row is no rule, no fence and no heading.
pub(crate) proof fn lemma_row_kind(line: Seq<char>)
    requires
        is_row(line),
    ensures
        line_kind(line) == LineKind::Row,
        !is_rule(line),
{
    lemma_leading(line, CharClass::Only('#'), 0);
    assert(!is_white_space(line[0]));
}

/// Consecutive rows are one table.
pub proof fn law_rows_are_one_table(lines: Seq<Seq<char>>)
    requires
        forall|i: int| 0 <= i < lines.len() ==> is_row(trimmed(#[trigger] lines[i])),
    ensures
        blocks_of_lines(lines, seq![]) == table_of(lines),
{
    lemma_nothing_gathered();
    if lines.len() > 0 {
        assert(is_row(trimmed(lines[0])));
        lemma_row_kind(trimmed(lines[0]));
        lemma_all_rows(lines);
        let n = rows_len(lines) as int;
        assert(lines.take(n) =~= lines);
        assert(lines.skip(n) =~= seq![]);
        assert(paragraph_of(seq![]) + table_of(lines) + blocks_of_lines(seq![], seq![])
            =~= table_of(lines));
    }
}

// ---- Code ----

/// The lines before a fence are code.
proof fn lemma_code_before_fence(lines: Seq<Seq<char>>, m: char, n: int)
    requires
        0 <= n < lines.len(),
        is_fence(trimmed(lines[n]), m),
        forall|i: int| 0 <= i < n ==> !is_fence(trimmed(#[trigger] lines[i]), m),
    ensures
        code_len(lines, m) == n,
    decreases n,
{
    if n > 0 {
        assert(!is_fence(trimmed(lines[0]), m));
        assert forall|i: int| 0 <= i < n - 1 implies !is_fence(
            trimmed(#[trigger] lines.skip(1)[i]),
            m,
        ) by {
            assert(lines.skip(1)[i] == lines[i + 1]);
        }
        lemma_code_before_fence(lines.skip(1), m, n - 1);
    }
}

/// Code between two fences is taken as it stands, one paragraph per line, whatever it looks like.
pub proof fn law_code_stands(
    opening: Seq<char>,
    code: Seq<Seq<char>>,
    closing: Seq<char>,
    rest: Seq<Seq<char>>,
    m: char,
)
    requires
        m == '`' || m == '~',
        is_fence(trimmed(opening), m),
        is_fence(trimmed(closing), m),
        forall|i: int| 0 <= i < code.len() ==> !is_fence(trimmed(#[trigger] code[i]), m),
    ensures
        blocks_of_lines(seq![opening] + code + seq![closing] + rest, seq![]) == code_paragraphs(
            code,
        ) + blocks_of_lines(rest, seq![]),
{
    lemma_nothing_gathered();
    let lines = seq![opening] + code + seq![closing] + rest;
    let n = code.len() as int;
    assert(lines[0] == opening);
    assert(line_kind(trimmed(opening)) == LineKind::Fence(m));
    let inner = lines.skip(1);
    assert forall|i: int| 0 <= i < n implies !is_fence(trimmed(#[trigger] inner[i]), m) by {
        assert(inner[i] == code[i]);
    }
    assert(inner[n] == closing);
    lemma_code_before_fence(inner, m, n);
    assert(lines.subrange(1, n + 1) =~= code);
    assert(lines.skip(n + 2) =~= rest);
    assert(paragraph_of(seq![]) + code_paragraphs(code) + blocks_of_lines(rest, seq![])
        =~= code_paragraphs(code) + blocks_of_lines(rest, seq![]));
}

// ---- Boundaries ----

/// Whether `lines` end inside fenced code.
pub open spec fn ends_in_code(lines: Seq<Seq<char>>) -> bool
    decreases lines.len(),
{
    if lines.len() == 0 {
        false
    } else {
        match line_kind(trimmed(lines[0])) {
            LineKind::Fence(m) => {
                let n = code_len(lines.skip(1), m) as int;
                n + 2 > lines.len() || ends_in_code(lines.skip(n + 2))
            },
            _ => ends_in_code(lines.skip(1)),
        }
    }
}

/// Code that ends before more lines ends where it ended without them.
pub(crate) proof fn lemma_code_len_stays(lines: Seq<Seq<char>>, more: Seq<Seq<char>>, m: char)
    requires
        code_len(lines, m) < lines.len(),
    ensures
        code_len(lines + more, m) == code_len(lines, m),
    decreases lines.len(),
{
    assert((lines + more)[0] == lines[0]);
    if !is_fence(trimmed(lines[0]), m) {
        lemma_code_len_stays(lines.skip(1), more, m);
        assert((lines + more).skip(1) =~= lines.skip(1) + more);
    }
}

/// Rows that end before a line that is no row end there.
proof fn lemma_rows_len_stays(lines: Seq<Seq<char>>, more: Seq<Seq<char>>)
    requires
        more.len() > 0 ==> !is_row(trimmed(more[0])),
    ensures
        rows_len(lines + more) == rows_len(lines),
    decreases lines.len(),
{
    if lines.len() == 0 {
        assert(lines + more =~= more);
    } else {
        assert((lines + more)[0] == lines[0]);
        if is_row(trimmed(lines[0])) {
            lemma_rows_len_stays(lines.skip(1), more);
            assert((lines + more).skip(1) =~= lines.skip(1) + more);
        }
    }
}

/// Lines that are rows are no code.
pub(crate) proof fn lemma_rows_are_no_code(lines: Seq<Seq<char>>, n: int)
    requires
        0 <= n <= rows_len(lines),
    ensures
        n <= lines.len(),
        ends_in_code(lines.skip(n)) == ends_in_code(lines),
    decreases n,
{
    lemma_rows_len(lines);
    if n == 0 {
        assert(lines.skip(0) =~= lines);
    } else {
        lemma_row_kind(trimmed(lines[0]));
        lemma_rows_are_no_code(lines.skip(1), n - 1);
        assert(lines.skip(1).skip(n - 1) =~= lines.skip(n));
    }
}

/// A blank line or a rule parts what is before it from what is behind it.
proof fn lemma_boundary(
    before: Seq<Seq<char>>,
    gathered: Seq<Seq<char>>,
    boundary: Seq<char>,
    behind: Seq<Seq<char>>,
)
    requires
        line_kind(trimmed(boundary)) == LineKind::Blank || line_kind(trimmed(boundary))
            == LineKind::Rule,
        !ends_in_code(before),
    ensures
        blocks_of_lines(before + seq![boundary] + behind, gathered) == blocks_of_lines(
            before,
            gathered,
        ) + blocks_of_lines(behind, seq![]),
    decreases before.len(),
{
    let more = seq![boundary] + behind;
    let lines = before + more;
    let tail = blocks_of_lines(behind, seq![]);
    let closed = paragraph_of(gathered);
    assert(before + seq![boundary] + behind =~= lines);
    if before.len() == 0 {
        assert(lines =~= more);
        assert(more.skip(1) =~= behind);
    } else {
        let line = trimmed(before[0]);
        let rest = before.skip(1);
        assert(lines[0] == before[0]);
        assert(lines.skip(1) =~= rest + more);
        match line_kind(line) {
            LineKind::Blank | LineKind::Rule => {
                lemma_boundary(rest, seq![], boundary, behind);
                assert(rest + seq![boundary] + behind =~= rest + more);
                let own = blocks_of_lines(rest, seq![]);
                assert(closed + (own + tail) =~= (closed + own) + tail);
            },
            LineKind::Fence(m) => {
                let n = code_len(rest, m) as int;
                lemma_code_len_stays(rest, more, m);
                let left = before.skip(n + 2);
                lemma_boundary(left, seq![], boundary, behind);
                assert(left + seq![boundary] + behind =~= lines.skip(n + 2));
                assert(lines.subrange(1, n + 1) =~= before.subrange(1, n + 1));
                let code = code_paragraphs(before.subrange(1, n + 1));
                let own = blocks_of_lines(left, seq![]);
                assert(closed + code + (own + tail) =~= (closed + code + own) + tail);
            },
            LineKind::Heading => {
                lemma_boundary(rest, seq![], boundary, behind);
                assert(rest + seq![boundary] + behind =~= rest + more);
                let own = blocks_of_lines(rest, seq![]);
                let first = closed.push(heading_of(line));
                assert(first + (own + tail) =~= (first + own) + tail);
            },
            LineKind::Row => {
                if is_row(trimmed(boundary)) {
                    lemma_row_kind(trimmed(boundary));
                }
                lemma_rows_len_stays(before, more);
                lemma_rows_len(before);
                let n = rows_len(before) as int;
                lemma_rows_are_no_code(before, n);
                let left = before.skip(n);
                lemma_boundary(left, seq![], boundary, behind);
                assert(left + seq![boundary] + behind =~= lines.skip(n));
                assert(lines.take(n) =~= before.take(n));
                let table = table_of(before.take(n));
                let own = blocks_of_lines(left, seq![]);
                assert(closed + table + (own + tail) =~= (closed + table + own) + tail);
            },
            LineKind::Item(text) => {
                lemma_boundary(rest, seq![], boundary, behind);
                assert(rest + seq![boundary] + behind =~= rest + more);
                let own = blocks_of_lines(rest, seq![]);
                let first = closed.push(BlockView::Paragraph { text });
                assert(first + (own + tail) =~= (first + own) + tail);
            },
            LineKind::Text => {
                lemma_boundary(rest, gathered.push(body_text(line)), boundary, behind);
                assert(rest + seq![boundary] + behind =~= rest + more);
            },
        }
    }
}

/// A blank line or a horizontal rule is a boundary and nothing more: what stands before it and
/// what stands behind it become the blocks that they become alone. (Inside code no line is a
/// boundary.)
pub proof fn law_boundary_parts_blocks(
    before: Seq<Seq<char>>,
    boundary: Seq<char>,
    behind: Seq<Seq<char>>,
)
    requires
        line_kind(trimmed(boundary)) == LineKind::Blank || line_kind(trimmed(boundary))
            == LineKind::Rule,
        !ends_in_code(before),
    ensures
        blocks_of_lines(before + seq![boundary] + behind, seq![]) == blocks_of_lines(
            before,
            seq![],
        ) + blocks_of_lines(behind, seq![]),
{
    lemma_boundary(before, seq![], boundary, behind);
}

// ---- Lines ----

/// A text up to its first newline, and what follows.
pub(crate) proof fn lemma_first_line(line: Seq<char>, rest: Seq<char>)
    requires
        lacks(line, '\n'),
    ensures
        lines_of(line + seq!['\n'] + rest) == seq![drop_trailing(line, CharClass::Only('\r'))]
            + lines_of(rest),
{
    let s = line + seq!['\n'] + rest;
    let k = line.len() as int;
    assert forall|i: int| 0 <= i < k implies #[trigger] s[i] != '\n' by {
        assert(s[i] == line[i]);
    }
    assert(s[k] == '\n');
    lemma_next_index_is(s, '\n', 0, k);
    assert(s.take(k) =~= line);
    assert(s.skip(k + 1) =~= rest);
}

/// A text without newline is one line, or none if it is empty.
pub(crate) proof fn lemma_only_line(line: Seq<char>)
    requires
        lacks(line, '\n'),
        line.len() > 0,
    ensures
        lines_of(line) == seq![drop_trailing(line, CharClass::Only('\r'))],
{
    lemma_next_index(line, '\n', 0);
    assert(next_index(line, '\n', 0) == line.len());
    assert(line.take(line.len() as int) =~= line);
}

/// The lines of a text that a newline ends are followed by those of what comes behind it.
pub(crate) proof fn lemma_lines_concat(s: Seq<char>, t: Seq<char>)
    ensures
        lines_of(s + seq!['\n'] + t) == lines_of(s + seq!['\n']) + lines_of(t),
    decreases s.len(),
{
    let none: Seq<char> = seq![];
    lemma_next_index(s, '\n', 0);
    let k = next_index(s, '\n', 0);
    let line = s.take(k);
    assert forall|i: int| 0 <= i < line.len() implies #[trigger] line[i] != '\n' by {
        assert(line[i] == s[i]);
    }
    if k == s.len() {
        assert(line =~= s);
        lemma_first_line(s, t);
        lemma_first_line(s, none);
        assert(s + seq!['\n'] + none =~= s + seq!['\n']);
        assert(lines_of(s + seq!['\n'] + t) =~= lines_of(s + seq!['\n']) + lines_of(t));
    } else {
        let rest = s.skip(k + 1);
        lemma_lines_concat(rest, t);
        assert(s + seq!['\n'] + t =~= line + seq!['\n'] + (rest + seq!['\n'] + t));
        assert(s + seq!['\n'] =~= line + seq!['\n'] + (rest + seq!['\n']));
        lemma_first_line(line, rest + seq!['\n'] + t);
        lemma_first_line(line, rest + seq!['\n']);
        assert(lines_of(s + seq!['\n'] + t) =~= lines_of(s + seq!['\n']) + lines_of(t));
    }
}

/// A newline at the end of a text ends its last line, or is a line of its own if that one is
/// ended already.
pub(crate) proof fn lemma_last_newline(s: Seq<char>)
    ensures
        lines_of(s + seq!['\n']) == lines_of(s) || lines_of(s + seq!['\n']) == lines_of(s)
            + seq![Seq::<char>::empty()],
    decreases s.len(),
{
    let none: Seq<char> = seq![];
    lemma_next_index(s, '\n', 0);
    let k = next_index(s, '\n', 0);
    let line = s.take(k);
    assert forall|i: int| 0 <= i < line.len() implies #[trigger] line[i] != '\n' by {
        assert(line[i] == s[i]);
    }
    if k == s.len() {
        assert(line =~= s);
        assert(s + seq!['\n'] + none =~= s + seq!['\n']);
        lemma_first_line(s, none);
        if s.len() > 0 {
            lemma_only_line(s);
            assert(lines_of(s + seq!['\n']) =~= lines_of(s));
        } else {
            assert(drop_trailing(s, CharClass::Only('\r')) =~= none);
            assert(lines_of(s + seq!['\n']) =~= lines_of(s) + seq![none]);
        }
    } else {
        let rest = s.skip(k + 1);
        lemma_last_newline(rest);
        assert(s =~= line + seq!['\n'] + rest);
        assert(s + seq!['\n'] =~= line + seq!['\n'] + (rest + seq!['\n']));
        lemma_first_line(line, rest);
        lemma_first_line(line, rest + seq!['\n']);
        let first = seq![drop_trailing(line, CharClass::Only('\r'))];
        if lines_of(rest + seq!['\n']) == lines_of(rest) {
        } else {
            assert(first + (lines_of(rest) + seq![none]) =~= (first + lines_of(rest)) + seq![none]);
        }
    }
}

/// An empty line parts paragraphs: the blocks of two texts with an empty line between them are
/// the blocks of the first one and then those of the second one. (The first one must not end
/// inside code.)
pub proof fn law_empty_line_parts_texts(s: Seq<char>, t: Seq<char>)
    requires
        !ends_in_code(lines_of(s)),
    ensures
        markdown_blocks(s + seq!['\n', '\n'] + t) == markdown_blocks(s) + markdown_blocks(t),
{
    let none: Seq<char> = seq![];
    let first = lines_of(s);
    let second = lines_of(t);
    lemma_nothing_gathered();
    lemma_trimmed_blank(none);
    assert(s + seq!['\n', '\n'] + t =~= s + seq!['\n'] + (none + seq!['\n'] + t));
    lemma_lines_concat(s, none + seq!['\n'] + t);
    lemma_first_line(none, t);
    assert(drop_trailing(none, CharClass::Only('\r')) =~= none);
    lemma_last_newline(s);
    let behind = seq![none] + second;
    assert(blocks_of_lines(behind, seq![]) == blocks_of_lines(second, seq![])) by {
        assert(behind.skip(1) =~= second);
        assert(paragraph_of(seq![]) + blocks_of_lines(second, seq![]) =~= blocks_of_lines(
            second,
            seq![],
        ));
    }
    if lines_of(s + seq!['\n']) == first {
        law_boundary_parts_blocks(first, none, second);
        assert(first + seq![none] + second =~= first + behind);
    } else {
        law_boundary_parts_blocks(first, none, behind);
        assert(first + seq![none] + behind =~= (first + seq![none]) + behind);
    }
}

/// The text with a `\r` in front of each `\n`.
pub open spec fn with_carriage_returns(s: Seq<char>) -> Seq<char>
    decreases s.len(),
{
    if s.len() == 0 {
        s
    } else if s.last() == '\n' {
        with_carriage_returns(s.drop_last()).push('\r').push('\n')
    } else {
        with_carriage_returns(s.drop_last()).push(s.last())
    }
}

/// A text without newline gets no `\r`.
proof fn lemma_no_returns(s: Seq<char>)
    requires
        lacks(s, '\n'),
    ensures
        with_carriage_returns(s) == s,
    decreases s.len(),
{
    if s.len() > 0 {
        assert(s.last() == s[s.len() - 1]);
        assert forall|i: int| 0 <= i < s.drop_last().len() implies #[trigger] s.drop_last()[i]
            != '\n' by {
            assert(s.drop_last()[i] == s[i]);
        }
        lemma_no_returns(s.drop_last());
        assert(s.drop_last().push(s.last()) =~= s);
    }
}

/// The parts of a text get their `\r`s one by one.
proof fn lemma_returns_concat(a: Seq<char>, b: Seq<char>)
    ensures
        with_carriage_returns(a + b) == with_carriage_returns(a) + with_carriage_returns(b),
    decreases b.len(),
{
    if b.len() == 0 {
        assert(a + b =~= a);
        assert(with_carriage_returns(a) + with_carriage_returns(b) =~= with_carriage_returns(a));
    } else {
        lemma_returns_concat(a, b.drop_last());
        assert((a + b).drop_last() =~= a + b.drop_last());
        assert(with_carriage_returns(a + b) =~= with_carriage_returns(a) + with_carriage_returns(
            b,
        ));
    }
}

/// A text has the same lines with `\r\n` as with `\n`.
proof fn lemma_returns_change_no_line(s: Seq<char>)
    ensures
        lines_of(with_carriage_returns(s)) == lines_of(s),
    decreases s.len(),
{
    lemma_next_index(s, '\n', 0);
    let k = next_index(s, '\n', 0);
    let line = s.take(k);
    assert forall|i: int| 0 <= i < line.len() implies #[trigger] line[i] != '\n' by {
        assert(line[i] == s[i]);
    }
    lemma_no_returns(line);
    if k == s.len() {
        assert(line =~= s);
    } else {
        let rest = s.skip(k + 1);
        let class = CharClass::Only('\r');
        let newline = seq!['\n'];
        let none: Seq<char> = seq![];
        let long = line.push('\r');
        lemma_returns_change_no_line(rest);
        assert(s =~= line + newline + rest);
        lemma_returns_concat(line + newline, rest);
        lemma_returns_concat(line, newline);
        assert(with_carriage_returns(newline) =~= seq!['\r', '\n']) by {
            reveal_with_fuel(with_carriage_returns, 2);
            assert(newline.drop_last() =~= none);
        }
        assert(with_carriage_returns(s) =~= long + newline + with_carriage_returns(rest));
        lemma_first_line(line, rest);
        lemma_first_line(long, with_carriage_returns(rest));
        assert(long.drop_last() =~= line);
        lemma_trailing_run(line, class);
        assert(drop_trailing(long, class) =~= drop_trailing(line, class));
    }
}

/// Line endings of both kinds mean the same: a text has the same blocks with `\r\n` as with `\n`.
pub proof fn law_line_endings_mean_the_same(s: Seq<char>)
    ensures
        markdown_blocks(with_carriage_returns(s)) == markdown_blocks(s),
{
    lemma_returns_change_no_line(s);
}

// ---- Margins ----

/// Whether the line `i` is code: it stands behind a fence, and before the one that closes it.
pub open spec fn is_code(lines: Seq<Seq<char>>, i: int) -> bool
    decreases lines.len(),
{
    if lines.len() == 0 {
        false
    } else {
        match line_kind(trimmed(lines[0])) {
            LineKind::Fence(m) => {
                let n = fenced_len(lines, m) as int;
                ||| 1 <= i <= code_len(lines.skip(1), m)
                ||| i >= n && is_code(lines.skip(n), i - n)
            },
            _ => i >= 1 && is_code(lines.skip(1), i - 1),
        }
    }
}

/// Whether `a` and `b` are the same lines but for white space at their ends, and the same where
/// they are code.
pub open spec fn differ_in_margins(a: Seq<Seq<char>>, b: Seq<Seq<char>>) -> bool {
    &&& a.len() == b.len()
    &&& forall|i: int| 0 <= i < a.len() ==> trimmed(#[trigger] a[i]) == trimmed(b[i])
    &&& forall|i: int| 0 <= i < a.len() && is_code(a, i) ==> #[trigger] a[i] == b[i]
}

/// Code ends at the same line.
proof fn lemma_same_code_len(a: Seq<Seq<char>>, b: Seq<Seq<char>>, m: char)
    requires
        a.len() == b.len(),
        forall|i: int| 0 <= i < a.len() ==> trimmed(#[trigger] a[i]) == trimmed(b[i]),
    ensures
        code_len(a, m) == code_len(b, m),
    decreases a.len(),
{
    if a.len() > 0 {
        assert(trimmed(a[0]) == trimmed(b[0]));
        assert forall|i: int| 0 <= i < a.skip(1).len() implies trimmed(#[trigger] a.skip(1)[i])
            == trimmed(b.skip(1)[i]) by {
            assert(trimmed(a[i + 1]) == trimmed(b[i + 1]));
        }
        lemma_same_code_len(a.skip(1), b.skip(1), m);
    }
}

/// A table ends at the same line.
proof fn lemma_same_rows_len(a: Seq<Seq<char>>, b: Seq<Seq<char>>)
    requires
        a.len() == b.len(),
        forall|i: int| 0 <= i < a.len() ==> trimmed(#[trigger] a[i]) == trimmed(b[i]),
    ensures
        rows_len(a) == rows_len(b),
    decreases a.len(),
{
    if a.len() > 0 {
        assert(trimmed(a[0]) == trimmed(b[0]));
        assert forall|i: int| 0 <= i < a.skip(1).len() implies trimmed(#[trigger] a.skip(1)[i])
            == trimmed(b.skip(1)[i]) by {
            assert(trimmed(a[i + 1]) == trimmed(b[i + 1]));
        }
        lemma_same_rows_len(a.skip(1), b.skip(1));
    }
}

/// A table has the same rows.
proof fn lemma_same_rows(a: Seq<Seq<char>>, b: Seq<Seq<char>>)
    requires
        a.len() == b.len(),
        forall|i: int| 0 <= i < a.len() ==> trimmed(#[trigger] a[i]) == trimmed(b[i]),
    ensures
        table_rows(a) == table_rows(b),
    decreases a.len(),
{
    if a.len() > 0 {
        let n = a.len() - 1;
        assert(trimmed(a[n]) == trimmed(b[n]));
        assert forall|i: int| 0 <= i < a.drop_last().len() implies trimmed(
            #[trigger] a.drop_last()[i],
        ) == trimmed(b.drop_last()[i]) by {
            assert(trimmed(a[i]) == trimmed(b[i]));
        }
        lemma_same_rows(a.drop_last(), b.drop_last());
    }
}

/// What is code behind the first `n` rows is code.
proof fn lemma_code_behind_rows(lines: Seq<Seq<char>>, n: int, i: int)
    requires
        0 <= n <= rows_len(lines),
        i >= 0,
    ensures
        n <= lines.len(),
        is_code(lines.skip(n), i) == is_code(lines, i + n),
    decreases n,
{
    lemma_rows_len(lines);
    if n == 0 {
        assert(lines.skip(0) =~= lines);
    } else {
        lemma_row_kind(trimmed(lines[0]));
        lemma_code_behind_rows(lines.skip(1), n - 1, i);
        assert(lines.skip(1).skip(n - 1) =~= lines.skip(n));
    }
}

/// Lines that differ in margins do so behind their first `n` lines, where those end no code.
proof fn lemma_margins_behind(a: Seq<Seq<char>>, b: Seq<Seq<char>>, n: int)
    requires
        differ_in_margins(a, b),
        0 <= n <= a.len(),
        forall|i: int| 0 <= i && #[trigger] is_code(a.skip(n), i) ==> is_code(a, i + n),
    ensures
        differ_in_margins(a.skip(n), b.skip(n)),
{
    assert forall|i: int| 0 <= i < a.skip(n).len() implies trimmed(#[trigger] a.skip(n)[i])
        == trimmed(b.skip(n)[i]) by {
        assert(trimmed(a[i + n]) == trimmed(b[i + n]));
    }
    assert forall|i: int| 0 <= i < a.skip(n).len() && is_code(a.skip(n), i) implies #[trigger] a.skip(
        n,
    )[i] == b.skip(n)[i] by {
        assert(a[i + n] == b[i + n]);
    }
}

/// Lines that differ in margins become the same blocks.
proof fn lemma_margins(a: Seq<Seq<char>>, b: Seq<Seq<char>>, gathered: Seq<Seq<char>>)
    requires
        differ_in_margins(a, b),
    ensures
        blocks_of_lines(a, gathered) == blocks_of_lines(b, gathered),
    decreases a.len(),
{
    if a.len() > 0 {
        let line = trimmed(a[0]);
        assert(line == trimmed(b[0]));
        match line_kind(line) {
            LineKind::Fence(m) => {
                assert forall|i: int| 0 <= i < a.skip(1).len() implies trimmed(
                    #[trigger] a.skip(1)[i],
                ) == trimmed(b.skip(1)[i]) by {
                    assert(trimmed(a[i + 1]) == trimmed(b[i + 1]));
                }
                lemma_same_code_len(a.skip(1), b.skip(1), m);
                lemma_code_len(a.skip(1), m);
                let n = code_len(a.skip(1), m) as int;
                assert forall|i: int| 1 <= i < n + 1 implies #[trigger] a[i] == b[i] by {
                    assert(is_code(a, i));
                }
                assert(a.subrange(1, n + 1) =~= b.subrange(1, n + 1));
                let len = fenced_len(a, m) as int;
                lemma_margins_behind(a, b, len);
                lemma_margins(a.skip(len), b.skip(len), seq![]);
            },
            LineKind::Row => {
                lemma_rows_len(a);
                lemma_same_rows_len(a, b);
                let n = rows_len(a) as int;
                assert forall|i: int| 0 <= i < n implies trimmed(#[trigger] a.take(n)[i])
                    == trimmed(b.take(n)[i]) by {
                    assert(trimmed(a[i]) == trimmed(b[i]));
                }
                lemma_same_rows(a.take(n), b.take(n));
                assert forall|i: int| 0 <= i && #[trigger] is_code(a.skip(n), i) implies is_code(
                    a,
                    i + n,
                ) by {
                    lemma_code_behind_rows(a, n, i);
                }
                lemma_margins_behind(a, b, n);
                lemma_margins(a.skip(n), b.skip(n), seq![]);
            },
            LineKind::Text => {
                lemma_margins_behind(a, b, 1);
                lemma_margins(a.skip(1), b.skip(1), gathered.push(body_text(line)));
            },
            _ => {
                lemma_margins_behind(a, b, 1);
                lemma_margins(a.skip(1), b.skip(1), seq![]);
            },
        }
    }
}

/// Indentation and white space at the ends of lines mean nothing outside code: texts whose lines
/// differ in nothing else have the same blocks.
pub proof fn law_margins_mean_nothing(s: Seq<char>, t: Seq<char>)
    requires
        differ_in_margins(lines_of(s), lines_of(t)),
    ensures
        markdown_blocks(s) == markdown_blocks(t),
{
    lemma_margins(lines_of(s), lines_of(t), seq![]);
}

// ---- Line breaks ----

/// Whether no text of a block holds `c`.
pub open spec fn block_lacks(block: BlockView, c: char) -> bool {
    match block {
        BlockView::Heading { text, .. } => lacks(text, c),
        BlockView::Paragraph { text } => lacks(text, c),
        BlockView::Table { rows } => forall|i: int, j: int|
            0 <= i < rows.len() && 0 <= j < rows[i].len() ==> lacks(#[trigger] rows[i][j], c),
    }
}

/// A stretch of a text lacks what the text lacks.
proof fn lemma_stretch_lacks(s: Seq<char>, i: int, j: int, c: char)
    requires
        lacks(s, c),
        0 <= i <= j <= s.len(),
    ensures
        lacks(s.subrange(i, j), c),
{
    assert forall|k: int| 0 <= k < j - i implies #[trigger] s.subrange(i, j)[k] != c by {
        assert(s.subrange(i, j)[k] == s[i + k]);
    }
}

/// A trimmed text lacks what the text lacks.
proof fn lemma_trimmed_lacks(s: Seq<char>, c: char)
    requires
        lacks(s, c),
    ensures
        lacks(trimmed(s), c),
        lacks(trimmed_start(s), c),
{
    lemma_trimmed_ends(s);
    assert forall|i: int| 0 <= i < trimmed(s).len() implies #[trigger] trimmed(s)[i] != c by {
        assert(s.contains(trimmed(s)[i]));
    }
    lemma_leading_run(s, CharClass::WhiteSpace);
    lemma_stretch_lacks(s, leading(s, CharClass::WhiteSpace) as int, s.len() as int, c);
}

/// Plain text lacks what the text lacks.
proof fn lemma_plain_lacks(s: Seq<char>, c: char)
    requires
        lacks(s, c),
    ensures
        lacks(plain_text(s), c),
{
    law_plain_text_only_removes(s);
    lemma_sub_lacks(plain_text(s), s, c);
}

/// No line of a text holds a newline.
proof fn lemma_lines_lack_newline(s: Seq<char>, i: int)
    requires
        0 <= i < lines_of(s).len(),
    ensures
        lacks(lines_of(s)[i], '\n'),
    decreases s.len(),
{
    lemma_next_index(s, '\n', 0);
    let k = next_index(s, '\n', 0);
    let line = s.take(k);
    if i == 0 {
        assert forall|j: int| 0 <= j < line.len() implies #[trigger] line[j] != '\n' by {
            assert(line[j] == s[j]);
        }
        let class = CharClass::Only('\r');
        lemma_trailing_run(line, class);
        lemma_stretch_lacks(line, 0, line.len() - trailing(line, class), '\n');
    } else {
        lemma_lines_lack_newline(s.skip(k + 1), i - 1);
    }
}

/// Joined parts lack what each part lacks.
proof fn lemma_joined_lacks(parts: Seq<Seq<char>>, c: char)
    requires
        c != ' ',
        forall|i: int| 0 <= i < parts.len() ==> lacks(#[trigger] parts[i], c),
    ensures
        lacks(joined(parts), c),
    decreases parts.len(),
{
    if parts.len() == 1 {
        assert(lacks(parts[0], c));
    } else if parts.len() > 1 {
        let some = parts.drop_last();
        assert forall|i: int| 0 <= i < some.len() implies lacks(#[trigger] some[i], c) by {
            assert(some[i] == parts[i]);
        }
        lemma_joined_lacks(some, c);
        assert(lacks(parts[parts.len() - 1], c));
    }
}

/// Cells lack what the row lacks.
proof fn lemma_cells_lack(cell: Seq<char>, s: Seq<char>, c: char, i: int)
    requires
        c != '|',
        lacks(cell, c),
        lacks(s, c),
        0 <= i < cells_from(cell, s).len(),
    ensures
        lacks(cells_from(cell, s)[i], c),
    decreases s.len(),
{
    lemma_trimmed_lacks(cell, c);
    if s.len() > 0 {
        lemma_stretch_lacks(s, 1, s.len() as int, c);
        if s[0] == '\\' && s.len() > 1 && s[1] == '|' {
            lemma_stretch_lacks(s, 2, s.len() as int, c);
            lemma_cells_lack(cell.push('|'), s.skip(2), c, i);
        } else if s[0] == '|' {
            if i > 0 {
                lemma_cells_lack(seq![], s.skip(1), c, i - 1);
            }
        } else {
            lemma_cells_lack(cell.push(s[0]), s.skip(1), c, i);
        }
    }
}

/// The cells of a line lack what the line lacks.
proof fn lemma_row_lacks(line: Seq<char>, c: char, i: int)
    requires
        c != '|',
        lacks(line, c),
        0 <= i < row_cells(line).len(),
    ensures
        lacks(row_cells(line)[i], c),
{
    let class = CharClass::Only('|');
    let t = trimmed(line);
    lemma_trimmed_lacks(line, c);
    lemma_leading_run(t, class);
    let inner = t.skip(leading(t, class) as int);
    lemma_stretch_lacks(t, leading(t, class) as int, t.len() as int, c);
    if inner.len() > 0 {
        lemma_stretch_lacks(inner, 0, inner.len() - 1, c);
    }
    lemma_cells_lack(seq![], row_inner(line), c, i);
}

/// The rows of a table lack what its lines lack.
proof fn lemma_rows_lack(lines: Seq<Seq<char>>, c: char, i: int, j: int)
    requires
        c != '|',
        forall|k: int| 0 <= k < lines.len() ==> lacks(#[trigger] lines[k], c),
        0 <= i < table_rows(lines).len(),
        0 <= j < table_rows(lines)[i].len(),
    ensures
        lacks(table_rows(lines)[i][j], c),
    decreases lines.len(),
{
    let some = lines.drop_last();
    assert forall|k: int| 0 <= k < some.len() implies lacks(#[trigger] some[k], c) by {
        assert(some[k] == lines[k]);
    }
    if i < table_rows(some).len() {
        lemma_rows_lack(some, c, i, j);
    } else {
        assert(lacks(lines[lines.len() - 1], c));
        lemma_trimmed_lacks(lines.last(), c);
        let line = trimmed(lines.last());
        lemma_row_lacks(line, c, j);
        lemma_plain_lacks(row_cells(line)[j], c);
    }
}

/// What is left of a heading without its number lacks what the heading lacks.
proof fn lemma_without_ordinal_lacks(s: Seq<char>, c: char)
    requires
        lacks(s, c),
    ensures
        lacks(without_ordinal(s), c),
{
    if has_parenthesised_ordinal(s) {
        let d = leading(s.skip(1), CharClass::Digit) as int;
        lemma_stretch_lacks(s, d + 2, s.len() as int, c);
        lemma_trimmed_lacks(s.skip(d + 2), c);
    } else if has_ordinal(s) {
        let n = numbering(s).1 as int;
        lemma_stretch_lacks(s, n + 1, s.len() as int, c);
        lemma_trimmed_lacks(s.skip(n + 1), c);
    }
}

/// A heading lacks what its line lacks.
proof fn lemma_heading_lacks(line: Seq<char>, c: char)
    requires
        lacks(line, c),
    ensures
        block_lacks(heading_of(line), c),
{
    let class = CharClass::Only('#');
    lemma_leading_run(line, class);
    let rest = line.skip(hashes(line) as int);
    lemma_stretch_lacks(line, hashes(line) as int, line.len() as int, c);
    lemma_trimmed_lacks(rest, c);
    let t = trimmed(rest);
    lemma_trailing_run(t, class);
    lemma_stretch_lacks(t, 0, t.len() - trailing(t, class), c);
    let text = drop_trailing(t, class);
    lemma_trimmed_lacks(text, c);
    lemma_without_ordinal_lacks(trimmed(text), c);
    lemma_plain_lacks(heading_text(line), c);
}

/// An item lacks what its line lacks, but for the bullet and the space.
proof fn lemma_item_lacks(line: Seq<char>, c: char)
    requires
        c != '•',
        c != ' ',
        lacks(line, c),
        line_kind(line) is Item,
    ensures
        lacks(line_kind(line)->Item_0, c),
{
    if is_bullet(line) {
        lemma_stretch_lacks(line, 2, line.len() as int, c);
        lemma_trimmed_lacks(line.skip(2), c);
        lemma_plain_lacks(trimmed(line.skip(2)), c);
        assert(lacks(bullet_text(line), c));
    } else {
        let d = leading(line, CharClass::Digit) as int;
        lemma_stretch_lacks(line, 0, d + 1, c);
        lemma_stretch_lacks(line, d + 2, line.len() as int, c);
        lemma_trimmed_lacks(line.skip(d + 2), c);
        lemma_plain_lacks(trimmed(line.skip(d + 2)), c);
        assert(lacks(ordered_text(line), c));
    }
}

/// What a line adds to a paragraph lacks what the line lacks.
proof fn lemma_body_lacks(line: Seq<char>, c: char)
    requires
        lacks(line, c),
    ensures
        lacks(body_text(line), c),
{
    if line.len() > 0 && line[0] == '>' {
        lemma_stretch_lacks(line, 1, line.len() as int, c);
        lemma_trimmed_lacks(line.skip(1), c);
        lemma_plain_lacks(trimmed_start(line.skip(1)), c);
    } else {
        lemma_plain_lacks(line, c);
    }
}

/// The lines behind the first `n` lack what all of them lack.
proof fn lemma_lines_behind_lack(lines: Seq<Seq<char>>, n: int, c: char)
    requires
        0 <= n <= lines.len(),
        forall|k: int| 0 <= k < lines.len() ==> lacks(#[trigger] lines[k], c),
    ensures
        forall|k: int| 0 <= k < lines.skip(n).len() ==> lacks(#[trigger] lines.skip(n)[k], c),
{
    assert forall|k: int| 0 <= k < lines.skip(n).len() implies lacks(
        #[trigger] lines.skip(n)[k],
        c,
    ) by {
        assert(lines.skip(n)[k] == lines[k + n]);
    }
}

/// The blocks of lines hold no newline.
proof fn lemma_blocks_lack(lines: Seq<Seq<char>>, gathered: Seq<Seq<char>>, i: int)
    requires
        forall|k: int| 0 <= k < lines.len() ==> lacks(#[trigger] lines[k], '\n'),
        forall|k: int| 0 <= k < gathered.len() ==> lacks(#[trigger] gathered[k], '\n'),
        0 <= i < blocks_of_lines(lines, gathered).len(),
    ensures
        block_lacks(blocks_of_lines(lines, gathered)[i], '\n'),
    decreases lines.len(),
{
    let c = '\n';
    lemma_joined_lacks(gathered, c);
    lemma_trimmed_lacks(joined(gathered), c);
    if lines.len() > 0 {
        let line = trimmed(lines[0]);
        let closed = paragraph_of(gathered).len() as int;
        assert(lacks(lines[0], c));
        lemma_trimmed_lacks(lines[0], c);
        lemma_lines_behind_lack(lines, 1, c);
        match line_kind(line) {
            LineKind::Blank | LineKind::Rule => {
                if i >= closed {
                    lemma_blocks_lack(lines.skip(1), seq![], i - closed);
                }
            },
            LineKind::Fence(m) => {
                let n = code_len(lines.skip(1), m) as int;
                let len = fenced_len(lines, m) as int;
                lemma_code_len(lines.skip(1), m);
                if i >= closed + n {
                    lemma_lines_behind_lack(lines, len, c);
                    lemma_blocks_lack(lines.skip(len), seq![], i - closed - n);
                } else if i >= closed {
                    assert(lacks(lines[i - closed + 1], c));
                }
            },
            LineKind::Heading => {
                lemma_heading_lacks(line, c);
                if i > closed {
                    lemma_blocks_lack(lines.skip(1), seq![], i - closed - 1);
                }
            },
            LineKind::Row => {
                lemma_rows_len(lines);
                let n = rows_len(lines) as int;
                let rows = lines.take(n);
                let table = table_of(rows);
                if i >= closed + table.len() {
                    lemma_lines_behind_lack(lines, n, c);
                    lemma_blocks_lack(lines.skip(n), seq![], i - closed - table.len());
                } else if i >= closed {
                    assert forall|k: int| 0 <= k < rows.len() implies lacks(
                        #[trigger] rows[k],
                        c,
                    ) by {
                        assert(rows[k] == lines[k]);
                    }
                    assert forall|k: int, j: int|
                        0 <= k < table_rows(rows).len() && 0 <= j < table_rows(rows)[k].len() implies lacks(
                        #[trigger] table_rows(rows)[k][j],
                        c,
                    ) by {
                        lemma_rows_lack(rows, c, k, j);
                    }
                }
            },
            LineKind::Item(_) => {
                lemma_item_lacks(line, c);
                if i > closed {
                    lemma_blocks_lack(lines.skip(1), seq![], i - closed - 1);
                }
            },
            LineKind::Text => {
                lemma_body_lacks(line, c);
                lemma_blocks_lack(lines.skip(1), gathered.push(body_text(line)), i);
            },
        }
    }
}

/// No text of a block holds a line break, be it of a heading, a paragraph or a cell.
pub proof fn law_blocks_hold_no_line_break(s: Seq<char>)
    ensures
        forall|i: int|
            0 <= i < markdown_blocks(s).len() ==> block_lacks(
                #[trigger] markdown_blocks(s)[i],
                '\n',
            ),
{
    let lines = lines_of(s);
    assert forall|k: int| 0 <= k < lines.len() implies lacks(#[trigger] lines[k], '\n') by {
        lemma_lines_lack_newline(s, k);
    }
    assert forall|i: int| 0 <= i < markdown_blocks(s).len() implies block_lacks(
        #[trigger] markdown_blocks(s)[i],
        '\n',
    ) by {
        lemma_blocks_lack(lines, seq![], i);
    }
}

// ---- Headings ----

/// `n` times the character `c`.
pub open spec fn repeated(c: char, n: nat) -> Seq<char> {
    Seq::new(n, |i: int| c)
}

/// One to seven `#`, a space and a text are a heading of that level with that text, without the
/// number in front of it. (`#`s at the end of the line are not part of the text.)
pub proof fn law_heading_line(n: nat, text: Seq<char>)
    requires
        1 <= n <= 7,
        text.len() > 0,
        trimmed(text) == text,
        text.last() != '#',
    ensures
        ({
            let line = repeated('#', n) + seq![' '] + text;
            blocks_of_lines(seq![line], seq![]) == seq![
                BlockView::Heading { level: n as u8, text: plain_text(without_ordinal(text)) },
            ]
        }),
{
    let line = repeated('#', n) + seq![' '] + text;
    let class = CharClass::Only('#');
    assert(line[0] == '#');
    assert(!is_white_space(line[0]));
    assert(line[n as int] == ' ');
    lemma_leading(line, class, n as int);
    let rest = line.skip(n as int);
    assert(rest =~= seq![' '] + text);
    assert(trimmed(rest) == text) by {
        lemma_trimmed_ends(text);
        lemma_trimmed_behind_space(text);
    }
    lemma_trailing(text, class, 0);
    assert(text.take(text.len() as int) =~= text);
    lemma_trimmed_ends(text);
    lemma_trimmed_same(line);
    lemma_only_block(line);
    assert(Seq::<BlockView>::empty().push(heading_of(line)) + Seq::<BlockView>::empty()
        =~= seq![heading_of(line)]);
}

/// Of a single line, nothing stands before its block and nothing behind it.
pub(crate) proof fn lemma_only_block(line: Seq<char>)
    ensures
        paragraph_of(seq![]) == Seq::<BlockView>::empty(),
        blocks_of_lines(seq![line].skip(1), seq![]) == Seq::<BlockView>::empty(),
{
    lemma_nothing_gathered();
    assert(seq![line].skip(1) =~= seq![]);
}

/// A space in front is trimmed.
proof fn lemma_trimmed_behind_space(text: Seq<char>)
    requires
        text.len() > 0,
        !is_white_space(text[0]),
        !is_white_space(text.last()),
    ensures
        trimmed(seq![' '] + text) == text,
{
    let s = seq![' '] + text;
    lemma_leading(s, CharClass::WhiteSpace, 1);
    assert(s.skip(1) =~= text);
    lemma_trimmed_same(text);
}

/// Whether `s` is a group of digits.
pub open spec fn is_digits(s: Seq<char>) -> bool {
    s.len() > 0 && forall|i: int| 0 <= i < s.len() ==> in_class(CharClass::Digit, #[trigger] s[i])
}

/// A group of digits ends before what is no digit.
pub(crate) proof fn lemma_digits(d: Seq<char>, rest: Seq<char>)
    requires
        is_digits(d),
        rest.len() > 0 ==> !in_class(CharClass::Digit, rest[0]),
    ensures
        leading(d + rest, CharClass::Digit) == d.len(),
{
    let s = d + rest;
    assert forall|i: int| 0 <= i < d.len() implies in_class(
        CharClass::Digit,
        #[trigger] s[i],
    ) by {
        assert(s[i] == d[i]);
    }
    lemma_leading(s, CharClass::Digit, d.len() as int);
}

/// What starts with no digit starts with no number.
pub(crate) proof fn lemma_no_numbering(s: Seq<char>)
    requires
        s.len() > 0 ==> !in_class(CharClass::Digit, s[0]),
    ensures
        numbering(s) == (0nat, 0nat),
{
    lemma_leading(s, CharClass::Digit, 0);
}

/// A number with punctuation goes from the front of a heading: `1. text` and `1) text` become
/// `text`.
pub proof fn law_ordinal_goes(d: Seq<char>, mark: char, text: Seq<char>)
    requires
        is_digits(d),
        is_ordinal_mark(mark),
    ensures
        without_ordinal(d + seq![mark, ' '] + text) == trimmed_start(text),
{
    let s = d + seq![mark, ' '] + text;
    let n = d.len() as int;
    assert(s =~= d + (seq![mark, ' '] + text));
    lemma_digits(d, seq![mark, ' '] + text);
    assert(s[0] == d[0] && s[n] == mark && s[n + 1] == ' ');
    lemma_no_numbering(s.skip(n + 1));
    assert(numbering(s) == (1nat, (n + 1) as nat));
    assert(s.skip(n + 2) =~= text);
    assert(!has_parenthesised_ordinal(s));
}

/// A number of two groups goes from the front of a heading: `1.1 text` becomes `text`.
pub proof fn law_dotted_ordinal_goes(d: Seq<char>, mark: char, e: Seq<char>, text: Seq<char>)
    requires
        is_digits(d),
        is_digits(e),
        is_ordinal_mark(mark),
    ensures
        without_ordinal(d + seq![mark] + e + seq![' '] + text) == trimmed_start(text),
{
    let s = d + seq![mark] + e + seq![' '] + text;
    let n = d.len() as int;
    let k = n + 1 + e.len();
    let rest = e + (seq![' '] + text);
    assert(s =~= d + (seq![mark] + rest));
    lemma_digits(d, seq![mark] + rest);
    assert(s.skip(n + 1) =~= rest);
    lemma_digits(e, seq![' '] + text);
    assert(s[0] == d[0] && s[n] == mark && s[k] == ' ');
    assert(rest[e.len() as int] == ' ');
    assert(numbering(rest) == (1nat, e.len()));
    assert(numbering(s) == (2nat, k as nat));
    assert(s.skip(k + 1) =~= text);
    assert(!has_parenthesised_ordinal(s));
}

/// A number in parentheses goes from the front of a heading: `(1) text` becomes `text`.
pub proof fn law_parenthesised_ordinal_goes(d: Seq<char>, text: Seq<char>)
    requires
        is_digits(d),
    ensures
        without_ordinal(seq!['('] + d + seq![')', ' '] + text) == trimmed_start(text),
{
    let s = seq!['('] + d + seq![')', ' '] + text;
    let n = d.len() as int;
    let space = seq![' '] + text;
    assert(s.skip(1) =~= d + (seq![')', ' '] + text));
    lemma_digits(d, seq![')', ' '] + text);
    assert(s[0] == '(' && s[n + 1] == ')' && s[n + 2] == ' ');
    assert(s.skip(n + 2) =~= space);
    lemma_leading_run(text, CharClass::WhiteSpace);
    let m = leading(text, CharClass::WhiteSpace) as int;
    assert forall|i: int| 0 <= i < m + 1 implies in_class(
        CharClass::WhiteSpace,
        #[trigger] space[i],
    ) by {
        if i > 0 {
            assert(space[i] == text[i - 1]);
        }
    }
    if m < text.len() {
        assert(space[m + 1] == text[m]);
    }
    lemma_leading(space, CharClass::WhiteSpace, m + 1);
    assert(space.skip(m + 1) =~= text.skip(m));
}

/// A bare number stays at the front of a heading, be it a year with its unit or a count: digits
/// that no punctuation follows are text.
pub proof fn law_bare_number_stays(d: Seq<char>, text: Seq<char>)
    requires
        is_digits(d),
        text.len() > 0 ==> !in_class(CharClass::Digit, text[0]) && !is_ordinal_mark(text[0]),
    ensures
        without_ordinal(d + text) == d + text,
{
    let s = d + text;
    let n = d.len() as int;
    lemma_digits(d, text);
    assert(s[0] == d[0] && s[n - 1] == d[n - 1]);
    assert(in_class(CharClass::Digit, d[n - 1]) && in_class(CharClass::Digit, d[0]));
    if text.len() > 0 {
        assert(s[n] == text[0]);
    }
    assert(numbering(s) == (1nat, d.len()));
}

// ---- Items and quotes ----

/// `-`, `*` or `+`, a space and a text are an item of a list: a paragraph with a bullet and the
/// text. (A line of markers only is a rule.)
pub proof fn law_bullet_line(mark: char, text: Seq<char>)
    requires
        mark == '-' || mark == '*' || mark == '+',
        trimmed(text) == text,
        !is_rule(seq![mark, ' '] + text),
    ensures
        line_kind(seq![mark, ' '] + text) == LineKind::Item(seq!['•', ' '] + plain_text(text)),
{
    let line = seq![mark, ' '] + text;
    assert(line[0] == mark && line[1] == ' ');
    lemma_leading(line, CharClass::Only('#'), 0);
    assert(line.skip(2) =~= text);
}

/// A number of one to four digits, `.` or `)`, a space and a text are an item of a list: a
/// paragraph with the number as it stands and the text.
pub proof fn law_numbered_line(d: Seq<char>, mark: char, text: Seq<char>)
    requires
        is_digits(d),
        d.len() <= 4,
        is_ordinal_mark(mark),
        trimmed(text) == text,
    ensures
        line_kind(d + seq![mark, ' '] + text) == LineKind::Item(
            d + seq![mark, ' '] + plain_text(text),
        ),
{
    let line = d + seq![mark, ' '] + text;
    let n = d.len() as int;
    assert(line =~= d + (seq![mark, ' '] + text));
    lemma_digits(d, seq![mark, ' '] + text);
    assert(line[0] == d[0] && line[n] == mark && line[n + 1] == ' ');
    assert(in_class(CharClass::Digit, d[0]));
    assert(!is_white_space(line[0]));
    lemma_leading(line, CharClass::Only('#'), 0);
    assert(line.skip(n + 2) =~= text);
    assert(line.take(n + 1).push(' ') =~= d + seq![mark, ' ']);
}

/// A quote is paragraph text without its prefix.
pub proof fn law_quote_line(text: Seq<char>)
    ensures
        line_kind(seq!['>'] + text) == LineKind::Text,
        body_text(seq!['>'] + text) == plain_text(trimmed_start(text)),
{
    let line = seq!['>'] + text;
    assert(line[0] == '>');
    assert(!is_white_space(line[0]));
    lemma_leading(line, CharClass::Only('#'), 0);
    lemma_leading(line, CharClass::Digit, 0);
    assert(line.skip(1) =~= text);
}

// ---- Tables ----

/// A cell as it is written in a row: each `|` behind a backslash.
pub open spec fn escaped(cell: Seq<char>) -> Seq<char>
    decreases cell.len(),
{
    if cell.len() == 0 {
        cell
    } else if cell[0] == '|' {
        seq!['\\', '|'] + escaped(cell.skip(1))
    } else {
        seq![cell[0]] + escaped(cell.skip(1))
    }
}

/// Cells as they are written in a row, with `|` between them.
pub open spec fn written_cells(cells: Seq<Seq<char>>) -> Seq<char>
    decreases cells.len(),
{
    if cells.len() == 0 {
        seq![]
    } else if cells.len() == 1 {
        escaped(cells[0])
    } else {
        escaped(cells[0]) + seq!['|'] + written_cells(cells.skip(1))
    }
}

/// A row as it is written.
pub open spec fn written_row(cells: Seq<Seq<char>>) -> Seq<char> {
    seq!['|'] + written_cells(cells) + seq!['|']
}

/// Whether a cell ends in a backslash: right before a `|`, it would escape it.
pub open spec fn ends_in_backslash(cell: Seq<char>) -> bool {
    cell.len() > 0 && cell.last() == '\\'
}

/// An escaped cell is read as it was.
proof fn lemma_escaped_cell(before: Seq<char>, cell: Seq<char>, rest: Seq<char>)
    requires
        rest.len() > 0 && rest[0] == '|' ==> !ends_in_backslash(cell),
    ensures
        cells_from(before, escaped(cell) + rest) == cells_from(before + cell, rest),
    decreases cell.len(),
{
    let s = escaped(cell) + rest;
    if cell.len() == 0 {
        assert(s =~= rest);
        assert(before + cell =~= before);
    } else {
        let tail = cell.skip(1);
        if tail.len() > 0 {
            assert(tail.last() == cell.last());
            assert(escaped(tail)[0] != '|');
        }
        lemma_escaped_cell(before.push(cell[0]), tail, rest);
        assert(before.push(cell[0]) + tail =~= before + cell);
        if cell[0] == '|' {
            assert(s.skip(2) =~= escaped(tail) + rest);
        } else {
            assert(s.skip(1) =~= escaped(tail) + rest);
            assert(s.len() > 1 ==> s[1] == (escaped(tail) + rest)[0]);
        }
    }
}

/// Written cells are read as they were.
proof fn lemma_written_cells(cells: Seq<Seq<char>>)
    requires
        cells.len() > 0,
        forall|i: int| 0 <= i < cells.len() - 1 ==> !ends_in_backslash(#[trigger] cells[i]),
        forall|i: int| 0 <= i < cells.len() ==> trimmed(#[trigger] cells[i]) == cells[i],
    ensures
        cells_from(seq![], written_cells(cells)) == cells,
    decreases cells.len(),
{
    let none: Seq<char> = seq![];
    let first = cells[0];
    assert(trimmed(first) == first);
    assert(none + first =~= first);
    if cells.len() == 1 {
        lemma_escaped_cell(none, first, none);
        assert(escaped(first) + none =~= escaped(first));
        assert(seq![first] =~= cells);
    } else {
        let others = cells.skip(1);
        assert forall|i: int| 0 <= i < others.len() implies trimmed(#[trigger] others[i])
            == others[i] by {
            assert(others[i] == cells[i + 1]);
        }
        assert forall|i: int| 0 <= i < others.len() - 1 implies !ends_in_backslash(
            #[trigger] others[i],
        ) by {
            assert(others[i] == cells[i + 1]);
        }
        lemma_written_cells(others);
        let rest = seq!['|'] + written_cells(others);
        assert(written_cells(cells) =~= escaped(first) + rest);
        lemma_escaped_cell(none, first, rest);
        assert(rest.skip(1) =~= written_cells(others));
        assert(seq![first] + others =~= cells);
    }
}

/// A row gives back the cells that were written into it, with the `|`s that stand in them. (A
/// cell has no white space at its ends. None but the last one ends in a backslash, which would
/// escape the `|` behind it, and the first one of several is not empty: its `|`s would be one.)
pub proof fn law_row_gives_back_cells(cells: Seq<Seq<char>>)
    requires
        cells.len() > 0,
        cells.len() > 1 ==> cells[0].len() > 0,
        forall|i: int| 0 <= i < cells.len() - 1 ==> !ends_in_backslash(#[trigger] cells[i]),
        forall|i: int| 0 <= i < cells.len() ==> trimmed(#[trigger] cells[i]) == cells[i],
    ensures
        is_row(written_row(cells)),
        row_cells(written_row(cells)) == cells,
{
    let line = written_row(cells);
    let inner = written_cells(cells);
    let class = CharClass::Only('|');
    lemma_written_cells(cells);
    assert(line[0] == '|' && line.last() == '|');
    lemma_trimmed_same(line);
    if cells[0].len() == 0 {
        assert(inner =~= seq![]);
        lemma_leading(line, class, 2);
        assert(line.skip(2) =~= seq![]);
    } else {
        assert(inner.len() > 0 && inner[0] != '|');
        assert(line[1] == inner[0]);
        lemma_leading(line, class, 1);
        assert(line.skip(1) =~= inner + seq!['|']);
        assert((inner + seq!['|']).drop_last() =~= inner);
    }
}

/// Cells as they are written in a row with a space on both sides of each, and `|` between them.
pub open spec fn spaced_cells(cells: Seq<Seq<char>>) -> Seq<char>
    decreases cells.len(),
{
    if cells.len() == 0 {
        seq![]
    } else if cells.len() == 1 {
        seq![' '] + escaped(cells[0]) + seq![' ']
    } else {
        seq![' '] + escaped(cells[0]) + seq![' ', '|'] + spaced_cells(cells.skip(1))
    }
}

/// A row as it is written with a space on both sides of each cell.
pub open spec fn spaced_row(cells: Seq<Seq<char>>) -> Seq<char> {
    seq!['|'] + spaced_cells(cells) + seq!['|']
}

/// The spaces around a cell are trimmed.
proof fn lemma_trimmed_padded(cell: Seq<char>)
    requires
        trimmed(cell) == cell,
    ensures
        trimmed(seq![' '] + cell + seq![' ']) == cell,
{
    let s = seq![' '] + cell + seq![' '];
    let class = CharClass::WhiteSpace;
    lemma_trimmed_ends(cell);
    if cell.len() == 0 {
        assert forall|i: int| 0 <= i < s.len() implies is_white_space(#[trigger] s[i]) by {}
        lemma_trimmed_blank(s);
        assert(trimmed(s) =~= cell);
    } else {
        assert(s[1] == cell[0]);
        lemma_leading(s, class, 1);
        let t = s.skip(1);
        assert(t =~= cell + seq![' ']);
        assert(t[t.len() - 2] == cell.last());
        lemma_trailing(t, class, 1);
        assert(t.take(t.len() - 1) =~= cell);
    }
}

/// A cell with spaces around it is read as it was, up to what follows.
proof fn lemma_spaced_cell(cell: Seq<char>, rest: Seq<char>)
    ensures
        cells_from(seq![], seq![' '] + escaped(cell) + seq![' '] + rest) == cells_from(
            seq![' '] + cell + seq![' '],
            rest,
        ),
{
    let none: Seq<char> = seq![];
    let s = seq![' '] + escaped(cell) + seq![' '] + rest;
    let behind = seq![' '] + rest;
    assert(s.skip(1) =~= escaped(cell) + behind);
    assert(none.push(' ') =~= seq![' ']);
    lemma_escaped_cell(seq![' '], cell, behind);
    assert(behind.skip(1) =~= rest);
    assert((seq![' '] + cell).push(' ') =~= seq![' '] + cell + seq![' ']);
}

/// Cells written with spaces are read as they were.
proof fn lemma_spaced_cells(cells: Seq<Seq<char>>)
    requires
        cells.len() > 0,
        forall|i: int| 0 <= i < cells.len() ==> trimmed(#[trigger] cells[i]) == cells[i],
    ensures
        cells_from(seq![], spaced_cells(cells)) == cells,
    decreases cells.len(),
{
    let none: Seq<char> = seq![];
    let first = cells[0];
    assert(trimmed(first) == first);
    lemma_trimmed_padded(first);
    if cells.len() == 1 {
        lemma_spaced_cell(first, none);
        assert(spaced_cells(cells) =~= seq![' '] + escaped(first) + seq![' '] + none);
        assert(seq![first] =~= cells);
    } else {
        let others = cells.skip(1);
        assert forall|i: int| 0 <= i < others.len() implies trimmed(#[trigger] others[i])
            == others[i] by {
            assert(others[i] == cells[i + 1]);
        }
        lemma_spaced_cells(others);
        let rest = seq!['|'] + spaced_cells(others);
        lemma_spaced_cell(first, rest);
        assert(spaced_cells(cells) =~= seq![' '] + escaped(first) + seq![' '] + rest);
        assert(rest.skip(1) =~= spaced_cells(others));
        assert(seq![first] + others =~= cells);
    }
}

/// A row with a space on both sides of each cell gives back all cells that were written into it,
/// whatever is in them: empty ones, and ones with `|`s and backslashes. (A cell has no white space
/// at its ends.)
pub proof fn law_spaced_row_gives_back_cells(cells: Seq<Seq<char>>)
    requires
        cells.len() > 0,
        forall|i: int| 0 <= i < cells.len() ==> trimmed(#[trigger] cells[i]) == cells[i],
    ensures
        is_row(spaced_row(cells)),
        row_cells(spaced_row(cells)) == cells,
{
    let line = spaced_row(cells);
    let inner = spaced_cells(cells);
    lemma_spaced_cells(cells);
    assert(inner.len() > 0 && inner[0] == ' ');
    assert(line[0] == '|' && line.last() == '|' && line[1] == ' ');
    lemma_trimmed_same(line);
    lemma_leading(line, CharClass::Only('|'), 1);
    assert(line.skip(1) =~= inner + seq!['|']);
    assert((inner + seq!['|']).drop_last() =~= inner);
}

/// A separator row leaves no trace: a table has the same rows without it.
pub proof fn law_separator_is_dropped(
    above: Seq<Seq<char>>,
    separator: Seq<char>,
    below: Seq<Seq<char>>,
)
    requires
        is_separator(row_cells(trimmed(separator))),
    ensures
        table_rows(above + seq![separator] + below) == table_rows(above + below),
    decreases below.len(),
{
    let lines = above + seq![separator] + below;
    if below.len() == 0 {
        assert(lines.drop_last() =~= above);
        assert(above + below =~= above);
    } else {
        law_separator_is_dropped(above, separator, below.drop_last());
        assert(lines.drop_last() =~= above + seq![separator] + below.drop_last());
        assert((above + below).drop_last() =~= above + below.drop_last());
    }
}

}
