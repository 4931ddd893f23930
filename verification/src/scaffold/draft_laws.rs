//! What a draft becomes, read character by character.

use crate::scaffold::inline::plain_text;
use crate::scaffold::inline_laws::{
    is_markless, lacks, law_markless_text_stays, lemma_trimmed_same, lemma_trimmed_stretch,
};
use crate::scaffold::markdown::{
    blocks_of_lines, body_text, code_len, code_paragraphs, fenced_len, has_ordinal,
    has_parenthesised_ordinal, hashes, heading_of, is_bullet, is_fence, is_heading,
    is_ordinal_mark, is_row, is_rule_of, is_separator, is_separator_cell, lemma_rows_len,
    line_kind, lines_of, markdown_blocks, numbering, paragraph_of, plain_cells, row_cells,
    rows_len, table_of, table_rows, without_ordinal, LineKind,
};
use crate::scaffold::markdown_laws::{
    body_texts, ends_in_code, escaped, is_digits, law_bullet_line, law_code_stands,
    law_items_are_paragraphs, law_numbered_line, law_quote_line, law_rows_are_one_table,
    law_spaced_row_gives_back_cells, law_text_lines_are_one_paragraph, lemma_code_len_stays,
    lemma_digits, lemma_first_line, lemma_last_newline, lemma_lines_concat, lemma_no_numbering,
    lemma_nothing_gathered, lemma_only_block, lemma_only_line, lemma_row_kind,
    lemma_rows_are_no_code, repeated, spaced_cells, spaced_row,
};
use crate::scaffold::schema::BlockView;
use crate::text::{
    drop_trailing, in_class, is_white_space, leading, lemma_leading, lemma_leading_run,
    lemma_trailing, lemma_trailing_run, occurrences, trailing, trimmed, trimmed_start, CharClass,
};
use crate::text_laws::{
    has_bare_ends, is_blank, law_joined_by_spaces, law_trimming_takes_white_space,
    law_trimming_the_start, separated,
};
use vstd::prelude::*;

verus! {

// ---- Lines ----

/// The `\r`s at the end of a line are dropped.
proof fn lemma_returns_go(line: Seq<char>, k: nat)
    requires
        line.len() > 0 ==> line[line.len() - 1] != '\r',
    ensures
        drop_trailing(line + repeated('\r', k), CharClass::Only('\r')) == line,
{
    let s = line + repeated('\r', k);
    assert forall|i: int| s.len() - k <= i < s.len() implies in_class(
        CharClass::Only('\r'),
        #[trigger] s[i],
    ) by {}
    if line.len() > 0 {
        assert(s[s.len() - k - 1] == line[line.len() - 1]);
    }
    lemma_trailing(s, CharClass::Only('\r'), k as int);
    assert(s.take(s.len() - k) =~= line);
}

/// A line is what stands before a `\n`, but for the `\r`s right in front of it. A text without
/// `\n` is one line, and an empty one has none.
pub proof fn law_lines_end_at_newlines(line: Seq<char>, k: nat, rest: Seq<char>)
    requires
        lacks(line, '\n'),
        line.len() > 0 ==> line[line.len() - 1] != '\r',
    ensures
        lines_of(line + repeated('\r', k) + seq!['\n'] + rest) == seq![line] + lines_of(rest),
        line.len() + k > 0 ==> lines_of(line + repeated('\r', k)) == seq![line],
        lines_of(seq![]) == Seq::<Seq<char>>::empty(),
{
    let long = line + repeated('\r', k);
    assert forall|i: int| 0 <= i < long.len() implies #[trigger] long[i] != '\n' by {
        if i < line.len() {
            assert(long[i] == line[i]);
        }
    }
    lemma_returns_go(line, k);
    lemma_first_line(long, rest);
    if long.len() > 0 {
        lemma_only_line(long);
    }
}

/// Whether `line` may stand in a text as a line of its own.
pub open spec fn is_line(line: Seq<char>) -> bool {
    lacks(line, '\n') && (line.len() > 0 ==> line[line.len() - 1] != '\r')
}

/// Lines that newlines part are the lines of the text.
proof fn lemma_lines_of_separated(lines: Seq<Seq<char>>)
    requires
        lines.len() > 0,
        forall|i: int| 0 <= i < lines.len() ==> is_line(#[trigger] lines[i]),
        lines.last().len() > 0,
    ensures
        lines_of(separated(lines, '\n')) == lines,
    decreases lines.len(),
{
    let none = repeated('\r', 0);
    let first = lines[0];
    assert(is_line(first));
    assert(first + none =~= first);
    if lines.len() == 1 {
        law_lines_end_at_newlines(first, 0, seq![]);
        assert(seq![first] =~= lines);
    } else {
        let rest = lines.skip(1);
        assert forall|i: int| 0 <= i < rest.len() implies is_line(#[trigger] rest[i]) by {
            assert(rest[i] == lines[i + 1]);
        }
        lemma_lines_of_separated(rest);
        law_lines_end_at_newlines(first, 0, separated(rest, '\n'));
        assert(first + none + seq!['\n'] + separated(rest, '\n') =~= separated(lines, '\n'));
        assert(seq![first] + rest =~= lines);
    }
}

/// A text of one line has the blocks of that line.
proof fn lemma_blocks_of_line(line: Seq<char>)
    requires
        is_line(line),
        line.len() > 0,
    ensures
        markdown_blocks(line) == blocks_of_lines(seq![line], seq![]),
{
    law_lines_end_at_newlines(line, 0, seq![]);
    assert(line + repeated('\r', 0) =~= line);
}

// ---- What a line is ----

/// Three places that hold `m`, if there are three.
proof fn lemma_three(s: Seq<char>, m: char)
    ensures
        occurrences(s, m) >= 1 ==> exists|i: int| 0 <= i < s.len() && #[trigger] s[i] == m,
        occurrences(s, m) >= 2 ==> exists|i: int, j: int|
            0 <= i < j < s.len() && #[trigger] s[i] == m && #[trigger] s[j] == m,
        occurrences(s, m) >= 3 ==> exists|i: int, j: int, k: int|
            0 <= i < j < k < s.len() && #[trigger] s[i] == m && #[trigger] s[j] == m
                && #[trigger] s[k] == m,
    decreases s.len(),
{
    if s.len() > 0 {
        let t = s.drop_last();
        let n = s.len() - 1;
        lemma_three(t, m);
        if occurrences(t, m) >= 1 {
            let i = choose|i: int| 0 <= i < t.len() && #[trigger] t[i] == m;
            assert(s[i] == m);
        }
        if occurrences(t, m) >= 2 {
            let (i, j) = choose|i: int, j: int|
                0 <= i < j < t.len() && #[trigger] t[i] == m && #[trigger] t[j] == m;
            assert(s[i] == m && s[j] == m);
        }
        if occurrences(t, m) >= 3 {
            let (i, j, k) = choose|i: int, j: int, k: int|
                0 <= i < j < k < t.len() && #[trigger] t[i] == m && #[trigger] t[j] == m
                    && #[trigger] t[k] == m;
            assert(s[i] == m && s[j] == m && s[k] == m);
        }
        if s.last() == m {
            assert(s[n] == m);
            if occurrences(s, m) >= 2 {
                let i = choose|i: int| 0 <= i < t.len() && #[trigger] t[i] == m;
                assert(s[i] == m);
            }
            if occurrences(s, m) >= 3 {
                let (i, j) = choose|i: int, j: int|
                    0 <= i < j < t.len() && #[trigger] t[i] == m && #[trigger] t[j] == m;
                assert(s[i] == m && s[j] == m);
            }
        }
    }
}

/// As many as there are places.
proof fn lemma_occurrences_at(s: Seq<char>, m: char, i: int, j: int, k: int)
    requires
        0 <= i < j < k < s.len(),
        s[i] == m,
        s[j] == m,
        s[k] == m,
    ensures
        occurrences(s, m) >= 3,
{
    lemma_occurrences_concat(s.take(k), s.skip(k), m);
    lemma_occurrences_concat(s.take(j), s.subrange(j, k), m);
    lemma_occurrences_concat(s.take(i), s.subrange(i, j), m);
    assert(s.take(k) + s.skip(k) =~= s);
    assert(s.take(j) + s.subrange(j, k) =~= s.take(k));
    assert(s.take(i) + s.subrange(i, j) =~= s.take(j));
    lemma_occurrences_first(s.skip(k), m);
    lemma_occurrences_first(s.subrange(j, k), m);
    lemma_occurrences_first(s.subrange(i, j), m);
}

/// Occurrences add up.
proof fn lemma_occurrences_concat(a: Seq<char>, b: Seq<char>, m: char)
    ensures
        occurrences(a + b, m) == occurrences(a, m) + occurrences(b, m),
    decreases b.len(),
{
    if b.len() == 0 {
        assert(a + b =~= a);
    } else {
        lemma_occurrences_concat(a, b.drop_last(), m);
        assert((a + b).drop_last() =~= a + b.drop_last());
    }
}

/// What starts with `m` has one.
proof fn lemma_occurrences_first(s: Seq<char>, m: char)
    requires
        s.len() > 0,
        s[0] == m,
    ensures
        occurrences(s, m) >= 1,
    decreases s.len(),
{
    if s.len() > 1 {
        lemma_occurrences_first(s.drop_last(), m);
    } else {
        assert(s.last() == m);
    }
}

/// Whether `line` holds `m` at three places or more, and nothing else but white space.
pub open spec fn is_made_of(line: Seq<char>, m: char) -> bool {
    &&& forall|i: int| 0 <= i < line.len() ==> #[trigger] line[i] == m || is_white_space(line[i])
    &&& exists|i: int, j: int, k: int|
        0 <= i < j < k < line.len() && #[trigger] line[i] == m && #[trigger] line[j] == m
            && #[trigger] line[k] == m
}

/// Whether the first `n` characters of `line` are digits, and the next one is not.
pub open spec fn starts_with_digits(line: Seq<char>, n: int) -> bool {
    &&& 0 <= n <= line.len()
    &&& forall|i: int| 0 <= i < n ==> '0' <= #[trigger] line[i] <= '9'
    &&& n < line.len() ==> !('0' <= line[n] <= '9')
}

/// Whether `line` starts with `n` times `#`, and then a space or nothing.
pub open spec fn starts_with_hashes(line: Seq<char>, n: int) -> bool {
    &&& 0 <= n <= line.len()
    &&& forall|i: int| 0 <= i < n ==> #[trigger] line[i] == '#'
    &&& n < line.len() ==> line[n] == ' '
}

/// A line is a rule if and only if it is made of three or more of one of `-`, `*`, `_`.
proof fn lemma_rule(line: Seq<char>, m: char)
    requires
        !is_white_space(m),
    ensures
        is_rule_of(line, m) <==> is_made_of(line, m),
{
    lemma_three(line, m);
    if is_made_of(line, m) {
        let (i, j, k) = choose|i: int, j: int, k: int|
            0 <= i < j < k < line.len() && #[trigger] line[i] == m && #[trigger] line[j] == m
                && #[trigger] line[k] == m;
        lemma_occurrences_at(line, m, i, j, k);
    }
}

/// A line is a heading if and only if it starts with one to seven `#` and a space or nothing.
proof fn lemma_heading(line: Seq<char>)
    ensures
        is_heading(line) <==> exists|n: int| 1 <= n <= 7 && #[trigger] starts_with_hashes(line, n),
{
    let class = CharClass::Only('#');
    lemma_leading_run(line, class);
    if is_heading(line) {
        let n = hashes(line) as int;
        assert forall|i: int| 0 <= i < n implies #[trigger] line[i] == '#' by {
            assert(in_class(class, line[i]));
        }
        assert(starts_with_hashes(line, n));
    }
    if exists|n: int| 1 <= n <= 7 && #[trigger] starts_with_hashes(line, n) {
        let n = choose|n: int| 1 <= n <= 7 && #[trigger] starts_with_hashes(line, n);
        lemma_leading(line, class, n);
    }
}

/// The digits in front of a line.
proof fn lemma_starts_with_digits(line: Seq<char>)
    ensures
        starts_with_digits(line, leading(line, CharClass::Digit) as int),
        forall|n: int| #[trigger]
            starts_with_digits(line, n) ==> n == leading(line, CharClass::Digit),
{
    let class = CharClass::Digit;
    lemma_leading_run(line, class);
    assert forall|i: int| 0 <= i < leading(line, class) implies '0' <= #[trigger] line[i]
        <= '9' by {
        assert(in_class(class, line[i]));
    }
    assert forall|n: int| #[trigger] starts_with_digits(line, n) implies n == leading(
        line,
        class,
    ) by {
        lemma_leading(line, class, n);
    }
}

/// Every line shows what it is taken for: nothing for a blank one; three markers for a fence; three
/// or more of one of `-`, `*` and `_`, and nothing else, for a rule; one to seven `#` and a space
/// for a heading; `|` and more for a row; `-`, `*` or `+` and a space, or one to four digits, `.` or
/// `)` and a space, for an item, with the text of the item behind its bullet or number.
pub proof fn law_lines_show_what_they_are(line: Seq<char>)
    ensures
        match line_kind(line) {
            LineKind::Blank => line.len() == 0,
            LineKind::Fence(m) => (m == '`' || m == '~') && line.len() >= 3 && line[0] == m
                && line[1] == m && line[2] == m,
            LineKind::Rule => is_made_of(line, '-') || is_made_of(line, '*') || is_made_of(
                line,
                '_',
            ),
            LineKind::Heading => exists|n: int|
                1 <= n <= 7 && #[trigger] starts_with_hashes(line, n),
            LineKind::Row => line.len() > 1 && line[0] == '|',
            LineKind::Item(text) => {
                ||| {
                    &&& line.len() >= 2
                    &&& line[0] == '-' || line[0] == '*' || line[0] == '+'
                    &&& line[1] == ' '
                    &&& text == seq!['•', ' '] + plain_text(trimmed(line.skip(2)))
                }
                ||| exists|d: int|
                    {
                        &&& 1 <= d <= 4
                        &&& #[trigger] starts_with_digits(line, d)
                        &&& d + 1 < line.len()
                        &&& line[d] == '.' || line[d] == ')'
                        &&& line[d + 1] == ' '
                        &&& text == line.take(d + 2) + plain_text(trimmed(line.skip(d + 2)))
                    }
            },
            LineKind::Text => true,
        },
{
    lemma_rule(line, '-');
    lemma_rule(line, '*');
    lemma_rule(line, '_');
    lemma_heading(line);
    lemma_starts_with_digits(line);
    if line_kind(line) is Item && !is_bullet(line) {
        let d = leading(line, CharClass::Digit) as int;
        assert(starts_with_digits(line, d));
        assert(line.take(d + 1).push(' ') =~= line.take(d + 2));
    }
}

/// What shows is what a line is taken for: the fence, the rule, the heading and the row that a line
/// looks like, it is, the first of them that it looks like.
pub proof fn law_lines_are_what_they_show(line: Seq<char>)
    ensures
        line.len() == 0 ==> line_kind(line) == LineKind::Blank,
        forall|m: char|
            #![trigger is_fence(line, m)]
            (m == '`' || m == '~') && line.len() >= 3 && line[0] == m && line[1] == m && line[2]
                == m ==> line_kind(line) == LineKind::Fence(m),
        (is_made_of(line, '-') || is_made_of(line, '*') || is_made_of(line, '_')) && line.len() > 0
            && !is_white_space(line[0]) ==> line_kind(line) == LineKind::Rule,
        forall|n: int|
            1 <= n <= 7 && #[trigger] starts_with_hashes(line, n) ==> line_kind(line)
                == LineKind::Heading,
        line.len() > 1 && line[0] == '|' ==> line_kind(line) == LineKind::Row,
{
    lemma_rule(line, '-');
    lemma_rule(line, '*');
    lemma_rule(line, '_');
    lemma_heading(line);
    if line.len() > 1 && line[0] == '|' {
        lemma_row_kind(line);
    }
    assert forall|n: int| 1 <= n <= 7 && #[trigger] starts_with_hashes(line, n) implies line_kind(
        line,
    ) == LineKind::Heading by {
        assert(line[0] == '#');
        assert(!is_white_space('#'));
    }
}

/// A line that bears none of the marks is text: one with a character besides white space, `-`, `*`
/// and `_`, that starts with no `#`, no `|`, no three code markers, no bullet and a space, and no
/// number of one to four digits with `.` or `)` and a space.
pub proof fn law_other_lines_are_text(line: Seq<char>, i: int)
    requires
        0 <= i < line.len(),
        !is_white_space(line[i]) && line[i] != '-' && line[i] != '*' && line[i] != '_',
        line[0] != '#',
        line[0] != '|',
        line.len() >= 3 ==> !(line[0] == '`' && line[1] == '`' && line[2] == '`'),
        line.len() >= 3 ==> !(line[0] == '~' && line[1] == '~' && line[2] == '~'),
        line.len() >= 2 ==> !((line[0] == '-' || line[0] == '*' || line[0] == '+') && line[1]
            == ' '),
        forall|d: int|
            1 <= d <= 4 && #[trigger] starts_with_digits(line, d) && d + 1 < line.len() ==> !((
            line[d] == '.' || line[d] == ')') && line[d + 1] == ' '),
    ensures
        line_kind(line) == LineKind::Text,
{
    law_lines_show_what_they_are(line);
    let kind = line_kind(line);
    if kind is Rule {
        assert(line[i] == '-' || line[i] == '*' || line[i] == '_' || is_white_space(line[i]));
    }
    if kind is Heading {
        let n = choose|n: int| 1 <= n <= 7 && #[trigger] starts_with_hashes(line, n);
        assert(line[0] == '#');
    }
}

/// A line of text adds its plain text to a paragraph, without the `>` of a quote.
pub proof fn law_text_line_adds_itself(line: Seq<char>)
    ensures
        line.len() == 0 || line[0] != '>' ==> body_text(line) == plain_text(line),
{
}

// ---- Runs of lines ----

/// Whether something new starts between two lines: one of them is no paragraph text, and they are
/// not both rows.
pub open spec fn starts_anew(a: Seq<char>, b: Seq<char>) -> bool {
    &&& !(line_kind(trimmed(a)) is Text && line_kind(trimmed(b)) is Text)
    &&& !(is_row(trimmed(a)) && is_row(trimmed(b)))
}

/// Rows that end before the last line end there, whatever follows.
proof fn lemma_rows_end(lines: Seq<Seq<char>>, more: Seq<Seq<char>>)
    requires
        lines.len() > 0,
        more.len() > 0 ==> !(is_row(trimmed(lines.last())) && is_row(trimmed(more[0]))),
    ensures
        rows_len(lines + more) == rows_len(lines),
    decreases lines.len(),
{
    assert((lines + more)[0] == lines[0]);
    if is_row(trimmed(lines[0])) {
        let rest = lines.skip(1);
        assert((lines + more).skip(1) =~= rest + more);
        if rest.len() > 0 {
            assert(rest.last() == lines.last());
            lemma_rows_end(rest, more);
        } else {
            assert(rest + more =~= more);
            assert(lines.last() == lines[0]);
        }
    }
}

/// What is before a new start and what is behind it.
proof fn lemma_parting(left: Seq<Seq<char>>, gathered: Seq<Seq<char>>, right: Seq<Seq<char>>)
    requires
        !ends_in_code(left),
        left.len() > 0 && right.len() > 0 ==> starts_anew(left.last(), right[0]),
        left.len() == 0 && right.len() > 0 ==> gathered.len() == 0 || !(line_kind(
            trimmed(right[0]),
        ) is Text),
    ensures
        blocks_of_lines(left + right, gathered) == blocks_of_lines(left, gathered)
            + blocks_of_lines(right, seq![]),
    decreases left.len(),
{
    let none: Seq<Seq<char>> = seq![];
    let no_blocks: Seq<BlockView> = seq![];
    let lines = left + right;
    let closed = paragraph_of(gathered);
    let tail = blocks_of_lines(right, seq![]);
    lemma_nothing_gathered();
    if left.len() == 0 {
        assert(lines =~= right);
        if right.len() == 0 {
            assert(closed + no_blocks =~= closed);
        } else if gathered.len() == 0 {
            assert(gathered =~= none);
            assert(no_blocks + tail =~= tail);
        } else {
            lemma_closing(right, gathered);
        }
    } else {
        let line = trimmed(left[0]);
        let rest = left.skip(1);
        assert(lines[0] == left[0]);
        assert(lines.skip(1) =~= rest + right);
        if rest.len() > 0 {
            assert(rest.last() == left.last());
        }
        match line_kind(line) {
            LineKind::Blank | LineKind::Rule => {
                lemma_parting(rest, seq![], right);
                let own = blocks_of_lines(rest, seq![]);
                assert(closed + (own + tail) =~= (closed + own) + tail);
            },
            LineKind::Fence(m) => {
                let n = code_len(rest, m) as int;
                lemma_code_len_stays(rest, right, m);
                let more = left.skip(n + 2);
                if more.len() > 0 {
                    assert(more.last() == left.last());
                }
                lemma_parting(more, seq![], right);
                assert(more + right =~= lines.skip(n + 2));
                assert(lines.subrange(1, n + 1) =~= left.subrange(1, n + 1));
                let code = code_paragraphs(left.subrange(1, n + 1));
                let own = blocks_of_lines(more, seq![]);
                assert(closed + code + (own + tail) =~= (closed + code + own) + tail);
            },
            LineKind::Heading => {
                lemma_parting(rest, seq![], right);
                let own = blocks_of_lines(rest, seq![]);
                let first = closed.push(heading_of(line));
                assert(first + (own + tail) =~= (first + own) + tail);
            },
            LineKind::Row => {
                lemma_rows_end(left, right);
                lemma_rows_len(left);
                let n = rows_len(left) as int;
                lemma_rows_are_no_code(left, n);
                let more = left.skip(n);
                if more.len() > 0 {
                    assert(more.last() == left.last());
                }
                lemma_parting(more, seq![], right);
                assert(more + right =~= lines.skip(n));
                assert(lines.take(n) =~= left.take(n));
                let table = table_of(left.take(n));
                let own = blocks_of_lines(more, seq![]);
                assert(closed + table + (own + tail) =~= (closed + table + own) + tail);
            },
            LineKind::Item(text) => {
                lemma_parting(rest, seq![], right);
                let own = blocks_of_lines(rest, seq![]);
                let first = closed.push(BlockView::Paragraph { text });
                assert(first + (own + tail) =~= (first + own) + tail);
            },
            LineKind::Text => {
                if rest.len() == 0 {
                    assert(left.last() == left[0]);
                }
                lemma_parting(rest, gathered.push(body_text(line)), right);
            },
        }
    }
}

/// A line that is no text closes the paragraph before it.
proof fn lemma_closing(lines: Seq<Seq<char>>, gathered: Seq<Seq<char>>)
    requires
        lines.len() > 0,
        !(line_kind(trimmed(lines[0])) is Text),
    ensures
        blocks_of_lines(lines, gathered) == paragraph_of(gathered) + blocks_of_lines(
            lines,
            seq![],
        ),
{
    let closed = paragraph_of(gathered);
    let no_blocks: Seq<BlockView> = seq![];
    lemma_nothing_gathered();
    let line = trimmed(lines[0]);
    match line_kind(line) {
        LineKind::Blank | LineKind::Rule => {
            let tail = blocks_of_lines(lines.skip(1), seq![]);
            assert(closed + (no_blocks + tail) =~= closed + tail);
        },
        LineKind::Fence(m) => {
            let n = code_len(lines.skip(1), m) as int;
            let code = code_paragraphs(lines.subrange(1, n + 1));
            let tail = blocks_of_lines(lines.skip(fenced_len(lines, m) as int), seq![]);
            assert(closed + (no_blocks + code + tail) =~= closed + code + tail);
        },
        LineKind::Heading => {
            let tail = blocks_of_lines(lines.skip(1), seq![]);
            let block = heading_of(line);
            assert(closed + (no_blocks.push(block) + tail) =~= closed.push(block) + tail);
        },
        LineKind::Row => {
            let n = rows_len(lines) as int;
            let table = table_of(lines.take(n));
            let tail = blocks_of_lines(lines.skip(n), seq![]);
            assert(closed + (no_blocks + table + tail) =~= closed + table + tail);
        },
        LineKind::Item(text) => {
            let tail = blocks_of_lines(lines.skip(1), seq![]);
            let block = BlockView::Paragraph { text };
            assert(closed + (no_blocks.push(block) + tail) =~= closed.push(block) + tail);
        },
        LineKind::Text => {},
    }
}

/// Lines before a new start and lines behind it become what they become alone, with or without an
/// empty line between them: only paragraph text joins paragraph text, and only a row joins a row.
/// (Inside code nothing starts anew.)
pub proof fn law_new_start_parts_blocks(left: Seq<Seq<char>>, right: Seq<Seq<char>>)
    requires
        !ends_in_code(left),
        left.len() > 0 && right.len() > 0 ==> starts_anew(left.last(), right[0]),
    ensures
        blocks_of_lines(left + right, seq![]) == blocks_of_lines(left, seq![]) + blocks_of_lines(
            right,
            seq![],
        ),
{
    lemma_parting(left, seq![], right);
}

/// A heading, an item or a rule needs no empty line around it: between any two texts it becomes
/// what it becomes alone, and so do they. (The first text must not end inside code.)
pub proof fn law_line_stands_alone(s: Seq<char>, line: Seq<char>, t: Seq<char>)
    requires
        !ends_in_code(lines_of(s)),
        is_line(line),
        line.len() > 0,
        ({
            let kind = line_kind(trimmed(line));
            kind is Heading || kind is Item || kind is Rule
        }),
    ensures
        markdown_blocks(s + seq!['\n'] + line + seq!['\n'] + t) == markdown_blocks(s)
            + markdown_blocks(line) + markdown_blocks(t),
{
    let none: Seq<char> = seq![];
    let first = lines_of(s);
    let own = seq![line];
    let last = lines_of(t);
    let tail = line + seq!['\n'] + t;
    assert(s + seq!['\n'] + line + seq!['\n'] + t =~= s + seq!['\n'] + tail);
    lemma_lines_concat(s, tail);
    lemma_last_newline(s);
    law_lines_end_at_newlines(line, 0, t);
    assert(line + repeated('\r', 0) =~= line);
    lemma_blocks_of_line(line);
    if is_row(trimmed(line)) {
        lemma_row_kind(trimmed(line));
    }
    assert(!ends_in_code(own)) by {
        reveal_with_fuel(ends_in_code, 2);
        assert(own[0] == line);
        assert(own.skip(1) =~= seq![]);
    }
    law_new_start_parts_blocks(own, last);
    law_new_start_parts_blocks(first, own + last);
    assert((own + last)[0] == line);
    let joint = own + last;
    if lines_of(s + seq!['\n']) == first {
        assert(blocks_of_lines(first + joint, seq![]) == markdown_blocks(s) + (markdown_blocks(line)
            + markdown_blocks(t)));
    } else {
        let blank = seq![none];
        let longer = blank + joint;
        assert(trimmed(none).len() == 0) by {
            lemma_trimmed_same(none);
        }
        assert(longer.skip(1) =~= joint);
        lemma_nothing_gathered();
        let no_blocks: Seq<BlockView> = seq![];
        assert(no_blocks + blocks_of_lines(joint, seq![]) =~= blocks_of_lines(joint, seq![]));
        assert(blocks_of_lines(longer, seq![]) == blocks_of_lines(joint, seq![]));
        if first.len() > 0 && is_row(trimmed(none)) {
            assert(false);
        }
        law_new_start_parts_blocks(first, longer);
        assert(first + blank + joint =~= first + longer);
    }
    assert(markdown_blocks(s) + (markdown_blocks(line) + markdown_blocks(t)) =~= markdown_blocks(s)
        + markdown_blocks(line) + markdown_blocks(t));
}

// ---- Paragraphs, items, quotes ----

/// Whether `line` is an ordinary line of text: no markup, no white space at its ends, and no mark
/// in front.
pub open spec fn is_sentence(line: Seq<char>) -> bool {
    &&& line.len() > 0
    &&& lacks(line, '\n')
    &&& is_markless(line)
    &&& has_bare_ends(line)
    &&& line[0] != '#' && line[0] != '|' && line[0] != '>' && line[0] != '-' && line[0] != '+'
    &&& !('0' <= line[0] <= '9')
}

/// A sentence is text.
proof fn lemma_sentence(line: Seq<char>)
    requires
        is_sentence(line),
    ensures
        is_line(line),
        trimmed(line) == line,
        line_kind(line) == LineKind::Text,
        plain_text(line) == line,
        body_text(line) == line,
{
    lemma_trimmed_same(line);
    assert(!is_white_space(line[line.len() - 1]));
    assert(is_white_space('\r'));
    assert(line[0] != '*' && line[0] != '_' && line[0] != '`' && line[0] != '~');
    assert forall|d: int|
        1 <= d <= 4 && #[trigger] starts_with_digits(line, d) && d + 1 < line.len() implies !((
    line[d] == '.' || line[d] == ')') && line[d + 1] == ' ') by {
        assert('0' <= line[0] <= '9');
    }
    law_other_lines_are_text(line, 0);
    law_markless_text_stays(line);
}

/// Consecutive lines of text are one paragraph: the lines, as many as there are, with one space in
/// place of each line break.
pub proof fn law_lines_become_a_paragraph(lines: Seq<Seq<char>>)
    requires
        lines.len() > 0,
        forall|i: int| 0 <= i < lines.len() ==> is_sentence(#[trigger] lines[i]),
    ensures
        markdown_blocks(separated(lines, '\n')) == seq![
            BlockView::Paragraph { text: separated(lines, ' ') },
        ],
{
    assert forall|i: int| 0 <= i < lines.len() implies is_line(#[trigger] lines[i]) && line_kind(
        trimmed(lines[i]),
    ) == LineKind::Text && body_text(trimmed(lines[i])) == lines[i] by {
        lemma_sentence(lines[i]);
    }
    assert(is_sentence(lines[lines.len() - 1]));
    lemma_lines_of_separated(lines);
    law_text_lines_are_one_paragraph(lines);
    assert(body_texts(lines) =~= lines);
    law_joined_by_spaces(lines);
    lemma_separated_ends(lines);
    lemma_trimmed_same(separated(lines, ' '));
}

/// Sentences with spaces between them have no white space at their ends.
proof fn lemma_separated_ends(lines: Seq<Seq<char>>)
    requires
        lines.len() > 0,
        forall|i: int| 0 <= i < lines.len() ==> is_sentence(#[trigger] lines[i]),
    ensures
        separated(lines, ' ').len() > 0,
        has_bare_ends(separated(lines, ' ')),
    decreases lines.len(),
{
    let s = separated(lines, ' ');
    assert(is_sentence(lines[0]));
    if lines.len() > 1 {
        let rest = lines.skip(1);
        assert forall|i: int| 0 <= i < rest.len() implies is_sentence(#[trigger] rest[i]) by {
            assert(rest[i] == lines[i + 1]);
        }
        lemma_separated_ends(rest);
        let r = separated(rest, ' ');
        assert(s[0] == lines[0][0]);
        assert(s[s.len() - 1] == r[r.len() - 1]);
    }
}

/// Items of a bullet list become one paragraph each: a bullet, a space and the text of the item.
pub proof fn law_bullets_become_paragraphs(mark: char, items: Seq<Seq<char>>)
    requires
        mark == '-' || mark == '*' || mark == '+',
        items.len() > 0,
        forall|i: int| 0 <= i < items.len() ==> is_sentence(#[trigger] items[i]),
    ensures
        markdown_blocks(
            separated(items.map_values(|t: Seq<char>| seq![mark, ' '] + t), '\n'),
        ) == items.map_values(
            |t: Seq<char>| BlockView::Paragraph { text: seq!['•', ' '] + t },
        ),
{
    let lines = items.map_values(|t: Seq<char>| seq![mark, ' '] + t);
    assert forall|i: int| 0 <= i < lines.len() implies is_line(#[trigger] lines[i]) && line_kind(
        trimmed(lines[i]),
    ) == LineKind::Item(seq!['•', ' '] + items[i]) by {
        let t = items[i];
        let line = lines[i];
        lemma_sentence(t);
        assert(line == seq![mark, ' '] + t);
        assert(line[line.len() - 1] == t[t.len() - 1] && line[0] == mark);
        assert(is_white_space('\r'));
        assert forall|k: int| 0 <= k < line.len() implies #[trigger] line[k] != '\n' by {
            if k >= 2 {
                assert(line[k] == t[k - 2]);
            }
        }
        lemma_trimmed_same(line);
        lemma_rule(line, '-');
        lemma_rule(line, '*');
        lemma_rule(line, '_');
        assert(line[2] == t[0]);
        assert(t[0] != '*' && t[0] != '_');
        law_bullet_line(mark, t);
    }
    assert(lines.last().len() > 0);
    lemma_lines_of_separated(lines);
    law_items_are_paragraphs(lines);
    assert(markdown_blocks(separated(lines, '\n')) =~= items.map_values(
        |t: Seq<char>| BlockView::Paragraph { text: seq!['•', ' '] + t },
    )) by {
        assert forall|i: int| 0 <= i < items.len() implies blocks_of_lines(lines, seq![])[i] == (
        BlockView::Paragraph { text: seq!['•', ' '] + items[i] }) by {
            assert(line_kind(trimmed(lines[i])) is Item);
        }
    }
}

/// A numbered item becomes a paragraph with its number as it is written and its text.
pub proof fn law_numbered_item_becomes_a_paragraph(d: Seq<char>, mark: char, t: Seq<char>)
    requires
        is_digits(d),
        d.len() <= 4,
        mark == '.' || mark == ')',
        is_sentence(t),
    ensures
        markdown_blocks(d + seq![mark, ' '] + t) == seq![
            BlockView::Paragraph { text: d + seq![mark, ' '] + t },
        ],
{
    let line = d + seq![mark, ' '] + t;
    lemma_sentence(t);
    assert(in_class(CharClass::Digit, d[0]));
    assert(line[0] == d[0] && line[line.len() - 1] == t[t.len() - 1]);
    assert(is_white_space('\r'));
    assert forall|k: int| 0 <= k < line.len() implies #[trigger] line[k] != '\n' by {
        if k < d.len() {
            assert(in_class(CharClass::Digit, d[k]));
        } else if k >= d.len() + 2 {
            assert(line[k] == t[k - d.len() - 2]);
        }
    }
    lemma_trimmed_same(line);
    law_numbered_line(d, mark, t);
    lemma_blocks_of_line(line);
    lemma_only_block(line);
    let no_blocks: Seq<BlockView> = seq![];
    let block = BlockView::Paragraph { text: line };
    assert(no_blocks.push(block) + no_blocks =~= seq![block]);
}

/// A quote becomes a paragraph without its mark.
pub proof fn law_quote_becomes_a_paragraph(t: Seq<char>)
    requires
        is_sentence(t),
    ensures
        markdown_blocks(seq!['>', ' '] + t) == seq![BlockView::Paragraph { text: t }],
{
    let line = seq!['>', ' '] + t;
    lemma_sentence(t);
    assert(line[0] == '>' && line[line.len() - 1] == t[t.len() - 1]);
    assert(is_white_space('\r'));
    assert forall|k: int| 0 <= k < line.len() implies #[trigger] line[k] != '\n' by {
        if k >= 2 {
            assert(line[k] == t[k - 2]);
        }
    }
    lemma_trimmed_same(line);
    let rest = seq![' '] + t;
    assert(line =~= seq!['>'] + rest);
    law_quote_line(rest);
    law_trimming_the_start(seq![' '], t);
    lemma_blocks_of_line(line);
    let lines = seq![line];
    assert forall|i: int| 0 <= i < lines.len() implies line_kind(trimmed(#[trigger] lines[i]))
        == LineKind::Text by {}
    law_text_lines_are_one_paragraph(lines);
    assert(body_texts(lines) =~= seq![t]);
    law_joined_by_spaces(seq![t]);
    lemma_trimmed_same(t);
}

/// A rule becomes nothing.
pub proof fn law_rule_becomes_nothing(line: Seq<char>, m: char)
    requires
        m == '-' || m == '*' || m == '_',
        is_made_of(line, m),
        has_bare_ends(line),
        lacks(line, '\n'),
    ensures
        markdown_blocks(line) == Seq::<BlockView>::empty(),
{
    assert(line.len() > 0);
    lemma_trimmed_same(line);
    assert(is_white_space('\r'));
    law_lines_are_what_they_show(line);
    lemma_blocks_of_line(line);
    lemma_only_block(line);
    let no_blocks: Seq<BlockView> = seq![];
    assert(no_blocks + no_blocks =~= no_blocks);
}

// ---- Headings ----

/// A heading is read to its end: its level is the number of `#`, and its text is all that follows,
/// without a number in front. `#`s that close the line are not part of it.
pub proof fn law_heading_draft(n: nat, text: Seq<char>, gap: Seq<char>, k: nat)
    requires
        1 <= n <= 7,
        text.len() > 0,
        lacks(text, '\n'),
        has_bare_ends(text),
        text[text.len() - 1] != '#',
        is_blank(gap),
        lacks(gap, '\n'),
        k == 0 ==> gap.len() == 0,
    ensures
        markdown_blocks(repeated('#', n) + seq![' '] + text + gap + repeated('#', k)) == seq![
            BlockView::Heading { level: n as u8, text: plain_text(without_ordinal(text)) },
        ],
{
    let line = repeated('#', n) + seq![' '] + text + gap + repeated('#', k);
    let class = CharClass::Only('#');
    let body = text + gap + repeated('#', k);
    assert(line[0] == '#' && line[n as int] == ' ');
    assert forall|i: int| 0 <= i < n implies #[trigger] line[i] == '#' by {}
    assert(starts_with_hashes(line, n as int));
    law_lines_are_what_they_show(line);
    lemma_leading(line, class, n as int);
    let rest = line.skip(n as int);
    assert(rest =~= seq![' '] + body);
    assert(!is_white_space('#') && is_white_space('\r'));
    assert(body[0] == text[0]);
    if k > 0 {
        assert(body[body.len() - 1] == '#');
        assert(line[line.len() - 1] == '#');
    } else {
        assert(body =~= text);
        assert(line[line.len() - 1] == text[text.len() - 1]);
    }
    let none: Seq<char> = seq![];
    law_trimming_takes_white_space(seq![' '], body, none);
    assert(seq![' '] + body + none =~= rest);
    let t = text + gap;
    assert forall|i: int| body.len() - k <= i < body.len() implies in_class(
        class,
        #[trigger] body[i],
    ) by {}
    if gap.len() > 0 {
        assert(body[body.len() - k - 1] == gap[gap.len() - 1]);
        assert(is_white_space(gap[gap.len() - 1]));
    } else {
        assert(body[body.len() - k - 1] == text[text.len() - 1]);
    }
    lemma_trailing(body, class, k as int);
    assert(body.take(body.len() - k) =~= t);
    law_trimming_takes_white_space(none, text, gap);
    assert(none + text + gap =~= t);
    assert forall|i: int| 0 <= i < line.len() implies #[trigger] line[i] != '\n' by {
        if n < i < n + 1 + text.len() {
            assert(line[i] == text[i - n - 1]);
        } else if n + 1 + text.len() <= i < n + 1 + text.len() + gap.len() {
            assert(line[i] == gap[i - n - 1 - text.len()]);
        }
    }
    lemma_trimmed_same(line);
    lemma_blocks_of_line(line);
    lemma_only_block(line);
    let no_blocks: Seq<BlockView> = seq![];
    assert(no_blocks.push(heading_of(line)) + no_blocks =~= seq![heading_of(line)]);
}

/// A line of one to seven `#` alone is a heading without text.
pub proof fn law_empty_heading(n: nat)
    requires
        1 <= n <= 7,
    ensures
        markdown_blocks(repeated('#', n)) == seq![
            BlockView::Heading { level: n as u8, text: seq![] },
        ],
{
    let line = repeated('#', n);
    let none: Seq<char> = seq![];
    let class = CharClass::Only('#');
    assert(starts_with_hashes(line, n as int));
    law_lines_are_what_they_show(line);
    lemma_leading(line, class, n as int);
    assert(line.skip(n as int) =~= none);
    lemma_trimmed_same(none);
    lemma_trailing(none, class, 0);
    assert(none.take(0) =~= none);
    law_words_of_heading_stay(none);
    law_markless_text_stays(none);
    assert(line[0] == '#' && line[line.len() - 1] == '#');
    lemma_trimmed_same(line);
    lemma_blocks_of_line(line);
    lemma_only_block(line);
    let no_blocks: Seq<BlockView> = seq![];
    assert(no_blocks.push(heading_of(line)) + no_blocks =~= seq![heading_of(line)]);
}

/// A heading of words keeps all of them: where the text starts with no digit and no parenthesis,
/// nothing of it is taken for a number.
pub proof fn law_words_of_heading_stay(text: Seq<char>)
    requires
        text.len() > 0 ==> !('0' <= text[0] <= '9') && text[0] != '(',
    ensures
        without_ordinal(text) == text,
{
    lemma_no_numbering(text);
}

/// A parenthesis stays unless it is that of a number: `(`, digits, `)` and a space.
pub proof fn law_other_parenthesis_stays(text: Seq<char>)
    requires
        text.len() > 0,
        text[0] == '(',
        forall|d: int|
            1 <= d && d + 2 < text.len() && #[trigger] starts_with_digits(text.skip(1), d) ==> !(
            text[d + 1] == ')' && text[d + 2] == ' '),
    ensures
        without_ordinal(text) == text,
{
    lemma_no_numbering(text);
    lemma_starts_with_digits(text.skip(1));
}

/// Groups of digits, each with the punctuation behind it, in a row.
pub open spec fn number_text(groups: Seq<(Seq<char>, char)>) -> Seq<char>
    decreases groups.len(),
{
    if groups.len() == 0 {
        seq![]
    } else {
        groups[0].0 + seq![groups[0].1] + number_text(groups.skip(1))
    }
}

/// Whether each group is digits, and `.` or `)`.
pub open spec fn are_groups(groups: Seq<(Seq<char>, char)>) -> bool {
    forall|i: int|
        0 <= i < groups.len() ==> is_digits(#[trigger] groups[i].0) && (groups[i].1 == '.'
            || groups[i].1 == ')')
}

/// The number of groups, and their length, add up.
proof fn lemma_numbering(groups: Seq<(Seq<char>, char)>, rest: Seq<char>)
    requires
        are_groups(groups),
    ensures
        numbering(number_text(groups) + rest) == (
            groups.len() + numbering(rest).0,
            number_text(groups).len() + numbering(rest).1,
        ),
        groups.len() > 0 ==> {
            let s = number_text(groups);
            &&& s.len() >= 2
            &&& '0' <= s[0] <= '9'
            &&& is_ordinal_mark(s[s.len() - 1])
        },
    decreases groups.len(),
{
    if groups.len() == 0 {
        assert(number_text(groups) + rest =~= rest);
    } else {
        let (d, mark) = groups[0];
        let others = groups.skip(1);
        assert forall|i: int| 0 <= i < others.len() implies is_digits(#[trigger] others[i].0) && (
        others[i].1 == '.' || others[i].1 == ')') by {
            assert(others[i] == groups[i + 1]);
        }
        assert(is_digits(groups[0].0));
        lemma_numbering(others, rest);
        let tail = number_text(others) + rest;
        let s = number_text(groups) + rest;
        assert(s =~= d + (seq![mark] + tail));
        lemma_digits(d, seq![mark] + tail);
        assert(s[d.len() as int] == mark);
        assert(s.skip(d.len() as int + 1) =~= tail);
        assert(in_class(CharClass::Digit, d[0]));
        assert(number_text(groups)[0] == d[0]);
        let own = number_text(groups);
        if others.len() > 0 {
            assert(own[own.len() - 1] == number_text(others)[number_text(others).len() - 1]);
        } else {
            assert(own[own.len() - 1] == mark);
        }
    }
}

/// A number goes from the front of a heading, whatever the count of its groups: `1. text`,
/// `1.2.3. text`, `2) text`.
pub proof fn law_number_goes(groups: Seq<(Seq<char>, char)>, text: Seq<char>)
    requires
        groups.len() > 0,
        are_groups(groups),
    ensures
        without_ordinal(number_text(groups) + seq![' '] + text) == trimmed_start(text),
{
    let number = number_text(groups);
    let rest = seq![' '] + text;
    let s = number + rest;
    assert(number + seq![' '] + text =~= s);
    lemma_no_numbering(rest);
    lemma_numbering(groups, rest);
    assert(s[0] == number[0]);
    assert(s[number.len() as int] == ' ' && s[number.len() - 1] == number[number.len() - 1]);
    assert(s.skip(number.len() as int + 1) =~= text);
    assert(!has_parenthesised_ordinal(s));
    assert(has_ordinal(s));
}

/// So does one whose last group has no punctuation, if there is another group before it:
/// `1.1 text`.
pub proof fn law_dotted_number_goes(
    groups: Seq<(Seq<char>, char)>,
    e: Seq<char>,
    text: Seq<char>,
)
    requires
        groups.len() > 0,
        are_groups(groups),
        is_digits(e),
    ensures
        without_ordinal(number_text(groups) + e + seq![' '] + text) == trimmed_start(text),
{
    let number = number_text(groups);
    let tail = seq![' '] + text;
    let rest = e + tail;
    let s = number + rest;
    let n = number.len() + e.len();
    assert(number + e + seq![' '] + text =~= s);
    lemma_digits(e, tail);
    assert(rest[e.len() as int] == ' ');
    assert(numbering(rest) == (1nat, e.len()));
    lemma_numbering(groups, rest);
    assert(s[0] == number[0]);
    assert(s[n as int] == ' ');
    assert(s.skip(n as int + 1) =~= text);
    assert(!has_parenthesised_ordinal(s));
    assert(has_ordinal(s));
}

/// A number that no space follows stays: `1.`, `1.a`.
pub proof fn law_number_without_space_stays(groups: Seq<(Seq<char>, char)>, rest: Seq<char>)
    requires
        groups.len() > 0,
        are_groups(groups),
        rest.len() > 0 ==> rest[0] != ' ' && !('0' <= rest[0] <= '9'),
    ensures
        without_ordinal(number_text(groups) + rest) == number_text(groups) + rest,
{
    let number = number_text(groups);
    let s = number + rest;
    lemma_no_numbering(rest);
    lemma_numbering(groups, rest);
    assert(s[0] == number[0]);
    if rest.len() > 0 {
        assert(s[number.len() as int] == rest[0]);
    }
    assert(!has_parenthesised_ordinal(s));
}

/// So does one that ends in digits which no space and no punctuation follows: `1.1a`, `2026년`.
pub proof fn law_number_with_unit_stays(
    groups: Seq<(Seq<char>, char)>,
    e: Seq<char>,
    rest: Seq<char>,
)
    requires
        are_groups(groups),
        is_digits(e),
        rest.len() > 0 ==> rest[0] != ' ' && rest[0] != '.' && rest[0] != ')' && !('0' <= rest[0]
            <= '9'),
    ensures
        without_ordinal(number_text(groups) + e + rest) == number_text(groups) + e + rest,
{
    let number = number_text(groups);
    let tail = e + rest;
    let s = number + tail;
    let n = number.len() + e.len();
    assert(number + e + rest =~= s);
    lemma_digits(e, rest);
    if rest.len() > 0 {
        assert(tail[e.len() as int] == rest[0]);
        assert(s[n as int] == rest[0]);
    }
    assert(numbering(tail) == (1nat, e.len()));
    lemma_numbering(groups, tail);
    assert(in_class(CharClass::Digit, e[0]));
    if groups.len() > 0 {
        assert(s[0] == number[0]);
    } else {
        assert(s[0] == e[0]);
    }
    assert(!has_parenthesised_ordinal(s));
}

// ---- Code ----

/// Whether `line` starts with three `m`, white space in front of them left aside.
pub open spec fn shows_fence(line: Seq<char>, m: char) -> bool {
    exists|i: int|
        0 <= i < line.len() - 2 && is_blank(line.take(i)) && #[trigger] line[i] == m && line[i + 1]
            == m && line[i + 2] == m
}

/// A line that shows no fence is none.
proof fn lemma_shows_fence(line: Seq<char>, m: char)
    requires
        !is_white_space(m),
        is_fence(trimmed(line), m),
    ensures
        shows_fence(line, m),
{
    let class = CharClass::WhiteSpace;
    lemma_trimmed_stretch(line);
    lemma_leading_run(line, class);
    let a = leading(line, class) as int;
    assert(trimmed(line)[0] == line[a] && trimmed(line)[1] == line[a + 1] && trimmed(line)[2]
        == line[a + 2]);
    assert forall|i: int| 0 <= i < a implies is_white_space(#[trigger] line.take(a)[i]) by {
        assert(in_class(class, line[i]));
    }
    assert(is_blank(line.take(a)));
}

/// Code between fences becomes a paragraph for each of its lines, with every character as it
/// stands, whatever it looks like. What the opening fence says besides is dropped.
pub proof fn law_code_becomes_paragraphs(m: char, info: Seq<char>, code: Seq<Seq<char>>)
    requires
        m == '`' || m == '~',
        is_line(info),
        forall|i: int| 0 <= i < code.len() ==> is_line(#[trigger] code[i]),
        forall|i: int| 0 <= i < code.len() ==> !shows_fence(#[trigger] code[i], m),
    ensures
        markdown_blocks(
            separated(seq![seq![m, m, m] + info] + code + seq![seq![m, m, m]], '\n'),
        ) == code.map_values(|line: Seq<char>| BlockView::Paragraph { text: line }),
{
    let closing = seq![m, m, m];
    let opening = closing + info;
    let lines = seq![opening] + code + seq![closing];
    assert forall|i: int| 0 <= i < lines.len() implies is_line(#[trigger] lines[i]) by {
        if i == 0 {
            assert(lines[i] == opening);
            assert forall|k: int| 0 <= k < opening.len() implies #[trigger] opening[k] != '\n' by {
                if k >= 3 {
                    assert(opening[k] == info[k - 3]);
                }
            }
            if info.len() > 0 {
                assert(opening[opening.len() - 1] == info[info.len() - 1]);
            }
        } else if i <= code.len() {
            assert(lines[i] == code[i - 1]);
        } else {
            assert(lines[i] == closing);
        }
    }
    assert(lines.last() == closing);
    lemma_lines_of_separated(lines);
    assert(is_fence(trimmed(closing), m)) by {
        lemma_trimmed_same(closing);
    }
    assert(is_fence(trimmed(opening), m)) by {
        lemma_fence_with_info(m, info);
    }
    assert forall|i: int| 0 <= i < code.len() implies !is_fence(trimmed(#[trigger] code[i]), m) by {
        if is_fence(trimmed(code[i]), m) {
            lemma_shows_fence(code[i], m);
        }
    }
    let none: Seq<Seq<char>> = seq![];
    law_code_stands(opening, code, closing, none, m);
    assert(lines + none =~= lines);
    lemma_nothing_gathered();
    let no_blocks: Seq<BlockView> = seq![];
    assert(code_paragraphs(code) + no_blocks =~= code.map_values(
        |line: Seq<char>| BlockView::Paragraph { text: line },
    ));
}

/// Code that no fence closes goes on to the end of the text, and becomes a paragraph for each of
/// its lines all the same.
pub proof fn law_unclosed_code_becomes_paragraphs(
    m: char,
    info: Seq<char>,
    code: Seq<Seq<char>>,
)
    requires
        m == '`' || m == '~',
        is_line(info),
        code.len() > 0,
        code.last().len() > 0,
        forall|i: int| 0 <= i < code.len() ==> is_line(#[trigger] code[i]),
        forall|i: int| 0 <= i < code.len() ==> !shows_fence(#[trigger] code[i], m),
    ensures
        markdown_blocks(separated(seq![seq![m, m, m] + info] + code, '\n')) == code.map_values(
            |line: Seq<char>| BlockView::Paragraph { text: line },
        ),
{
    let opening = seq![m, m, m] + info;
    let lines = seq![opening] + code;
    assert forall|i: int| 0 <= i < lines.len() implies is_line(#[trigger] lines[i]) by {
        if i == 0 {
            assert(lines[i] == opening);
            assert forall|k: int| 0 <= k < opening.len() implies #[trigger] opening[k] != '\n' by {
                if k >= 3 {
                    assert(opening[k] == info[k - 3]);
                }
            }
            if info.len() > 0 {
                assert(opening[opening.len() - 1] == info[info.len() - 1]);
            }
        } else {
            assert(lines[i] == code[i - 1]);
        }
    }
    assert(lines.last() == code.last());
    lemma_lines_of_separated(lines);
    lemma_fence_with_info(m, info);
    assert forall|i: int| 0 <= i < code.len() implies !is_fence(trimmed(#[trigger] code[i]), m) by {
        if is_fence(trimmed(code[i]), m) {
            lemma_shows_fence(code[i], m);
        }
    }
    lemma_all_code(code, m);
    let n = code.len() as int;
    assert(lines[0] == opening);
    assert(lines.skip(1) =~= code);
    assert(lines.subrange(1, n + 1) =~= code);
    assert(lines.skip(n + 1) =~= seq![]);
    assert(fenced_len(lines, m) == n + 1);
    assert(line_kind(trimmed(opening)) == LineKind::Fence(m));
    lemma_nothing_gathered();
    let none: Seq<Seq<char>> = seq![];
    assert(blocks_of_lines(none, none) == Seq::<BlockView>::empty());
    assert(blocks_of_lines(lines, none) == paragraph_of(none) + code_paragraphs(code)
        + blocks_of_lines(none, none));
    let no_blocks: Seq<BlockView> = seq![];
    assert(no_blocks + code_paragraphs(code) + no_blocks =~= code.map_values(
        |line: Seq<char>| BlockView::Paragraph { text: line },
    ));
}

/// Without a fence all lines are code.
proof fn lemma_all_code(code: Seq<Seq<char>>, m: char)
    requires
        forall|i: int| 0 <= i < code.len() ==> !is_fence(trimmed(#[trigger] code[i]), m),
    ensures
        code_len(code, m) == code.len(),
    decreases code.len(),
{
    if code.len() > 0 {
        assert(!is_fence(trimmed(code[0]), m));
        assert forall|i: int| 0 <= i < code.skip(1).len() implies !is_fence(
            trimmed(#[trigger] code.skip(1)[i]),
            m,
        ) by {
            assert(code.skip(1)[i] == code[i + 1]);
        }
        lemma_all_code(code.skip(1), m);
    }
}

/// A fence is one, whatever follows it.
proof fn lemma_fence_with_info(m: char, info: Seq<char>)
    requires
        m == '`' || m == '~',
    ensures
        is_fence(trimmed(seq![m, m, m] + info), m),
{
    let s = seq![m, m, m] + info;
    let class = CharClass::WhiteSpace;
    lemma_leading(s, class, 0);
    assert(s.skip(0) =~= s);
    lemma_trailing_run(s, class);
    let n = trailing(s, class) as int;
    if n > s.len() - 3 {
        assert(in_class(class, s[2]));
    }
    assert(trimmed(s) =~= s.take(s.len() - n));
}

// ---- Tables ----

/// Whether a cell is made of dashes, colons and spaces, with at least one dash.
pub open spec fn is_dash_cell(cell: Seq<char>) -> bool {
    &&& exists|i: int| 0 <= i < cell.len() && #[trigger] cell[i] == '-'
    &&& forall|i: int|
        0 <= i < cell.len() ==> #[trigger] cell[i] == '-' || cell[i] == ':' || cell[i] == ' '
}

/// Whether `cells` can be written into a row: at least one, each in one line and without white
/// space at its ends.
pub open spec fn are_cells(cells: Seq<Seq<char>>) -> bool {
    &&& cells.len() > 0
    &&& forall|i: int|
        0 <= i < cells.len() ==> has_bare_ends(#[trigger] cells[i]) && lacks(cells[i], '\n')
}

/// Whether all cells are made of dashes, colons and spaces.
pub open spec fn is_dash_row(cells: Seq<Seq<char>>) -> bool {
    forall|i: int| 0 <= i < cells.len() ==> is_dash_cell(#[trigger] cells[i])
}

/// A row that is written is read as it was.
proof fn lemma_written_row(cells: Seq<Seq<char>>)
    requires
        are_cells(cells),
    ensures
        trimmed(spaced_row(cells)) == spaced_row(cells),
        is_row(spaced_row(cells)),
        row_cells(spaced_row(cells)) == cells,
        is_separator(cells) <==> is_dash_row(cells),
{
    let line = spaced_row(cells);
    assert forall|i: int| 0 <= i < cells.len() implies trimmed(#[trigger] cells[i]) == cells[i] by {
        assert(has_bare_ends(cells[i]));
        lemma_trimmed_same(cells[i]);
    }
    law_spaced_row_gives_back_cells(cells);
    assert(line[0] == '|' && line[line.len() - 1] == '|');
    lemma_trimmed_same(line);
    assert forall|i: int| 0 <= i < cells.len() implies is_separator_cell(#[trigger] cells[i])
        == is_dash_cell(cells[i]) by {
        let cell = cells[i];
        assert(trimmed(cell) == cell);
        if cell.contains('-') {
            let k = choose|k: int| 0 <= k < cell.len() && cell[k] == '-';
            assert(cell[k] == '-');
        }
    }
    if is_separator(cells) {
        assert forall|i: int| 0 <= i < cells.len() implies is_dash_cell(#[trigger] cells[i]) by {
            assert(is_separator_cell(cells[i]));
        }
    }
    if is_dash_row(cells) {
        assert forall|i: int| 0 <= i < cells.len() implies is_separator_cell(
            #[trigger] cells[i],
        ) by {
            assert(is_dash_cell(cells[i]));
        }
    }
}

/// Rows of parts of a table are the rows of the table.
proof fn lemma_rows_concat(a: Seq<Seq<char>>, b: Seq<Seq<char>>)
    ensures
        table_rows(a + b) == table_rows(a) + table_rows(b),
    decreases b.len(),
{
    if b.len() == 0 {
        assert(a + b =~= a);
        assert(table_rows(a) + table_rows(b) =~= table_rows(a));
    } else {
        lemma_rows_concat(a, b.drop_last());
        assert((a + b).drop_last() =~= a + b.drop_last());
        assert(table_rows(a + b) =~= table_rows(a) + table_rows(b));
    }
}

/// A row of data is kept, at its place and with the plain text of each of its cells: any row with a
/// cell that has no dash, or has a character besides dashes, colons and spaces.
pub proof fn law_data_row_is_kept(
    above: Seq<Seq<char>>,
    cells: Seq<Seq<char>>,
    below: Seq<Seq<char>>,
    i: int,
)
    requires
        are_cells(cells),
        0 <= i < cells.len(),
        (forall|j: int| 0 <= j < cells[i].len() ==> #[trigger] cells[i][j] != '-') || (exists|j: int|
            0 <= j < cells[i].len() && #[trigger] cells[i][j] != '-' && cells[i][j] != ':'
                && cells[i][j] != ' '),
    ensures
        table_rows(above + seq![spaced_row(cells)] + below) == table_rows(above) + seq![
            cells.map_values(|cell: Seq<char>| plain_text(cell)),
        ] + table_rows(below),
{
    let line = spaced_row(cells);
    lemma_written_row(cells);
    assert(!is_dash_cell(cells[i]));
    lemma_rows_concat(above + seq![line], below);
    lemma_rows_concat(above, seq![line]);
    lemma_one_row(cells);
}

/// The rows of one line.
proof fn lemma_one_row(cells: Seq<Seq<char>>)
    requires
        are_cells(cells),
    ensures
        table_rows(seq![spaced_row(cells)]) == if is_dash_row(cells) {
            Seq::<Seq<Seq<char>>>::empty()
        } else {
            seq![cells.map_values(|cell: Seq<char>| plain_text(cell))]
        },
{
    let line = spaced_row(cells);
    let lines = seq![line];
    lemma_written_row(cells);
    assert(lines.drop_last() =~= seq![]);
    reveal_with_fuel(table_rows, 2);
    assert(lines.last() == line);
    assert(plain_cells(cells) =~= cells.map_values(|cell: Seq<char>| plain_text(cell)));
    assert(table_rows(lines) =~= if is_dash_row(cells) {
        Seq::<Seq<Seq<char>>>::empty()
    } else {
        seq![cells.map_values(|cell: Seq<char>| plain_text(cell))]
    });
}

/// The rows that a table has: those that are not made of dashes, with the plain text of each cell.
pub open spec fn data_rows(rows: Seq<Seq<Seq<char>>>) -> Seq<Seq<Seq<char>>> {
    rows.filter(|cells: Seq<Seq<char>>| !is_dash_row(cells)).map_values(
        |cells: Seq<Seq<char>>| cells.map_values(|cell: Seq<char>| plain_text(cell)),
    )
}

/// The lines of rows.
proof fn lemma_data_rows(rows: Seq<Seq<Seq<char>>>)
    requires
        forall|i: int| 0 <= i < rows.len() ==> are_cells(#[trigger] rows[i]),
    ensures
        table_rows(rows.map_values(|cells: Seq<Seq<char>>| spaced_row(cells))) == data_rows(rows),
    decreases rows.len(),
{
    reveal(Seq::filter);
    let lines = rows.map_values(|cells: Seq<Seq<char>>| spaced_row(cells));
    if rows.len() == 0 {
        assert(table_rows(lines) =~= data_rows(rows));
    } else {
        let some = rows.drop_last();
        assert forall|i: int| 0 <= i < some.len() implies are_cells(#[trigger] some[i]) by {
            assert(some[i] == rows[i]);
        }
        lemma_data_rows(some);
        let cells = rows.last();
        assert(are_cells(rows[rows.len() - 1]));
        let shorter = some.map_values(|cells: Seq<Seq<char>>| spaced_row(cells));
        assert(lines =~= shorter + seq![spaced_row(cells)]);
        lemma_rows_concat(shorter, seq![spaced_row(cells)]);
        lemma_one_row(cells);
        assert(table_rows(lines) =~= data_rows(rows));
    }
}

/// What is written for a cell holds no newline.
proof fn lemma_escaped_lacks(cell: Seq<char>)
    requires
        lacks(cell, '\n'),
    ensures
        lacks(escaped(cell), '\n'),
    decreases cell.len(),
{
    if cell.len() > 0 {
        let t = cell.skip(1);
        assert forall|i: int| 0 <= i < t.len() implies #[trigger] t[i] != '\n' by {
            assert(t[i] == cell[i + 1]);
        }
        lemma_escaped_lacks(t);
        assert(cell[0] != '\n');
    }
}

/// What is written for cells holds no newline.
proof fn lemma_spaced_lacks(cells: Seq<Seq<char>>)
    requires
        forall|i: int| 0 <= i < cells.len() ==> lacks(#[trigger] cells[i], '\n'),
    ensures
        lacks(spaced_cells(cells), '\n'),
    decreases cells.len(),
{
    if cells.len() > 0 {
        let rest = cells.skip(1);
        assert(lacks(cells[0], '\n'));
        lemma_escaped_lacks(cells[0]);
        assert forall|i: int| 0 <= i < rest.len() implies lacks(#[trigger] rest[i], '\n') by {
            assert(rest[i] == cells[i + 1]);
        }
        lemma_spaced_lacks(rest);
    }
}

/// A table becomes one block: all its rows of data in their order, each with the plain text of its
/// cells, and nothing of its separators. A table of separators only becomes nothing.
pub proof fn law_table_becomes_a_block(rows: Seq<Seq<Seq<char>>>)
    requires
        rows.len() > 0,
        forall|i: int| 0 <= i < rows.len() ==> are_cells(#[trigger] rows[i]),
    ensures
        markdown_blocks(
            separated(rows.map_values(|cells: Seq<Seq<char>>| spaced_row(cells)), '\n'),
        ) == if data_rows(rows).len() == 0 {
            Seq::<BlockView>::empty()
        } else {
            seq![BlockView::Table { rows: data_rows(rows) }]
        },
{
    let lines = rows.map_values(|cells: Seq<Seq<char>>| spaced_row(cells));
    assert forall|i: int| 0 <= i < lines.len() implies is_line(#[trigger] lines[i]) && is_row(
        trimmed(lines[i]),
    ) by {
        let cells = rows[i];
        assert(are_cells(cells));
        lemma_written_row(cells);
        assert forall|k: int| 0 <= k < cells.len() implies lacks(#[trigger] cells[k], '\n') by {
            assert(has_bare_ends(cells[k]));
        }
        lemma_spaced_lacks(cells);
        let line = spaced_row(cells);
        let inner = spaced_cells(cells);
        assert forall|k: int| 0 <= k < line.len() implies #[trigger] line[k] != '\n' by {
            if 0 < k < line.len() - 1 {
                assert(line[k] == inner[k - 1]);
            }
        }
        assert(line[line.len() - 1] == '|');
    }
    assert(lines.last().len() > 0);
    lemma_lines_of_separated(lines);
    law_rows_are_one_table(lines);
    lemma_data_rows(rows);
}

/// The `|` that closes a row may be left out.
pub proof fn law_closing_bar_is_optional(line: Seq<char>)
    requires
        line.len() > 0,
        line[0] == '|',
        has_bare_ends(line),
        line[line.len() - 1] != '|',
    ensures
        row_cells(line + seq!['|']) == row_cells(line),
{
    let long = line + seq!['|'];
    let class = CharClass::Only('|');
    assert(long[0] == line[0] && long[long.len() - 1] == '|');
    lemma_trimmed_same(line);
    lemma_trimmed_same(long);
    lemma_leading_run(line, class);
    let n = leading(line, class) as int;
    if n == line.len() {
        assert(in_class(class, line[n - 1]));
    }
    assert forall|i: int| 0 <= i < n implies in_class(class, #[trigger] long[i]) by {
        assert(long[i] == line[i]);
        assert(in_class(class, line[i]));
    }
    assert(long[n] == line[n]);
    lemma_leading(long, class, n);
    let inner = line.skip(n);
    assert(long.skip(n) =~= inner + seq!['|']);
    assert((inner + seq!['|']).drop_last() =~= inner);
    assert(inner.last() == line[line.len() - 1]);
}

/// More `|`s in front of a row make no more cells.
pub proof fn law_bars_in_front_are_one(line: Seq<char>)
    requires
        line.len() > 0,
        line[0] == '|',
        has_bare_ends(line),
    ensures
        row_cells(seq!['|'] + line) == row_cells(line),
{
    let long = seq!['|'] + line;
    let class = CharClass::Only('|');
    assert(long[long.len() - 1] == line[line.len() - 1]);
    lemma_trimmed_same(line);
    lemma_trimmed_same(long);
    lemma_leading_run(line, class);
    let n = leading(line, class) as int;
    assert forall|i: int| 0 <= i < n + 1 implies in_class(class, #[trigger] long[i]) by {
        if i > 0 {
            assert(long[i] == line[i - 1]);
            assert(in_class(class, line[i - 1]));
        }
    }
    if n < line.len() {
        assert(long[n + 1] == line[n]);
    }
    lemma_leading(long, class, n + 1);
    assert(long.skip(n + 1) =~= line.skip(n));
}

}
