//! Inline Markdown: markers are stripped, the text they mark stays.
//!
//! | Markdown | text |
//! |---|---|
//! | `**bold**`, `__bold__`, `~~struck~~`, `` `code` `` | the markers go |
//! | `[text](url)`, `![text](url)` | `text` |
//! | `*italic*`, `_italic_` at word boundaries | `italic` |
//!
//! A `*` or `_` that marks nothing (an operator, part of an identifier) stays.

use crate::text::{
    append_chars, find_from, from_chars, is_white_space, lemma_next_index, next_index, remove_char,
    remove_pairs, to_chars, trim, trimmed, unicode_alphanumeric, without, without_pairs,
};
use vstd::prelude::*;
use vstd::slice::slice_subrange;

verus! {

/// The opening brackets, quotes and the middle dot: emphasis may start right behind them.
pub open spec fn is_opening_punctuation(c: char) -> bool {
    ||| c == '('
    ||| c == '['
    ||| c == '{'
    ||| c == '"'
    ||| c == '\''
    ||| c == '「'
    ||| c == '（'
    ||| c == '·'
}

/// Where the bracket of a link at `i` would open: behind the `!` of an image, else at `i`.
pub open spec fn link_open(s: Seq<char>, i: int) -> int {
    if s[i] == '!' && i + 1 < s.len() && s[i + 1] == '[' {
        i + 1
    } else {
        i
    }
}

/// Where the text of a link at `i` ends: at the next `]`.
pub open spec fn link_close(s: Seq<char>, i: int) -> int {
    next_index(s, ']', link_open(s, i) + 1)
}

/// Where a link at `i` ends: at the next `)` behind `](`.
pub open spec fn link_end(s: Seq<char>, i: int) -> int {
    next_index(s, ')', link_close(s, i) + 2)
}

/// Whether a link `[text](url)` or an image `![text](url)` starts at `i`.
pub open spec fn has_link(s: Seq<char>, i: int) -> bool {
    &&& s[link_open(s, i)] == '['
    &&& link_close(s, i) + 1 < s.len()
    &&& s[link_close(s, i) + 1] == '('
    &&& link_end(s, i) < s.len()
}

/// `s` from `i` on, with each link and image replaced by its text.
pub open spec fn unlinked(s: Seq<char>, i: int) -> Seq<char>
    decreases s.len() - i,
{
    if i >= s.len() {
        seq![]
    } else if has_link(s, i) {
        proof {
            lemma_link(s, i);
        }
        s.subrange(link_open(s, i) + 1, link_close(s, i)) + unlinked(s, link_end(s, i) + 1)
    } else {
        seq![s[i]] + unlinked(s, i + 1)
    }
}

/// The parts of a link lie in order.
pub proof fn lemma_link(s: Seq<char>, i: int)
    requires
        i < s.len(),
        has_link(s, i),
    ensures
        i <= link_open(s, i) < link_close(s, i) < link_end(s, i) < s.len(),
{
    lemma_next_index(s, ']', link_open(s, i) + 1);
    lemma_next_index(s, ')', link_close(s, i) + 2);
}

/// Whether emphasis with the marker `m` can open at `i`: the marker stands at a word's start,
/// and text follows it.
pub open spec fn opens_emphasis(s: Seq<char>, m: char, i: int) -> bool {
    &&& s[i] == m
    &&& i == 0 || is_white_space(s[i - 1]) || is_opening_punctuation(s[i - 1])
    &&& i + 1 < s.len()
    &&& !is_white_space(s[i + 1])
    &&& s[i + 1] != m
}

/// Whether emphasis with the marker `m` can close at `j`: the marker stands behind text, and
/// no letter or digit follows it.
pub open spec fn closes_emphasis(s: Seq<char>, m: char, j: int) -> bool {
    &&& s[j] == m
    &&& !is_white_space(s[j - 1])
    &&& j + 1 < s.len() ==> !unicode_alphanumeric(s[j + 1])
}

/// The smallest index from `from` on where emphasis with the marker `m` can close, or the
/// length of `s` where there is none.
pub open spec fn next_close(s: Seq<char>, m: char, from: int) -> int
    decreases s.len() - from,
{
    if from >= s.len() {
        s.len() as int
    } else if closes_emphasis(s, m, from) {
        from
    } else {
        next_close(s, m, from + 1)
    }
}

/// Whether a span of emphasis with the marker `m` starts at `i`.
pub open spec fn has_emphasis(s: Seq<char>, m: char, i: int) -> bool {
    opens_emphasis(s, m, i) && next_close(s, m, i + 2) < s.len()
}

/// `s` from `i` on, with each span of emphasis replaced by the text between its markers `m`.
pub open spec fn unmarked(s: Seq<char>, m: char, i: int) -> Seq<char>
    decreases s.len() - i,
{
    if i >= s.len() {
        seq![]
    } else if has_emphasis(s, m, i) {
        proof {
            lemma_next_close(s, m, i + 2);
        }
        s.subrange(i + 1, next_close(s, m, i + 2)) + unmarked(s, m, next_close(s, m, i + 2) + 1)
    } else {
        seq![s[i]] + unmarked(s, m, i + 1)
    }
}

/// `next_close` lies between its start and the length of `s`.
pub proof fn lemma_next_close(s: Seq<char>, m: char, from: int)
    requires
        from <= s.len(),
    ensures
        from <= next_close(s, m, from) <= s.len(),
        next_close(s, m, from) < s.len() ==> closes_emphasis(s, m, next_close(s, m, from)),
    decreases s.len() - from,
{
    if from < s.len() && !closes_emphasis(s, m, from) {
        lemma_next_close(s, m, from + 1);
    }
}

/// `s` without the markers that are stripped wherever they stand: `**`, `__`, `~~` and `` ` ``.
pub open spec fn without_markers(s: Seq<char>) -> Seq<char> {
    without(without_pairs(without_pairs(without_pairs(s, '*'), '_'), '~'), '`')
}

/// The plain text of `s`: no markers, links reduced to their text, no white space at the ends.
pub open spec fn plain_text(s: Seq<char>) -> Seq<char> {
    trimmed(unmarked(unmarked(unlinked(without_markers(s), 0), '*', 0), '_', 0))
}

/// Whether emphasis may start right behind `c`.
fn is_punct_open(c: char) -> (b: bool)
    ensures
        b == is_opening_punctuation(c),
{
    matches!(c, '(' | '[' | '{' | '"' | '\'' | '「' | '（' | '·')
}

/// Replaces each link and image by its text.
fn strip_links(s: &[char]) -> (out: Vec<char>)
    ensures
        out@ == unlinked(s@, 0),
{
    let mut out: Vec<char> = Vec::new();
    let mut i: usize = 0;
    while i < s.len()
        invariant
            i <= s@.len(),
            out@ + unlinked(s@, i as int) == unlinked(s@, 0),
        decreases s.len() - i,
    {
        let ghost before = out@;
        let open: usize = if s[i] == '!' && i + 1 < s.len() && s[i + 1] == '[' {
            i + 1
        } else {
            i
        };
        let mut end: usize = s.len();
        let mut close: usize = s.len();
        if s[open] == '[' {
            close = find_from(s, ']', open + 1);
            if close < s.len() - 1 && s[close + 1] == '(' {
                end = find_from(s, ')', close + 2);
            }
        }
        if end < s.len() {
            assert(has_link(s@, i as int));
            append_chars(&mut out, slice_subrange(s, open + 1, close));
            assert(out@ + unlinked(s@, end + 1) =~= before + (s@.subrange(open + 1, close as int)
                + unlinked(s@, end + 1)));
            i = end + 1;
        } else {
            assert(!has_link(s@, i as int));
            out.push(s[i]);
            assert(out@ + unlinked(s@, i + 1) =~= before + (seq![s@[i as int]] + unlinked(
                s@,
                i + 1,
            )));
            i += 1;
        }
    }
    assert(out@ + unlinked(s@, i as int) =~= out@);
    out
}

/// The smallest index from `from` on where emphasis with the marker `m` can close, or the
/// length of `s` where there is none.
fn find_close(s: &[char], m: char, from: usize) -> (k: usize)
    requires
        0 < from,
    ensures
        k == next_close(s@, m, from as int),
{
    let mut k: usize = from;
    while k < s.len()
        invariant
            0 < from <= k,
            next_close(s@, m, from as int) == next_close(s@, m, k as int),
        decreases s.len() - k,
    {
        if s[k] == m && !s[k - 1].is_whitespace() && (k + 1 >= s.len()
            || !s[k + 1].is_alphanumeric()) {
            return k;
        }
        k += 1;
    }
    s.len()
}

/// Replaces each span of emphasis by the text between its markers.
fn strip_paired_marker(s: &[char], marker: char) -> (out: Vec<char>)
    ensures
        out@ == unmarked(s@, marker, 0),
{
    let mut out: Vec<char> = Vec::new();
    let mut i: usize = 0;
    while i < s.len()
        invariant
            i <= s@.len(),
            out@ + unmarked(s@, marker, i as int) == unmarked(s@, marker, 0),
        decreases s.len() - i,
    {
        let ghost before = out@;
        let mut close: usize = s.len();
        if s[i] == marker {
            let at_open: bool = i == 0 || s[i - 1].is_whitespace() || is_punct_open(s[i - 1]);
            let next_is_text: bool = i + 1 < s.len() && !s[i + 1].is_whitespace() && s[i + 1]
                != marker;
            if at_open && next_is_text {
                close = find_close(s, marker, i + 2);
                proof {
                    lemma_next_close(s@, marker, i + 2);
                }
            }
        }
        if close < s.len() {
            append_chars(&mut out, slice_subrange(s, i + 1, close));
            assert(out@ + unmarked(s@, marker, close + 1) =~= before + (s@.subrange(
                i + 1,
                close as int,
            ) + unmarked(s@, marker, close + 1)));
            i = close + 1;
        } else {
            out.push(s[i]);
            assert(out@ + unmarked(s@, marker, i + 1) =~= before + (seq![s@[i as int]] + unmarked(
                s@,
                marker,
                i + 1,
            )));
            i += 1;
        }
    }
    assert(out@ + unmarked(s@, marker, i as int) =~= out@);
    out
}

/// The plain text of `text`, on characters.
pub(crate) fn strip_inline_chars(text: &[char]) -> (out: Vec<char>)
    ensures
        out@ == plain_text(text@),
{
    let s: Vec<char> = remove_pairs(text, '*');
    let s: Vec<char> = remove_pairs(s.as_slice(), '_');
    let s: Vec<char> = remove_pairs(s.as_slice(), '~');
    let s: Vec<char> = remove_char(s.as_slice(), '`');
    let s: Vec<char> = strip_links(s.as_slice());
    let s: Vec<char> = strip_paired_marker(s.as_slice(), '*');
    let s: Vec<char> = strip_paired_marker(s.as_slice(), '_');
    let mut out: Vec<char> = Vec::new();
    append_chars(&mut out, trim(s.as_slice()));
    assert(out@ =~= plain_text(text@));
    out
}

/// Strips inline markers down to plain text: `**`, `__`, `~~` and `` ` `` go, `[text](url)`
/// becomes `text`, and so does `*text*` or `_text_` at word boundaries. A `*` or `_` that is no
/// marker stays.
pub fn strip_inline(text: &str) -> (out: String)
    ensures
        out@ == plain_text(text@),
{
    from_chars(strip_inline_chars(to_chars(text).as_slice()).as_slice())
}

}
