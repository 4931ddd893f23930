//! What holds of the plain text of every inline text.

use crate::scaffold::inline::{
    closes_emphasis, has_emphasis, has_link, is_opening_punctuation, lemma_link, lemma_next_close,
    link_close, link_end, link_open, next_close, opens_emphasis, plain_text, unlinked, unmarked,
    without_markers,
};
use crate::text::{
    in_class, is_white_space, leading, lemma_leading, lemma_leading_run, lemma_trailing,
    lemma_trailing_run, next_index, trailing, trimmed, trimmed_end, trimmed_start,
    unicode_alphanumeric, without, without_pairs, CharClass,
};
use vstd::prelude::*;

verus! {

// ---- Subsequences ----

/// Whether `a` is `b` with some characters taken out.
pub open spec fn is_subsequence(a: Seq<char>, b: Seq<char>) -> bool
    decreases b.len(),
{
    if b.len() == 0 {
        a.len() == 0
    } else {
        ||| is_subsequence(a, b.skip(1))
        ||| a.len() > 0 && a[0] == b[0] && is_subsequence(a.skip(1), b.skip(1))
    }
}

/// All characters may be taken out.
proof fn lemma_sub_empty(b: Seq<char>)
    ensures
        is_subsequence(seq![], b),
    decreases b.len(),
{
    if b.len() > 0 {
        lemma_sub_empty(b.skip(1));
    }
}

/// None need be taken out.
proof fn lemma_sub_whole(b: Seq<char>)
    ensures
        is_subsequence(b, b),
    decreases b.len(),
{
    if b.len() > 0 {
        lemma_sub_whole(b.skip(1));
    }
}

/// Characters may be taken out on both sides of a place.
proof fn lemma_sub_concat(a: Seq<char>, b: Seq<char>, c: Seq<char>, d: Seq<char>)
    requires
        is_subsequence(a, b),
        is_subsequence(c, d),
    ensures
        is_subsequence(a + c, b + d),
    decreases b.len(),
{
    if b.len() == 0 {
        assert(a + c =~= c);
        assert(b + d =~= d);
    } else {
        assert((b + d).skip(1) =~= b.skip(1) + d);
        if is_subsequence(a, b.skip(1)) {
            lemma_sub_concat(a, b.skip(1), c, d);
        } else {
            lemma_sub_concat(a.skip(1), b.skip(1), c, d);
            assert((a + c).skip(1) =~= a.skip(1) + c);
        }
    }
}

/// Characters may be taken out in two steps.
proof fn lemma_sub_trans(a: Seq<char>, b: Seq<char>, c: Seq<char>)
    requires
        is_subsequence(a, b),
        is_subsequence(b, c),
    ensures
        is_subsequence(a, c),
    decreases c.len(),
{
    if c.len() > 0 {
        if is_subsequence(b, c.skip(1)) {
            lemma_sub_trans(a, b, c.skip(1));
        } else if is_subsequence(a, b.skip(1)) {
            lemma_sub_trans(a, b.skip(1), c.skip(1));
        } else {
            lemma_sub_trans(a.skip(1), b.skip(1), c.skip(1));
        }
    }
}

/// A stretch of a text is the text with what is around it taken out.
proof fn lemma_sub_stretch(s: Seq<char>, i: int, j: int)
    requires
        0 <= i <= j <= s.len(),
    ensures
        is_subsequence(s.subrange(i, j), s),
{
    let mid = s.subrange(i, j);
    lemma_sub_empty(s.take(i));
    lemma_sub_whole(mid);
    lemma_sub_concat(seq![], s.take(i), mid, mid);
    lemma_sub_empty(s.skip(j));
    lemma_sub_concat(seq![] + mid, s.take(i) + mid, seq![], s.skip(j));
    assert(seq![] + mid + seq![] =~= mid);
    assert(s.take(i) + mid + s.skip(j) =~= s);
}

/// What is taken out does not come back.
pub(crate) proof fn lemma_sub_lacks(a: Seq<char>, b: Seq<char>, c: char)
    requires
        is_subsequence(a, b),
        forall|i: int| 0 <= i < b.len() ==> #[trigger] b[i] != c,
    ensures
        forall|i: int| 0 <= i < a.len() ==> #[trigger] a[i] != c,
    decreases b.len(),
{
    if b.len() > 0 {
        assert forall|i: int| 0 <= i < b.skip(1).len() implies #[trigger] b.skip(1)[i] != c by {
            assert(b.skip(1)[i] == b[i + 1]);
        }
        if is_subsequence(a, b.skip(1)) {
            lemma_sub_lacks(a, b.skip(1), c);
        } else {
            lemma_sub_lacks(a.skip(1), b.skip(1), c);
            assert forall|i: int| 0 <= i < a.len() implies #[trigger] a[i] != c by {
                if i > 0 {
                    assert(a.skip(1)[i - 1] != c);
                }
            }
        }
    }
}

// ---- The steps only remove ----

proof fn lemma_pairs_remove(s: Seq<char>, c: char)
    ensures
        is_subsequence(without_pairs(s, c), s),
    decreases s.len(),
{
    if s.len() == 0 {
    } else if s.len() >= 2 && s[0] == c && s[1] == c {
        lemma_pairs_remove(s.skip(2), c);
        lemma_sub_empty(s.take(2));
        lemma_sub_concat(seq![], s.take(2), without_pairs(s.skip(2), c), s.skip(2));
        assert(seq![] + without_pairs(s.skip(2), c) =~= without_pairs(s.skip(2), c));
        assert(s.take(2) + s.skip(2) =~= s);
    } else {
        lemma_pairs_remove(s.skip(1), c);
        lemma_sub_whole(seq![s[0]]);
        lemma_sub_concat(seq![s[0]], seq![s[0]], without_pairs(s.skip(1), c), s.skip(1));
        assert(seq![s[0]] + s.skip(1) =~= s);
    }
}

proof fn lemma_char_removes(s: Seq<char>, c: char)
    ensures
        is_subsequence(without(s, c), s),
        forall|i: int| 0 <= i < without(s, c).len() ==> #[trigger] without(s, c)[i] != c,
    decreases s.len(),
{
    if s.len() > 0 {
        let t = s.drop_last();
        lemma_char_removes(t, c);
        let last = seq![s.last()];
        assert(t + last =~= s);
        if s.last() == c {
            lemma_sub_empty(last);
            lemma_sub_concat(without(t, c), t, seq![], last);
            assert(without(t, c) + seq![] =~= without(t, c));
        } else {
            lemma_sub_whole(last);
            lemma_sub_concat(without(t, c), t, last, last);
            assert(without(t, c) + last =~= without(s, c));
        }
    }
}

proof fn lemma_links_remove(s: Seq<char>, i: int)
    requires
        0 <= i <= s.len(),
    ensures
        is_subsequence(unlinked(s, i), s.skip(i)),
    decreases s.len() - i,
{
    if i == s.len() {
    } else if has_link(s, i) {
        lemma_link(s, i);
        let (open, close, end) = (link_open(s, i), link_close(s, i), link_end(s, i));
        lemma_links_remove(s, end + 1);
        let span = s.subrange(i, end + 1);
        lemma_sub_stretch(span, open + 1 - i, close - i);
        assert(span.subrange(open + 1 - i, close - i) =~= s.subrange(open + 1, close));
        lemma_sub_concat(
            s.subrange(open + 1, close),
            span,
            unlinked(s, end + 1),
            s.skip(end + 1),
        );
        assert(span + s.skip(end + 1) =~= s.skip(i));
    } else {
        lemma_links_remove(s, i + 1);
        lemma_sub_whole(seq![s[i]]);
        lemma_sub_concat(seq![s[i]], seq![s[i]], unlinked(s, i + 1), s.skip(i + 1));
        assert(seq![s[i]] + s.skip(i + 1) =~= s.skip(i));
    }
}

proof fn lemma_emphasis_removes(s: Seq<char>, m: char, i: int)
    requires
        0 <= i <= s.len(),
    ensures
        is_subsequence(unmarked(s, m, i), s.skip(i)),
    decreases s.len() - i,
{
    if i == s.len() {
    } else if has_emphasis(s, m, i) {
        lemma_next_close(s, m, i + 2);
        let close = next_close(s, m, i + 2);
        lemma_emphasis_removes(s, m, close + 1);
        let span = s.subrange(i, close + 1);
        lemma_sub_stretch(span, 1, close - i);
        assert(span.subrange(1, close - i) =~= s.subrange(i + 1, close));
        lemma_sub_concat(
            s.subrange(i + 1, close),
            span,
            unmarked(s, m, close + 1),
            s.skip(close + 1),
        );
        assert(span + s.skip(close + 1) =~= s.skip(i));
    } else {
        lemma_emphasis_removes(s, m, i + 1);
        lemma_sub_whole(seq![s[i]]);
        lemma_sub_concat(seq![s[i]], seq![s[i]], unmarked(s, m, i + 1), s.skip(i + 1));
        assert(seq![s[i]] + s.skip(i + 1) =~= s.skip(i));
    }
}

/// Trimming takes a stretch of the text.
pub(crate) proof fn lemma_trimmed_stretch(s: Seq<char>)
    ensures
        ({
            let a = leading(s, CharClass::WhiteSpace) as int;
            let t = s.skip(a);
            let b = s.len() - trailing(t, CharClass::WhiteSpace);
            &&& 0 <= a <= b <= s.len()
            &&& trimmed(s) == s.subrange(a, b)
        }),
{
    lemma_leading_run(s, CharClass::WhiteSpace);
    let a = leading(s, CharClass::WhiteSpace) as int;
    let t = s.skip(a);
    lemma_trailing_run(t, CharClass::WhiteSpace);
    let b = s.len() - trailing(t, CharClass::WhiteSpace);
    assert(trimmed(s) =~= s.subrange(a, b));
}

/// A trimmed text has no white space at its ends.
pub(crate) proof fn lemma_trimmed_ends(s: Seq<char>)
    ensures
        trimmed(s).len() > 0 ==> !is_white_space(trimmed(s)[0]) && !is_white_space(
            trimmed(s).last(),
        ),
        forall|i: int| 0 <= i < trimmed(s).len() ==> s.contains(#[trigger] trimmed(s)[i]),
{
    lemma_trimmed_stretch(s);
    lemma_leading_run(s, CharClass::WhiteSpace);
    let a = leading(s, CharClass::WhiteSpace) as int;
    let t = s.skip(a);
    lemma_trailing_run(t, CharClass::WhiteSpace);
    assert forall|i: int| 0 <= i < trimmed(s).len() implies s.contains(
        #[trigger] trimmed(s)[i],
    ) by {
        assert(trimmed(s)[i] == s[a + i]);
    }
    if trimmed(s).len() > 0 {
        assert(trimmed(s)[0] == s[a]);
        assert(!in_class(CharClass::WhiteSpace, s[a]));
        let k = t.len() - trailing(t, CharClass::WhiteSpace) - 1;
        assert(trimmed(s).last() == t[k]);
        assert(!in_class(CharClass::WhiteSpace, t[k]));
    }
}

/// A text without white space at its ends is what trimming makes of it.
pub(crate) proof fn lemma_trimmed_same(s: Seq<char>)
    requires
        s.len() > 0 ==> !is_white_space(s[0]) && !is_white_space(s.last()),
    ensures
        trimmed(s) == s,
        trimmed_start(s) == s,
        trimmed_end(s) == s,
{
    lemma_leading(s, CharClass::WhiteSpace, 0);
    assert(s.skip(0) =~= s);
    lemma_trailing(s, CharClass::WhiteSpace, 0);
    assert(s.take(s.len() as int) =~= s);
}

// ---- Laws ----

/// Plain text is the text with characters taken out: nothing is added, changed or moved.
pub proof fn law_plain_text_only_removes(s: Seq<char>)
    ensures
        is_subsequence(plain_text(s), s),
{
    let s1 = without_pairs(s, '*');
    let s2 = without_pairs(s1, '_');
    let s3 = without_pairs(s2, '~');
    let s4 = without(s3, '`');
    let s5 = unlinked(s4, 0);
    let s6 = unmarked(s5, '*', 0);
    let s7 = unmarked(s6, '_', 0);
    lemma_pairs_remove(s, '*');
    lemma_pairs_remove(s1, '_');
    lemma_pairs_remove(s2, '~');
    lemma_char_removes(s3, '`');
    lemma_links_remove(s4, 0);
    lemma_emphasis_removes(s5, '*', 0);
    lemma_emphasis_removes(s6, '_', 0);
    assert(s4.skip(0) =~= s4);
    assert(s5.skip(0) =~= s5);
    assert(s6.skip(0) =~= s6);
    lemma_trimmed_stretch(s7);
    let a = leading(s7, CharClass::WhiteSpace) as int;
    lemma_sub_stretch(s7, a, s7.len() - trailing(s7.skip(a), CharClass::WhiteSpace));
    lemma_sub_trans(trimmed(s7), s7, s6);
    lemma_sub_trans(trimmed(s7), s6, s5);
    lemma_sub_trans(trimmed(s7), s5, s4);
    lemma_sub_trans(trimmed(s7), s4, s3);
    lemma_sub_trans(trimmed(s7), s3, s2);
    lemma_sub_trans(trimmed(s7), s2, s1);
    lemma_sub_trans(trimmed(s7), s1, s);
}

/// Plain text has no code marker left, and no white space at its ends.
pub proof fn law_plain_text_is_clean(s: Seq<char>)
    ensures
        forall|i: int| 0 <= i < plain_text(s).len() ==> #[trigger] plain_text(s)[i] != '`',
        trimmed(plain_text(s)) == plain_text(s),
{
    let s4 = without_markers(s);
    let s5 = unlinked(s4, 0);
    let s6 = unmarked(s5, '*', 0);
    let s7 = unmarked(s6, '_', 0);
    lemma_char_removes(without_pairs(without_pairs(without_pairs(s, '*'), '_'), '~'), '`');
    lemma_links_remove(s4, 0);
    lemma_emphasis_removes(s5, '*', 0);
    lemma_emphasis_removes(s6, '_', 0);
    assert(s4.skip(0) =~= s4);
    assert(s5.skip(0) =~= s5);
    assert(s6.skip(0) =~= s6);
    lemma_sub_lacks(s5, s4, '`');
    lemma_sub_lacks(s6, s5, '`');
    lemma_sub_lacks(s7, s6, '`');
    lemma_trimmed_ends(s7);
    lemma_trimmed_same(trimmed(s7));
}

/// Whether `s` has no character that inline markup is made of: `*`, `_`, `~`, `` ` ``, `[`.
pub open spec fn is_markless(s: Seq<char>) -> bool {
    forall|i: int|
        0 <= i < s.len() ==> #[trigger] s[i] != '*' && s[i] != '_' && s[i] != '~' && s[i] != '`'
            && s[i] != '['
}

/// Whether no two neighbours in `s` are both `c`.
pub open spec fn has_no_pair(s: Seq<char>, c: char) -> bool {
    forall|i: int| 0 <= i < s.len() - 1 ==> !(#[trigger] s[i] == c && s[i + 1] == c)
}

/// Whether `s` does not hold `c`.
pub open spec fn lacks(s: Seq<char>, c: char) -> bool {
    forall|i: int| 0 <= i < s.len() ==> #[trigger] s[i] != c
}

proof fn lemma_no_pairs(s: Seq<char>, c: char)
    requires
        has_no_pair(s, c),
    ensures
        without_pairs(s, c) == s,
    decreases s.len(),
{
    if s.len() > 0 {
        let t = s.skip(1);
        assert forall|i: int| 0 <= i < t.len() - 1 implies !(#[trigger] t[i] == c && t[i + 1]
            == c) by {
            assert(t[i] == s[i + 1] && t[i + 1] == s[i + 2]);
        }
        lemma_no_pairs(t, c);
        assert(s.len() >= 2 ==> !(s[0int] == c && s[0int + 1] == c));
        assert(seq![s[0]] + t =~= s);
    }
}

pub(crate) proof fn lemma_no_char(s: Seq<char>, c: char)
    requires
        lacks(s, c),
    ensures
        without(s, c) == s,
    decreases s.len(),
{
    if s.len() > 0 {
        assert(s.last() == s[s.len() - 1]);
        assert forall|i: int| 0 <= i < s.drop_last().len() implies #[trigger] s.drop_last()[i]
            != c by {
            assert(s.drop_last()[i] == s[i]);
        }
        lemma_no_char(s.drop_last(), c);
        assert(s.drop_last().push(s.last()) =~= s);
    }
}

proof fn lemma_no_links(s: Seq<char>, i: int)
    requires
        0 <= i <= s.len(),
        forall|k: int| i <= k < s.len() ==> #[trigger] s[k] != '[',
    ensures
        unlinked(s, i) == s.skip(i),
    decreases s.len() - i,
{
    if i < s.len() {
        assert(s[link_open(s, i)] != '[');
        lemma_no_links(s, i + 1);
        assert(seq![s[i]] + s.skip(i + 1) =~= s.skip(i));
    } else {
        assert(s.skip(i) =~= seq![]);
    }
}

proof fn lemma_no_emphasis(s: Seq<char>, m: char, i: int)
    requires
        0 <= i <= s.len(),
        forall|k: int| i <= k < s.len() ==> !#[trigger] opens_emphasis(s, m, k),
    ensures
        unmarked(s, m, i) == s.skip(i),
    decreases s.len() - i,
{
    if i < s.len() {
        assert(!opens_emphasis(s, m, i));
        lemma_no_emphasis(s, m, i + 1);
        assert(seq![s[i]] + s.skip(i + 1) =~= s.skip(i));
    } else {
        assert(s.skip(i) =~= seq![]);
    }
}

/// Symbols that mark nothing stay: a text without doubled markers, code markers and brackets,
/// and without a `*` or `_` at the start of a word, is its own plain text but for the white space
/// at its ends.
pub proof fn law_plain_symbols_stay(s: Seq<char>)
    requires
        has_no_pair(s, '*'),
        has_no_pair(s, '_'),
        has_no_pair(s, '~'),
        lacks(s, '`'),
        lacks(s, '['),
        forall|k: int| 0 <= k < s.len() ==> !#[trigger] opens_emphasis(s, '*', k),
        forall|k: int| 0 <= k < s.len() ==> !#[trigger] opens_emphasis(s, '_', k),
    ensures
        plain_text(s) == trimmed(s),
{
    lemma_no_pairs(s, '*');
    lemma_no_pairs(s, '_');
    lemma_no_pairs(s, '~');
    lemma_no_char(s, '`');
    lemma_no_links(s, 0);
    lemma_no_emphasis(s, '*', 0);
    lemma_no_emphasis(s, '_', 0);
    assert(s.skip(0) =~= s);
}

/// A text without markup is its own plain text but for the white space at its ends.
pub proof fn law_markless_text_stays(s: Seq<char>)
    requires
        is_markless(s),
    ensures
        plain_text(s) == trimmed(s),
{
    law_plain_symbols_stay(s);
}

// ---- Marked text ----

/// What stands before a marker keeps its characters when pairs are taken out.
pub(crate) proof fn lemma_pairs_after(a: Seq<char>, x: char, rest: Seq<char>, c: char)
    requires
        x != c,
    ensures
        without_pairs(a + seq![x] + rest, c) == without_pairs(a, c) + seq![x] + without_pairs(
            rest,
            c,
        ),
    decreases a.len(),
{
    let s = a + seq![x] + rest;
    if a.len() == 0 {
        assert(s =~= seq![x] + rest);
        assert(s.skip(1) =~= rest);
        assert(without_pairs(s, c) =~= without_pairs(a, c) + seq![x] + without_pairs(rest, c));
    } else if a.len() >= 2 && a[0] == c && a[1] == c {
        lemma_pairs_after(a.skip(2), x, rest, c);
        assert(s.skip(2) =~= a.skip(2) + seq![x] + rest);
    } else {
        lemma_pairs_after(a.skip(1), x, rest, c);
        assert(s.skip(1) =~= a.skip(1) + seq![x] + rest);
        assert(without_pairs(s, c) =~= without_pairs(a, c) + seq![x] + without_pairs(rest, c));
    }
}

/// A pair goes, wherever it stands behind text that lacks its character.
proof fn lemma_pair_goes(a: Seq<char>, rest: Seq<char>, c: char)
    requires
        lacks(a, c),
    ensures
        without_pairs(a + seq![c, c] + rest, c) == a + without_pairs(rest, c),
    decreases a.len(),
{
    let s = a + seq![c, c] + rest;
    if a.len() == 0 {
        assert(s =~= seq![c, c] + rest);
        assert(s.skip(2) =~= rest);
        assert(a + without_pairs(rest, c) =~= without_pairs(rest, c));
    } else {
        let t = a.skip(1);
        assert forall|i: int| 0 <= i < t.len() implies #[trigger] t[i] != c by {
            assert(t[i] == a[i + 1]);
        }
        lemma_pair_goes(t, rest, c);
        assert(s.skip(1) =~= t + seq![c, c] + rest);
        assert(seq![a[0]] + (t + without_pairs(rest, c)) =~= a + without_pairs(rest, c));
    }
}

/// A character goes, wherever it stands.
pub(crate) proof fn lemma_without_concat(a: Seq<char>, b: Seq<char>, c: char)
    ensures
        without(a + b, c) == without(a, c) + without(b, c),
    decreases b.len(),
{
    if b.len() == 0 {
        assert(a + b =~= a);
        assert(without(a, c) + without(b, c) =~= without(a, c));
    } else {
        lemma_without_concat(a, b.drop_last(), c);
        assert((a + b).drop_last() =~= a + b.drop_last());
        assert(without(a + b, c) =~= without(a, c) + without(b, c));
    }
}

/// From here on only markers of the last steps are left to strip: a text without pairs, code
/// markers and brackets.
proof fn lemma_without_markers_same(s: Seq<char>)
    requires
        has_no_pair(s, '*'),
        has_no_pair(s, '_'),
        has_no_pair(s, '~'),
        lacks(s, '`'),
    ensures
        without_markers(s) == s,
{
    lemma_no_pairs(s, '*');
    lemma_no_pairs(s, '_');
    lemma_no_pairs(s, '~');
    lemma_no_char(s, '`');
}

/// Bold and struck text: `**text**`, `__text__` and `~~text~~` become `text`, whatever text is
/// around them.
pub proof fn law_doubled_markers_go(a: Seq<char>, w: Seq<char>, b: Seq<char>, m: char)
    requires
        m == '*' || m == '_' || m == '~',
        is_markless(a),
        is_markless(w),
        is_markless(b),
    ensures
        plain_text(a + seq![m, m] + w + seq![m, m] + b) == trimmed(a + w + b),
{
    let s = a + seq![m, m] + w + seq![m, m] + b;
    let t = a + w + b;
    assert(is_markless(t));
    assert(without_pairs(s, m) == t) by {
        assert(s =~= a + seq![m, m] + (w + seq![m, m] + b));
        lemma_pair_goes(a, w + seq![m, m] + b, m);
        lemma_pair_goes(w, b, m);
        lemma_no_pairs(b, m);
        assert(a + (w + b) =~= t);
    }
    assert forall|c: char| c != m && (c == '*' || c == '_' || c == '~') implies #[trigger] without_pairs(
        s,
        c,
    ) == s by {
        assert(lacks(s, c));
        lemma_no_pairs(s, c);
    }
    lemma_no_pairs(t, '*');
    lemma_no_pairs(t, '_');
    lemma_no_pairs(t, '~');
    assert(without_markers(s) == without_markers(t));
    law_markless_text_stays(t);
}

/// Code: `` `text` `` becomes `text`, whatever text is around it.
pub proof fn law_code_markers_go(a: Seq<char>, w: Seq<char>, b: Seq<char>)
    requires
        is_markless(a),
        is_markless(w),
        is_markless(b),
    ensures
        plain_text(a + seq!['`'] + w + seq!['`'] + b) == trimmed(a + w + b),
{
    let s = a + seq!['`'] + w + seq!['`'] + b;
    let t = a + w + b;
    assert(is_markless(t));
    lemma_no_pairs(s, '*');
    lemma_no_pairs(s, '_');
    lemma_no_pairs(s, '~');
    lemma_no_pairs(t, '*');
    lemma_no_pairs(t, '_');
    lemma_no_pairs(t, '~');
    let mark = seq!['`'];
    let none: Seq<char> = seq![];
    assert(without(mark, '`') =~= none) by {
        reveal_with_fuel(without, 2);
        assert(mark.drop_last() =~= none);
    }
    lemma_without_concat(a + mark + w + mark, b, '`');
    lemma_without_concat(a + mark + w, mark, '`');
    lemma_without_concat(a + mark, w, '`');
    lemma_without_concat(a, mark, '`');
    lemma_no_char(a, '`');
    lemma_no_char(w, '`');
    lemma_no_char(b, '`');
    lemma_no_char(t, '`');
    assert(without(s, '`') =~= t);
    law_markless_text_stays(t);
}

/// A pair at the end goes, whatever is before it.
proof fn lemma_last_pair_goes(x: Seq<char>, c: char)
    ensures
        without_pairs(x + seq![c, c], c) == without_pairs(x, c),
    decreases x.len(),
{
    let s = x + seq![c, c];
    let none: Seq<char> = seq![];
    if x.len() == 0 {
        assert(s.skip(2) =~= none);
        assert(x =~= none);
    } else if x.len() == 1 && x[0] == c {
        assert(s.skip(2) =~= x);
    } else if x.len() >= 2 && x[0] == c && x[1] == c {
        lemma_last_pair_goes(x.skip(2), c);
        assert(s.skip(2) =~= x.skip(2) + seq![c, c]);
    } else {
        lemma_last_pair_goes(x.skip(1), c);
        assert(s.skip(1) =~= x.skip(1) + seq![c, c]);
    }
}

/// A pair on both sides goes, whatever is between.
proof fn lemma_pairs_around_go(x: Seq<char>, c: char)
    ensures
        without_pairs(seq![c, c] + x + seq![c, c], c) == without_pairs(x, c),
{
    let s = seq![c, c] + x + seq![c, c];
    assert(s.skip(2) =~= x + seq![c, c]);
    lemma_last_pair_goes(x, c);
}

/// A character on both sides stays when pairs of another one are taken out.
proof fn lemma_around_stays(x: Seq<char>, m: char, c: char)
    requires
        m != c,
    ensures
        without_pairs(seq![m] + x + seq![m], c) == seq![m] + without_pairs(x, c) + seq![m],
{
    let none: Seq<char> = seq![];
    lemma_pairs_after(none, m, x + seq![m], c);
    lemma_pairs_after(x, m, none, c);
    assert(none + seq![m] + (x + seq![m]) =~= seq![m] + x + seq![m]);
    assert(x + seq![m] + none =~= x + seq![m]);
    assert(without_pairs(seq![m] + x + seq![m], c) =~= seq![m] + without_pairs(x, c) + seq![m]);
}

/// A pair on both sides stays when pairs of another character are taken out.
proof fn lemma_pairs_around_stay(x: Seq<char>, m: char, c: char)
    requires
        m != c,
    ensures
        without_pairs(seq![m, m] + x + seq![m, m], c) == seq![m, m] + without_pairs(x, c) + seq![
            m,
            m,
        ],
{
    let inner = seq![m] + x + seq![m];
    lemma_around_stays(x, m, c);
    lemma_around_stays(inner, m, c);
    assert(seq![m] + inner + seq![m] =~= seq![m, m] + x + seq![m, m]);
    assert(seq![m] + (seq![m] + without_pairs(x, c) + seq![m]) + seq![m] =~= seq![m, m]
        + without_pairs(x, c) + seq![m, m]);
}

/// A code marker on both sides goes, whatever is between.
proof fn lemma_code_marks_around_go(x: Seq<char>)
    ensures
        without(seq!['`'] + x + seq!['`'], '`') == without(x, '`'),
{
    let mark = seq!['`'];
    let none: Seq<char> = seq![];
    assert(without(mark, '`') =~= none) by {
        reveal_with_fuel(without, 2);
        assert(mark.drop_last() =~= none);
    }
    lemma_without_concat(mark + x, mark, '`');
    lemma_without_concat(mark, x, '`');
    assert(none + without(x, '`') + none =~= without(x, '`'));
}

/// Bold, struck and code markers around a text change nothing, whatever the text is, markup in it
/// or not: with `**`, `__`, `~~` or `` ` `` on both sides it has the same plain text.
pub proof fn law_markers_around_text_go(mark: Seq<char>, x: Seq<char>)
    requires
        mark == seq!['*', '*'] || mark == seq!['_', '_'] || mark == seq!['~', '~'] || mark == seq![
            '`',
        ],
    ensures
        plain_text(mark + x + mark) == plain_text(x),
{
    let s = mark + x + mark;
    let x1 = without_pairs(x, '*');
    let x2 = without_pairs(x1, '_');
    let x3 = without_pairs(x2, '~');
    if mark == seq!['*', '*'] {
        lemma_pairs_around_go(x, '*');
    } else if mark == seq!['_', '_'] {
        lemma_pairs_around_stay(x, '_', '*');
        lemma_pairs_around_go(x1, '_');
    } else if mark == seq!['~', '~'] {
        lemma_pairs_around_stay(x, '~', '*');
        lemma_pairs_around_stay(x1, '~', '_');
        lemma_pairs_around_go(x2, '~');
    } else {
        lemma_around_stays(x, '`', '*');
        lemma_around_stays(x1, '`', '_');
        lemma_around_stays(x2, '`', '~');
        lemma_code_marks_around_go(x3);
    }
    assert(without_markers(s) == without_markers(x));
}

/// What stands before a link stays.
pub(crate) proof fn lemma_unlinked_after(s: Seq<char>, i: int, k: int)
    requires
        0 <= i <= k <= s.len(),
        forall|j: int| i <= j < k ==> #[trigger] s[j] != '[',
        i < k < s.len() ==> !(s[k - 1] == '!' && s[k] == '['),
    ensures
        unlinked(s, i) == s.subrange(i, k) + unlinked(s, k),
    decreases k - i,
{
    if i < k {
        assert(s[link_open(s, i)] != '[');
        lemma_unlinked_after(s, i + 1, k);
        assert(seq![s[i]] + (s.subrange(i + 1, k) + unlinked(s, k)) =~= s.subrange(i, k)
            + unlinked(s, k));
    } else {
        assert(s.subrange(i, k) + unlinked(s, k) =~= unlinked(s, k));
    }
}

/// The next occurrence of `c` is the first one.
pub(crate) proof fn lemma_next_index_is(s: Seq<char>, c: char, from: int, k: int)
    requires
        0 <= from <= k < s.len(),
        s[k] == c,
        forall|i: int| from <= i < k ==> #[trigger] s[i] != c,
    ensures
        next_index(s, c, from) == k,
    decreases k - from,
{
    if from < k {
        lemma_next_index_is(s, c, from + 1, k);
    }
}

/// The markers that are stripped wherever they stand are stripped on both sides of any other
/// character.
pub(crate) proof fn lemma_without_markers_after(a: Seq<char>, x: char, rest: Seq<char>)
    requires
        x != '*' && x != '_' && x != '~' && x != '`',
    ensures
        without_markers(a + seq![x] + rest) == without_markers(a) + seq![x] + without_markers(
            rest,
        ),
{
    lemma_pairs_after(a, x, rest, '*');
    let (a1, r1) = (without_pairs(a, '*'), without_pairs(rest, '*'));
    lemma_pairs_after(a1, x, r1, '_');
    let (a2, r2) = (without_pairs(a1, '_'), without_pairs(r1, '_'));
    lemma_pairs_after(a2, x, r2, '~');
    let (a3, r3) = (without_pairs(a2, '~'), without_pairs(r2, '~'));
    lemma_without_concat(a3 + seq![x], r3, '`');
    lemma_without_concat(a3, seq![x], '`');
    lemma_no_char(seq![x], '`');
}

/// What lacks a character lacks it without its markers.
pub(crate) proof fn lemma_without_markers_lacks(s: Seq<char>, c: char)
    requires
        lacks(s, c),
    ensures
        lacks(without_markers(s), c),
{
    let s1 = without_pairs(s, '*');
    let s2 = without_pairs(s1, '_');
    let s3 = without_pairs(s2, '~');
    lemma_pairs_remove(s, '*');
    lemma_pairs_remove(s1, '_');
    lemma_pairs_remove(s2, '~');
    lemma_char_removes(s3, '`');
    lemma_sub_lacks(s1, s, c);
    lemma_sub_lacks(s2, s1, c);
    lemma_sub_lacks(s3, s2, c);
    lemma_sub_lacks(without(s3, '`'), s3, c);
}

/// A link becomes its text when links are replaced: behind `before`, which has no bracket, stands
/// `[text](url)` or, if `image`, `![text](url)`.
proof fn lemma_link_becomes_text(
    before: Seq<char>,
    image: bool,
    w: Seq<char>,
    url: Seq<char>,
    b: Seq<char>,
)
    requires
        lacks(before, '['),
        lacks(w, ']'),
        lacks(url, ')'),
        lacks(b, '['),
        before.len() > 0 && before.last() == '!' ==> image,
    ensures
        ({
            let mark = if image {
                seq!['!']
            } else {
                seq![]
            };
            unlinked(
                before + mark + seq!['['] + w + seq![']', '('] + url + seq![')'] + b,
                0,
            ) == before + w + b
        }),
{
    let mark = if image {
        seq!['!']
    } else {
        seq![]
    };
    let s = before + mark + seq!['['] + w + seq![']', '('] + url + seq![')'] + b;
    let start = before.len() as int;
    let open = start + mark.len();
    let close = open + 1 + w.len();
    let end = close + 2 + url.len();
    assert(s[open] == '[');
    assert(s[close] == ']' && s[close + 1] == '(');
    assert(s[end] == ')');
    assert forall|i: int| 0 <= i < start implies #[trigger] s[i] != '[' by {
        assert(s[i] == before[i]);
    }
    assert forall|i: int| open + 1 <= i < close implies #[trigger] s[i] != ']' by {
        assert(s[i] == w[i - open - 1]);
    }
    assert forall|i: int| close + 2 <= i < end implies #[trigger] s[i] != ')' by {
        assert(s[i] == url[i - close - 2]);
    }
    assert forall|i: int| end + 1 <= i < s.len() implies #[trigger] s[i] != '[' by {
        assert(s[i] == b[i - end - 1]);
    }
    if start > 0 {
        assert(s[start - 1] == before.last());
    }
    if image {
        assert(s[start] == '!');
    }
    lemma_unlinked_after(s, 0, start);
    assert(link_open(s, start) == open);
    lemma_next_index_is(s, ']', open + 1, close);
    lemma_next_index_is(s, ')', close + 2, end);
    lemma_no_links(s, end + 1);
    assert(s.subrange(0, start) =~= before);
    assert(s.subrange(open + 1, close) =~= w);
    assert(s.skip(end + 1) =~= b);
    assert(before + (w + b) =~= before + w + b);
}

/// A link becomes its text: `[text](url)` becomes `text`, whatever the address and whatever text
/// is around it. (A `!` right before it would make it an image.)
pub proof fn law_link_becomes_text(
    a: Seq<char>,
    w: Seq<char>,
    url: Seq<char>,
    b: Seq<char>,
)
    requires
        is_markless(a),
        is_markless(w),
        is_markless(b),
        lacks(w, ']'),
        lacks(url, ')'),
        a.len() > 0 ==> a.last() != '!',
    ensures
        plain_text(a + seq!['['] + w + seq![']', '('] + url + seq![')'] + b) == trimmed(a + w + b),
{
    let none: Seq<char> = seq![];
    let s = a + seq!['['] + w + seq![']', '('] + url + seq![')'] + b;
    assert(s =~= a + none + seq!['['] + w + seq![']', '('] + url + seq![')'] + b);
    lemma_link_text(a, false, w, url, b);
}

/// An image becomes its text: `![text](url)` becomes `text`, whatever the address and whatever
/// text is around it.
pub proof fn law_image_becomes_text(
    a: Seq<char>,
    w: Seq<char>,
    url: Seq<char>,
    b: Seq<char>,
)
    requires
        is_markless(a),
        is_markless(w),
        is_markless(b),
        lacks(w, ']'),
        lacks(url, ')'),
    ensures
        plain_text(a + seq!['!', '['] + w + seq![']', '('] + url + seq![')'] + b) == trimmed(
            a + w + b,
        ),
{
    let s = a + seq!['!', '['] + w + seq![']', '('] + url + seq![')'] + b;
    assert(s =~= a + seq!['!'] + seq!['['] + w + seq![']', '('] + url + seq![')'] + b);
    lemma_link_text(a, true, w, url, b);
}

/// In a link among text, markers are only stripped from the address.
proof fn lemma_link_without_markers(
    head: Seq<char>,
    w: Seq<char>,
    url: Seq<char>,
    b: Seq<char>,
)
    requires
        is_markless(head),
        is_markless(w),
        is_markless(b),
    ensures
        without_markers(head + seq!['['] + w + seq![']', '('] + url + seq![')'] + b) == head
            + seq!['['] + w + seq![']', '('] + without_markers(url) + seq![')'] + b,
{
    let s = head + seq!['['] + w + seq![']', '('] + url + seq![')'] + b;
    let rest1 = w + seq![']', '('] + url + seq![')'] + b;
    let rest2 = seq!['('] + url + seq![')'] + b;
    let rest3 = url + seq![')'] + b;
    let none: Seq<char> = seq![];
    assert(s =~= head + seq!['['] + rest1);
    assert(rest1 =~= w + seq![']'] + rest2);
    assert(rest2 =~= none + seq!['('] + rest3);
    lemma_without_markers_after(head, '[', rest1);
    lemma_without_markers_after(w, ']', rest2);
    lemma_without_markers_after(none, '(', rest3);
    lemma_without_markers_after(url, ')', b);
    lemma_without_markers_same(head);
    lemma_without_markers_same(w);
    lemma_without_markers_same(none);
    lemma_without_markers_same(b);
    assert(without_markers(s) =~= head + seq!['['] + w + seq![']', '('] + without_markers(url)
        + seq![')'] + b);
}

/// The plain text of a link or an image among text.
proof fn lemma_link_text(
    a: Seq<char>,
    image: bool,
    w: Seq<char>,
    url: Seq<char>,
    b: Seq<char>,
)
    requires
        is_markless(a),
        is_markless(w),
        is_markless(b),
        lacks(w, ']'),
        lacks(url, ')'),
        a.len() > 0 && a.last() == '!' ==> image,
    ensures
        ({
            let mark = if image {
                seq!['!']
            } else {
                seq![]
            };
            plain_text(a + mark + seq!['['] + w + seq![']', '('] + url + seq![')'] + b) == trimmed(
                a + w + b,
            )
        }),
{
    let mark = if image {
        seq!['!']
    } else {
        seq![]
    };
    let s = a + mark + seq!['['] + w + seq![']', '('] + url + seq![')'] + b;
    let head = a + mark;
    let short = without_markers(url);
    let t = a + w + b;
    assert(is_markless(head));
    assert(is_markless(t));
    lemma_link_without_markers(head, w, url, b);
    lemma_without_markers_lacks(url, ')');
    lemma_link_becomes_text(a, image, w, short, b);
    lemma_no_emphasis(t, '*', 0);
    lemma_no_emphasis(t, '_', 0);
    assert(t.skip(0) =~= t);
}

/// What stands before a marker stays.
pub(crate) proof fn lemma_unmarked_after(s: Seq<char>, m: char, i: int, k: int)
    requires
        0 <= i <= k <= s.len(),
        forall|j: int| i <= j < k ==> #[trigger] s[j] != m,
    ensures
        unmarked(s, m, i) == s.subrange(i, k) + unmarked(s, m, k),
    decreases k - i,
{
    if i < k {
        assert(s[i] != m);
        lemma_unmarked_after(s, m, i + 1, k);
        assert(seq![s[i]] + (s.subrange(i + 1, k) + unmarked(s, m, k)) =~= s.subrange(i, k)
            + unmarked(s, m, k));
    } else {
        assert(s.subrange(i, k) + unmarked(s, m, k) =~= unmarked(s, m, k));
    }
}

/// The next place where emphasis can close is the first one.
proof fn lemma_next_close_is(s: Seq<char>, m: char, from: int, k: int)
    requires
        0 <= from <= k < s.len(),
        closes_emphasis(s, m, k),
        forall|i: int| from <= i < k ==> #[trigger] s[i] != m,
    ensures
        next_close(s, m, from) == k,
    decreases k - from,
{
    if from < k {
        assert(s[from] != m);
        lemma_next_close_is(s, m, from + 1, k);
    }
}

/// Emphasis among text becomes the text between its markers.
proof fn lemma_emphasis_becomes_text(a: Seq<char>, w: Seq<char>, b: Seq<char>, m: char)
    requires
        lacks(a, m),
        lacks(w, m),
        lacks(b, m),
        a.len() > 0 ==> is_white_space(a.last()) || is_opening_punctuation(a.last()),
        w.len() > 0,
        !is_white_space(w[0]),
        !is_white_space(w.last()),
        b.len() > 0 ==> !unicode_alphanumeric(b[0]),
    ensures
        unmarked(a + seq![m] + w + seq![m] + b, m, 0) == a + w + b,
{
    let s = a + seq![m] + w + seq![m] + b;
    let start = a.len() as int;
    let close = start + 1 + w.len();
    assert forall|i: int| 0 <= i < start implies #[trigger] s[i] != m by {
        assert(s[i] == a[i]);
    }
    assert forall|i: int| start + 1 <= i < close implies #[trigger] s[i] != m by {
        assert(s[i] == w[i - start - 1]);
    }
    assert forall|i: int| close + 1 <= i < s.len() implies #[trigger] s[i] != m by {
        assert(s[i] == b[i - close - 1]);
    }
    lemma_unmarked_after(s, m, 0, start);
    if start > 0 {
        assert(s[start - 1] == a.last());
    }
    assert(s[start + 1] == w[0]);
    assert(opens_emphasis(s, m, start));
    assert(s[close - 1] == w.last());
    if b.len() > 0 {
        assert(s[close + 1] == b[0]);
    }
    assert(closes_emphasis(s, m, close));
    lemma_next_close_is(s, m, start + 2, close);
    lemma_no_emphasis(s, m, close + 1);
    assert(s.subrange(0, start) =~= a);
    assert(s.subrange(start + 1, close) =~= w);
    assert(s.skip(close + 1) =~= b);
    assert(a + (w + b) =~= a + w + b);
}

/// Single markers around text are the only markup in it.
proof fn lemma_single_markers(a: Seq<char>, w: Seq<char>, b: Seq<char>, m: char, c: char)
    requires
        m == '*' || m == '_',
        is_markless(a),
        is_markless(w),
        is_markless(b),
        w.len() > 0,
    ensures
        c == '*' || c == '_' || c == '~' ==> has_no_pair(a + seq![m] + w + seq![m] + b, c),
        c == '`' || c == '[' ==> lacks(a + seq![m] + w + seq![m] + b, c),
        c != m && (c == '*' || c == '_') ==> lacks(a + seq![m] + w + seq![m] + b, c),
{
    let s = a + seq![m] + w + seq![m] + b;
    let start = a.len() as int;
    let close = start + 1 + w.len();
    assert forall|i: int| 0 <= i < s.len() && i != start && i != close implies #[trigger] s[i] != c
        || !(c == '*' || c == '_' || c == '~' || c == '`' || c == '[') by {
        if i < start {
            assert(s[i] == a[i]);
        } else if i < close {
            assert(s[i] == w[i - start - 1]);
        } else {
            assert(s[i] == b[i - close - 1]);
        }
    }
    assert(s[start] == m && s[close] == m);
}

/// Italic text: `*text*` and `_text_` become `text` at word boundaries. That is, white space, an
/// opening bracket or quote or nothing is before it, no letter or digit follows it, and the text
/// has no white space at its ends.
pub proof fn law_emphasis_markers_go(a: Seq<char>, w: Seq<char>, b: Seq<char>, m: char)
    requires
        m == '*' || m == '_',
        is_markless(a),
        is_markless(w),
        is_markless(b),
        a.len() > 0 ==> is_white_space(a.last()) || is_opening_punctuation(a.last()),
        w.len() > 0,
        !is_white_space(w[0]),
        !is_white_space(w.last()),
        b.len() > 0 ==> !unicode_alphanumeric(b[0]),
    ensures
        plain_text(a + seq![m] + w + seq![m] + b) == trimmed(a + w + b),
{
    let s = a + seq![m] + w + seq![m] + b;
    let t = a + w + b;
    assert(is_markless(t));
    lemma_single_markers(a, w, b, m, '*');
    lemma_single_markers(a, w, b, m, '_');
    lemma_single_markers(a, w, b, m, '~');
    lemma_single_markers(a, w, b, m, '`');
    lemma_single_markers(a, w, b, m, '[');
    lemma_without_markers_same(s);
    lemma_no_links(s, 0);
    lemma_emphasis_becomes_text(a, w, b, m);
    assert(s.skip(0) =~= s);
    assert(t.skip(0) =~= t);
    lemma_no_emphasis(t, '_', 0);
    if m == '_' {
        lemma_no_emphasis(s, '*', 0);
    }
}

}
