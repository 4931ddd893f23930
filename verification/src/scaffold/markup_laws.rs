//! What becomes of each kind of inline markup, whatever text follows it.

use crate::scaffold::inline::{
    closes_emphasis, has_emphasis, has_link, lemma_link, lemma_next_close, link_close, link_end,
    link_open, next_close, opens_emphasis, plain_text, unlinked, unmarked, without_markers,
};
use crate::scaffold::inline_laws::{
    is_markless, lacks, lemma_next_index_is, lemma_no_char, lemma_pairs_after,
    lemma_unlinked_after, lemma_unmarked_after, lemma_without_concat, lemma_without_markers_after,
    lemma_without_markers_lacks,
};
use crate::scaffold::markdown_laws::repeated;
use crate::text::{
    is_white_space, lemma_next_index, next_index, trimmed, unicode_alphanumeric, without,
    without_pairs,
};
use crate::text_laws::{has_bare_ends, lemma_pairs_behind};
use vstd::prelude::*;

verus! {

// ---- Links ----

/// A search goes on as it would in what is left.
proof fn lemma_next_index_shift(p: Seq<char>, s: Seq<char>, c: char, from: int)
    requires
        from >= 0,
    ensures
        next_index(p + s, c, p.len() + from) == p.len() + next_index(s, c, from),
    decreases s.len() - from,
{
    if from < s.len() {
        assert((p + s)[p.len() + from] == s[from]);
        lemma_next_index_shift(p, s, c, from + 1);
    }
}

/// Whether a link starts somewhere does not depend on what is before it.
proof fn lemma_link_shift(p: Seq<char>, s: Seq<char>, i: int)
    requires
        0 <= i < s.len(),
    ensures
        link_open(p + s, p.len() + i) == p.len() + link_open(s, i),
        link_close(p + s, p.len() + i) == p.len() + link_close(s, i),
        link_end(p + s, p.len() + i) == p.len() + link_end(s, i),
        has_link(p + s, p.len() + i) == has_link(s, i),
{
    let all = p + s;
    assert(all[p.len() + i] == s[i]);
    if i + 1 < s.len() {
        assert(all[p.len() + i + 1] == s[i + 1]);
    }
    let open = link_open(s, i);
    assert(all[p.len() + open] == s[open]);
    lemma_next_index_shift(p, s, ']', open + 1);
    let close = link_close(s, i);
    lemma_next_index(s, ']', open + 1);
    lemma_next_index_shift(p, s, ')', close + 2);
    if close + 1 < s.len() {
        assert(all[p.len() + close + 1] == s[close + 1]);
    }
}

/// Links are replaced in what is left as they would be in it alone.
proof fn lemma_unlinked_shift(p: Seq<char>, s: Seq<char>, i: int)
    requires
        0 <= i <= s.len(),
    ensures
        unlinked(p + s, p.len() + i) == unlinked(s, i),
    decreases s.len() - i,
{
    if i < s.len() {
        lemma_link_shift(p, s, i);
        if has_link(s, i) {
            lemma_link(s, i);
            let (open, close, end) = (link_open(s, i), link_close(s, i), link_end(s, i));
            lemma_unlinked_shift(p, s, end + 1);
            assert((p + s).subrange(p.len() + open + 1, p.len() + close) =~= s.subrange(
                open + 1,
                close,
            ));
        } else {
            lemma_unlinked_shift(p, s, i + 1);
            assert((p + s)[p.len() + i] == s[i]);
        }
    }
}

/// Text before a link stays.
proof fn lemma_text_before_link(a: Seq<char>, rest: Seq<char>)
    requires
        lacks(a, '['),
        a.len() > 0 && a.last() == '!' && rest.len() > 0 ==> rest[0] != '[',
    ensures
        unlinked(a + rest, 0) == a + unlinked(rest, 0),
{
    let s = a + rest;
    let k = a.len() as int;
    assert forall|j: int| 0 <= j < k implies #[trigger] s[j] != '[' by {
        assert(s[j] == a[j]);
    }
    if 0 < k < s.len() {
        assert(s[k - 1] == a.last() && s[k] == rest[0]);
    }
    lemma_unlinked_after(s, 0, k);
    lemma_unlinked_shift(a, rest, 0);
    assert(s.subrange(0, k) =~= a);
}

/// A link or an image as it is written.
pub open spec fn link_text(w: Seq<char>, url: Seq<char>) -> Seq<char> {
    seq!['['] + w + seq![']', '('] + url + seq![')']
}

/// A link at the start becomes its text, and the rest is read on.
proof fn lemma_link_at_start(image: bool, w: Seq<char>, url: Seq<char>, rest: Seq<char>)
    requires
        lacks(w, ']'),
        lacks(url, ')'),
    ensures
        ({
            let mark = if image {
                seq!['!']
            } else {
                seq![]
            };
            unlinked(mark + link_text(w, url) + rest, 0) == w + unlinked(rest, 0)
        }),
{
    let mark = if image {
        seq!['!']
    } else {
        seq![]
    };
    let link = mark + link_text(w, url);
    let s = link + rest;
    let open = mark.len() as int;
    let close = open + 1 + w.len();
    let end = close + 2 + url.len();
    assert(s[open] == '[' && s[close] == ']' && s[close + 1] == '(' && s[end] == ')');
    assert forall|i: int| open + 1 <= i < close implies #[trigger] s[i] != ']' by {
        assert(s[i] == w[i - open - 1]);
    }
    assert forall|i: int| close + 2 <= i < end implies #[trigger] s[i] != ')' by {
        assert(s[i] == url[i - close - 2]);
    }
    if image {
        assert(s[0] == '!');
    }
    assert(link_open(s, 0) == open);
    lemma_next_index_is(s, ']', open + 1, close);
    lemma_next_index_is(s, ')', close + 2, end);
    assert(has_link(s, 0));
    lemma_unlinked_shift(link, rest, 0);
    assert(s.subrange(open + 1, close) =~= w);
}

/// Every link becomes its text, however many there are: `[text](url)` behind text without a bracket
/// goes down to `text`, and whatever follows is read as it would be alone. (A `!` right before it
/// would make it an image.)
pub proof fn law_link_then_rest(a: Seq<char>, w: Seq<char>, url: Seq<char>, rest: Seq<char>)
    requires
        lacks(a, '['),
        a.len() > 0 ==> a.last() != '!',
        lacks(w, ']'),
        lacks(url, ')'),
    ensures
        unlinked(a + link_text(w, url) + rest, 0) == a + w + unlinked(rest, 0),
{
    let none: Seq<char> = seq![];
    let tail = link_text(w, url) + rest;
    assert(a + link_text(w, url) + rest =~= a + tail);
    assert(none + link_text(w, url) + rest =~= tail);
    lemma_text_before_link(a, tail);
    lemma_link_at_start(false, w, url, rest);
    assert(a + (w + unlinked(rest, 0)) =~= a + w + unlinked(rest, 0));
}

/// Every image becomes its text, however many there are: `![text](url)` behind text without a
/// bracket goes down to `text`, and whatever follows is read as it would be alone.
pub proof fn law_image_then_rest(a: Seq<char>, w: Seq<char>, url: Seq<char>, rest: Seq<char>)
    requires
        lacks(a, '['),
        lacks(w, ']'),
        lacks(url, ')'),
    ensures
        unlinked(a + seq!['!'] + link_text(w, url) + rest, 0) == a + w + unlinked(rest, 0),
{
    let tail = seq!['!'] + link_text(w, url) + rest;
    assert(a + seq!['!'] + link_text(w, url) + rest =~= a + tail);
    lemma_text_before_link(a, tail);
    lemma_link_at_start(true, w, url, rest);
    assert(a + (w + unlinked(rest, 0)) =~= a + w + unlinked(rest, 0));
}

/// Whether `tail` goes on behind a `[` in a way that makes no link: no `]` follows, or the first
/// one is not followed by `(`, or no `)` follows that.
pub open spec fn closes_no_link(tail: Seq<char>) -> bool {
    forall|k: int|
        0 <= k < tail.len() - 1 && #[trigger] tail[k] == ']' && tail[k + 1] == '(' && lacks(
            tail.take(k),
            ']',
        ) ==> lacks(tail.skip(k + 2), ')')
}

/// A bracket that opens no link stays, and so does a `!` before it; what follows is read on.
pub proof fn law_other_bracket_stays(a: Seq<char>, tail: Seq<char>)
    requires
        lacks(a, '['),
        closes_no_link(tail),
    ensures
        unlinked(a + seq!['['] + tail, 0) == a + seq!['['] + unlinked(tail, 0),
{
    let rest = seq!['['] + tail;
    let s = a + rest;
    let close = next_index(rest, ']', 1);
    lemma_next_index(rest, ']', 1);
    assert(link_open(rest, 0) == 0);
    assert(!has_link(rest, 0)) by {
        if has_link(rest, 0) {
            let k = close - 1;
            let end = next_index(rest, ')', close + 2);
            assert(tail[k] == rest[close] && tail[k + 1] == rest[close + 1]);
            assert forall|j: int| 0 <= j < k implies #[trigger] tail.take(k)[j] != ']' by {
                assert(tail.take(k)[j] == rest[j + 1]);
            }
            lemma_next_index(rest, ')', close + 2);
            assert(tail.skip(k + 2)[end - close - 2] == rest[end]);
        }
    }
    lemma_unlinked_shift(seq!['['], tail, 0);
    assert(unlinked(rest, 0) == seq!['['] + unlinked(tail, 0));
    assert(a + seq!['['] + tail =~= s);
    if a.len() > 0 && a.last() == '!' {
        let b = a.drop_last();
        let bang = seq!['!'] + rest;
        assert forall|j: int| 0 <= j < b.len() implies #[trigger] b[j] != '[' by {
            assert(b[j] == a[j]);
        }
        assert(s =~= b + bang);
        lemma_text_before_link(b, bang);
        lemma_link_shift(seq!['!'], rest, 0);
        assert(link_open(bang, 0) == 1 && link_open(bang, 1) == 1);
        assert(!has_link(bang, 0));
        lemma_unlinked_shift(seq!['!'], rest, 0);
        assert(b + (seq!['!'] + (seq!['['] + unlinked(tail, 0))) =~= a + seq!['['] + unlinked(
            tail,
            0,
        ));
    } else {
        lemma_text_before_link(a, rest);
        assert(a + (seq!['['] + unlinked(tail, 0)) =~= a + seq!['['] + unlinked(tail, 0));
    }
}

/// Text without a bracket has no links.
pub proof fn law_no_bracket_no_link(a: Seq<char>)
    requires
        lacks(a, '['),
    ensures
        unlinked(a, 0) == a,
{
    let none: Seq<char> = seq![];
    lemma_text_before_link(a, none);
    assert(a + none =~= a);
    assert(a + unlinked(none, 0) =~= a);
}

/// A link has the plain text of its text, whatever markup there is in it.
pub proof fn law_link_is_its_text(w: Seq<char>, url: Seq<char>)
    requires
        lacks(w, ']'),
        lacks(url, ')'),
    ensures
        plain_text(link_text(w, url)) == plain_text(w),
        plain_text(seq!['!'] + link_text(w, url)) == plain_text(w),
{
    let none: Seq<char> = seq![];
    let bang = seq!['!'];
    let (short_w, short_url) = (without_markers(w), without_markers(url));
    lemma_link_markers(none, w, url, none);
    lemma_link_markers(bang, w, url, none);
    lemma_without_markers_lacks(w, ']');
    lemma_without_markers_lacks(url, ')');
    assert(without_markers(none) =~= none) by {
        assert(without(none, '`') =~= none);
    }
    assert(without_markers(bang) =~= bang) by {
        lemma_without_markers_after(none, '!', none);
        assert(none + bang + none =~= bang);
    }
    lemma_link_at_start(false, short_w, short_url, none);
    lemma_link_at_start(true, short_w, short_url, none);
    assert(none + link_text(w, url) + none =~= link_text(w, url));
    assert(none + link_text(short_w, short_url) + none =~= link_text(short_w, short_url));
    assert(bang + link_text(w, url) + none =~= bang + link_text(w, url));
    assert(bang + link_text(short_w, short_url) + none =~= bang + link_text(short_w, short_url));
    assert(short_w + none =~= short_w);
    lemma_no_close_no_link(short_w, 0);
    assert(short_w.skip(0) =~= short_w);
}

/// Text without `]` has no links.
proof fn lemma_no_close_no_link(s: Seq<char>, i: int)
    requires
        0 <= i <= s.len(),
        lacks(s, ']'),
    ensures
        unlinked(s, i) == s.skip(i),
    decreases s.len() - i,
{
    if i < s.len() {
        lemma_next_index(s, ']', link_open(s, i) + 1);
        assert(!has_link(s, i));
        lemma_no_close_no_link(s, i + 1);
        assert(seq![s[i]] + s.skip(i + 1) =~= s.skip(i));
    } else {
        assert(s.skip(i) =~= seq![]);
    }
}

/// The markers that are stripped wherever they stand are stripped in each part of a link.
proof fn lemma_link_markers(a: Seq<char>, w: Seq<char>, url: Seq<char>, rest: Seq<char>)
    ensures
        without_markers(a + link_text(w, url) + rest) == without_markers(a) + link_text(
            without_markers(w),
            without_markers(url),
        ) + without_markers(rest),
{
    let none: Seq<char> = seq![];
    let r1 = w + seq![']', '('] + url + seq![')'] + rest;
    let r2 = seq!['('] + url + seq![')'] + rest;
    let r3 = url + seq![')'] + rest;
    assert(a + link_text(w, url) + rest =~= a + seq!['['] + r1);
    assert(r1 =~= w + seq![']'] + r2);
    assert(r2 =~= none + seq!['('] + r3);
    lemma_without_markers_after(a, '[', r1);
    lemma_without_markers_after(w, ']', r2);
    lemma_without_markers_after(none, '(', r3);
    lemma_without_markers_after(url, ')', rest);
    assert(without_markers(none) =~= none);
    assert(without_markers(a + link_text(w, url) + rest) =~= without_markers(a) + link_text(
        without_markers(w),
        without_markers(url),
    ) + without_markers(rest));
}

// ---- Emphasis ----

/// Whether emphasis may start behind `c`: behind white space, and behind an opening bracket, an
/// opening quote or a middle dot.
pub open spec fn is_word_start(c: char) -> bool {
    ||| is_white_space(c)
    ||| c == '(' || c == '[' || c == '{' || c == '"' || c == '\'' || c == '「' || c == '（'
        || c == '·'
}

/// Whether `a` lets emphasis start behind it: it is empty or ends where a word may start.
pub open spec fn ends_at_word_start(a: Seq<char>) -> bool {
    a.len() > 0 ==> is_word_start(a[a.len() - 1])
}

/// Whether the marker `m` at index `j` of `s` closes no emphasis: white space is before it, or a
/// letter or digit behind it.
pub open spec fn is_no_close(s: Seq<char>, j: int) -> bool {
    is_white_space(s[j - 1]) || (j + 1 < s.len() && unicode_alphanumeric(s[j + 1]))
}

/// The next close is found as it would be in what is left.
proof fn lemma_next_close_shift(p: Seq<char>, s: Seq<char>, m: char, from: int)
    requires
        from >= 1,
    ensures
        next_close(p + s, m, p.len() + from) == p.len() + next_close(s, m, from),
    decreases s.len() - from,
{
    if from < s.len() {
        let all = p + s;
        let k = p.len() + from;
        assert(all[k] == s[from] && all[k - 1] == s[from - 1]);
        if from + 1 < s.len() {
            assert(all[k + 1] == s[from + 1]);
        }
        lemma_next_close_shift(p, s, m, from + 1);
    }
}

/// Emphasis is replaced in what is left as it would be in it alone.
proof fn lemma_unmarked_shift(p: Seq<char>, s: Seq<char>, m: char, i: int)
    requires
        0 <= i <= s.len(),
        i > 0 || s.len() == 0 || s[0] != m || ends_at_word_start(p),
    ensures
        unmarked(p + s, m, p.len() + i) == unmarked(s, m, i),
    decreases s.len() - i,
{
    if i < s.len() {
        let all = p + s;
        let k = p.len() + i;
        assert(all[k] == s[i]);
        if i > 0 {
            assert(all[k - 1] == s[i - 1]);
        } else if p.len() > 0 {
            assert(all[k - 1] == p[p.len() - 1]);
        }
        if i + 1 < s.len() {
            assert(all[k + 1] == s[i + 1]);
        }
        lemma_next_close_shift(p, s, m, i + 2);
        assert(has_emphasis(all, m, k) == has_emphasis(s, m, i));
        if has_emphasis(s, m, i) {
            lemma_next_close(s, m, i + 2);
            let close = next_close(s, m, i + 2);
            lemma_unmarked_shift(p, s, m, close + 1);
            assert(all.subrange(k + 1, p.len() + close) =~= s.subrange(i + 1, close));
        } else {
            lemma_unmarked_shift(p, s, m, i + 1);
        }
    }
}

/// Text before a marker stays.
proof fn lemma_text_before_marker(a: Seq<char>, rest: Seq<char>, m: char)
    requires
        lacks(a, m),
        rest.len() == 0 || rest[0] != m || ends_at_word_start(a),
    ensures
        unmarked(a + rest, m, 0) == a + unmarked(rest, m, 0),
{
    let s = a + rest;
    let k = a.len() as int;
    assert forall|j: int| 0 <= j < k implies #[trigger] s[j] != m by {
        assert(s[j] == a[j]);
    }
    lemma_unmarked_after(s, m, 0, k);
    lemma_unmarked_shift(a, rest, m, 0);
    assert(s.subrange(0, k) =~= a);
}

/// The next close is the first place that closes.
proof fn lemma_first_close(s: Seq<char>, m: char, from: int, k: int)
    requires
        0 <= from <= k <= s.len(),
        k < s.len() ==> closes_emphasis(s, m, k),
        forall|i: int| from <= i < k ==> !#[trigger] closes_emphasis(s, m, i),
    ensures
        next_close(s, m, from) == k,
    decreases k - from,
{
    if from < k {
        assert(!closes_emphasis(s, m, from));
        lemma_first_close(s, m, from + 1, k);
    }
}

/// Markers that open nothing stay.
proof fn lemma_unopened(s: Seq<char>, m: char, i: int, k: int)
    requires
        0 <= i <= k <= s.len(),
        forall|j: int| i <= j < k ==> !#[trigger] has_emphasis(s, m, j),
    ensures
        unmarked(s, m, i) == s.subrange(i, k) + unmarked(s, m, k),
    decreases k - i,
{
    if i < k {
        assert(!has_emphasis(s, m, i));
        lemma_unopened(s, m, i + 1, k);
        assert(seq![s[i]] + (s.subrange(i + 1, k) + unmarked(s, m, k)) =~= s.subrange(i, k)
            + unmarked(s, m, k));
    } else {
        assert(s.subrange(i, k) + unmarked(s, m, k) =~= unmarked(s, m, k));
    }
}

/// Every span of emphasis becomes its text, however many there are: a marker where a word may
/// start, text without white space at its ends, and the first marker behind it that white space
/// does not precede and no letter or digit follows. Whatever comes then is read as it would be
/// alone.
pub proof fn law_emphasis_then_rest(a: Seq<char>, w: Seq<char>, rest: Seq<char>, m: char)
    requires
        lacks(a, m),
        ends_at_word_start(a),
        w.len() > 0,
        has_bare_ends(w),
        w[0] != m,
        w[w.len() - 1] != m,
        forall|j: int| 1 <= j < w.len() && #[trigger] w[j] == m ==> is_no_close(w, j),
        rest.len() > 0 ==> rest[0] != m && !unicode_alphanumeric(rest[0]),
    ensures
        unmarked(a + seq![m] + w + seq![m] + rest, m, 0) == a + w + unmarked(rest, m, 0),
{
    let span = seq![m] + w + seq![m];
    let s = span + rest;
    let close = 1 + w.len() as int;
    assert(s[0] == m && s[1] == w[0] && s[close] == m && s[close - 1] == w[w.len() - 1]);
    assert(opens_emphasis(s, m, 0));
    if rest.len() > 0 {
        assert(s[close + 1] == rest[0]);
    }
    assert(closes_emphasis(s, m, close));
    assert forall|i: int| 2 <= i < close implies !#[trigger] closes_emphasis(s, m, i) by {
        assert(s[i] == w[i - 1] && s[i - 1] == w[i - 2]);
        if w[i - 1] == m {
            assert(is_no_close(w, i - 1));
            if i < w.len() {
                assert(s[i + 1] == w[i]);
            }
        }
    }
    lemma_first_close(s, m, 2, close);
    lemma_unmarked_shift(span, rest, m, 0);
    assert(s.subrange(1, close) =~= w);
    assert(a + seq![m] + w + seq![m] + rest =~= a + s);
    lemma_text_before_marker(a, s, m);
    assert(a + (w + unmarked(rest, m, 0)) =~= a + w + unmarked(rest, m, 0));
}

/// A marker inside or at the end of a word stays, and so do several in a row wherever they stand;
/// what follows is read on.
pub proof fn law_marker_in_word_stays(a: Seq<char>, k: nat, rest: Seq<char>, m: char)
    requires
        m == '*' || m == '_',
        lacks(a, m),
        k >= 2 || (k == 1 && a.len() > 0 && !is_word_start(a[a.len() - 1])),
        rest.len() > 0 ==> rest[0] != m,
    ensures
        unmarked(a + repeated(m, k) + rest, m, 0) == a + repeated(m, k) + unmarked(rest, m, 0),
{
    let s = a + repeated(m, k) + rest;
    let n = a.len() as int;
    let end = n + k;
    assert forall|j: int| 0 <= j < end implies !#[trigger] has_emphasis(s, m, j) by {
        if j < n {
            assert(s[j] == a[j]);
        } else {
            if j > n {
                assert(s[j - 1] == m);
            } else if n > 0 {
                assert(s[j - 1] == a[n - 1]);
            }
            if j + 1 < end {
                assert(s[j + 1] == m);
            }
        }
    }
    lemma_unopened(s, m, 0, end);
    let head = a + repeated(m, k);
    assert(s.subrange(0, end) =~= head);
    lemma_unmarked_shift(head, rest, m, 0);
}

/// A marker with no text behind it stays: white space follows, or nothing.
pub proof fn law_marker_before_space_stays(a: Seq<char>, rest: Seq<char>, m: char)
    requires
        m == '*' || m == '_',
        lacks(a, m),
        rest.len() > 0 ==> is_white_space(rest[0]),
    ensures
        unmarked(a + seq![m] + rest, m, 0) == a + seq![m] + unmarked(rest, m, 0),
{
    let s = a + seq![m] + rest;
    let n = a.len() as int;
    assert forall|j: int| 0 <= j < n + 1 implies !#[trigger] has_emphasis(s, m, j) by {
        if j < n {
            assert(s[j] == a[j]);
        } else if rest.len() > 0 {
            assert(s[j + 1] == rest[0]);
        }
    }
    lemma_unopened(s, m, 0, n + 1);
    let head = a + seq![m];
    assert(s.subrange(0, n + 1) =~= head);
    assert(!is_white_space(m));
    lemma_unmarked_shift(head, rest, m, 0);
}

/// A marker that nothing closes stays; what follows is read on.
pub proof fn law_unclosed_marker_stays(a: Seq<char>, rest: Seq<char>, m: char)
    requires
        m == '*' || m == '_',
        lacks(a, m),
        rest.len() > 0,
        rest[0] != m,
        forall|j: int| 1 <= j < rest.len() && #[trigger] rest[j] == m ==> is_no_close(rest, j),
    ensures
        unmarked(a + seq![m] + rest, m, 0) == a + seq![m] + unmarked(rest, m, 0),
{
    let s = a + seq![m] + rest;
    let n = a.len() as int;
    assert forall|i: int| n + 2 <= i < s.len() implies !#[trigger] closes_emphasis(s, m, i) by {
        let j = i - n - 1;
        assert(s[i] == rest[j] && s[i - 1] == rest[j - 1]);
        if rest[j] == m {
            assert(is_no_close(rest, j));
            if j + 1 < rest.len() {
                assert(s[i + 1] == rest[j + 1]);
            }
        }
    }
    lemma_first_close(s, m, n + 2, s.len() as int);
    assert forall|j: int| 0 <= j < n + 1 implies !#[trigger] has_emphasis(s, m, j) by {
        if j < n {
            assert(s[j] == a[j]);
        }
    }
    lemma_unopened(s, m, 0, n + 1);
    let head = a + seq![m];
    assert(s.subrange(0, n + 1) =~= head);
    lemma_unmarked_shift(head, rest, m, 0);
}

/// Text without the marker has no emphasis of it.
pub proof fn law_no_marker_no_emphasis(a: Seq<char>, m: char)
    requires
        lacks(a, m),
    ensures
        unmarked(a, m, 0) == a,
{
    let none: Seq<char> = seq![];
    lemma_text_before_marker(a, none, m);
    assert(a + none =~= a);
    assert(a + unmarked(none, m, 0) =~= a);
}

// ---- Texts made of pieces ----

/// A piece of marked-up text.
pub enum Piece {
    /// Text.
    Plain(Seq<char>),
    /// Bold or struck text between two doubled markers.
    Doubled(char, Seq<char>),
    /// Code between two code markers.
    Code(Seq<char>),
    /// A link: its text and its address.
    Link(Seq<char>, Seq<char>),
    /// An image: its text and its address.
    Image(Seq<char>, Seq<char>),
    /// Italic text between two markers.
    Slanted(char, Seq<char>),
}

/// The text of a piece.
pub open spec fn bare(piece: Piece) -> Seq<char> {
    match piece {
        Piece::Plain(t) => t,
        Piece::Doubled(_, t) => t,
        Piece::Code(t) => t,
        Piece::Link(t, _) => t,
        Piece::Image(t, _) => t,
        Piece::Slanted(_, t) => t,
    }
}

/// A piece as it is written.
pub open spec fn marked(piece: Piece) -> Seq<char> {
    match piece {
        Piece::Plain(t) => t,
        Piece::Doubled(m, t) => seq![m, m] + t + seq![m, m],
        Piece::Code(t) => seq!['`'] + t + seq!['`'],
        Piece::Link(t, url) => link_text(t, url),
        Piece::Image(t, url) => seq!['!'] + link_text(t, url),
        Piece::Slanted(m, t) => seq![m] + t + seq![m],
    }
}

/// The texts of pieces, in a row.
pub open spec fn all_bare(pieces: Seq<Piece>) -> Seq<char>
    decreases pieces.len(),
{
    if pieces.len() == 0 {
        seq![]
    } else {
        bare(pieces[0]) + all_bare(pieces.skip(1))
    }
}

/// Pieces as they are written, in a row.
pub open spec fn all_marked(pieces: Seq<Piece>) -> Seq<char>
    decreases pieces.len(),
{
    if pieces.len() == 0 {
        seq![]
    } else {
        marked(pieces[0]) + all_marked(pieces.skip(1))
    }
}

/// Whether a piece is well made: its text has no markup, its marker is one of its kind, and what
/// closes it does not stand in it.
pub open spec fn is_sound_piece(piece: Piece) -> bool {
    &&& is_markless(bare(piece))
    &&& match piece {
        Piece::Plain(_) => true,
        Piece::Doubled(m, _) => m == '*' || m == '_' || m == '~',
        Piece::Code(_) => true,
        Piece::Link(t, url) => lacks(t, ']') && lacks(url, ')'),
        Piece::Image(t, url) => lacks(t, ']') && lacks(url, ')'),
        Piece::Slanted(m, t) => (m == '*' || m == '_') && t.len() > 0 && has_bare_ends(t),
    }
}

/// Whether a piece may stand between its neighbours: no `!` before a link, and italic text between
/// plain text where words start and end.
pub open spec fn fits(pieces: Seq<Piece>, k: int) -> bool {
    &&& pieces[k] is Link && k > 0 ==> {
        let before = bare(pieces[k - 1]);
        before.len() > 0 && before[before.len() - 1] != '!'
    }
    &&& pieces[k] is Slanted ==> {
        &&& k > 0 ==> {
            let before = bare(pieces[k - 1]);
            pieces[k - 1] is Plain && before.len() > 0 && ends_at_word_start(before)
        }
        &&& k < pieces.len() - 1 ==> {
            let behind = bare(pieces[k + 1]);
            pieces[k + 1] is Plain && behind.len() > 0 && !unicode_alphanumeric(behind[0])
        }
    }
}

/// Whether pieces are well made and fit together.
pub open spec fn are_sound_pieces(pieces: Seq<Piece>) -> bool {
    &&& forall|k: int| 0 <= k < pieces.len() ==> is_sound_piece(#[trigger] pieces[k])
    &&& forall|k: int| 0 <= k < pieces.len() ==> #[trigger] fits(pieces, k)
}

/// An address after some of the markers are stripped from it.
spec fn url_at(url: Seq<char>, stage: int) -> Seq<char> {
    let u1 = without_pairs(url, '*');
    let u2 = without_pairs(u1, '_');
    let u3 = without_pairs(u2, '~');
    if stage <= 0 {
        url
    } else if stage == 1 {
        u1
    } else if stage == 2 {
        u2
    } else if stage == 3 {
        u3
    } else {
        without(u3, '`')
    }
}

/// A piece after some steps: `**`, `__`, `~~`, code markers, links, `*` and `_` are stripped in
/// turn.
spec fn piece_at(piece: Piece, stage: int) -> Seq<char> {
    match piece {
        Piece::Plain(t) => t,
        Piece::Doubled(m, t) => if stage >= (if m == '*' {
            1int
        } else if m == '_' {
            2
        } else {
            3
        }) {
            t
        } else {
            marked(piece)
        },
        Piece::Code(t) => if stage >= 4 {
            t
        } else {
            marked(piece)
        },
        Piece::Link(t, url) => if stage >= 5 {
            t
        } else {
            link_text(t, url_at(url, stage))
        },
        Piece::Image(t, url) => if stage >= 5 {
            t
        } else {
            seq!['!'] + link_text(t, url_at(url, stage))
        },
        Piece::Slanted(m, t) => if stage >= (if m == '*' {
            6int
        } else {
            7
        }) {
            t
        } else {
            marked(piece)
        },
    }
}

/// Pieces after some steps, in a row.
spec fn all_at(pieces: Seq<Piece>, stage: int) -> Seq<char>
    decreases pieces.len(),
{
    if pieces.len() == 0 {
        seq![]
    } else {
        piece_at(pieces[0], stage) + all_at(pieces.skip(1), stage)
    }
}

/// Pieces without the first one are well made.
proof fn lemma_sound_rest(pieces: Seq<Piece>)
    requires
        are_sound_pieces(pieces),
        pieces.len() > 0,
    ensures
        are_sound_pieces(pieces.skip(1)),
        is_sound_piece(pieces[0]),
        fits(pieces, 0),
        pieces.len() > 1 ==> fits(pieces, 1) && is_sound_piece(pieces[1]),
{
    let rest = pieces.skip(1);
    assert forall|k: int| 0 <= k < rest.len() implies is_sound_piece(#[trigger] rest[k]) by {
        assert(rest[k] == pieces[k + 1]);
    }
    assert forall|k: int| 0 <= k < rest.len() implies #[trigger] fits(rest, k) by {
        assert(fits(pieces, k + 1));
        assert(rest[k] == pieces[k + 1]);
        if k > 0 {
            assert(rest[k - 1] == pieces[k]);
        }
        if k < rest.len() - 1 {
            assert(rest[k + 1] == pieces[k + 2]);
        }
    }
    assert(is_sound_piece(pieces[0]));
    if pieces.len() > 1 {
        assert(is_sound_piece(pieces[1]));
        assert(fits(pieces, 1));
    }
}

/// Doubled markers around text go.
proof fn lemma_doubled_pairs(t: Seq<char>, r: Seq<char>, c: char)
    requires
        lacks(t, c),
    ensures
        without_pairs(seq![c, c] + t + seq![c, c] + r, c) == t + without_pairs(r, c),
{
    let s = seq![c, c] + t + seq![c, c] + r;
    let tail = seq![c, c] + r;
    assert(s.skip(2) =~= t + tail);
    lemma_pairs_behind(t, tail, c);
    assert(tail.skip(2) =~= r);
}

/// Single markers around text stay.
proof fn lemma_single_pairs(t: Seq<char>, r: Seq<char>, c: char)
    requires
        lacks(t, c),
        t.len() > 0,
        r.len() > 0 ==> r[0] != c,
    ensures
        without_pairs(seq![c] + t + seq![c] + r, c) == seq![c] + t + seq![c] + without_pairs(r, c),
{
    let s = seq![c] + t + seq![c] + r;
    let tail = seq![c] + r;
    assert(tail.skip(1) =~= r);
    assert(s.skip(1) =~= t + tail);
    lemma_pairs_behind(t, tail, c);
    assert(s[1] == t[0]);
    assert(without_pairs(s, c) =~= seq![c] + t + seq![c] + without_pairs(r, c));
}

/// One step over doubled markers, of one piece.
proof fn lemma_pairs_of_piece(piece: Piece, r: Seq<char>, c: char, stage: int)
    requires
        is_sound_piece(piece),
        (c == '*' && stage == 0) || (c == '_' && stage == 1) || (c == '~' && stage == 2),
        piece is Slanted && r.len() > 0 ==> r[0] != c,
    ensures
        without_pairs(piece_at(piece, stage) + r, c) == piece_at(piece, stage + 1) + without_pairs(
            r,
            c,
        ),
{
    match piece {
        Piece::Doubled(m, t) => {
            if m == c {
                lemma_doubled_pairs(t, r, c);
            } else {
                lemma_pairs_behind(piece_at(piece, stage), r, c);
            }
        },
        Piece::Slanted(m, t) => {
            if m == c {
                lemma_single_pairs(t, r, c);
            } else {
                lemma_pairs_behind(marked(piece), r, c);
            }
        },
        Piece::Link(t, url) => {
            lemma_link_pairs(t, url_at(url, stage), r, c);
        },
        Piece::Image(t, url) => {
            let u = url_at(url, stage);
            let q = without_pairs(r, c);
            lemma_link_pairs(t, u, r, c);
            let link = link_text(t, u) + r;
            assert(piece_at(piece, stage) + r =~= seq!['!'] + link);
            lemma_pairs_behind(seq!['!'], link, c);
            assert(seq!['!'] + (link_text(t, without_pairs(u, c)) + q) =~= seq!['!'] + link_text(
                t,
                without_pairs(u, c),
            ) + q);
        },
        _ => {
            lemma_pairs_behind(marked(piece), r, c);
        },
    }
}

/// One step over doubled markers.
proof fn lemma_pairs_step(pieces: Seq<Piece>, c: char, stage: int)
    requires
        are_sound_pieces(pieces),
        (c == '*' && stage == 0) || (c == '_' && stage == 1) || (c == '~' && stage == 2),
    ensures
        without_pairs(all_at(pieces, stage), c) == all_at(pieces, stage + 1),
    decreases pieces.len(),
{
    if pieces.len() > 0 {
        lemma_sound_rest(pieces);
        let rest = pieces.skip(1);
        lemma_pairs_step(rest, c, stage);
        if pieces[0] is Slanted && rest.len() > 0 {
            assert(rest[0] == pieces[1]);
            assert(all_at(rest, stage)[0] == bare(rest[0])[0]);
        }
        lemma_pairs_of_piece(pieces[0], all_at(rest, stage), c, stage);
    }
}

/// Doubled markers are stripped from the address of a link.
proof fn lemma_link_pairs(t: Seq<char>, url: Seq<char>, rest: Seq<char>, c: char)
    requires
        is_markless(t),
        c == '*' || c == '_' || c == '~',
    ensures
        without_pairs(link_text(t, url) + rest, c) == link_text(t, without_pairs(url, c))
            + without_pairs(rest, c),
{
    let head = seq!['['] + t + seq![']', '('];
    let tail = url + seq![')'] + rest;
    assert(link_text(t, url) + rest =~= head + tail);
    lemma_pairs_behind(head, tail, c);
    lemma_pairs_after(url, ')', rest, c);
    assert(without_pairs(link_text(t, url) + rest, c) =~= link_text(t, without_pairs(url, c))
        + without_pairs(rest, c));
}

/// The step over code markers.
proof fn lemma_code_step(pieces: Seq<Piece>)
    requires
        are_sound_pieces(pieces),
    ensures
        without(all_at(pieces, 3), '`') == all_at(pieces, 4),
    decreases pieces.len(),
{
    let none: Seq<char> = seq![];
    if pieces.len() > 0 {
        lemma_sound_rest(pieces);
        lemma_code_step(pieces.skip(1));
        let piece = pieces[0];
        lemma_without_concat(piece_at(piece, 3), all_at(pieces.skip(1), 3), '`');
        match piece {
            Piece::Code(t) => {
                lemma_without_concat(seq!['`'] + t, seq!['`'], '`');
                lemma_without_concat(seq!['`'], t, '`');
                lemma_no_char(t, '`');
                assert(without(seq!['`'], '`') =~= none) by {
                    reveal_with_fuel(without, 2);
                    assert(seq!['`'].drop_last() =~= none);
                }
                assert(none + t + none =~= t);
            },
            Piece::Link(t, url) => {
                lemma_link_code(t, url_at(url, 3));
            },
            Piece::Image(t, url) => {
                lemma_link_code(t, url_at(url, 3));
                lemma_without_concat(seq!['!'], link_text(t, url_at(url, 3)), '`');
                lemma_no_char(seq!['!'], '`');
            },
            _ => {
                lemma_no_char(piece_at(piece, 3), '`');
            },
        }
    }
}

/// Code markers are stripped from the address of a link.
proof fn lemma_link_code(t: Seq<char>, url: Seq<char>)
    requires
        is_markless(t),
    ensures
        without(link_text(t, url), '`') == link_text(t, without(url, '`')),
{
    let head = seq!['['] + t + seq![']', '('];
    lemma_without_concat(head + url, seq![')'], '`');
    lemma_without_concat(head, url, '`');
    lemma_no_char(head, '`');
    lemma_no_char(seq![')'], '`');
}

/// An address keeps lacking a character.
proof fn lemma_url_lacks(url: Seq<char>, c: char)
    requires
        lacks(url, c),
    ensures
        lacks(url_at(url, 4), c),
{
    lemma_without_markers_lacks(url, c);
    assert(url_at(url, 4) == without_markers(url));
}

/// The step over links, behind text `a`.
proof fn lemma_links_step(a: Seq<char>, pieces: Seq<Piece>)
    requires
        are_sound_pieces(pieces),
        lacks(a, '['),
        pieces.len() > 0 && pieces[0] is Link && a.len() > 0 ==> a.last() != '!',
    ensures
        unlinked(a + all_at(pieces, 4), 0) == a + all_at(pieces, 5),
    decreases pieces.len(),
{
    let none: Seq<char> = seq![];
    if pieces.len() == 0 {
        law_no_bracket_no_link(a);
        assert(a + none =~= a);
    } else {
        lemma_sound_rest(pieces);
        let rest = pieces.skip(1);
        let r = all_at(rest, 4);
        let q = all_at(rest, 5);
        let piece = pieces[0];
        if rest.len() > 0 {
            assert(rest[0] == pieces[1]);
        }
        match piece {
            Piece::Link(t, url) => {
                lemma_url_lacks(url, ')');
                let u = url_at(url, 4);
                lemma_links_step(none, rest);
                assert(none + r =~= r && none + q =~= q);
                law_link_then_rest(a, t, u, r);
                assert(a + link_text(t, u) + r =~= a + all_at(pieces, 4));
                assert(a + t + q =~= a + (t + q));
            },
            Piece::Image(t, url) => {
                lemma_url_lacks(url, ')');
                let u = url_at(url, 4);
                lemma_links_step(none, rest);
                assert(none + r =~= r && none + q =~= q);
                law_image_then_rest(a, t, u, r);
                assert(a + seq!['!'] + link_text(t, u) + r =~= a + all_at(pieces, 4));
                assert(a + t + q =~= a + (t + q));
            },
            _ => {
                let t = piece_at(piece, 4);
                assert(t == piece_at(piece, 5));
                assert(lacks(t, '['));
                assert(lacks(a + t, '['));
                if rest.len() > 0 && rest[0] is Link {
                    let own = bare(piece);
                    assert(own.len() > 0 && own[own.len() - 1] != '!');
                    assert(t == own);
                    assert((a + t).last() == own[own.len() - 1]);
                }
                lemma_links_step(a + t, rest);
                assert(a + t + r =~= a + (t + r));
                assert(a + t + q =~= a + (t + q));
            },
        }
    }
}

/// A step over emphasis, behind text `a`.
proof fn lemma_emphasis_step(a: Seq<char>, pieces: Seq<Piece>, m: char, stage: int)
    requires
        are_sound_pieces(pieces),
        (m == '*' && stage == 5) || (m == '_' && stage == 6),
        lacks(a, m),
        pieces.len() > 0 && pieces[0] is Slanted ==> ends_at_word_start(a),
    ensures
        unmarked(a + all_at(pieces, stage), m, 0) == a + all_at(pieces, stage + 1),
    decreases pieces.len(),
{
    let none: Seq<char> = seq![];
    if pieces.len() == 0 {
        law_no_marker_no_emphasis(a, m);
        assert(a + none =~= a);
    } else {
        lemma_sound_rest(pieces);
        let rest = pieces.skip(1);
        let r = all_at(rest, stage);
        let q = all_at(rest, stage + 1);
        let piece = pieces[0];
        if rest.len() > 0 {
            assert(rest[0] == pieces[1]);
        }
        if piece is Slanted && piece->Slanted_0 == m {
            let t = bare(piece);
            lemma_emphasis_step(none, rest, m, stage);
            assert(none + r =~= r && none + q =~= q);
            if rest.len() > 0 {
                assert(r[0] == bare(rest[0])[0]);
            }
            law_emphasis_then_rest(a, t, r, m);
            assert(a + seq![m] + t + seq![m] + r =~= a + all_at(pieces, stage));
            assert(a + t + q =~= a + (t + q));
        } else {
            let t = piece_at(piece, stage);
            assert(t == piece_at(piece, stage + 1));
            assert(lacks(t, m));
            assert(lacks(a + t, m));
            if rest.len() > 0 && rest[0] is Slanted {
                assert(t == bare(piece));
                assert((a + t)[(a + t).len() - 1] == t[t.len() - 1]);
            }
            lemma_emphasis_step(a + t, rest, m, stage);
            assert(a + t + r =~= a + (t + r));
            assert(a + t + q =~= a + (t + q));
        }
    }
}

/// Pieces before any step are as they are written, and after all steps only their texts are left.
proof fn lemma_first_and_last_stage(pieces: Seq<Piece>)
    requires
        are_sound_pieces(pieces),
    ensures
        all_at(pieces, 0) == all_marked(pieces),
        all_at(pieces, 7) == all_bare(pieces),
    decreases pieces.len(),
{
    if pieces.len() > 0 {
        lemma_sound_rest(pieces);
        lemma_first_and_last_stage(pieces.skip(1));
    }
}

/// A text made of any number of pieces, marked up each in its way, has the texts of the pieces as
/// its plain text, in their order and with nothing between them.
pub proof fn law_pieces_become_their_texts(pieces: Seq<Piece>)
    requires
        are_sound_pieces(pieces),
    ensures
        plain_text(all_marked(pieces)) == trimmed(all_bare(pieces)),
{
    let none: Seq<char> = seq![];
    lemma_first_and_last_stage(pieces);
    lemma_pairs_step(pieces, '*', 0);
    lemma_pairs_step(pieces, '_', 1);
    lemma_pairs_step(pieces, '~', 2);
    lemma_code_step(pieces);
    lemma_links_step(none, pieces);
    lemma_emphasis_step(none, pieces, '*', 5);
    lemma_emphasis_step(none, pieces, '_', 6);
    assert(none + all_at(pieces, 4) =~= all_at(pieces, 4));
    assert(none + all_at(pieces, 5) =~= all_at(pieces, 5));
    assert(none + all_at(pieces, 6) =~= all_at(pieces, 6));
    assert(none + all_at(pieces, 7) =~= all_at(pieces, 7));
}

}
