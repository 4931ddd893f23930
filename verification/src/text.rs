//! Characters and slices of characters.
//!
//! The parsers of this crate work on `&[char]`. This module says what trimming, counting and
//! searching mean on a sequence of characters, and computes them.

use vstd::prelude::*;
use vstd::slice::slice_subrange;

verus! {

/// The Unicode property `White_Space`: its twenty-five code points.
pub open spec fn is_white_space(c: char) -> bool {
    let n = c as u32;
    ||| 0x9 <= n <= 0xd
    ||| n == 0x20
    ||| n == 0x85
    ||| n == 0xa0
    ||| n == 0x1680
    ||| 0x2000 <= n <= 0x200a
    ||| n == 0x2028
    ||| n == 0x2029
    ||| n == 0x202f
    ||| n == 0x205f
    ||| n == 0x3000
}

/// `char::is_whitespace` of std is true of the characters with the property `White_Space`, and
/// of no others.
pub assume_specification[ char::is_whitespace ](c: char) -> (b: bool)
    ensures
        b == is_white_space(c),
;

/// What `char::is_alphanumeric` of std says of a character: that it is alphabetic or numeric in
/// Unicode's tables.
pub uninterp spec fn unicode_alphanumeric(c: char) -> bool;

/// The letters and digits of ASCII.
pub open spec fn is_ascii_alphanumeric(c: char) -> bool {
    ||| '0' <= c <= '9'
    ||| 'A' <= c <= 'Z'
    ||| 'a' <= c <= 'z'
}

/// `char::is_alphanumeric` of std depends on the character alone. Of the ASCII characters it
/// accepts the letters and the digits; what it accepts beyond ASCII is left to Unicode's tables.
pub assume_specification[ char::is_alphanumeric ](c: char) -> (b: bool)
    ensures
        b == unicode_alphanumeric(c),
        (c as u32) < 0x80 ==> b == is_ascii_alphanumeric(c),
;

/// `String::push` of std appends one character.
pub assume_specification[ String::push ](s: &mut String, ch: char)
    ensures
        final(s)@ == old(s)@.push(ch),
;

/// The characters of `s`, in order.
pub(crate) fn to_chars(s: &str) -> (out: Vec<char>)
    ensures
        out@ == s@,
{
    let mut out: Vec<char> = Vec::new();
    for c in it: s.chars()
        invariant
            it.seq() == s@,
            out@ == s@.take(it.index() as int),
    {
        out.push(c);
    }
    out
}

/// The string made of `chars`, in order.
pub(crate) fn from_chars(chars: &[char]) -> (out: String)
    ensures
        out@ == chars@,
{
    let mut out: String = String::new();
    let mut i: usize = 0;
    while i < chars.len()
        invariant
            i <= chars@.len(),
            out@ == chars@.take(i as int),
        decreases chars.len() - i,
    {
        out.push(chars[i]);
        i += 1;
        assert(chars@.take(i as int) =~= chars@.take(i - 1).push(chars@[i - 1]));
    }
    assert(chars@.take(i as int) =~= chars@);
    out
}

/// A set of characters that a run of text can be made of.
#[derive(Debug, Clone, Copy, PartialEq, Eq)]
pub enum CharClass {
    /// White space, in the sense of Unicode.
    WhiteSpace,
    /// The ASCII digits.
    Digit,
    /// One character.
    Only(char),
}

/// Whether `c` belongs to `class`.
pub open spec fn in_class(class: CharClass, c: char) -> bool {
    match class {
        CharClass::WhiteSpace => is_white_space(c),
        CharClass::Digit => '0' <= c <= '9',
        CharClass::Only(m) => c == m,
    }
}

impl CharClass {
    /// Whether `c` belongs to this class.
    pub(crate) fn contains(self, c: char) -> (b: bool)
        ensures
            b == in_class(self, c),
    {
        match self {
            CharClass::WhiteSpace => c.is_whitespace(),
            CharClass::Digit => '0' <= c && c <= '9',
            CharClass::Only(m) => c == m,
        }
    }
}

/// The length of the longest prefix of `s` that lies in `class`.
pub open spec fn leading(s: Seq<char>, class: CharClass) -> nat
    decreases s.len(),
{
    if s.len() == 0 || !in_class(class, s[0]) {
        0
    } else {
        1 + leading(s.skip(1), class)
    }
}

/// The length of the longest suffix of `s` that lies in `class`.
pub open spec fn trailing(s: Seq<char>, class: CharClass) -> nat
    decreases s.len(),
{
    if s.len() == 0 || !in_class(class, s.last()) {
        0
    } else {
        1 + trailing(s.drop_last(), class)
    }
}

/// `s` without its longest prefix in `class`.
pub open spec fn drop_leading(s: Seq<char>, class: CharClass) -> Seq<char> {
    s.skip(leading(s, class) as int)
}

/// `s` without its longest suffix in `class`.
pub open spec fn drop_trailing(s: Seq<char>, class: CharClass) -> Seq<char> {
    s.take(s.len() - trailing(s, class))
}

/// `s` without white space at its start.
pub open spec fn trimmed_start(s: Seq<char>) -> Seq<char> {
    drop_leading(s, CharClass::WhiteSpace)
}

/// `s` without white space at its end.
pub open spec fn trimmed_end(s: Seq<char>) -> Seq<char> {
    drop_trailing(s, CharClass::WhiteSpace)
}

/// `s` without white space at either end.
pub open spec fn trimmed(s: Seq<char>) -> Seq<char> {
    trimmed_end(trimmed_start(s))
}

/// The longest prefix of `s` in `class` has length `n` when its first `n` characters lie in
/// `class` and the next one, if any, does not.
pub(crate) proof fn lemma_leading(s: Seq<char>, class: CharClass, n: int)
    requires
        0 <= n <= s.len(),
        forall|i: int| 0 <= i < n ==> in_class(class, #[trigger] s[i]),
        n < s.len() ==> !in_class(class, s[n]),
    ensures
        leading(s, class) == n,
    decreases s.len(),
{
    if n > 0 {
        let t = s.skip(1);
        assert forall|i: int| 0 <= i < n - 1 implies in_class(class, #[trigger] t[i]) by {
            assert(t[i] == s[i + 1]);
        }
        if n < s.len() {
            assert(t[n - 1] == s[n]);
        }
        lemma_leading(t, class, n - 1);
        assert(in_class(class, s[0]));
    }
}

/// The longest prefix of `s` in `class`: all of it lies in `class`, and it cannot be longer.
pub(crate) proof fn lemma_leading_run(s: Seq<char>, class: CharClass)
    ensures
        leading(s, class) <= s.len(),
        forall|i: int| 0 <= i < leading(s, class) ==> in_class(class, #[trigger] s[i]),
        leading(s, class) < s.len() ==> !in_class(class, s[leading(s, class) as int]),
    decreases s.len(),
{
    if s.len() > 0 && in_class(class, s[0]) {
        let t = s.skip(1);
        lemma_leading_run(t, class);
        assert forall|i: int| 0 <= i < leading(s, class) implies in_class(
            class,
            #[trigger] s[i],
        ) by {
            if i > 0 {
                assert(in_class(class, t[i - 1]));
            }
        }
    }
}

/// The longest suffix of `s` in `class` has length `n` when its last `n` characters lie in
/// `class` and the one before them, if any, does not.
pub(crate) proof fn lemma_trailing(s: Seq<char>, class: CharClass, n: int)
    requires
        0 <= n <= s.len(),
        forall|i: int| s.len() - n <= i < s.len() ==> in_class(class, #[trigger] s[i]),
        n < s.len() ==> !in_class(class, s[s.len() - n - 1]),
    ensures
        trailing(s, class) == n,
    decreases s.len(),
{
    if n > 0 {
        let t = s.drop_last();
        assert forall|i: int| t.len() - (n - 1) <= i < t.len() implies in_class(
            class,
            #[trigger] t[i],
        ) by {
            assert(t[i] == s[i]);
        }
        if n < s.len() {
            assert(t[t.len() - (n - 1) - 1] == s[s.len() - n - 1]);
        }
        lemma_trailing(t, class, n - 1);
        assert(in_class(class, s[s.len() - 1]));
    }
}

/// The longest suffix of `s` in `class`: all of it lies in `class`, and it cannot be longer.
pub(crate) proof fn lemma_trailing_run(s: Seq<char>, class: CharClass)
    ensures
        trailing(s, class) <= s.len(),
        forall|i: int|
            s.len() - trailing(s, class) <= i < s.len() ==> in_class(class, #[trigger] s[i]),
        trailing(s, class) < s.len() ==> !in_class(class, s[s.len() - trailing(s, class) - 1]),
    decreases s.len(),
{
    if s.len() > 0 && in_class(class, s.last()) {
        let t = s.drop_last();
        lemma_trailing_run(t, class);
        assert forall|i: int| s.len() - trailing(s, class) <= i < s.len() implies in_class(
            class,
            #[trigger] s[i],
        ) by {
            if i < s.len() - 1 {
                assert(in_class(class, t[i]));
            }
        }
    }
}

/// The length of the longest prefix of `s` in `class`.
pub(crate) fn count_leading(s: &[char], class: CharClass) -> (n: usize)
    ensures
        n == leading(s@, class),
        n <= s@.len(),
{
    let mut n: usize = 0;
    while n < s.len() && class.contains(s[n])
        invariant
            n <= s@.len(),
            forall|i: int| 0 <= i < n ==> in_class(class, #[trigger] s@[i]),
        decreases s.len() - n,
    {
        n += 1;
    }
    proof {
        lemma_leading(s@, class, n as int);
    }
    n
}

/// `s` without its longest prefix in `class`.
pub(crate) fn strip_leading(s: &[char], class: CharClass) -> (out: &[char])
    ensures
        out@ == drop_leading(s@, class),
{
    let n: usize = count_leading(s, class);
    slice_subrange(s, n, s.len())
}

/// `s` without its longest suffix in `class`.
pub(crate) fn strip_trailing(s: &[char], class: CharClass) -> (out: &[char])
    ensures
        out@ == drop_trailing(s@, class),
{
    let mut end: usize = s.len();
    while end > 0 && class.contains(s[end - 1])
        invariant
            end <= s@.len(),
            forall|i: int| end <= i < s@.len() ==> in_class(class, #[trigger] s@[i]),
        decreases end,
    {
        end -= 1;
    }
    proof {
        lemma_trailing(s@, class, s@.len() - end);
    }
    slice_subrange(s, 0, end)
}

/// `s` without white space at its start.
pub(crate) fn trim_start(s: &[char]) -> (out: &[char])
    ensures
        out@ == trimmed_start(s@),
{
    strip_leading(s, CharClass::WhiteSpace)
}

/// `s` without white space at its end.
pub(crate) fn trim_end(s: &[char]) -> (out: &[char])
    ensures
        out@ == trimmed_end(s@),
{
    strip_trailing(s, CharClass::WhiteSpace)
}

/// `s` without white space at either end.
pub(crate) fn trim(s: &[char]) -> (out: &[char])
    ensures
        out@ == trimmed(s@),
{
    trim_end(trim_start(s))
}

/// The smallest index from `from` on that holds `c`, or the length of `s` where there is none.
pub open spec fn next_index(s: Seq<char>, c: char, from: int) -> int
    decreases s.len() - from,
{
    if from >= s.len() {
        s.len() as int
    } else if s[from] == c {
        from
    } else {
        next_index(s, c, from + 1)
    }
}

/// `next_index` lies between its start and the length of `s`, and what it found is `c`.
pub(crate) proof fn lemma_next_index(s: Seq<char>, c: char, from: int)
    requires
        from <= s.len(),
    ensures
        from <= next_index(s, c, from) <= s.len(),
        next_index(s, c, from) < s.len() ==> s[next_index(s, c, from)] == c,
        forall|i: int| from <= i < next_index(s, c, from) ==> #[trigger] s[i] != c,
    decreases s.len() - from,
{
    if from < s.len() && s[from] != c {
        lemma_next_index(s, c, from + 1);
    }
}

/// The smallest index from `from` on that holds `c`, or the length of `s` where there is none.
pub(crate) fn find_from(s: &[char], c: char, from: usize) -> (k: usize)
    requires
        from <= s@.len(),
    ensures
        k == next_index(s@, c, from as int),
        from <= k <= s@.len(),
        k < s@.len() ==> s@[k as int] == c,
{
    let mut k: usize = from;
    while k < s.len() && s[k] != c
        invariant
            from <= k <= s@.len(),
            next_index(s@, c, from as int) == next_index(s@, c, k as int),
        decreases s.len() - k,
    {
        k += 1;
    }
    k
}

/// `s` without the characters equal to `c`.
pub open spec fn without(s: Seq<char>, c: char) -> Seq<char>
    decreases s.len(),
{
    if s.len() == 0 {
        s
    } else if s.last() == c {
        without(s.drop_last(), c)
    } else {
        without(s.drop_last(), c).push(s.last())
    }
}

/// `s` without the characters equal to `c`.
pub(crate) fn remove_char(s: &[char], c: char) -> (out: Vec<char>)
    ensures
        out@ == without(s@, c),
{
    let mut out: Vec<char> = Vec::new();
    let mut i: usize = 0;
    while i < s.len()
        invariant
            i <= s@.len(),
            out@ == without(s@.take(i as int), c),
        decreases s.len() - i,
    {
        assert(s@.take(i + 1).drop_last() =~= s@.take(i as int));
        if s[i] != c {
            out.push(s[i]);
        }
        i += 1;
    }
    assert(s@.take(i as int) =~= s@);
    out
}

/// `s` without the pairs `cc`: they are taken out from left to right, and no character counts
/// for two pairs.
pub open spec fn without_pairs(s: Seq<char>, c: char) -> Seq<char>
    decreases s.len(),
{
    if s.len() == 0 {
        s
    } else if s.len() >= 2 && s[0] == c && s[1] == c {
        without_pairs(s.skip(2), c)
    } else {
        seq![s[0]] + without_pairs(s.skip(1), c)
    }
}

/// `s` without the pairs `cc`, taken out from left to right.
pub(crate) fn remove_pairs(s: &[char], c: char) -> (out: Vec<char>)
    ensures
        out@ == without_pairs(s@, c),
{
    let mut out: Vec<char> = Vec::new();
    let mut i: usize = 0;
    assert(s@.skip(0) =~= s@);
    while i < s.len()
        invariant
            i <= s@.len(),
            out@ + without_pairs(s@.skip(i as int), c) == without_pairs(s@, c),
        decreases s.len() - i,
    {
        let ghost rest = s@.skip(i as int);
        if s[i] == c && i + 1 < s.len() && s[i + 1] == c {
            assert(rest.skip(2) =~= s@.skip(i + 2));
            i += 2;
        } else {
            let ghost before = out@;
            out.push(s[i]);
            assert(rest.skip(1) =~= s@.skip(i + 1));
            assert(out@ + without_pairs(s@.skip(i + 1), c) =~= before + (seq![s@[i as int]]
                + without_pairs(s@.skip(i + 1), c)));
            i += 1;
        }
    }
    assert(out@ + without_pairs(s@.skip(i as int), c) =~= out@);
    out
}

/// How often `c` occurs in `s`.
pub open spec fn occurrences(s: Seq<char>, c: char) -> nat
    decreases s.len(),
{
    if s.len() == 0 {
        0
    } else {
        occurrences(s.drop_last(), c) + if s.last() == c {
            1nat
        } else {
            0nat
        }
    }
}

/// The parts, in order, with one space between neighbours.
pub open spec fn joined(parts: Seq<Seq<char>>) -> Seq<char>
    decreases parts.len(),
{
    if parts.len() == 0 {
        seq![]
    } else if parts.len() == 1 {
        parts[0]
    } else {
        joined(parts.drop_last()).push(' ') + parts.last()
    }
}

/// Appends `tail` to `out`.
pub(crate) fn append_chars(out: &mut Vec<char>, tail: &[char])
    ensures
        final(out)@ == old(out)@ + tail@,
{
    let mut i: usize = 0;
    while i < tail.len()
        invariant
            i <= tail@.len(),
            out@ == old(out)@ + tail@.take(i as int),
        decreases tail.len() - i,
    {
        out.push(tail[i]);
        i += 1;
        assert(tail@.take(i as int) =~= tail@.take(i - 1).push(tail@[i - 1]));
    }
    assert(tail@.take(i as int) =~= tail@);
}

/// The parts, in order, with one space between neighbours.
pub(crate) fn join_with_space(parts: &Vec<Vec<char>>) -> (out: Vec<char>)
    ensures
        out@ == joined(parts.deep_view()),
{
    let mut out: Vec<char> = Vec::new();
    let mut i: usize = 0;
    let ghost all = parts.deep_view();
    while i < parts.len()
        invariant
            i <= parts@.len(),
            all == parts.deep_view(),
            out@ == joined(all.take(i as int)),
        decreases parts.len() - i,
    {
        assert(all.take(i + 1).drop_last() =~= all.take(i as int));
        assert(all[i as int] == parts@[i as int].deep_view());
        assert(parts@[i as int].deep_view() =~= parts@[i as int]@);
        if i > 0 {
            out.push(' ');
        }
        append_chars(&mut out, parts[i].as_slice());
        i += 1;
    }
    assert(all.take(i as int) =~= all);
    out
}

/// The ASCII digit for `d`.
pub open spec fn digit(d: nat) -> char {
    (0x30 + d) as char
}

/// The decimal digits of `n`, without leading zeros.
pub open spec fn decimal(n: nat) -> Seq<char>
    decreases n,
{
    if n < 10 {
        seq![digit(n)]
    } else {
        decimal(n / 10).push(digit(n % 10))
    }
}

/// The decimal digits of `n`, without leading zeros.
pub(crate) fn to_decimal(n: usize) -> (out: String)
    ensures
        out@ == decimal(n as nat),
    decreases n,
{
    let mut out: String = if n < 10 {
        String::new()
    } else {
        to_decimal(n / 10)
    };
    let d: u8 = (n % 10) as u8;
    out.push((48 + d) as char);
    out
}

}
