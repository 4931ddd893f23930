//! What holds of trimming, removing, joining and counting, whatever the text.

use crate::scaffold::markdown_laws::repeated;
use crate::text::{
    decimal, digit, in_class, is_white_space, joined, lemma_leading, lemma_trailing, trimmed,
    trimmed_start, without, without_pairs, CharClass,
};
use vstd::prelude::*;

verus! {

/// Whether `s` is white space only.
pub open spec fn is_blank(s: Seq<char>) -> bool {
    forall|i: int| 0 <= i < s.len() ==> is_white_space(#[trigger] s[i])
}

/// Whether `s` has no white space at its ends; an empty text has none.
pub open spec fn has_bare_ends(s: Seq<char>) -> bool {
    s.len() > 0 ==> !is_white_space(s[0]) && !is_white_space(s[s.len() - 1])
}

/// Trimming takes the white space off both ends, all of it and nothing else.
pub proof fn law_trimming_takes_white_space(x: Seq<char>, s: Seq<char>, y: Seq<char>)
    requires
        is_blank(x),
        is_blank(y),
        has_bare_ends(s),
    ensures
        trimmed(x + s + y) == s,
{
    let all = x + s + y;
    let class = CharClass::WhiteSpace;
    if s.len() == 0 {
        assert forall|i: int| 0 <= i < all.len() implies in_class(class, #[trigger] all[i]) by {
            if i < x.len() {
                assert(all[i] == x[i]);
            } else {
                assert(all[i] == y[i - x.len()]);
            }
        }
        lemma_leading(all, class, all.len() as int);
        assert(trimmed_start(all).len() == 0);
        lemma_trailing(trimmed_start(all), class, 0);
        assert(trimmed(all) =~= s);
    } else {
        let n = x.len() as int;
        assert forall|i: int| 0 <= i < n implies in_class(class, #[trigger] all[i]) by {
            assert(all[i] == x[i]);
        }
        assert(all[n] == s[0]);
        lemma_leading(all, class, n);
        let rest = all.skip(n);
        assert(rest =~= s + y);
        assert forall|i: int| rest.len() - y.len() <= i < rest.len() implies in_class(
            class,
            #[trigger] rest[i],
        ) by {
            assert(rest[i] == y[i - s.len()]);
        }
        assert(rest[rest.len() - y.len() - 1] == s[s.len() - 1]);
        lemma_trailing(rest, class, y.len() as int);
        assert(trimmed(all) =~= s);
    }
}

/// Trimming the start takes the white space off it, all of it and nothing else.
pub proof fn law_trimming_the_start(x: Seq<char>, s: Seq<char>)
    requires
        is_blank(x),
        s.len() > 0 ==> !is_white_space(s[0]),
    ensures
        trimmed_start(x + s) == s,
{
    let all = x + s;
    let class = CharClass::WhiteSpace;
    let n = x.len() as int;
    assert forall|i: int| 0 <= i < n implies in_class(class, #[trigger] all[i]) by {
        assert(all[i] == x[i]);
    }
    if s.len() > 0 {
        assert(all[n] == s[0]);
    }
    lemma_leading(all, class, n);
    assert(all.skip(n) =~= s);
}

/// What does not start with `c` is not touched up to its first `c`.
pub(crate) proof fn lemma_pairs_behind(a: Seq<char>, rest: Seq<char>, c: char)
    requires
        forall|i: int| 0 <= i < a.len() ==> #[trigger] a[i] != c,
    ensures
        without_pairs(a + rest, c) == a + without_pairs(rest, c),
    decreases a.len(),
{
    if a.len() == 0 {
        assert(a + rest =~= rest);
        assert(a + without_pairs(rest, c) =~= without_pairs(rest, c));
    } else {
        let t = a.skip(1);
        assert(a[0] != c);
        assert forall|i: int| 0 <= i < t.len() implies #[trigger] t[i] != c by {
            assert(t[i] == a[i + 1]);
        }
        lemma_pairs_behind(t, rest, c);
        assert((a + rest).skip(1) =~= t + rest);
        assert(seq![a[0]] + (t + without_pairs(rest, c)) =~= a + without_pairs(rest, c));
    }
}

/// Of each run of a marker, as many as make pairs are taken out: none is left of an even run, one
/// of an odd one. What is around the run is as it would be alone.
pub proof fn law_pairs_go_by_runs(a: Seq<char>, n: nat, b: Seq<char>, c: char)
    requires
        a.len() > 0 ==> a[a.len() - 1] != c,
        b.len() > 0 ==> b[0] != c,
    ensures
        without_pairs(a + repeated(c, n) + b, c) == without_pairs(a, c) + repeated(c, n % 2)
            + without_pairs(b, c),
    decreases a.len(),
{
    let s = a + repeated(c, n) + b;
    if a.len() == 0 {
        lemma_run(n, b, c);
        assert(s =~= repeated(c, n) + b);
        assert(without_pairs(a, c) =~= a);
        assert(a + repeated(c, n % 2) + without_pairs(b, c) =~= repeated(c, n % 2) + without_pairs(
            b,
            c,
        ));
    } else if a.len() >= 2 && a[0] == c && a[1] == c {
        let t = a.skip(2);
        if t.len() > 0 {
            assert(t[t.len() - 1] == a[a.len() - 1]);
        }
        law_pairs_go_by_runs(t, n, b, c);
        assert(s.skip(2) =~= t + repeated(c, n) + b);
    } else {
        let t = a.skip(1);
        if t.len() > 0 {
            assert(t[t.len() - 1] == a[a.len() - 1]);
        }
        law_pairs_go_by_runs(t, n, b, c);
        assert(s.skip(1) =~= t + repeated(c, n) + b);
        assert(without_pairs(s, c) =~= without_pairs(a, c) + repeated(c, n % 2) + without_pairs(
            b,
            c,
        ));
    }
}

/// A run at the start.
proof fn lemma_run(n: nat, b: Seq<char>, c: char)
    requires
        b.len() > 0 ==> b[0] != c,
    ensures
        without_pairs(repeated(c, n) + b, c) == repeated(c, n % 2) + without_pairs(b, c),
    decreases n,
{
    let s = repeated(c, n) + b;
    if n == 0 {
        assert(s =~= b);
        assert(repeated(c, 0) + without_pairs(b, c) =~= without_pairs(b, c));
    } else if n == 1 {
        assert(s.skip(1) =~= b);
        assert(seq![c] =~= repeated(c, 1));
    } else {
        lemma_run((n - 2) as nat, b, c);
        assert(s.skip(2) =~= repeated(c, (n - 2) as nat) + b);
        assert(((n - 2) as nat) % 2 == n % 2);
    }
}

/// Taking out a character leaves all others, in their order.
pub proof fn law_without_keeps_the_others(s: Seq<char>, c: char)
    ensures
        without(s, c) == s.filter(|x: char| x != c),
    decreases s.len(),
{
    reveal(Seq::filter);
    if s.len() > 0 {
        law_without_keeps_the_others(s.drop_last(), c);
    }
}

/// The parts, in order, with `sep` between neighbours.
pub open spec fn separated(parts: Seq<Seq<char>>, sep: char) -> Seq<char>
    decreases parts.len(),
{
    if parts.len() == 0 {
        seq![]
    } else if parts.len() == 1 {
        parts[0]
    } else {
        parts[0] + seq![sep] + separated(parts.skip(1), sep)
    }
}

/// The last part comes last.
proof fn lemma_separated_last(parts: Seq<Seq<char>>, sep: char)
    requires
        parts.len() > 1,
    ensures
        separated(parts, sep) == separated(parts.drop_last(), sep) + seq![sep] + parts.last(),
    decreases parts.len(),
{
    let rest = parts.skip(1);
    if parts.len() == 2 {
        assert(separated(rest, sep) == parts[1]);
        assert(separated(parts.drop_last(), sep) == parts[0]);
    } else {
        lemma_separated_last(rest, sep);
        assert(rest.drop_last() =~= parts.drop_last().skip(1));
        assert(separated(parts, sep) =~= separated(parts.drop_last(), sep) + seq![sep]
            + parts.last());
    }
}

/// Joined parts are the parts with one space between neighbours.
pub proof fn law_joined_by_spaces(parts: Seq<Seq<char>>)
    ensures
        joined(parts) == separated(parts, ' '),
    decreases parts.len(),
{
    if parts.len() > 1 {
        law_joined_by_spaces(parts.drop_last());
        lemma_separated_last(parts, ' ');
        assert(joined(parts) =~= separated(parts, ' '));
    }
}

/// The number that decimal digits stand for.
pub open spec fn number_of(digits: Seq<char>) -> int
    decreases digits.len(),
{
    if digits.len() == 0 {
        0
    } else {
        number_of(digits.drop_last()) * 10 + (digits.last() as int - '0' as int)
    }
}

/// A number is written in decimal digits that stand for it, with no zero in front.
pub proof fn law_decimal_digits(n: nat)
    ensures
        decimal(n).len() > 0,
        forall|i: int| 0 <= i < decimal(n).len() ==> '0' <= #[trigger] decimal(n)[i] <= '9',
        number_of(decimal(n)) == n,
        n > 0 ==> decimal(n)[0] != '0',
    decreases n,
{
    if n < 10 {
        assert(decimal(n) =~= seq![digit(n)]);
        assert(decimal(n).drop_last() =~= seq![]);
        assert(digit(n) as int == 0x30 + n);
        reveal_with_fuel(number_of, 2);
    } else {
        law_decimal_digits(n / 10);
        assert(decimal(n).drop_last() =~= decimal(n / 10));
        assert(digit(n % 10) as int == 0x30 + n % 10);
        assert forall|i: int| 0 <= i < decimal(n).len() implies '0' <= #[trigger] decimal(n)[i]
            <= '9' by {
            if i < decimal(n).len() - 1 {
                assert(decimal(n)[i] == decimal(n / 10)[i]);
            }
        }
    }
}

}
