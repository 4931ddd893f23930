//! Inline markup.

use rhwp::scaffold::strip_inline;

#[test]
fn doubled_markers_go_from_left_to_right() {
    assert_eq!(strip_inline("a **b** c"), "a b c");
    assert_eq!(strip_inline("__b__ ~~c~~"), "b c");
    assert_eq!(strip_inline("***"), "*");
    assert_eq!(strip_inline("****"), "");
    assert_eq!(strip_inline("__init__"), "init");
}

#[test]
fn code_markers_go_before_emphasis_is_looked_for() {
    assert_eq!(strip_inline("`a` b"), "a b");
    assert_eq!(strip_inline("*`*"), "**");
    assert_eq!(strip_inline("`*a*`"), "a");
}

#[test]
fn links_and_images_become_their_text() {
    assert_eq!(strip_inline("see [text](url) here"), "see text here");
    assert_eq!(strip_inline("![alt](src.png)"), "alt");
    assert_eq!(strip_inline("wow![alt](src)"), "wowalt");
    assert_eq!(strip_inline("[a](b__c__d)"), "a");
    assert_eq!(strip_inline("[a][b]"), "[a][b]");
    assert_eq!(strip_inline("[a](b"), "[a](b");
    assert_eq!(strip_inline("![a]"), "![a]");
    assert_eq!(strip_inline("[a]b](c)"), "[a]b](c)");
    assert_eq!(strip_inline("[x]("), "[x](");
    assert_eq!(strip_inline("[]()"), "");
}

#[test]
fn emphasis_needs_word_boundaries() {
    assert_eq!(strip_inline("*a* b"), "a b");
    assert_eq!(strip_inline("(*a*)"), "(a)");
    assert_eq!(strip_inline("「_a_」"), "「a」");
    assert_eq!(strip_inline("（*a*）"), "（a）");
    assert_eq!(strip_inline("·*a*"), "·a");
    assert_eq!(strip_inline("'_a_'"), "'a'");
    assert_eq!(strip_inline("x*a*"), "x*a*");
    assert_eq!(strip_inline("* a*"), "* a*");
    assert_eq!(strip_inline("*a *"), "*a *");
    assert_eq!(strip_inline("*a*."), "a.");
    assert_eq!(strip_inline("*a _b_ c*"), "a b c");
    assert_eq!(strip_inline("_x"), "_x");
    assert_eq!(strip_inline("*"), "*");
}

#[test]
fn letters_and_digits_of_any_script_keep_emphasis_open() {
    assert_eq!(strip_inline("*a*b"), "*a*b");
    assert_eq!(strip_inline("*a*7"), "*a*7");
    assert_eq!(strip_inline("*a*가"), "*a*가");
    assert_eq!(strip_inline("*a*é"), "*a*é");
    assert_eq!(strip_inline("*a*٣"), "*a*٣");
    assert_eq!(strip_inline("*a*—"), "a—");
    assert_eq!(strip_inline("*a*b*"), "a*b");
}

#[test]
fn ascii_letters_and_digits_are_the_alphanumeric_ones() {
    for n in 0u32..0x80 {
        let c = char::from_u32(n).unwrap();
        if c == '*' || c == '`' || c == '_' || c.is_whitespace() {
            continue;
        }
        let kept = format!("*a*{c}.");
        let expected = if c.is_ascii_alphanumeric() {
            kept.clone()
        } else {
            format!("a{c}.")
        };
        assert_eq!(strip_inline(&kept), expected, "{n:#x}");
    }
}

#[test]
fn white_space_is_trimmed_and_nothing_else() {
    let white = [
        0x9, 0xa, 0xb, 0xc, 0xd, 0x20, 0x85, 0xa0, 0x1680, 0x2000, 0x2001, 0x2002, 0x2003, 0x2004,
        0x2005, 0x2006, 0x2007, 0x2008, 0x2009, 0x200a, 0x2028, 0x2029, 0x202f, 0x205f, 0x3000,
    ];
    let mut n: u32 = 0;
    while n <= 0x10_ffff {
        if let Some(c) = char::from_u32(n) {
            if c != '`' {
                let text = c.to_string();
                let expected = if white.contains(&n) { "" } else { text.as_str() };
                assert_eq!(strip_inline(&text), expected, "{n:#x}");
            }
        }
        n += if n < 0x1_0000 { 1 } else { 61 };
    }
    assert_eq!(strip_inline("\u{3000} a b \u{a0}"), "a b");
    assert_eq!(strip_inline("\u{200b}a"), "\u{200b}a");
}

#[test]
fn plain_text_keeps_the_order_of_its_characters() {
    let text = "**a** [b](c) _d_ `e` *f* ~~g~~ h*i";
    let plain = strip_inline(text);
    assert_eq!(plain, "a b d e f g h*i");
    let mut rest = text.chars();
    for c in plain.chars() {
        assert!(rest.any(|d| d == c));
    }
}

#[test]
fn text_without_markup_stays() {
    assert_eq!(strip_inline("  plain, text (with) 기호! "), "plain, text (with) 기호!");
    assert_eq!(strip_inline("2 * 3 * 4"), "2 * 3 * 4");
    assert_eq!(strip_inline("a_b_c"), "a_b_c");
    assert_eq!(strip_inline(""), "");
}

#[test]
fn markers_around_a_text_go_whatever_it_holds() {
    let texts = ["a", "", "*", "a*", "_x_ *y* [z](u)", "**b", "` `", "~ ~~", "x__"];
    for text in texts {
        for mark in ["**", "__", "~~", "`"] {
            assert_eq!(
                strip_inline(&format!("{mark}{text}{mark}")),
                strip_inline(text),
                "{mark}{text}{mark}"
            );
        }
    }
}
