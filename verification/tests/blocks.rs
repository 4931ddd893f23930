//! Lines of a draft.

use rhwp::scaffold::{parse_markdown_blocks, Block};

fn paragraph(text: &str) -> Block {
    Block::Paragraph {
        text: text.to_string(),
    }
}

fn heading(level: u8, text: &str) -> Block {
    Block::Heading {
        level,
        text: text.to_string(),
    }
}

fn table(rows: &[&[&str]]) -> Block {
    Block::Table {
        rows: rows
            .iter()
            .map(|row| row.iter().map(|cell| cell.to_string()).collect())
            .collect(),
    }
}

#[test]
fn heading_levels_run_from_one_to_seven() {
    assert_eq!(parse_markdown_blocks("# a"), vec![heading(1, "a")]);
    assert_eq!(parse_markdown_blocks("####### a"), vec![heading(7, "a")]);
    assert_eq!(
        parse_markdown_blocks("######## a"),
        vec![paragraph("######## a")]
    );
    assert_eq!(parse_markdown_blocks("#a"), vec![paragraph("#a")]);
    assert_eq!(parse_markdown_blocks("#\ta"), vec![paragraph("#\ta")]);
    assert_eq!(parse_markdown_blocks("##"), vec![heading(2, "")]);
    assert_eq!(parse_markdown_blocks("## a ##"), vec![heading(2, "a")]);
    assert_eq!(parse_markdown_blocks("  # **a**"), vec![heading(1, "a")]);
}

#[test]
fn heading_numbers_go_and_bare_numbers_stay() {
    let cases = [
        ("# 1. a", "a"),
        ("# 12) a", "a"),
        ("# 1.2.3 a", "a"),
        ("# 1.2. a", "a"),
        ("# 1)2 a", "a"),
        ("# (12)  a", "a"),
        ("# (1)a", "(1)a"),
        ("# (a) b", "(a) b"),
        ("# ( 1) b", "( 1) b"),
        ("# 1.a", "1.a"),
        ("# 1.", "1."),
        ("# 7 a", "7 a"),
        ("# 2026년", "2026년"),
        ("# .1 a", ".1 a"),
    ];
    for (line, text) in cases {
        assert_eq!(parse_markdown_blocks(line), vec![heading(1, text)], "{line}");
    }
}

#[test]
fn consecutive_lines_are_one_paragraph() {
    assert_eq!(
        parse_markdown_blocks("a\n  b  \n> c\n>> d\n\ne"),
        vec![paragraph("a b c > d"), paragraph("e")]
    );
    assert_eq!(parse_markdown_blocks("**\na\n**"), vec![paragraph("a")]);
    assert_eq!(parse_markdown_blocks("**\n"), vec![]);
    assert_eq!(parse_markdown_blocks(">"), vec![]);
}

#[test]
fn list_items_are_paragraphs_of_their_own() {
    assert_eq!(
        parse_markdown_blocks("text\n- a\n* b\n+ **c**\n-d"),
        vec![
            paragraph("text"),
            paragraph("• a"),
            paragraph("• b"),
            paragraph("• c"),
            paragraph("-d"),
        ]
    );
    assert_eq!(
        parse_markdown_blocks("1. a\n9999) b\n12345. c\n1.d\n2 e"),
        vec![
            paragraph("1. a"),
            paragraph("9999) b"),
            paragraph("12345. c 1.d 2 e"),
        ]
    );
}

#[test]
fn rules_make_nothing_and_close_paragraphs() {
    assert_eq!(
        parse_markdown_blocks("a\n---\nb\n* * *\nc\n _ _ _ \nd"),
        vec![paragraph("a"), paragraph("b"), paragraph("c"), paragraph("d")]
    );
    assert_eq!(parse_markdown_blocks("--"), vec![paragraph("--")]);
    assert_eq!(parse_markdown_blocks("-*-"), vec![paragraph("-*-")]);
}

#[test]
fn code_is_taken_as_it_stands() {
    assert_eq!(
        parse_markdown_blocks("a\n```rust\n  # x  \n\n| y |\n~~~\n```\nb"),
        vec![
            paragraph("a"),
            paragraph("  # x  "),
            paragraph(""),
            paragraph("| y |"),
            paragraph("~~~"),
            paragraph("b"),
        ]
    );
    assert_eq!(
        parse_markdown_blocks("~~~\n**x**"),
        vec![paragraph("**x**")]
    );
    assert_eq!(
        parse_markdown_blocks("```\nx  \n```"),
        vec![paragraph("x  ")]
    );
    assert_eq!(
        parse_markdown_blocks("```\r\n \t\r\ny\t\r\n```\r\n"),
        vec![paragraph(" \t"), paragraph("y\t")]
    );
    assert_eq!(parse_markdown_blocks("```"), vec![]);
    assert_eq!(parse_markdown_blocks("```\n```"), vec![]);
}

#[test]
fn rows_are_one_table() {
    assert_eq!(
        parse_markdown_blocks("| a | b |\n|:--|--:|\n| 1 | 2 |\n\n| c |"),
        vec![table(&[&["a", "b"], &["1", "2"]]), table(&[&["c"]])]
    );
    assert_eq!(
        parse_markdown_blocks("| a \\| b | **c** | |"),
        vec![table(&[&["a | b", "c", ""]])]
    );
    assert_eq!(parse_markdown_blocks("|a|b"), vec![table(&[&["a", "b"]])]);
    assert_eq!(parse_markdown_blocks("||a|"), vec![table(&[&["a"]])]);
    assert_eq!(parse_markdown_blocks("||"), vec![table(&[&[""]])]);
    assert_eq!(parse_markdown_blocks("| a \\|"), vec![table(&[&["a \\"]])]);
    assert_eq!(parse_markdown_blocks("|---|\n| : |"), vec![table(&[&[":"]])]);
    assert_eq!(parse_markdown_blocks("|---|"), vec![]);
    assert_eq!(parse_markdown_blocks("|"), vec![paragraph("|")]);
}

#[test]
fn an_empty_line_parts_texts() {
    let first = "# a\nb\n| c |";
    let second = "| d |\n- e";
    let mut parts = parse_markdown_blocks(first);
    parts.extend(parse_markdown_blocks(second));
    assert_eq!(parse_markdown_blocks(&format!("{first}\n\n{second}")), parts);
    assert_eq!(parse_markdown_blocks(&format!("{first}\n***\n{second}")), parts);
}

#[test]
fn line_endings_mean_the_same() {
    let text = "# a\n\nb\nc\n```\n x\n```\n| d |\n";
    assert_eq!(
        parse_markdown_blocks(&text.replace('\n', "\r\n")),
        parse_markdown_blocks(text)
    );
    assert_eq!(parse_markdown_blocks("a\r\r\nb\r"), vec![paragraph("a b")]);
    assert_eq!(parse_markdown_blocks("a\rb"), vec![paragraph("a\rb")]);
}

#[test]
fn white_space_alone_makes_nothing() {
    assert_eq!(parse_markdown_blocks(" \t\u{3000}\n\r\n\u{a0}"), vec![]);
}

#[test]
fn spaced_rows_give_back_their_cells() {
    assert_eq!(
        parse_markdown_blocks("|  | a\\ | \\\\| |  |"),
        vec![table(&[&["", "a\\", "\\|", ""]])]
    );
    assert_eq!(parse_markdown_blocks("|a|b\\|"), vec![table(&[&["a", "b\\"]])]);
    assert_eq!(parse_markdown_blocks("|a\\|b|"), vec![table(&[&["a|b"]])]);
}

#[test]
fn margins_mean_nothing_outside_code() {
    assert_eq!(
        parse_markdown_blocks("  # a  \n\t- b \n   | c |\n | d |  \n   \n  e\nf   \n ~~~\n  x \n ~~~ "),
        parse_markdown_blocks("# a\n- b\n| c |\n| d |\n\ne\nf\n~~~\n  x \n~~~")
    );
    assert_ne!(
        parse_markdown_blocks("~~~\n  x\n~~~"),
        parse_markdown_blocks("~~~\nx\n~~~")
    );
}

#[test]
fn no_text_holds_a_line_break() {
    let blocks = parse_markdown_blocks("# a\nb\nc\n- d\n```\ne\n\nf\n```\n| g |\n| h |\n");
    assert_eq!(blocks.len(), 7);
    for block in &blocks {
        match block {
            Block::Heading { text, .. } | Block::Paragraph { text } => assert!(!text.contains('\n')),
            Block::Table { rows } => {
                assert!(rows.iter().flatten().all(|cell| !cell.contains('\n')))
            }
        }
    }
}
