//! From a draft to blocks.

use rhwp::scaffold::{parse_markdown_blocks, strip_inline, Block};

#[test]
fn markdown_parser_maps_headings_paragraphs_lists_and_tables() {
    let md = "# 1. 개요\n\n본 문서는 **자동** 생성되었습니다.\n둘째 줄은 같은 문단.\n\n## 1.1 항목\n\n- 첫째\n- 둘째\n\n1. 하나\n2) 둘\n\n| 항목 | 값 |\n|---|---:|\n| 매출 | 100 |\n| 이익 | `20` |\n\n---\n\n> 인용문\n\n```\nlet x = 1;\n```\n";
    let blocks = parse_markdown_blocks(md);
    let mut it = blocks.iter();
    assert!(matches!(it.next(), Some(Block::Heading { level: 1, text }) if text == "개요"));
    assert!(matches!(
        it.next(),
        Some(Block::Paragraph { text }) if text == "본 문서는 자동 생성되었습니다. 둘째 줄은 같은 문단."
    ));
    assert!(matches!(it.next(), Some(Block::Heading { level: 2, text }) if text == "항목"));
    assert!(matches!(it.next(), Some(Block::Paragraph { text }) if text == "• 첫째"));
    assert!(matches!(it.next(), Some(Block::Paragraph { text }) if text == "• 둘째"));
    assert!(matches!(it.next(), Some(Block::Paragraph { text }) if text == "1. 하나"));
    assert!(matches!(it.next(), Some(Block::Paragraph { text }) if text == "2) 둘"));
    match it.next() {
        Some(Block::Table { rows }) => {
            assert_eq!(rows.len(), 3, "구분선 행은 버린다: {rows:?}");
            assert_eq!(rows[0], vec!["항목", "값"]);
            assert_eq!(
                rows[2],
                vec!["이익", "20"],
                "인라인 코드 표식 제거: {rows:?}"
            );
        }
        other => panic!("표 블록이어야 합니다: {other:?}"),
    }
    assert!(matches!(it.next(), Some(Block::Paragraph { text }) if text == "인용문"));
    assert!(matches!(it.next(), Some(Block::Paragraph { text }) if text == "let x = 1;"));
    assert!(
        it.next().is_none(),
        "수평선은 블록을 만들지 않는다: {blocks:?}"
    );
}

#[test]
fn markdown_inline_markers_are_stripped_but_plain_symbols_survive() {
    assert_eq!(
        strip_inline("**굵게** 와 _기울임_ 과 `코드`"),
        "굵게 와 기울임 과 코드"
    );
    assert_eq!(
        strip_inline("[한컴](https://example.com) 참고"),
        "한컴 참고"
    );
    assert_eq!(
        strip_inline("a * b = c"),
        "a * b = c",
        "낱말 사이 별표는 연산자"
    );
    assert_eq!(strip_inline("snake_case_name"), "snake_case_name");
    // 제목 앞 손 번호는 개요 자동 번호와 겹치므로 벗긴다 — 연도·괄호 없는 숫자는 남긴다.
    let heads: Vec<String> = parse_markdown_blocks(
        "# 1. 개요
## 1.1 매출
## 2) 이익
### (3) 비고
# 2026년 계획
# 3
# 3 대안
",
    )
    .into_iter()
    .map(|b| match b {
        Block::Heading { text, .. } => text,
        other => panic!("{other:?}"),
    })
    .collect();
    assert_eq!(
        heads,
        ["개요", "매출", "이익", "비고", "2026년 계획", "3", "3 대안"]
    );
    assert!(parse_markdown_blocks("").is_empty());
    assert!(parse_markdown_blocks("\n\n   \n").is_empty());
}
