//! Blocks in a document.

use rhwp::document_core::{DerivedState, DocumentCore};
use rhwp::error::HwpError;
use rhwp::model::document::{DocInfo, Document, Section};
use rhwp::model::paragraph::{CharShapeRef, ColumnBreakType, Paragraph};
use rhwp::model::style::{
    BorderFill, BorderLine, BorderLineType, CharShape, HeadType, ParaShape, Style,
};
use rhwp::scaffold::insert::{InsertBlocksReport, StyleResolver};
use rhwp::scaffold::{parse_markdown_blocks, Block};

fn text_paragraph(text: &str, para_shape_id: u16, char_shape_id: u32) -> Paragraph {
    Paragraph {
        text: text.to_string(),
        para_shape_id,
        style_id: 3,
        char_shapes: vec![
            CharShapeRef {
                start_pos: 0,
                char_shape_id: 9,
            },
            CharShapeRef {
                start_pos: 1,
                char_shape_id,
            },
        ],
        column_type: ColumnBreakType::NoBreak,
        raw_break_type: 0,
        has_para_text: true,
        table: None,
    }
}

fn side(line_type: BorderLineType, width: u8) -> BorderLine {
    BorderLine {
        line_type,
        width,
        color: 7,
    }
}

fn border(sides: [BorderLine; 4]) -> BorderFill {
    BorderFill {
        raw_data: Some(vec![1]),
        attr: 0,
        borders: sides,
        fill_color: None,
    }
}

/// Two sections. The first one has two paragraphs; its shape 1 is body text, and 2 is an outline.
fn sample() -> DocumentCore {
    let body = ParaShape {
        raw_data: Some(vec![5]),
        margin_left: 11,
        spacing_after: 40,
        numbering_id: 6,
        ..ParaShape::default()
    };
    let outline = ParaShape {
        raw_data: Some(vec![6]),
        head_type: HeadType::Outline,
        para_level: 2,
        ..ParaShape::default()
    };
    let mut first = text_paragraph("first", 1, 1);
    first.column_type = ColumnBreakType::Section;
    first.raw_break_type = 3;
    let mut core = DocumentCore {
        document: Document {
            sections: vec![
                Section {
                    paragraphs: vec![first, text_paragraph("second", 2, 0)],
                    content_width: 42_000,
                    raw_stream: Some(vec![1, 2, 3]),
                },
                Section {
                    paragraphs: vec![],
                    content_width: 100,
                    raw_stream: None,
                },
            ],
            doc_info: DocInfo {
                para_shapes: vec![ParaShape::default(), body, outline],
                char_shapes: vec![
                    CharShape::default(),
                    CharShape {
                        raw_data: Some(vec![4]),
                        base_size: 1200,
                        italic: true,
                        ..CharShape::default()
                    },
                ],
                border_fills: vec![border([side(BorderLineType::Dash, 1); 4])],
                styles: vec![Style {
                    para_shape_id: 0,
                    char_shape_id: 1,
                }],
            },
        },
        derived: DerivedState { sections: vec![] },
    };
    core.rebuild_derived_state();
    core
}

#[test]
fn insertion_reuses_or_adds_shapes() {
    let mut core = sample();
    let before = core.document.doc_info.clone();
    let markdown = "## 삽입 제목\n\n삽입 본문 문단.\n\n| a | b |\n|---|---|\n| 1 | 2 |\n";
    let report = core.insert_markdown_native(0, None, markdown).unwrap();
    assert_eq!(
        report,
        InsertBlocksReport {
            section: 0,
            first_paragraph: 2,
            inserted_paragraphs: 4,
            heading_count: 1,
            paragraph_count: 1,
            table_count: 1,
            paragraph_count_after: 6,
        }
    );
    let info = &core.document.doc_info;
    assert_eq!(&info.para_shapes[..3], &before.para_shapes[..]);
    assert_eq!(&info.char_shapes[..2], &before.char_shapes[..]);
    assert_eq!(&info.border_fills[..1], &before.border_fills[..]);
    assert_eq!(info.styles, before.styles);
    let paragraphs = &core.document.sections[0].paragraphs;
    let heading = &paragraphs[2];
    assert_eq!(heading.text, "삽입 제목");
    let shape = &info.para_shapes[heading.para_shape_id as usize];
    assert_eq!(shape.head_type, HeadType::Outline);
    assert_eq!(shape.para_level, 1);
    assert!(shape.raw_data.is_none());
    assert_eq!((shape.spacing_before, shape.spacing_after), (200, 100));
    assert_eq!(info.para_shapes.len(), 4);
    assert_eq!(core.derived.sections[0].len(), 6);
    assert_eq!(core.derived.sections[0][2].shape, core.document.doc_info.para_shapes[3]);
    assert!(core.document.sections[0].raw_stream.is_none());

    let shapes = core.document.doc_info.para_shapes.len();
    let bold = core.document.doc_info.char_shapes.len();
    core.insert_markdown_native(0, None, "## 두 번째 제목").unwrap();
    assert_eq!(core.document.doc_info.para_shapes.len(), shapes);
    assert_eq!(core.document.doc_info.char_shapes.len(), bold + 1);

    let count = core.document.sections[0].paragraphs.len();
    let same = core.clone();
    assert!(core.insert_markdown_native(0, Some(count + 1), "x").is_err());
    assert!(core.insert_markdown_native(9, None, "x").is_err());
    assert_eq!(core, same);
}

#[test]
fn body_text_inherits_from_the_paragraph_before() {
    let mut core = sample();
    core.insert_markdown_native(0, Some(1), "a\n\n# h").unwrap();
    let info = &core.document.doc_info;
    let paragraphs = &core.document.sections[0].paragraphs;
    let texts: Vec<&str> = paragraphs.iter().map(|p| p.text.as_str()).collect();
    assert_eq!(texts, ["first", "a", "h", "second"]);
    assert_eq!(paragraphs[1].para_shape_id, 1);
    assert_eq!(paragraphs[1].char_shapes[0].char_shape_id, 1);
    assert_eq!(paragraphs[1].style_id, 3);
    let shape = &info.para_shapes[paragraphs[2].para_shape_id as usize];
    assert_eq!(
        shape,
        &ParaShape {
            raw_data: None,
            margin_left: 11,
            spacing_before: 200,
            spacing_after: 40,
            numbering_id: 0,
            head_type: HeadType::Outline,
            para_level: 0,
            ..ParaShape::default()
        }
    );
    let bold = &info.char_shapes[paragraphs[2].char_shapes[0].char_shape_id as usize];
    assert_eq!(
        bold,
        &CharShape {
            raw_data: None,
            base_size: 1200,
            italic: true,
            bold: true,
            ..CharShape::default()
        }
    );
}

#[test]
fn body_text_behind_a_heading_is_no_heading() {
    let mut core = sample();
    core.insert_markdown_native(0, Some(2), "a\n\n### b").unwrap();
    let paragraphs = &core.document.sections[0].paragraphs;
    assert_eq!(paragraphs[2].para_shape_id, 0);
    assert_eq!(paragraphs[2].char_shapes[0].char_shape_id, 0);
    assert_eq!(paragraphs[3].para_shape_id, 2);
    assert_eq!(core.document.doc_info.para_shapes.len(), 3);
}

#[test]
fn the_section_break_stays_in_front() {
    let mut core = sample();
    core.insert_markdown_native(0, Some(0), "a\n\nb").unwrap();
    let paragraphs = &core.document.sections[0].paragraphs;
    assert_eq!(paragraphs[0].text, "a");
    assert_eq!(paragraphs[0].column_type, ColumnBreakType::Section);
    assert_eq!(paragraphs[0].raw_break_type, 3);
    assert_eq!(paragraphs[0].style_id, 3);
    assert_eq!(paragraphs[1].column_type, ColumnBreakType::NoBreak);
    assert_eq!(paragraphs[2].text, "first");
    assert_eq!(paragraphs[2].column_type, ColumnBreakType::NoBreak);
    assert_eq!(paragraphs[2].raw_break_type, 0);
    assert_eq!(paragraphs[3], sample().document.sections[0].paragraphs[1]);
}

#[test]
fn an_empty_section_takes_the_first_style() {
    let mut core = sample();
    core.insert_markdown_native(1, None, "a").unwrap();
    let paragraph = &core.document.sections[1].paragraphs[0];
    assert_eq!(paragraph.para_shape_id, 0);
    assert_eq!(paragraph.char_shapes[0].char_shape_id, 1);
    assert_eq!(paragraph.style_id, 0);
    assert_eq!(paragraph.column_type, ColumnBreakType::NoBreak);
    assert_eq!(core.document.sections[0], sample().document.sections[0]);

    let mut bare = sample();
    bare.document.doc_info.styles.clear();
    bare.insert_markdown_native(1, Some(0), "a").unwrap();
    let paragraph = &bare.document.sections[1].paragraphs[0];
    assert_eq!(paragraph.para_shape_id, 0);
    assert_eq!(paragraph.char_shapes[0].char_shape_id, 0);
}

#[test]
fn tables_hold_their_rows_and_a_solid_frame() {
    let mut core = sample();
    core.insert_markdown_native(0, None, "| a | b |\n| c |\n\n| d |").unwrap();
    let info = &core.document.doc_info;
    assert_eq!(info.border_fills.len(), 2);
    assert_eq!(
        info.border_fills[1],
        BorderFill {
            raw_data: None,
            attr: 0,
            borders: [BorderLine {
                line_type: BorderLineType::Solid,
                width: 1,
                color: 0
            }; 4],
            fill_color: None,
        }
    );
    let paragraphs = &core.document.sections[0].paragraphs;
    let table = paragraphs[2].table.as_ref().unwrap();
    assert_eq!(table.rows, vec![vec!["a", "b"], vec!["c"]]);
    assert_eq!(table.width, 42_000);
    assert_eq!(table.border_fill_id, 2);
    assert_eq!(table.char_shape_id, 0);
    assert_eq!(paragraphs[2].para_shape_id, 0);
    assert!(paragraphs[3].table.is_none());
    assert!(!paragraphs[3].has_para_text);
    assert_eq!(paragraphs[3].text, "");
    assert_eq!(paragraphs[4].table.as_ref().unwrap().border_fill_id, 2);
    assert_eq!(paragraphs.len(), 6);
}

#[test]
fn a_solid_frame_that_is_there_is_reused() {
    let solid = side(BorderLineType::Solid, 2);
    let thin = side(BorderLineType::Solid, 0);
    let mut core = sample();
    core.document.doc_info.border_fills = vec![
        border([solid, solid, solid, thin]),
        border([solid, solid, side(BorderLineType::Dot, 2), solid]),
        border([solid; 4]),
        border([solid; 4]),
    ];
    core.insert_markdown_native(0, None, "| a |").unwrap();
    assert_eq!(core.document.doc_info.border_fills.len(), 4);
    let paragraphs = &core.document.sections[0].paragraphs;
    assert_eq!(paragraphs[2].table.as_ref().unwrap().border_fill_id, 3);
}

#[test]
fn levels_are_clamped() {
    let mut core = sample();
    let blocks = [
        Block::Heading {
            level: 0,
            text: "low".to_string(),
        },
        Block::Heading {
            level: 9,
            text: "high".to_string(),
        },
        Block::Heading {
            level: 7,
            text: "seven".to_string(),
        },
    ];
    let report = core.insert_blocks_native(0, Some(1), &blocks).unwrap();
    assert_eq!(report.heading_count, 3);
    let info = &core.document.doc_info;
    let paragraphs = &core.document.sections[0].paragraphs;
    let level = |i: usize| info.para_shapes[paragraphs[i].para_shape_id as usize].para_level;
    assert_eq!((level(1), level(2), level(3)), (0, 6, 6));
    assert_eq!(info.para_shapes.len(), 5);
    assert_eq!(info.char_shapes.len(), 3);
}

#[test]
fn shapes_that_are_not_there_are_plain() {
    let mut core = sample();
    core.document.sections[0].paragraphs[1].para_shape_id = 3;
    core.document.sections[0].paragraphs[1].char_shapes[1].char_shape_id = 77;
    core.insert_markdown_native(0, None, "# a\n## b\ntext").unwrap();
    let info = &core.document.doc_info;
    assert_eq!(info.para_shapes.len(), 5);
    assert_eq!(info.para_shapes[3].para_level, 0);
    assert_eq!(info.para_shapes[3].margin_left, 0);
    assert_eq!(info.para_shapes[4].para_level, 1);
    assert_eq!(
        info.char_shapes[2],
        CharShape {
            bold: true,
            ..CharShape::default()
        }
    );
    assert_eq!(core.document.sections[0].paragraphs[4].para_shape_id, 3);
}

#[test]
fn nothing_to_insert_changes_nothing() {
    let mut core = sample();
    let report = core.insert_blocks_native(0, Some(1), &[]).unwrap();
    assert_eq!(
        report,
        InsertBlocksReport {
            section: 0,
            first_paragraph: 1,
            inserted_paragraphs: 0,
            heading_count: 0,
            paragraph_count: 0,
            table_count: 0,
            paragraph_count_after: 2,
        }
    );
    assert_eq!(core, sample());
    core.insert_markdown_native(0, None, "\n---\n").unwrap();
    assert_eq!(core, sample());
}

#[test]
fn a_table_without_cells_is_left_out() {
    let mut core = sample();
    let blocks = [
        Block::Table { rows: vec![] },
        Block::Table {
            rows: vec![vec![], vec![]],
        },
    ];
    let report = core.insert_blocks_native(0, None, &blocks).unwrap();
    assert_eq!(report.inserted_paragraphs, 0);
    assert_eq!(report.table_count, 0);
    assert_eq!(report.paragraph_count_after, 2);
    assert_eq!(core.document.sections, sample().document.sections);
    assert_eq!(core.document.doc_info.border_fills.len(), 2);
    assert_eq!(core.derived, sample().derived);
}

#[test]
fn places_that_are_not_there_are_named() {
    let mut core = sample();
    assert_eq!(
        core.insert_markdown_native(12, None, "x"),
        Err(HwpError::RenderError(
            "구역 인덱스 12 범위 초과 (총 2개)".to_string()
        ))
    );
    assert_eq!(
        core.insert_markdown_native(0, Some(305), "x"),
        Err(HwpError::RenderError(
            "문단 인덱스 305 범위 초과 (총 2개, 최대 2)".to_string()
        ))
    );
    assert_eq!(core, sample());
}

#[test]
fn markdown_is_inserted_as_its_blocks() {
    let markdown = "# a\nb\n\n- c\n\n| d |\n|---|\n";
    let mut parsed = sample();
    let mut whole = sample();
    let blocks = parse_markdown_blocks(markdown);
    assert_eq!(
        parsed.insert_blocks_native(0, Some(1), &blocks),
        whole.insert_markdown_native(0, Some(1), markdown)
    );
    assert_eq!(parsed, whole);

    let mut end = sample();
    let mut named = sample();
    assert_eq!(
        end.insert_blocks_native(0, None, &blocks),
        named.insert_blocks_native(0, Some(2), &blocks)
    );
    assert_eq!(end, named);
}

#[test]
fn the_report_adds_up() {
    let mut core = sample();
    let report = core
        .insert_markdown_native(0, Some(1), "# a\n# b\nc\n\n| d |\n\n| e |\n\n- f\n")
        .unwrap();
    assert_eq!(report.heading_count, 2);
    assert_eq!(report.paragraph_count, 2);
    assert_eq!(report.table_count, 2);
    assert_eq!(report.inserted_paragraphs, 8);
    assert_eq!(report.paragraph_count_after, 10);
    assert_eq!(core.document.sections[0].paragraphs.len(), 10);
}

#[test]
fn the_same_blocks_may_be_inserted_again() {
    let mut core = sample();
    let markdown = "# a\n\nb\n\n| c |\n";
    core.insert_markdown_native(0, None, markdown).unwrap();
    let shapes = core.document.doc_info.para_shapes.len();
    let fills = core.document.doc_info.border_fills.len();
    let report = core.insert_markdown_native(0, None, markdown).unwrap();
    assert_eq!(report.first_paragraph, 6);
    assert_eq!(report.paragraph_count_after, 10);
    assert_eq!(core.document.doc_info.para_shapes.len(), shapes);
    assert_eq!(core.document.doc_info.border_fills.len(), fills);
    let texts: Vec<&str> = core.document.sections[0]
        .paragraphs
        .iter()
        .map(|p| p.text.as_str())
        .collect();
    assert_eq!(
        texts,
        ["first", "second", "a", "b", "", "", "a", "b", "", ""]
    );
}

#[test]
fn two_texts_say_what_one_text_says() {
    let (a, b) = ("# a\n\n| c |", "| d |\n\n- e");
    for at in [None, Some(0), Some(1)] {
        let mut apart = sample();
        let report = apart.insert_markdown_native(0, at, a).unwrap();
        let next = report.first_paragraph + report.inserted_paragraphs;
        apart.insert_markdown_native(0, Some(next), b).unwrap();
        let mut whole = sample();
        whole
            .insert_markdown_native(0, at, &format!("{a}\n\n{b}"))
            .unwrap();
        let said = |core: &DocumentCore| -> Vec<(String, Option<Vec<Vec<String>>>)> {
            core.document.sections[0]
                .paragraphs
                .iter()
                .map(|p| (p.text.clone(), p.table.as_ref().map(|t| t.rows.clone())))
                .collect()
        };
        assert_eq!(said(&apart), said(&whole));
        assert_eq!(said(&whole).len(), 8);
    }
}

#[test]
fn each_missing_level_gets_one_shape() {
    let mut core = sample();
    let markdown = "# a\n####### b\n# c\n### d\n## e\n#### f\n##### g\n###### h\n## i\n";
    core.insert_markdown_native(0, Some(1), markdown).unwrap();
    let info = &core.document.doc_info;
    assert_eq!(info.para_shapes.len(), 9);
    assert_eq!(info.char_shapes.len(), 3);
    let paragraphs = &core.document.sections[0].paragraphs;
    let ids: Vec<u16> = paragraphs[1..10].iter().map(|p| p.para_shape_id).collect();
    assert_eq!(ids, [3, 4, 3, 2, 5, 6, 7, 8, 5]);
    assert!(paragraphs[1..10]
        .iter()
        .all(|p| p.char_shapes.len() == 1 && p.char_shapes[0].char_shape_id == 2));
}

#[test]
fn a_bold_shape_that_is_there_is_not_looked_for() {
    let mut core = sample();
    let bold = CharShape {
        raw_data: None,
        base_size: 1200,
        italic: true,
        bold: true,
        ..CharShape::default()
    };
    core.document.doc_info.char_shapes.push(bold.clone());
    core.insert_markdown_native(0, Some(1), "# a\n# b").unwrap();
    let shapes = &core.document.doc_info.char_shapes;
    assert_eq!(shapes.len(), 4);
    assert_eq!(shapes[3], bold);
}

#[test]
fn what_is_derived_follows_the_document() {
    let mut core = sample();
    core.insert_markdown_native(0, Some(1), "# a\n\nb\n\n| c |").unwrap();
    let mut anew = core.clone();
    anew.derived.sections.clear();
    anew.rebuild_derived_state();
    assert_eq!(core, anew);
    let looks = &core.derived.sections[0];
    assert_eq!(looks.len(), 6);
    assert_eq!(looks[1].shape.head_type, HeadType::Outline);
    assert_eq!(looks[1].shape.para_level, 0);
    assert_eq!(looks[1].runs.len(), 1);
    assert!(looks[1].runs[0].shape.bold);
    assert_eq!(looks[2].shape.margin_left, 11);
    assert!(looks[2].shape.raw_data.is_none());
    assert_eq!(looks[2].runs[0].shape.base_size, 1200);
    assert_eq!(looks[0].runs[0].shape, CharShape::default());
    assert_eq!(looks[0].runs[1].start_pos, 1);
    assert_eq!(core.derived.sections[1].len(), 0);
}

#[test]
fn levels_are_told_apart_and_looked_up_once() {
    let mut core = sample();
    let mut resolver = StyleResolver::new(&core, None);
    let first = resolver.heading_para_shape(&mut core.document, 1);
    let bold = resolver.heading_char_shape(&mut core.document);
    let frame = resolver.solid_border_fill(&mut core.document);
    assert_eq!((first, bold, frame), (3, 2, 2));
    assert_eq!(resolver.heading_para_shape(&mut core.document, 3), 2);
    let same = core.clone();
    assert_eq!(resolver.heading_para_shape(&mut core.document, 1), first);
    assert_eq!(resolver.heading_char_shape(&mut core.document), bold);
    assert_eq!(resolver.solid_border_fill(&mut core.document), frame);
    assert_eq!(core, same);
}
