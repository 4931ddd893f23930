//! Inserts blocks into an open document.
//!
//! A document brings its own shapes. New paragraphs inherit the format of the paragraph before
//! the place of insertion, as if Enter had been pressed there. A shape that the document may
//! lack (an outline level, bold text, a solid frame) is appended to its tables. No entry that is
//! there already changes: other paragraphs refer to it.

use crate::document_core::DocumentCore;
use crate::error::HwpError;
use crate::model::document::{DocInfo, Document, Section};
use crate::model::paragraph::{ColumnBreakType, Paragraph, ParagraphView};
use crate::model::style::{
    char_shape_or_plain, para_shape_or_plain, BorderFill, BorderLine, BorderLineType, CharShape,
    HeadType, ParaShape,
};
use crate::scaffold::builder::{
    build_table_paragraph_with, has_cells, make_text_para, table_paragraph, text_paragraph,
};
use crate::scaffold::markdown::{markdown_blocks, parse_markdown_blocks};
use crate::scaffold::schema::{Block, BlockView};
use crate::text::{decimal, to_decimal};
use std::collections::HashMap;
use vstd::prelude::*;
use vstd::string::StringExecFns;

verus! {

broadcast use vstd::std_specs::hash::group_hash_axioms;

// ---- Format ----

/// What new paragraphs inherit.
pub struct Inherited {
    /// The paragraph shape of body text.
    pub para_shape_id: u16,
    /// The character shape of body text.
    pub char_shape_id: u32,
    /// The style.
    pub style_id: u8,
}

/// The paragraph that new ones at `at` inherit from: the one before, or the one they displace
/// where there is none before.
pub open spec fn template_at(paragraphs: Seq<Paragraph>, at: int) -> Option<Paragraph> {
    if paragraphs.len() == 0 {
        None
    } else if at == 0 {
        Some(paragraphs[0])
    } else {
        Some(paragraphs[at - 1])
    }
}

/// Whether `id` is a paragraph shape of an outline level.
pub open spec fn is_outline(info: DocInfo, id: u16) -> bool {
    id < info.para_shapes@.len() && info.para_shapes@[id as int].head_type == HeadType::Outline
}

/// What is inherited from `template`. The first style stands in where there is no template, for
/// character shapes where the template has none, and for the paragraph shape where the
/// template's is an outline level: body text is no heading.
pub open spec fn inherited(info: DocInfo, template: Option<Paragraph>) -> Inherited {
    let styled = info.styles@.len() > 0;
    let own = match template {
        Some(p) => p.para_shape_id,
        None => if styled {
            info.styles@[0].para_shape_id
        } else {
            0
        },
    };
    Inherited {
        para_shape_id: if is_outline(info, own) && styled {
            info.styles@[0].para_shape_id
        } else {
            own
        },
        char_shape_id: if template is Some && template->0.char_shapes@.len() > 0 {
            template->0.char_shapes@.last().char_shape_id
        } else if styled {
            info.styles@[0].char_shape_id as u32
        } else {
            0
        },
        style_id: match template {
            Some(p) => p.style_id,
            None => 0,
        },
    }
}

/// The level of an outline: from 1 to 7.
pub open spec fn clamped(level: u8) -> u8 {
    if level < 1 {
        1
    } else if level > 7 {
        7
    } else {
        level
    }
}

/// Whether `shape` is the shape of the outline level `level`.
pub open spec fn is_outline_of(shape: ParaShape, level: u8) -> bool {
    shape.head_type == HeadType::Outline && shape.para_level == level - 1
}

/// The index of the first shape of the outline level `level`, or the number of shapes where
/// there is none.
pub open spec fn outline_index(shapes: Seq<ParaShape>, level: u8) -> int
    decreases shapes.len(),
{
    if shapes.len() == 0 {
        0
    } else {
        let k = outline_index(shapes.drop_last(), level);
        if k < shapes.len() - 1 || is_outline_of(shapes.last(), level) {
            k
        } else {
            shapes.len() as int
        }
    }
}

/// The shape of the outline level `level`, made from `base`: it is not bound to bytes that were
/// read, has no number of its own, and has space around it.
pub open spec fn outline_shape(base: ParaShape, level: u8) -> ParaShape {
    ParaShape {
        raw_data: None,
        head_type: HeadType::Outline,
        para_level: (level - 1) as u8,
        numbering_id: 0,
        spacing_before: if base.spacing_before == 0 {
            200
        } else {
            base.spacing_before
        },
        spacing_after: if base.spacing_after == 0 {
            100
        } else {
            base.spacing_after
        },
        ..base
    }
}

/// The shapes with one of the outline level `level` among them: it is appended if missing.
pub open spec fn with_outline(shapes: Seq<ParaShape>, base_id: u16, level: u8) -> Seq<ParaShape> {
    if outline_index(shapes, level) < shapes.len() {
        shapes
    } else {
        shapes.push(outline_shape(para_shape_or_plain(shapes, base_id), level))
    }
}

/// The shapes with one for the level of each heading among `blocks`.
pub open spec fn with_outlines(
    shapes: Seq<ParaShape>,
    base_id: u16,
    blocks: Seq<BlockView>,
) -> Seq<ParaShape>
    decreases blocks.len(),
{
    if blocks.len() == 0 {
        shapes
    } else {
        let before = with_outlines(shapes, base_id, blocks.drop_last());
        match blocks.last() {
            BlockView::Heading { level, .. } => with_outline(before, base_id, clamped(level)),
            _ => before,
        }
    }
}

/// The bold shape made from `base`.
pub open spec fn bold_shape(base: CharShape) -> CharShape {
    CharShape { raw_data: None, bold: true, ..base }
}

/// The character shapes with a bold one appended, if there is a heading among `blocks`.
pub open spec fn with_bold(
    shapes: Seq<CharShape>,
    base_id: u32,
    blocks: Seq<BlockView>,
) -> Seq<CharShape> {
    if headings(blocks) > 0 {
        shapes.push(bold_shape(char_shape_or_plain(shapes, base_id)))
    } else {
        shapes
    }
}

/// Whether all four sides of `fill` are solid lines that have a width.
pub open spec fn is_frame(fill: BorderFill) -> bool {
    forall|i: int|
        0 <= i < 4 ==> (#[trigger] fill.borders@[i]).line_type == BorderLineType::Solid
            && fill.borders@[i].width > 0
}

/// The index of the first solid frame, or the number of entries where there is none.
pub open spec fn frame_index(fills: Seq<BorderFill>) -> int
    decreases fills.len(),
{
    if fills.len() == 0 {
        0
    } else {
        let k = frame_index(fills.drop_last());
        if k < fills.len() - 1 || is_frame(fills.last()) {
            k
        } else {
            fills.len() as int
        }
    }
}

/// A thin solid line.
pub open spec fn solid_line() -> BorderLine {
    BorderLine { line_type: BorderLineType::Solid, width: 1, color: 0 }
}

/// A frame of thin solid lines, without a fill.
pub open spec fn solid_frame() -> BorderFill {
    BorderFill {
        raw_data: None,
        attr: 0,
        borders: [solid_line(), solid_line(), solid_line(), solid_line()],
        fill_color: None,
    }
}

/// The borders with a solid frame among them, if there is a table among `blocks`: it is appended
/// if missing.
pub open spec fn with_frame(fills: Seq<BorderFill>, blocks: Seq<BlockView>) -> Seq<BorderFill> {
    if has_table(blocks) && frame_index(fills) == fills.len() {
        fills.push(solid_frame())
    } else {
        fills
    }
}

// ---- Blocks ----

/// The number of headings.
pub open spec fn headings(blocks: Seq<BlockView>) -> nat
    decreases blocks.len(),
{
    if blocks.len() == 0 {
        0
    } else {
        headings(blocks.drop_last()) + if blocks.last() is Heading {
            1nat
        } else {
            0nat
        }
    }
}

/// The number of paragraphs.
pub open spec fn bodies(blocks: Seq<BlockView>) -> nat
    decreases blocks.len(),
{
    if blocks.len() == 0 {
        0
    } else {
        bodies(blocks.drop_last()) + if blocks.last() is Paragraph {
            1nat
        } else {
            0nat
        }
    }
}

/// The number of tables that have a cell.
pub open spec fn tables(blocks: Seq<BlockView>) -> nat
    decreases blocks.len(),
{
    if blocks.len() == 0 {
        0
    } else {
        tables(blocks.drop_last()) + match blocks.last() {
            BlockView::Table { rows } => if has_cells(rows) {
                1nat
            } else {
                0nat
            },
            _ => 0nat,
        }
    }
}

/// Whether there is a table, with cells or without.
pub open spec fn has_table(blocks: Seq<BlockView>) -> bool
    decreases blocks.len(),
{
    blocks.len() > 0 && (has_table(blocks.drop_last()) || blocks.last() is Table)
}

/// What the paragraphs of blocks are made with.
pub struct Format {
    /// What they inherit.
    pub inherited: Inherited,
    /// The paragraph shapes of the document, those of its headings among them.
    pub para_shapes: Seq<ParaShape>,
    /// The character shape of headings.
    pub heading_char_shape_id: u32,
    /// The border of tables, counted from 1.
    pub border_fill_id: u16,
    /// The width that tables are laid out in.
    pub content_width: u32,
}

/// An index as it is stored in two bytes.
pub open spec fn id16(index: int) -> u16 {
    (index % 0x1_0000) as u16
}

/// An index as it is stored in four bytes.
pub open spec fn id32(index: int) -> u32 {
    (index % 0x1_0000_0000) as u32
}

/// The paragraphs that a block becomes: one, or for a table with cells the one that holds it and
/// an empty one behind it.
pub open spec fn block_paragraphs(block: BlockView, format: Format) -> Seq<ParagraphView> {
    let inherited = format.inherited;
    match block {
        BlockView::Heading { level, text } => seq![
            ParagraphView {
                style_id: inherited.style_id,
                ..text_paragraph(
                    text,
                    id16(outline_index(format.para_shapes, clamped(level))),
                    format.heading_char_shape_id,
                )
            },
        ],
        BlockView::Paragraph { text } => seq![
            ParagraphView {
                style_id: inherited.style_id,
                ..text_paragraph(text, inherited.para_shape_id, inherited.char_shape_id)
            },
        ],
        BlockView::Table { rows } => if has_cells(rows) {
            seq![
                ParagraphView {
                    style_id: inherited.style_id,
                    para_shape_id: inherited.para_shape_id,
                    ..table_paragraph(
                        rows,
                        format.content_width,
                        format.border_fill_id,
                        inherited.char_shape_id,
                    )
                },
                ParagraphView {
                    style_id: inherited.style_id,
                    has_para_text: false,
                    ..text_paragraph(seq![], inherited.para_shape_id, inherited.char_shape_id)
                },
            ]
        } else {
            seq![]
        },
    }
}

/// The paragraphs that blocks become, in order.
pub open spec fn paragraphs_of(blocks: Seq<BlockView>, format: Format) -> Seq<ParagraphView>
    decreases blocks.len(),
{
    if blocks.len() == 0 {
        seq![]
    } else {
        paragraphs_of(blocks.drop_last(), format) + block_paragraphs(blocks.last(), format)
    }
}

// ---- Insertion ----

/// The new paragraphs: at the start of a section, the first one takes over the break that the
/// paragraph it displaces stood for. The break belongs to the place.
pub open spec fn taking_break(
    new: Seq<ParagraphView>,
    paragraphs: Seq<Paragraph>,
    at: int,
) -> Seq<ParagraphView> {
    if at == 0 && new.len() > 0 && paragraphs.len() > 0 {
        new.update(
            0,
            ParagraphView {
                column_type: paragraphs[0].column_type,
                raw_break_type: paragraphs[0].raw_break_type,
                ..new[0]
            },
        )
    } else {
        new
    }
}

/// The paragraphs that were there: at the start of a section, the first one hands over its
/// break.
pub open spec fn giving_break(paragraphs: Seq<Paragraph>, at: int) -> Seq<Paragraph> {
    if at == 0 && paragraphs.len() > 0 {
        paragraphs.update(
            0,
            Paragraph {
                column_type: ColumnBreakType::NoBreak,
                raw_break_type: 0,
                ..paragraphs[0]
            },
        )
    } else {
        paragraphs
    }
}

/// Whether `after` is the section `before` with the paragraphs `new` in front of index `at`.
pub open spec fn section_gains(
    before: Section,
    after: Section,
    at: int,
    new: Seq<ParagraphView>,
) -> bool {
    let kept = giving_break(before.paragraphs@, at);
    let end = at + new.len();
    if new.len() == 0 {
        after == before
    } else {
        &&& after.content_width == before.content_width
        &&& after.raw_stream is None
        &&& after.paragraphs@.len() == kept.len() + new.len()
        &&& after.paragraphs@.take(at) == kept.take(at)
        &&& after.paragraphs.deep_view().subrange(at, end) == taking_break(
            new,
            before.paragraphs@,
            at,
        )
        &&& after.paragraphs@.skip(end) == kept.skip(at)
    }
}

/// What the paragraphs of `blocks` are made with at index `at` of a section.
pub open spec fn format_at(
    document: Document,
    section: int,
    at: int,
    blocks: Seq<BlockView>,
) -> Format {
    let info = document.doc_info;
    let paragraphs = document.sections@[section].paragraphs@;
    let inherited = inherited(info, template_at(paragraphs, at));
    Format {
        inherited,
        para_shapes: with_outlines(info.para_shapes@, inherited.para_shape_id, blocks),
        heading_char_shape_id: id32(info.char_shapes@.len() as int),
        border_fill_id: id16(frame_index(info.border_fills@) + 1),
        content_width: document.sections@[section].content_width,
    }
}

/// The paragraphs that `blocks` become at index `at` of a section.
pub open spec fn new_paragraphs(
    document: Document,
    section: int,
    at: int,
    blocks: Seq<BlockView>,
) -> Seq<ParagraphView> {
    paragraphs_of(blocks, format_at(document, section, at, blocks))
}

/// Whether `after` is the document `before` with `blocks` in front of index `at` of a section:
/// the tables of shapes have what the blocks need, the section has their paragraphs, and nothing
/// else is different.
pub open spec fn document_gains(
    before: Document,
    after: Document,
    section: int,
    at: int,
    blocks: Seq<BlockView>,
) -> bool {
    let format = format_at(before, section, at, blocks);
    let old_info = before.doc_info;
    let info = after.doc_info;
    &&& info.para_shapes@ == format.para_shapes
    &&& info.char_shapes@ == with_bold(
        old_info.char_shapes@,
        format.inherited.char_shape_id,
        blocks,
    )
    &&& info.border_fills@ == with_frame(old_info.border_fills@, blocks)
    &&& info.styles == old_info.styles
    &&& after.sections@.len() == before.sections@.len()
    &&& forall|i: int|
        0 <= i < before.sections@.len() && i != section ==> #[trigger] after.sections@[i]
            == before.sections@[i]
    &&& section_gains(
        before.sections@[section],
        after.sections@[section],
        at,
        new_paragraphs(before, section, at, blocks),
    )
}

/// What an insertion did.
#[derive(Debug, Clone, Copy, PartialEq, Eq, Structural)]
pub struct InsertBlocksReport {
    /// The section.
    pub section: usize,
    /// The index of the first new paragraph.
    pub first_paragraph: usize,
    /// The number of new paragraphs. A table makes two: its own, and an empty one behind it.
    pub inserted_paragraphs: usize,
    /// The number of headings.
    pub heading_count: usize,
    /// The number of paragraphs of body text.
    pub paragraph_count: usize,
    /// The number of tables.
    pub table_count: usize,
    /// The number of paragraphs in the section after the insertion.
    pub paragraph_count_after: usize,
}

/// Whether `report` says what inserting `blocks` in front of index `at` of a section did.
pub open spec fn reports(
    report: InsertBlocksReport,
    before: Document,
    section: int,
    at: int,
    blocks: Seq<BlockView>,
) -> bool {
    let inserted = new_paragraphs(before, section, at, blocks).len();
    &&& report.section == section
    &&& report.first_paragraph == at
    &&& report.inserted_paragraphs == inserted
    &&& report.heading_count == headings(blocks)
    &&& report.paragraph_count == bodies(blocks)
    &&& report.table_count == tables(blocks)
    &&& report.paragraph_count_after == before.sections@[section].paragraphs@.len() + inserted
}

/// The index that `at` stands for among `count` paragraphs: the end where it is left out.
pub open spec fn position(at: Option<usize>, count: nat) -> int {
    match at {
        Some(i) => i as int,
        None => count as int,
    }
}

/// What is said of a section that the document does not have.
pub open spec fn section_message(section: nat, count: nat) -> Seq<char> {
    "구역 인덱스 "@ + decimal(section) + " 범위 초과 (총 "@ + decimal(count) + "개)"@
}

/// What is said of an index that lies behind the end of the section.
pub open spec fn paragraph_message(at: nat, count: nat) -> Seq<char> {
    "문단 인덱스 "@ + decimal(at) + " 범위 초과 (총 "@ + decimal(count) + "개, 최대 "@ + decimal(
        count,
    ) + ")"@
}

/// The result and the effect of inserting `blocks` at `at` into the section `section_idx`: a
/// section or an index that is not there is an error and changes nothing, and neither does an
/// empty list of blocks; otherwise the document gains the blocks, the report says so, and what is
/// derived from the document is rebuilt if there is a new paragraph.
pub open spec fn insertion(
    before: DocumentCore,
    after: DocumentCore,
    section_idx: usize,
    at: Option<usize>,
    blocks: Seq<BlockView>,
    res: Result<InsertBlocksReport, HwpError>,
) -> bool {
    let section = section_idx as int;
    let sections = before.document.sections@;
    let count = sections[section].paragraphs@.len();
    let pos = position(at, count);
    if section >= sections.len() {
        &&& res matches Err(HwpError::RenderError(message))
        &&& message@ == section_message(section_idx as nat, sections.len())
        &&& after == before
    } else if pos > count {
        &&& res matches Err(HwpError::RenderError(message))
        &&& message@ == paragraph_message(pos as nat, count)
        &&& after == before
    } else {
        &&& res matches Ok(report)
        &&& blocks.len() == 0 ==> after == before
        &&& reports(report, before.document, section, pos, blocks)
        &&& document_gains(before.document, after.document, section, pos, blocks)
        &&& if new_paragraphs(before.document, section, pos, blocks).len() > 0 {
            after.is_current()
        } else {
            after.derived == before.derived
        }
    }
}

// ---- What is looked up ----

/// What the shapes of new paragraphs are resolved to so far: what they inherit, and what was looked
/// up.
#[verifier::ext_equal]
pub struct Resolved {
    /// What new paragraphs inherit.
    pub inherited: Inherited,
    /// The paragraph shape of each outline level that was looked up.
    pub outlines: Map<u8, u16>,
    /// The character shape of headings, if it was looked up.
    pub bold: Option<u32>,
    /// The border of tables, counted from 1, if it was looked up.
    pub frame: Option<u16>,
}

/// Whether the levels that were looked up are in `shapes`, where they were found.
pub open spec fn agrees(resolved: Resolved, shapes: Seq<ParaShape>) -> bool {
    forall|level: u8| #[trigger]
        resolved.outlines.contains_key(level) ==> {
            &&& outline_index(shapes, level) < shapes.len()
            &&& resolved.outlines[level] == id16(outline_index(shapes, level))
        }
}

/// Looking up the outline level `level` gives `id`, the first shape of that level. The shape is
/// appended if the document has none; otherwise the document stays as it is.
pub open spec fn takes_outline(
    before: Resolved,
    after: Resolved,
    doc: Document,
    doc_after: Document,
    level: u8,
    id: u16,
) -> bool {
    let shapes = doc.doc_info.para_shapes@;
    let shapes_after = doc_after.doc_info.para_shapes@;
    &&& after == (Resolved { outlines: before.outlines.insert(level, id), ..before })
    &&& shapes_after == with_outline(shapes, before.inherited.para_shape_id, level)
    &&& doc_after.sections == doc.sections
    &&& doc_after.doc_info.char_shapes == doc.doc_info.char_shapes
    &&& doc_after.doc_info.border_fills == doc.doc_info.border_fills
    &&& doc_after.doc_info.styles == doc.doc_info.styles
    &&& outline_index(shapes, level) < shapes.len() ==> doc_after == doc
    &&& id == id16(outline_index(shapes_after, level))
}

/// Looking up the character shape of headings gives `id`. The first time, a bold shape is appended,
/// whether or not there is one like it; from then on the document stays as it is.
pub open spec fn takes_bold(
    before: Resolved,
    after: Resolved,
    doc: Document,
    doc_after: Document,
    id: u32,
) -> bool {
    let shapes = doc.doc_info.char_shapes@;
    &&& after == (Resolved { bold: Some(id), ..before })
    &&& doc_after.sections == doc.sections
    &&& doc_after.doc_info.para_shapes == doc.doc_info.para_shapes
    &&& doc_after.doc_info.border_fills == doc.doc_info.border_fills
    &&& doc_after.doc_info.styles == doc.doc_info.styles
    &&& match before.bold {
        Some(known) => id == known && doc_after == doc,
        None => {
            &&& id == id32(shapes.len() as int)
            &&& doc_after.doc_info.char_shapes@ == shapes.push(
                bold_shape(char_shape_or_plain(shapes, before.inherited.char_shape_id)),
            )
        },
    }
}

/// Looking up the border of tables gives `id`. The first time, it is the first solid frame of the
/// document, which is appended if there is none; from then on the document stays as it is.
pub open spec fn takes_frame(
    before: Resolved,
    after: Resolved,
    doc: Document,
    doc_after: Document,
    id: u16,
) -> bool {
    let fills = doc.doc_info.border_fills@;
    &&& after == (Resolved { frame: Some(id), ..before })
    &&& doc_after.sections == doc.sections
    &&& doc_after.doc_info.para_shapes == doc.doc_info.para_shapes
    &&& doc_after.doc_info.char_shapes == doc.doc_info.char_shapes
    &&& doc_after.doc_info.styles == doc.doc_info.styles
    &&& match before.frame {
        Some(known) => id == known && doc_after == doc,
        None => {
            &&& id == id16(frame_index(fills) + 1)
            &&& frame_index(fills) < fills.len() ==> doc_after == doc
            &&& frame_index(fills) == fills.len() ==> doc_after.doc_info.border_fills@
                == fills.push(solid_frame())
        },
    }
}

// ---- Finding shapes ----

/// `outline_index` lies within the shapes or at their end.
pub(crate) proof fn lemma_outline_index(shapes: Seq<ParaShape>, level: u8)
    ensures
        0 <= outline_index(shapes, level) <= shapes.len(),
        outline_index(shapes, level) < shapes.len() ==> is_outline_of(
            shapes[outline_index(shapes, level)],
            level,
        ),
    decreases shapes.len(),
{
    if shapes.len() > 0 {
        lemma_outline_index(shapes.drop_last(), level);
    }
}

/// The first shape of a level stays the first one when shapes are appended.
pub(crate) proof fn lemma_outline_stays(shapes: Seq<ParaShape>, more: Seq<ParaShape>, level: u8)
    requires
        shapes.is_prefix_of(more),
        outline_index(shapes, level) < shapes.len(),
    ensures
        outline_index(more, level) == outline_index(shapes, level),
    decreases more.len(),
{
    if more.len() > shapes.len() {
        assert(shapes.is_prefix_of(more.drop_last())) by {
            assert(shapes =~= more.drop_last().subrange(0, shapes.len() as int));
        }
        lemma_outline_stays(shapes, more.drop_last(), level);
    } else {
        assert(more =~= shapes);
    }
}

/// `frame_index` lies within the entries or at their end.
pub(crate) proof fn lemma_frame_index(fills: Seq<BorderFill>)
    ensures
        0 <= frame_index(fills) <= fills.len(),
        frame_index(fills) < fills.len() ==> is_frame(fills[frame_index(fills)]),
    decreases fills.len(),
{
    if fills.len() > 0 {
        lemma_frame_index(fills.drop_last());
    }
}

/// The first solid frame stays the first one when entries are appended.
pub(crate) proof fn lemma_frame_stays(fills: Seq<BorderFill>, more: Seq<BorderFill>)
    requires
        fills.is_prefix_of(more),
        frame_index(fills) < fills.len(),
    ensures
        frame_index(more) == frame_index(fills),
    decreases more.len(),
{
    if more.len() > fills.len() {
        assert(fills.is_prefix_of(more.drop_last())) by {
            assert(fills =~= more.drop_last().subrange(0, fills.len() as int));
        }
        lemma_frame_stays(fills, more.drop_last());
    } else {
        assert(more =~= fills);
    }
}

/// The index of the first shape of the outline level `level`, if there is one.
fn find_outline(shapes: &Vec<ParaShape>, level: u8) -> (found: Option<usize>)
    requires
        level > 0,
    ensures
        match found {
            Some(k) => k == outline_index(shapes@, level) && k < shapes@.len(),
            None => outline_index(shapes@, level) == shapes@.len(),
        },
{
    let mut i: usize = 0;
    while i < shapes.len()
        invariant
            level > 0,
            i <= shapes@.len(),
            outline_index(shapes@.take(i as int), level) == i,
        decreases shapes.len() - i,
    {
        assert(shapes@.take(i + 1).drop_last() =~= shapes@.take(i as int));
        if shapes[i].head_type == HeadType::Outline && shapes[i].para_level == level - 1 {
            proof {
                assert(shapes@.take(i + 1).is_prefix_of(shapes@));
                lemma_outline_stays(shapes@.take(i + 1), shapes@, level);
            }
            return Some(i);
        }
        i += 1;
    }
    assert(shapes@.take(i as int) =~= shapes@);
    None
}

/// Whether all four sides of `fill` are solid lines that have a width.
fn is_solid(fill: &BorderFill) -> (b: bool)
    ensures
        b == is_frame(*fill),
{
    let mut i: usize = 0;
    while i < 4
        invariant
            i <= 4,
            forall|j: int|
                0 <= j < i ==> (#[trigger] fill.borders@[j]).line_type == BorderLineType::Solid
                    && fill.borders@[j].width > 0,
        decreases 4 - i,
    {
        let side: BorderLine = fill.borders[i];
        if !(side.line_type == BorderLineType::Solid && side.width > 0) {
            return false;
        }
        i += 1;
    }
    true
}

/// The index of the first solid frame, if there is one.
fn find_frame(fills: &Vec<BorderFill>) -> (found: Option<usize>)
    ensures
        match found {
            Some(k) => k == frame_index(fills@) && k < fills@.len(),
            None => frame_index(fills@) == fills@.len(),
        },
{
    let mut i: usize = 0;
    while i < fills.len()
        invariant
            i <= fills@.len(),
            frame_index(fills@.take(i as int)) == i,
        decreases fills.len() - i,
    {
        assert(fills@.take(i + 1).drop_last() =~= fills@.take(i as int));
        if is_solid(&fills[i]) {
            proof {
                assert(fills@.take(i + 1).is_prefix_of(fills@));
                lemma_frame_stays(fills@.take(i + 1), fills@);
            }
            return Some(i);
        }
        i += 1;
    }
    assert(fills@.take(i as int) =~= fills@);
    None
}

/// An index as it is stored in two bytes.
fn to_id16(index: usize) -> (id: u16)
    ensures
        id == id16(index as int),
{
    assert(index as u16 == index % 0x1_0000) by (bit_vector);
    index as u16
}

/// An index as it is stored in four bytes.
fn to_id32(index: usize) -> (id: u32)
    ensures
        id == id32(index as int),
{
    assert(index as u32 == (index as u64) % 0x1_0000_0000u64) by (bit_vector);
    index as u32
}

/// The shape of the outline level `level`, made from `base`.
fn make_outline(base: &ParaShape, level: u8) -> (shape: ParaShape)
    requires
        level > 0,
    ensures
        shape == outline_shape(*base, level),
{
    ParaShape {
        raw_data: None,
        margin_left: base.margin_left,
        margin_right: base.margin_right,
        indent: base.indent,
        spacing_before: if base.spacing_before == 0 {
            200
        } else {
            base.spacing_before
        },
        spacing_after: if base.spacing_after == 0 {
            100
        } else {
            base.spacing_after
        },
        line_spacing: base.line_spacing,
        tab_def_id: base.tab_def_id,
        numbering_id: 0,
        border_fill_id: base.border_fill_id,
        head_type: HeadType::Outline,
        para_level: level - 1,
    }
}

/// The bold shape made from `base`.
fn make_bold(base: &CharShape) -> (shape: CharShape)
    ensures
        shape == bold_shape(*base),
{
    CharShape {
        raw_data: None,
        base_size: base.base_size,
        text_color: base.text_color,
        bold: true,
        italic: base.italic,
    }
}

/// A frame of thin solid lines, without a fill.
fn make_frame() -> (fill: BorderFill)
    ensures
        fill == solid_frame(),
{
    let line = BorderLine { line_type: BorderLineType::Solid, width: 1, color: 0 };
    BorderFill { raw_data: None, attr: 0, borders: [line, line, line, line], fill_color: None }
}

/// The shapes that new paragraphs refer to: inherited, or looked up once and appended if missing.
pub struct StyleResolver {
    normal_ps: u16,
    normal_cs: u32,
    style_id: u8,
    heading_ps: HashMap<u8, u16>,
    heading_cs: Option<u32>,
    solid_bf: Option<u16>,
}

impl View for StyleResolver {
    type V = Resolved;

    closed spec fn view(&self) -> Resolved {
        Resolved {
            inherited: Inherited {
                para_shape_id: self.normal_ps,
                char_shape_id: self.normal_cs,
                style_id: self.style_id,
            },
            outlines: self.heading_ps@,
            bold: self.heading_cs,
            frame: self.solid_bf,
        }
    }
}

impl StyleResolver {
    /// What is inherited from `template`; nothing is looked up yet.
    pub fn new(core: &DocumentCore, template: Option<&Paragraph>) -> (resolver: Self)
        ensures
            resolver@ == (Resolved {
                inherited: inherited(
                    core.document.doc_info,
                    match template {
                        Some(p) => Some(*p),
                        None => None,
                    },
                ),
                outlines: Map::empty(),
                bold: None,
                frame: None,
            }),
    {
        let info = &core.document.doc_info;
        let styled: bool = info.styles.len() > 0;
        let mut normal_ps: u16 = match template {
            Some(p) => p.para_shape_id,
            None => if styled {
                info.styles[0].para_shape_id
            } else {
                0
            },
        };
        let normal_cs: u32 = match template {
            Some(p) if p.char_shapes.len() > 0 => p.char_shapes[p.char_shapes.len()
                - 1].char_shape_id,
            _ => if styled {
                info.styles[0].char_shape_id as u32
            } else {
                0
            },
        };
        let style_id: u8 = match template {
            Some(p) => p.style_id,
            None => 0,
        };
        let outline: bool = (normal_ps as usize) < info.para_shapes.len()
            && info.para_shapes[normal_ps as usize].head_type == HeadType::Outline;
        if outline && styled {
            normal_ps = info.styles[0].para_shape_id;
        }
        StyleResolver {
            normal_ps,
            normal_cs,
            style_id,
            heading_ps: HashMap::new(),
            heading_cs: None,
            solid_bf: None,
        }
    }

    /// The paragraph shape of the outline level `level`: the first one that the document has, or
    /// one appended to it.
    pub fn heading_para_shape(&mut self, doc: &mut Document, level: u8) -> (id: u16)
        requires
            level > 0,
            agrees(old(self)@, old(doc).doc_info.para_shapes@),
        ensures
            takes_outline(old(self)@, final(self)@, *old(doc), *final(doc), level, id),
            agrees(final(self)@, final(doc).doc_info.para_shapes@),
            outline_index(final(doc).doc_info.para_shapes@, level)
                < final(doc).doc_info.para_shapes@.len(),
    {
        if let Some(id) = self.heading_ps.get(&level) {
            assert(self@.outlines.contains_key(level));
            assert(self@.outlines.insert(level, *id) =~= self@.outlines);
            return *id;
        }
        let ghost before = doc.doc_info.para_shapes@;
        let index: usize = match find_outline(&doc.doc_info.para_shapes, level) {
            Some(k) => k,
            None => {
                let base: usize = self.normal_ps as usize;
                let shape: ParaShape = if base < doc.doc_info.para_shapes.len() {
                    make_outline(&doc.doc_info.para_shapes[base], level)
                } else {
                    make_outline(&ParaShape::default(), level)
                };
                doc.doc_info.para_shapes.push(shape);
                assert(doc.doc_info.para_shapes@.drop_last() =~= before);
                doc.doc_info.para_shapes.len() - 1
            },
        };
        let id: u16 = to_id16(index);
        self.heading_ps.insert(level, id);
        proof {
            let shapes = doc.doc_info.para_shapes@;
            assert(before.is_prefix_of(shapes)) by {
                assert(before =~= shapes.subrange(0, before.len() as int));
            }
            assert forall|l: u8| #[trigger] self@.outlines.contains_key(l) implies {
                &&& outline_index(shapes, l) < shapes.len()
                &&& self@.outlines[l] == id16(outline_index(shapes, l))
            } by {
                if l != level {
                    assert(old(self)@.outlines.contains_key(l));
                    lemma_outline_stays(before, shapes, l);
                }
            }
        }
        id
    }

    /// The character shape of headings: a bold one, appended to the document once.
    pub fn heading_char_shape(&mut self, doc: &mut Document) -> (id: u32)
        ensures
            takes_bold(old(self)@, final(self)@, *old(doc), *final(doc), id),
    {
        if let Some(id) = self.heading_cs {
            return id;
        }
        let base: usize = self.normal_cs as usize;
        let shape: CharShape = if base < doc.doc_info.char_shapes.len() {
            make_bold(&doc.doc_info.char_shapes[base])
        } else {
            make_bold(&CharShape::default())
        };
        doc.doc_info.char_shapes.push(shape);
        let id: u32 = to_id32(doc.doc_info.char_shapes.len() - 1);
        self.heading_cs = Some(id);
        id
    }

    /// The border of tables and cells, counted from 1: the first solid frame that the document
    /// has, or one appended to it.
    pub fn solid_border_fill(&mut self, doc: &mut Document) -> (id: u16)
        ensures
            takes_frame(old(self)@, final(self)@, *old(doc), *final(doc), id),
    {
        if let Some(id) = self.solid_bf {
            return id;
        }
        let index: usize = match find_frame(&doc.doc_info.border_fills) {
            Some(k) => k,
            None => {
                doc.doc_info.border_fills.push(make_frame());
                doc.doc_info.border_fills.len() - 1
            },
        };
        assert(index < doc.doc_info.border_fills.len());
        let id: u16 = to_id16(index + 1);
        self.solid_bf = Some(id);
        id
    }
}

// ---- The insertion itself ----

/// The shapes for some blocks are a prefix of those for all of them.
pub(crate) proof fn lemma_outlines_grow(
    shapes: Seq<ParaShape>,
    base_id: u16,
    blocks: Seq<BlockView>,
    k: int,
)
    requires
        0 <= k <= blocks.len(),
    ensures
        with_outlines(shapes, base_id, blocks.take(k)).is_prefix_of(
            with_outlines(shapes, base_id, blocks),
        ),
    decreases blocks.len(),
{
    let some = with_outlines(shapes, base_id, blocks.take(k));
    if k == blocks.len() {
        assert(blocks.take(k) =~= blocks);
        assert(some =~= some.subrange(0, some.len() as int));
    } else {
        lemma_outlines_grow(shapes, base_id, blocks.drop_last(), k);
        assert(blocks.drop_last().take(k) =~= blocks.take(k));
        let most = with_outlines(shapes, base_id, blocks.drop_last());
        let whole = with_outlines(shapes, base_id, blocks);
        assert(most =~= whole.subrange(0, most.len() as int));
        assert(some =~= whole.subrange(0, some.len() as int));
    }
}

/// What is said of a section that the document does not have.
fn section_error(section: usize, count: usize) -> (error: HwpError)
    ensures
        error matches HwpError::RenderError(message) && message@ == section_message(
            section as nat,
            count as nat,
        ),
{
    let mut message: String = "구역 인덱스 ".to_string();
    message.append(to_decimal(section).as_str());
    message.append(" 범위 초과 (총 ");
    message.append(to_decimal(count).as_str());
    message.append("개)");
    HwpError::RenderError(message)
}

/// What is said of an index that lies behind the end of the section.
fn paragraph_error(at: usize, count: usize) -> (error: HwpError)
    ensures
        error matches HwpError::RenderError(message) && message@ == paragraph_message(
            at as nat,
            count as nat,
        ),
{
    let mut message: String = "문단 인덱스 ".to_string();
    message.append(to_decimal(at).as_str());
    message.append(" 범위 초과 (총 ");
    message.append(to_decimal(count).as_str());
    message.append("개, 최대 ");
    message.append(to_decimal(count).as_str());
    message.append(")");
    HwpError::RenderError(message)
}

/// The level of an outline: from 1 to 7.
fn clamp_level(level: u8) -> (l: u8)
    ensures
        l == clamped(level),
        1 <= l <= 7,
{
    if level < 1 {
        1
    } else if level > 7 {
        7
    } else {
        level
    }
}

/// Puts the paragraphs `new` in front of index `at` of a section.
fn splice_paragraphs(section: &mut Section, at: usize, new: Vec<Paragraph>)
    requires
        at <= old(section).paragraphs@.len(),
        new@.len() > 0,
    ensures
        section_gains(*old(section), *final(section), at as int, new.deep_view()),
{
    let ghost before = section.paragraphs@;
    let ghost views = new.deep_view();
    let mut new: Vec<Paragraph> = new;
    section.raw_stream = None;
    if at == 0 && section.paragraphs.len() > 0 {
        let column_type: ColumnBreakType = section.paragraphs[0].column_type;
        let raw_break_type: u8 = section.paragraphs[0].raw_break_type;
        section.paragraphs[0].column_type = ColumnBreakType::NoBreak;
        section.paragraphs[0].raw_break_type = 0;
        new[0].column_type = column_type;
        new[0].raw_break_type = raw_break_type;
    }
    let ghost kept = giving_break(before, at as int);
    let ghost marked = taking_break(views, before, at as int);
    assert(section.paragraphs@ =~= kept);
    assert(new.deep_view() =~= marked);
    let mut tail: Vec<Paragraph> = section.paragraphs.split_off(at);
    let ghost inserted = new@;
    section.paragraphs.append(&mut new);
    section.paragraphs.append(&mut tail);
    proof {
        let after = section.paragraphs@;
        let end = at + views.len();
        assert(after =~= kept.take(at as int) + inserted + kept.skip(at as int));
        assert(after.take(at as int) =~= kept.take(at as int));
        assert(after.skip(end) =~= kept.skip(at as int));
        assert(section.paragraphs.deep_view().subrange(at as int, end) =~= marked);
    }
}

impl DocumentCore {
    /// Turns a Markdown text into blocks and inserts them as
    /// [`DocumentCore::insert_blocks_native`] does.
    pub fn insert_markdown_native(
        &mut self,
        section_idx: usize,
        at: Option<usize>,
        markdown: &str,
    ) -> (res: Result<InsertBlocksReport, HwpError>)
        ensures
            insertion(
                *old(self),
                *final(self),
                section_idx,
                at,
                markdown_blocks(markdown@),
                res,
            ),
    {
        let blocks: Vec<Block> = parse_markdown_blocks(markdown);
        let slice = blocks.as_slice();
        assert(slice.deep_view() =~= blocks.deep_view());
        self.insert_blocks_native(section_idx, at, slice)
    }

    /// Inserts `blocks` as paragraphs in front of the index `at` of a section, or at its end
    /// where `at` is left out.
    ///
    /// The number of paragraphs is the largest index: it means the end. A larger one is refused,
    /// and so is a section that is not there. An empty list of blocks changes nothing.
    /// Where there is a new paragraph, what is derived from the document is rebuilt.
    pub fn insert_blocks_native(
        &mut self,
        section_idx: usize,
        at: Option<usize>,
        blocks: &[Block],
    ) -> (res: Result<InsertBlocksReport, HwpError>)
        ensures
            insertion(*old(self), *final(self), section_idx, at, blocks.deep_view(), res),
    {
        let section_count: usize = self.document.sections.len();
        if section_idx >= section_count {
            return Err(section_error(section_idx, section_count));
        }
        let para_count: usize = self.document.sections[section_idx].paragraphs.len();
        let at: usize = match at {
            Some(i) => i,
            None => para_count,
        };
        if at > para_count {
            return Err(paragraph_error(at, para_count));
        }
        if blocks.len() == 0 {
            return Ok(
                InsertBlocksReport {
                    section: section_idx,
                    first_paragraph: at,
                    inserted_paragraphs: 0,
                    heading_count: 0,
                    paragraph_count: 0,
                    table_count: 0,
                    paragraph_count_after: para_count,
                },
            );
        }
        let ghost doc0 = self.document;
        let ghost info0 = doc0.doc_info;
        let ghost section = section_idx as int;
        let ghost all = blocks.deep_view();
        let ghost format = format_at(doc0, section, at as int, all);
        let ghost base_ps = format.inherited.para_shape_id;
        let ghost base_cs = format.inherited.char_shape_id;
        let paragraphs = &self.document.sections[section_idx].paragraphs;
        let template: Option<&Paragraph> = if para_count == 0 {
            None
        } else if at == 0 {
            Some(&paragraphs[0])
        } else {
            Some(&paragraphs[at - 1])
        };
        let mut styles: StyleResolver = StyleResolver::new(self, template);
        let content_width: u32 = self.document.sections[section_idx].content_width;
        let mut new_paras: Vec<Paragraph> = Vec::new();
        let mut heading_count: usize = 0;
        let mut paragraph_count: usize = 0;
        let mut table_count: usize = 0;
        let mut i: usize = 0;
        assert(styles@.inherited == format.inherited);
        assert(all.take(0) =~= seq![]);
        assert(new_paras.deep_view() =~= seq![]);
        while i < blocks.len()
            invariant
                i <= blocks@.len(),
                all == blocks.deep_view(),
                section == section_idx,
                section_idx < doc0.sections@.len(),
                format == format_at(doc0, section, at as int, all),
                info0 == doc0.doc_info,
                base_ps == format.inherited.para_shape_id,
                base_cs == format.inherited.char_shape_id,
                content_width == format.content_width,
                self.derived == old(self).derived,
                self.document.sections == doc0.sections,
                self.document.doc_info.styles == info0.styles,
                styles@.inherited == format.inherited,
                agrees(styles@, self.document.doc_info.para_shapes@),
                self.document.doc_info.para_shapes@ == with_outlines(
                    info0.para_shapes@,
                    base_ps,
                    all.take(i as int),
                ),
                self.document.doc_info.char_shapes@ == with_bold(
                    info0.char_shapes@,
                    base_cs,
                    all.take(i as int),
                ),
                styles@.bold == (if headings(all.take(i as int)) > 0 {
                    Some(format.heading_char_shape_id)
                } else {
                    None
                }),
                self.document.doc_info.border_fills@ == with_frame(
                    info0.border_fills@,
                    all.take(i as int),
                ),
                styles@.frame == (if has_table(all.take(i as int)) {
                    Some(format.border_fill_id)
                } else {
                    None
                }),
                new_paras.deep_view() == paragraphs_of(all.take(i as int), format),
                heading_count == headings(all.take(i as int)),
                paragraph_count == bodies(all.take(i as int)),
                table_count == tables(all.take(i as int)),
                heading_count <= i,
                paragraph_count <= i,
                table_count <= i,
            decreases blocks.len() - i,
        {
            let ghost before = new_paras.deep_view();
            proof {
                assert(all.take(i + 1).drop_last() =~= all.take(i as int));
                assert(all.take(i + 1).last() == all[i as int]);
                assert(all[i as int] == blocks@[i as int].deep_view());
                lemma_outlines_grow(info0.para_shapes@, base_ps, all, i + 1);
                lemma_frame_index(info0.border_fills@);
            }
            match &blocks[i] {
                Block::Heading { level, text } => {
                    let level: u8 = clamp_level(*level);
                    let ps: u16 = styles.heading_para_shape(&mut self.document, level);
                    let cs: u32 = styles.heading_char_shape(&mut self.document);
                    let mut para: Paragraph = make_text_para(text.as_str(), ps, cs);
                    para.style_id = styles.style_id;
                    new_paras.push(para);
                    heading_count += 1;
                    proof {
                        lemma_outline_stays(
                            self.document.doc_info.para_shapes@,
                            format.para_shapes,
                            level,
                        );
                        assert(new_paras.deep_view() =~= before + block_paragraphs(
                            all[i as int],
                            format,
                        ));
                    }
                },
                Block::Paragraph { text } => {
                    let mut para: Paragraph = make_text_para(
                        text.as_str(),
                        styles.normal_ps,
                        styles.normal_cs,
                    );
                    para.style_id = styles.style_id;
                    new_paras.push(para);
                    paragraph_count += 1;
                    assert(new_paras.deep_view() =~= before + block_paragraphs(
                        all[i as int],
                        format,
                    ));
                },
                Block::Table { rows } => {
                    let bf: u16 = styles.solid_border_fill(&mut self.document);
                    let table: Option<Paragraph> = build_table_paragraph_with(
                        rows,
                        content_width,
                        bf,
                        styles.normal_cs,
                    );
                    if let Some(para) = table {
                        let mut para: Paragraph = para;
                        para.para_shape_id = styles.normal_ps;
                        para.style_id = styles.style_id;
                        new_paras.push(para);
                        let mut trailer: Paragraph = make_text_para(
                            "",
                            styles.normal_ps,
                            styles.normal_cs,
                        );
                        trailer.has_para_text = false;
                        trailer.style_id = styles.style_id;
                        new_paras.push(trailer);
                        table_count += 1;
                        proof {
                            reveal_strlit("");
                            assert(""@ =~= seq![]);
                        }
                    }
                    assert(new_paras.deep_view() =~= before + block_paragraphs(
                        all[i as int],
                        format,
                    ));
                },
            }
            i += 1;
        }
        assert(all.take(i as int) =~= all);
        let inserted: usize = new_paras.len();
        if inserted > 0 {
            splice_paragraphs(&mut self.document.sections[section_idx], at, new_paras);
            self.rebuild_derived_state();
        }
        Ok(
            InsertBlocksReport {
                section: section_idx,
                first_paragraph: at,
                inserted_paragraphs: inserted,
                heading_count,
                paragraph_count,
                table_count,
                paragraph_count_after: self.document.sections[section_idx].paragraphs.len(),
            },
        )
    }
}

}
