//! What a document holds after an insertion, field by field.

use crate::document_core::{derived_of, resolved_paragraph, resolved_section, DocumentCore};
use crate::error::HwpError;
use crate::model::document::DocInfo;
use crate::model::paragraph::{CharShapeRef, ColumnBreakType, Paragraph};
use crate::model::style::{
    plain_para_shape, BorderFill, BorderLineType, CharShape, HeadType, ParaShape,
};
use crate::scaffold::builder::has_cells;
use crate::scaffold::insert::{
    block_paragraphs, bodies, clamped, document_gains, format_at, frame_index, giving_break,
    has_table, headings, insertion, is_frame, is_outline_of, lemma_frame_index,
    lemma_outline_index, new_paragraphs, outline_index, paragraphs_of, position, solid_frame,
    solid_line, tables, taking_break, with_outlines, Format, Inherited, InsertBlocksReport,
};
use crate::scaffold::insert_laws::{
    law_blocks_stand_in_order, law_tables_only_grow, lemma_has_heading, lemma_has_table,
    lemma_level_is_there, lemma_outline_is_found, lemma_paragraph_count,
};
use crate::scaffold::schema::BlockView;
use crate::text::decimal;
use vstd::prelude::*;

verus! {

/// An insertion that succeeded.
pub struct Inserted {
    pub before: DocumentCore,
    pub after: DocumentCore,
    pub section: usize,
    pub at: Option<usize>,
    pub blocks: Seq<BlockView>,
    pub report: InsertBlocksReport,
}

/// How many paragraphs a block takes: a heading or a paragraph one, a table two, and one without
/// any cell none.
pub open spec fn room_of(block: BlockView) -> nat {
    match block {
        BlockView::Heading { .. } => 1,
        BlockView::Paragraph { .. } => 1,
        BlockView::Table { rows } => if exists|i: int|
            0 <= i < rows.len() && (#[trigger] rows[i]).len() > 0 {
            2
        } else {
            0
        },
    }
}

/// How many paragraphs blocks take.
pub open spec fn room(blocks: Seq<BlockView>) -> nat
    decreases blocks.len(),
{
    if blocks.len() == 0 {
        0
    } else {
        room(blocks.drop_last()) + room_of(blocks.last())
    }
}

/// The outline level of a heading as a shape stores it: from 0 to 6.
pub open spec fn stored_level(level: u8) -> int {
    if level <= 1 {
        0
    } else if level >= 7 {
        6
    } else {
        level - 1
    }
}

/// Whether a shape is that of an outline level, as it is stored.
pub open spec fn has_stored_level(shape: ParaShape, level: int) -> bool {
    shape.head_type == HeadType::Outline && shape.para_level == level
}

/// Whether all four sides are solid lines that have a width.
pub open spec fn has_solid_sides(fill: BorderFill) -> bool {
    &&& fill.borders@[0].line_type == BorderLineType::Solid && fill.borders@[0].width > 0
    &&& fill.borders@[1].line_type == BorderLineType::Solid && fill.borders@[1].width > 0
    &&& fill.borders@[2].line_type == BorderLineType::Solid && fill.borders@[2].width > 0
    &&& fill.borders@[3].line_type == BorderLineType::Solid && fill.borders@[3].width > 0
}

impl Inserted {
    /// Whether this is what came of the insertion.
    pub open spec fn happened(self) -> bool {
        insertion(self.before, self.after, self.section, self.at, self.blocks, Ok(self.report))
    }

    /// The tables before.
    pub open spec fn old_info(self) -> DocInfo {
        self.before.document.doc_info
    }

    /// The tables after.
    pub open spec fn info(self) -> DocInfo {
        self.after.document.doc_info
    }

    /// The paragraphs of the section before.
    pub open spec fn old_paragraphs(self) -> Seq<Paragraph> {
        self.before.document.sections@[self.section as int].paragraphs@
    }

    /// The paragraphs of the section after.
    pub open spec fn paragraphs(self) -> Seq<Paragraph> {
        self.after.document.sections@[self.section as int].paragraphs@
    }

    /// The index of the first new paragraph.
    pub open spec fn start(self) -> int {
        match self.at {
            Some(i) => i as int,
            None => self.old_paragraphs().len() as int,
        }
    }

    /// The first paragraph of the block `k`.
    pub open spec fn first_of(self, k: int) -> Paragraph {
        self.paragraphs()[self.start() + room(self.blocks.take(k))]
    }

    /// The paragraph behind the first one of the block `k`.
    pub open spec fn second_of(self, k: int) -> Paragraph {
        self.paragraphs()[self.start() + room(self.blocks.take(k)) + 1]
    }

    /// The paragraph that body text here takes after: the one before, or the one that is there.
    pub open spec fn model(self) -> Paragraph {
        self.old_paragraphs()[if self.start() == 0 {
            0
        } else {
            self.start() - 1
        }]
    }

    /// The paragraph shape of body text here: that of the model, but for an outline level, or for
    /// want of a model, that of the first style.
    pub open spec fn body_para_shape(self) -> u16 {
        let styles = self.old_info().styles@;
        let shapes = self.old_info().para_shapes@;
        let own = self.model().para_shape_id;
        if self.old_paragraphs().len() > 0 && !(styles.len() > 0 && own < shapes.len()
            && shapes[own as int].head_type == HeadType::Outline) {
            own
        } else if styles.len() > 0 {
            styles[0].para_shape_id
        } else {
            0
        }
    }

    /// The character shape of body text here: the last one of the model, or for want of one, that
    /// of the first style.
    pub open spec fn body_char_shape(self) -> u32 {
        let styles = self.old_info().styles@;
        let own = self.model().char_shapes@;
        if self.old_paragraphs().len() > 0 && own.len() > 0 {
            own[own.len() - 1].char_shape_id
        } else if styles.len() > 0 {
            styles[0].char_shape_id as u32
        } else {
            0
        }
    }

    /// The style of new paragraphs here: that of the model.
    pub open spec fn body_style(self) -> u8 {
        if self.old_paragraphs().len() > 0 {
            self.model().style_id
        } else {
            0
        }
    }

    /// What the paragraphs are made with.
    spec fn format(self) -> Format {
        format_at(self.before.document, self.section as int, self.start(), self.blocks)
    }
}

/// What an insertion that succeeded is.
proof fn lemma_happened(x: Inserted)
    requires
        x.happened(),
    ensures
        x.section < x.before.document.sections@.len(),
        0 <= x.start() <= x.old_paragraphs().len(),
        document_gains(
            x.before.document,
            x.after.document,
            x.section as int,
            x.start(),
            x.blocks,
        ),
        x.format().inherited == (Inherited {
            para_shape_id: x.body_para_shape(),
            char_shape_id: x.body_char_shape(),
            style_id: x.body_style(),
        }),
{
    assert(x.start() == position(x.at, x.old_paragraphs().len()));
}

/// The room of blocks is what they are counted as.
proof fn lemma_room(blocks: Seq<BlockView>)
    ensures
        room(blocks) == headings(blocks) + bodies(blocks) + 2 * tables(blocks),
    decreases blocks.len(),
{
    if blocks.len() > 0 {
        lemma_room(blocks.drop_last());
        if let BlockView::Table { rows } = blocks.last() {
            assert(has_cells(rows) <==> room_of(blocks.last()) == 2);
        }
    }
}

/// A block is where its paragraphs are.
proof fn lemma_block(x: Inserted, k: int, j: int)
    requires
        x.happened(),
        0 <= k < x.blocks.len(),
        0 <= j < block_paragraphs(x.blocks[k], x.format()).len(),
    ensures
        ({
            let i = x.start() + room(x.blocks.take(k)) + j;
            let new = x.paragraphs()[i];
            let made = block_paragraphs(x.blocks[k], x.format())[j];
            &&& x.start() <= i < x.paragraphs().len()
            &&& new.text@ == made.text
            &&& new.para_shape_id == made.para_shape_id
            &&& new.style_id == made.style_id
            &&& new.char_shapes@ == made.char_shapes
            &&& new.has_para_text == made.has_para_text
            &&& new.table.deep_view() == made.table
        }),
{
    lemma_happened(x);
    lemma_room(x.blocks.take(k));
    law_blocks_stand_in_order(
        x.before.document,
        x.after.document,
        x.section as int,
        x.start(),
        x.blocks,
        k,
        j,
    );
    let new = x.paragraphs()[x.start() + room(x.blocks.take(k)) + j];
    assert(new.deep_view().text == new.text@);
    assert(new.deep_view().table == new.table.deep_view());
}

// ---- Paragraphs ----

/// A paragraph of a draft becomes a paragraph of body text: its text, with the paragraph shape, the
/// one character shape and the style of body text at that place, and no table.
pub proof fn law_body_paragraph(x: Inserted, k: int)
    requires
        x.happened(),
        0 <= k < x.blocks.len(),
        x.blocks[k] is Paragraph,
    ensures
        x.first_of(k).text@ == x.blocks[k]->Paragraph_text,
        x.first_of(k).para_shape_id == x.body_para_shape(),
        x.first_of(k).char_shapes@ == seq![
            CharShapeRef { start_pos: 0, char_shape_id: x.body_char_shape() },
        ],
        x.first_of(k).style_id == x.body_style(),
        x.first_of(k).has_para_text,
        x.first_of(k).table is None,
{
    lemma_happened(x);
    lemma_block(x, k, 0);
}

/// A heading becomes a paragraph with its text, of the first paragraph shape of its outline level.
/// It has the style of its place, one character shape that is bold, and no table. (Indices are
/// stored in two and in four bytes, so the document must not have more shapes than these can tell
/// apart.)
pub proof fn law_heading_paragraph(x: Inserted, k: int)
    requires
        x.happened(),
        0 <= k < x.blocks.len(),
        x.blocks[k] is Heading,
        x.info().para_shapes@.len() <= 0x1_0000,
        x.info().char_shapes@.len() <= 0x1_0000_0000,
    ensures
        ({
            let new = x.first_of(k);
            let level = stored_level(x.blocks[k]->level);
            let shapes = x.info().para_shapes@;
            &&& new.text@ == x.blocks[k]->Heading_text
            &&& new.style_id == x.body_style()
            &&& new.has_para_text
            &&& new.table is None
            &&& new.para_shape_id < shapes.len()
            &&& has_stored_level(shapes[new.para_shape_id as int], level)
            &&& forall|j: int|
                0 <= j < new.para_shape_id ==> !has_stored_level(#[trigger] shapes[j], level)
            &&& new.char_shapes@.len() == 1
            &&& new.char_shapes@[0].start_pos == 0
            &&& new.char_shapes@[0].char_shape_id == x.old_info().char_shapes@.len()
            &&& new.char_shapes@[0].char_shape_id < x.info().char_shapes@.len()
            &&& x.info().char_shapes@[new.char_shapes@[0].char_shape_id as int].bold
        }),
{
    lemma_happened(x);
    lemma_block(x, k, 0);
    let (before, after, section) = (x.before.document, x.after.document, x.section as int);
    let level = clamped(x.blocks[k]->level);
    let shapes = x.info().para_shapes@;
    lemma_room(x.blocks.take(k));
    lemma_has_heading(x.blocks, k);
    lemma_level_is_there(
        before.doc_info.para_shapes@,
        x.format().inherited.para_shape_id,
        x.blocks,
        k,
    );
    lemma_outline_index(shapes, level);
    let id = x.first_of(k).para_shape_id;
    assert(id == outline_index(shapes, level));
    assert forall|j: int| 0 <= j < id implies !has_stored_level(
        #[trigger] shapes[j],
        stored_level(x.blocks[k]->level),
    ) by {
        if is_outline_of(shapes[j], level) {
            lemma_outline_is_found(shapes, level, j);
        }
    }
}

/// A table with a cell becomes two paragraphs with the format of body text: one that holds the
/// table, with its rows, the width of the section's content, the character shape of body text and
/// a solid frame, the first one that the document has; and an empty one behind it. (The border is
/// stored in two bytes, so the document must not have more borders than these can tell apart.)
pub proof fn law_table_paragraphs(x: Inserted, k: int)
    requires
        x.happened(),
        0 <= k < x.blocks.len(),
        x.blocks[k] is Table,
        room_of(x.blocks[k]) > 0,
        x.info().border_fills@.len() < 0x1_0000,
    ensures
        ({
            let (first, second) = (x.first_of(k), x.second_of(k));
            let fills = x.info().border_fills@;
            let runs = seq![CharShapeRef { start_pos: 0, char_shape_id: x.body_char_shape() }];
            &&& first.text@.len() == 0
            &&& first.para_shape_id == x.body_para_shape()
            &&& first.style_id == x.body_style()
            &&& first.char_shapes@ == runs
            &&& second.text@.len() == 0
            &&& second.para_shape_id == x.body_para_shape()
            &&& second.style_id == x.body_style()
            &&& second.char_shapes@ == runs
            &&& !second.has_para_text
            &&& second.table is None
            &&& first.table matches Some(table)
            &&& table.rows.deep_view() == x.blocks[k]->rows
            &&& table.width
                == x.before.document.sections@[x.section as int].content_width
            &&& table.char_shape_id == x.body_char_shape()
            &&& 1 <= table.border_fill_id <= fills.len()
            &&& has_solid_sides(fills[table.border_fill_id - 1])
            &&& forall|j: int|
                0 <= j < table.border_fill_id - 1 ==> !has_solid_sides(#[trigger] fills[j])
        }),
{
    lemma_happened(x);
    let rows = x.blocks[k]->rows;
    assert(has_cells(rows));
    lemma_block(x, k, 0);
    lemma_block(x, k, 1);
    lemma_has_table(x.blocks, k);
    let old_fills = x.old_info().border_fills@;
    lemma_frame_index(old_fills);
    lemma_solid_sides_of_frame();
    let fills = x.info().border_fills@;
    let id = frame_index(old_fills);
    assert(is_frame(fills[id]));
    lemma_solid_sides(fills[id]);
    assert forall|j: int| 0 <= j < id implies !has_solid_sides(#[trigger] fills[j]) by {
        lemma_solid_sides(fills[j]);
        assert(fills[j] == old_fills[j]);
        if is_frame(old_fills[j]) {
            lemma_frame_is_found(old_fills, j);
        }
    }
}

/// A frame is a border with four solid sides.
proof fn lemma_solid_sides(fill: BorderFill)
    ensures
        is_frame(fill) <==> has_solid_sides(fill),
{
    assert(fill.borders@.len() == 4);
    if has_solid_sides(fill) {
        assert forall|i: int| 0 <= i < 4 implies (#[trigger] fill.borders@[i]).line_type
            == BorderLineType::Solid && fill.borders@[i].width > 0 by {
            assert(i == 0 || i == 1 || i == 2 || i == 3);
        }
    }
}

/// The frame that is appended has four solid sides.
proof fn lemma_solid_sides_of_frame()
    ensures
        is_frame(solid_frame()),
{
    let sides = solid_frame().borders@;
    assert(sides =~= seq![solid_line(), solid_line(), solid_line(), solid_line()]);
}

/// A frame that is there is found.
proof fn lemma_frame_is_found(fills: Seq<BorderFill>, k: int)
    requires
        0 <= k < fills.len(),
        is_frame(fills[k]),
    ensures
        frame_index(fills) <= k,
    decreases fills.len(),
{
    lemma_frame_index(fills.drop_last());
    if k < fills.len() - 1 {
        lemma_frame_is_found(fills.drop_last(), k);
    }
}

// ---- The rest of the section and of the document ----

/// The section grows by the room of the blocks, and nothing in it is lost: what stood before the
/// place stays there, what stood behind it follows the new paragraphs. The report says how many of
/// each kind there were, and where.
pub proof fn law_section_grows(x: Inserted)
    requires
        x.happened(),
    ensures
        x.section < x.before.document.sections@.len(),
        x.start() <= x.old_paragraphs().len(),
        x.paragraphs().len() == x.old_paragraphs().len() + room(x.blocks),
        forall|i: int|
            0 <= i < x.start() ==> #[trigger] x.paragraphs()[i] == x.old_paragraphs()[i],
        forall|i: int|
            x.start() <= i < x.old_paragraphs().len() && i > 0 ==> x.paragraphs()[i + room(
                x.blocks,
            )] == #[trigger] x.old_paragraphs()[i],
        x.report.section == x.section,
        x.report.first_paragraph == x.start(),
        x.report.inserted_paragraphs == room(x.blocks),
        x.report.paragraph_count_after == x.paragraphs().len(),
        x.report.heading_count == x.blocks.filter(|b: BlockView| b is Heading).len(),
        x.report.paragraph_count == x.blocks.filter(|b: BlockView| b is Paragraph).len(),
        x.report.table_count == x.blocks.filter(
            |b: BlockView| b is Table && room_of(b) > 0,
        ).len(),
{
    lemma_happened(x);
    lemma_room(x.blocks);
    lemma_paragraph_count(x.blocks, x.format());
    lemma_counts(x.blocks);
    let (old_section, new_section) = (
        x.before.document.sections@[x.section as int],
        x.after.document.sections@[x.section as int],
    );
    let n = room(x.blocks) as int;
    if n > 0 {
        let kept = giving_break(x.old_paragraphs(), x.start());
        assert forall|i: int| 0 <= i < x.start() implies #[trigger] x.paragraphs()[i]
            == x.old_paragraphs()[i] by {
            assert(x.paragraphs().take(x.start())[i] == kept.take(x.start())[i]);
        }
        assert forall|i: int|
            x.start() <= i < x.old_paragraphs().len() && i > 0 implies x.paragraphs()[i + room(
            x.blocks,
        )] == #[trigger] x.old_paragraphs()[i] by {
            assert(x.paragraphs().skip(x.start() + n)[i - x.start()] == kept.skip(x.start())[i
                - x.start()]);
        }
    }
}

/// Blocks are counted by their kind.
proof fn lemma_counts(blocks: Seq<BlockView>)
    ensures
        headings(blocks) == blocks.filter(|b: BlockView| b is Heading).len(),
        bodies(blocks) == blocks.filter(|b: BlockView| b is Paragraph).len(),
        tables(blocks) == blocks.filter(|b: BlockView| b is Table && room_of(b) > 0).len(),
    decreases blocks.len(),
{
    reveal(Seq::filter);
    if blocks.len() > 0 {
        lemma_counts(blocks.drop_last());
        if let BlockView::Table { rows } = blocks.last() {
            assert(has_cells(rows) <==> room_of(blocks.last()) == 2);
        }
    }
}

/// Breaks belong to places. At the start of a section with paragraphs, the first new paragraph has
/// the break of the one that it displaces, which has none any more; no other new paragraph has one.
pub proof fn law_breaks_belong_to_places(x: Inserted, i: int)
    requires
        x.happened(),
        x.start() <= i < x.start() + room(x.blocks),
    ensures
        ({
            let new = x.paragraphs()[i];
            if i == 0 && x.old_paragraphs().len() > 0 {
                let displaced = x.paragraphs()[room(x.blocks) as int];
                &&& new.column_type == x.old_paragraphs()[0].column_type
                &&& new.raw_break_type == x.old_paragraphs()[0].raw_break_type
                &&& displaced == (Paragraph {
                    column_type: ColumnBreakType::NoBreak,
                    raw_break_type: 0,
                    ..x.old_paragraphs()[0]
                })
            } else {
                new.column_type == ColumnBreakType::NoBreak && new.raw_break_type == 0
            }
        }),
{
    lemma_happened(x);
    lemma_room(x.blocks);
    lemma_paragraph_count(x.blocks, x.format());
    let made = new_paragraphs(x.before.document, x.section as int, x.start(), x.blocks);
    let n = made.len() as int;
    let paragraphs = x.after.document.sections@[x.section as int].paragraphs;
    lemma_no_breaks(x.blocks, x.format(), i - x.start());
    assert(paragraphs.deep_view()[i] == paragraphs@[i].deep_view());
    assert(paragraphs.deep_view().subrange(x.start(), x.start() + n)[i - x.start()]
        == taking_break(made, x.old_paragraphs(), x.start())[i - x.start()]);
    if i == 0 && x.old_paragraphs().len() > 0 {
        let kept = giving_break(x.old_paragraphs(), 0);
        assert(paragraphs@.skip(n)[0] == kept.skip(0)[0]);
    }
}

/// Paragraphs are made without breaks.
proof fn lemma_no_breaks(blocks: Seq<BlockView>, format: Format, i: int)
    requires
        0 <= i < paragraphs_of(blocks, format).len(),
    ensures
        paragraphs_of(blocks, format)[i].column_type == ColumnBreakType::NoBreak,
        paragraphs_of(blocks, format)[i].raw_break_type == 0,
    decreases blocks.len(),
{
    if i < paragraphs_of(blocks.drop_last(), format).len() {
        lemma_no_breaks(blocks.drop_last(), format, i);
    }
}

/// The rest of the document stays: the other sections, the width of this one, and the styles. The
/// bytes that the section was read from are given up if and only if it has a new paragraph.
pub proof fn law_rest_of_document_stays(x: Inserted)
    requires
        x.happened(),
    ensures
        x.after.document.sections@.len() == x.before.document.sections@.len(),
        forall|i: int|
            0 <= i < x.before.document.sections@.len() && i != x.section
                ==> #[trigger] x.after.document.sections@[i] == x.before.document.sections@[i],
        x.info().styles == x.old_info().styles,
        ({
            let before = x.before.document.sections@[x.section as int];
            let after = x.after.document.sections@[x.section as int];
            &&& after.content_width == before.content_width
            &&& room(x.blocks) > 0 ==> after.raw_stream is None
            &&& room(x.blocks) == 0 ==> after == before
        }),
        x.blocks.len() == 0 ==> x.after == x.before,
{
    lemma_happened(x);
    lemma_room(x.blocks);
    lemma_paragraph_count(x.blocks, x.format());
}

/// A section that is not there and an index behind the end are refused, each in its words, and
/// nothing changes.
pub proof fn law_refusals(
    before: DocumentCore,
    after: DocumentCore,
    section_idx: usize,
    at: Option<usize>,
    blocks: Seq<BlockView>,
    res: Result<InsertBlocksReport, HwpError>,
)
    requires
        insertion(before, after, section_idx, at, blocks, res),
        res is Err,
    ensures
        after == before,
        res->Err_0 matches HwpError::RenderError(message) && ({
            let sections = before.document.sections@;
            if section_idx >= sections.len() {
                message@ == "구역 인덱스 "@ + decimal(section_idx as nat) + " 범위 초과 (총 "@ + decimal(
                    sections.len(),
                ) + "개)"@
            } else {
                let count = sections[section_idx as int].paragraphs@.len();
                &&& at is Some
                &&& at->0 > count
                &&& message@ == "문단 인덱스 "@ + decimal(at->0 as nat) + " 범위 초과 (총 "@
                    + decimal(count) + "개, 최대 "@ + decimal(count) + ")"@
            }
        }),
{
}

// ---- Shapes that are appended ----

/// A paragraph shape that is appended is a copy of the one that body text has at that place, made
/// into an outline level: margins, indent, line spacing, tabs and border are the same, and so is
/// the space around it, except that where there is none it gets some. It has no number of its own
/// and no bytes. Its level is that of a heading, and no shape before it has that level. (Where body
/// text has an index without a shape, it is made from nothing.)
pub proof fn law_appended_outline_is_like_body(x: Inserted, i: int)
    requires
        x.happened(),
        x.old_info().para_shapes@.len() <= i < x.info().para_shapes@.len(),
    ensures
        ({
            let shapes = x.info().para_shapes@;
            let new = shapes[i];
            &&& new.raw_data is None
            &&& new.numbering_id == 0
            &&& new.head_type == HeadType::Outline
            &&& exists|k: int|
                0 <= k < x.blocks.len() && #[trigger] x.blocks[k] is Heading && stored_level(
                    x.blocks[k]->level,
                ) == new.para_level
            &&& forall|j: int|
                0 <= j < i ==> !has_stored_level(#[trigger] shapes[j], new.para_level as int)
            &&& x.body_para_shape() < i ==> {
                let body = shapes[x.body_para_shape() as int];
                &&& new.margin_left == body.margin_left
                &&& new.margin_right == body.margin_right
                &&& new.indent == body.indent
                &&& new.line_spacing == body.line_spacing
                &&& new.tab_def_id == body.tab_def_id
                &&& new.border_fill_id == body.border_fill_id
                &&& body.spacing_before != 0 ==> new.spacing_before == body.spacing_before
                &&& body.spacing_before == 0 ==> new.spacing_before == 200
                &&& body.spacing_after != 0 ==> new.spacing_after == body.spacing_after
                &&& body.spacing_after == 0 ==> new.spacing_after == 100
            }
            &&& x.body_para_shape() >= i ==> {
                &&& new.margin_left == 0
                &&& new.margin_right == 0
                &&& new.indent == 0
                &&& new.line_spacing == 0
                &&& new.tab_def_id == 0
                &&& new.border_fill_id == 0
                &&& new.spacing_before == 200
                &&& new.spacing_after == 100
            }
        }),
{
    lemma_happened(x);
    lemma_appended_outline(x.old_info().para_shapes@, x.body_para_shape(), x.blocks, i);
}

/// What the shapes for blocks are.
proof fn lemma_appended_outline(
    old_shapes: Seq<ParaShape>,
    base_id: u16,
    blocks: Seq<BlockView>,
    i: int,
)
    requires
        old_shapes.len() <= i < with_outlines(old_shapes, base_id, blocks).len(),
    ensures
        ({
            let shapes = with_outlines(old_shapes, base_id, blocks);
            let new = shapes[i];
            let base = if base_id < i {
                shapes[base_id as int]
            } else {
                plain_para_shape()
            };
            &&& new.raw_data is None
            &&& new.numbering_id == 0
            &&& new.head_type == HeadType::Outline
            &&& exists|k: int|
                0 <= k < blocks.len() && #[trigger] blocks[k] is Heading && stored_level(
                    blocks[k]->level,
                ) == new.para_level
            &&& forall|j: int|
                0 <= j < i ==> !has_stored_level(#[trigger] shapes[j], new.para_level as int)
            &&& new.margin_left == base.margin_left
            &&& new.margin_right == base.margin_right
            &&& new.indent == base.indent
            &&& new.line_spacing == base.line_spacing
            &&& new.tab_def_id == base.tab_def_id
            &&& new.border_fill_id == base.border_fill_id
            &&& new.spacing_before == (if base.spacing_before == 0 {
                200
            } else {
                base.spacing_before
            })
            &&& new.spacing_after == (if base.spacing_after == 0 {
                100
            } else {
                base.spacing_after
            })
        }),
    decreases blocks.len(),
{
    if blocks.len() > 0 {
        let some = blocks.drop_last();
        let earlier = with_outlines(old_shapes, base_id, some);
        let shapes = with_outlines(old_shapes, base_id, blocks);
        if i < earlier.len() {
            lemma_appended_outline(old_shapes, base_id, some, i);
            let k = choose|k: int|
                0 <= k < some.len() && #[trigger] some[k] is Heading && stored_level(
                    some[k]->level,
                ) == earlier[i].para_level;
            assert(blocks[k] == some[k]);
            assert forall|j: int| 0 <= j < i implies !has_stored_level(
                #[trigger] shapes[j],
                shapes[i].para_level as int,
            ) by {
                assert(shapes[j] == earlier[j]);
            }
        } else {
            let level = clamped(blocks.last()->level);
            assert(blocks[blocks.len() - 1] is Heading);
            lemma_outline_index(earlier, level);
            assert forall|j: int| 0 <= j < i implies !has_stored_level(
                #[trigger] shapes[j],
                shapes[i].para_level as int,
            ) by {
                assert(shapes[j] == earlier[j]);
                if is_outline_of(earlier[j], level) {
                    lemma_outline_is_found(earlier, level, j);
                }
            }
        }
    }
}

/// Levels that the document has shapes for are found: where it has one for each heading, no
/// paragraph shape is appended.
pub proof fn law_present_levels_append_nothing(x: Inserted)
    requires
        x.happened(),
        forall|k: int|
            0 <= k < x.blocks.len() && #[trigger] x.blocks[k] is Heading ==> exists|i: int|
                0 <= i < x.old_info().para_shapes@.len() && has_stored_level(
                    #[trigger] x.old_info().para_shapes@[i],
                    stored_level(x.blocks[k]->level),
                ),
    ensures
        x.info().para_shapes@ == x.old_info().para_shapes@,
{
    lemma_happened(x);
    let old_shapes = x.old_info().para_shapes@;
    let shapes = x.info().para_shapes@;
    law_tables_only_grow(
        x.before.document,
        x.after.document,
        x.section as int,
        x.start(),
        x.blocks,
    );
    if shapes.len() > old_shapes.len() {
        let i = old_shapes.len() as int;
        law_appended_outline_is_like_body(x, i);
        let k = choose|k: int|
            0 <= k < x.blocks.len() && #[trigger] x.blocks[k] is Heading && stored_level(
                x.blocks[k]->level,
            ) == shapes[i].para_level;
        let j = choose|j: int|
            0 <= j < old_shapes.len() && has_stored_level(
                #[trigger] old_shapes[j],
                stored_level(x.blocks[k]->level),
            );
        assert(shapes[j] == old_shapes[j]);
        assert(false);
    }
    assert(shapes =~= old_shapes);
}

/// One character shape is appended if there is a heading, and none otherwise. It is a copy of the
/// one that body text has at that place, made bold: size, colour and slant are the same. (Where
/// body text has an index without a shape, it is made from nothing.)
pub proof fn law_appended_bold_is_like_body(x: Inserted)
    requires
        x.happened(),
    ensures
        ({
            let old_shapes = x.old_info().char_shapes@;
            let shapes = x.info().char_shapes@;
            let n = old_shapes.len() as int;
            let id = x.body_char_shape() as int;
            let any = exists|k: int| 0 <= k < x.blocks.len() && #[trigger] x.blocks[k] is Heading;
            &&& forall|i: int| 0 <= i < n ==> #[trigger] shapes[i] == old_shapes[i]
            &&& !any ==> shapes.len() == n
            &&& any ==> {
                &&& shapes.len() == n + 1
                &&& shapes[n].bold
                &&& shapes[n].raw_data is None
                &&& shapes[n].base_size == (if id < n {
                    old_shapes[id].base_size
                } else {
                    0
                })
                &&& shapes[n].text_color == (if id < n {
                    old_shapes[id].text_color
                } else {
                    0
                })
                &&& shapes[n].italic == (id < n && old_shapes[id].italic)
            }
        }),
{
    lemma_happened(x);
    if exists|k: int| 0 <= k < x.blocks.len() && #[trigger] x.blocks[k] is Heading {
        let k = choose|k: int| 0 <= k < x.blocks.len() && #[trigger] x.blocks[k] is Heading;
        lemma_has_heading(x.blocks, k);
    } else {
        lemma_no_heading(x.blocks);
    }
}

/// Blocks without a heading count none.
proof fn lemma_no_heading(blocks: Seq<BlockView>)
    requires
        forall|k: int| 0 <= k < blocks.len() ==> !(#[trigger] blocks[k] is Heading),
    ensures
        headings(blocks) == 0,
    decreases blocks.len(),
{
    if blocks.len() > 0 {
        assert forall|k: int| 0 <= k < blocks.drop_last().len() implies !(
        #[trigger] blocks.drop_last()[k] is Heading) by {
            assert(blocks.drop_last()[k] == blocks[k]);
        }
        lemma_no_heading(blocks.drop_last());
        assert(!(blocks[blocks.len() - 1] is Heading));
    }
}

/// A border is appended if there is a table and no border with four solid sides, and none
/// otherwise. It has four thin black solid sides, no fill and no bytes.
pub proof fn law_appended_frame(x: Inserted)
    requires
        x.happened(),
    ensures
        ({
            let old_fills = x.old_info().border_fills@;
            let fills = x.info().border_fills@;
            let n = old_fills.len() as int;
            let any = exists|k: int| 0 <= k < x.blocks.len() && #[trigger] x.blocks[k] is Table;
            let framed = exists|i: int|
                0 <= i < n && has_solid_sides(#[trigger] old_fills[i]);
            &&& forall|i: int| 0 <= i < n ==> #[trigger] fills[i] == old_fills[i]
            &&& !any || framed ==> fills.len() == n
            &&& any && !framed ==> {
                &&& fills.len() == n + 1
                &&& fills[n].raw_data is None
                &&& fills[n].attr == 0
                &&& fills[n].fill_color is None
                &&& forall|j: int|
                    0 <= j < 4 ==> (#[trigger] fills[n].borders@[j]).line_type
                        == BorderLineType::Solid && fills[n].borders@[j].width == 1
                        && fills[n].borders@[j].color == 0
            }
        }),
{
    lemma_happened(x);
    let old_fills = x.old_info().border_fills@;
    let n = old_fills.len() as int;
    lemma_frame_index(old_fills);
    if exists|k: int| 0 <= k < x.blocks.len() && #[trigger] x.blocks[k] is Table {
        let k = choose|k: int| 0 <= k < x.blocks.len() && #[trigger] x.blocks[k] is Table;
        lemma_has_table(x.blocks, k);
    } else {
        lemma_no_table(x.blocks);
    }
    if exists|i: int| 0 <= i < n && has_solid_sides(#[trigger] old_fills[i]) {
        let i = choose|i: int| 0 <= i < n && has_solid_sides(#[trigger] old_fills[i]);
        lemma_solid_sides(old_fills[i]);
        lemma_frame_is_found(old_fills, i);
    } else if frame_index(old_fills) < n {
        lemma_solid_sides(old_fills[frame_index(old_fills)]);
    }
    let sides = solid_frame().borders@;
    assert(sides =~= seq![solid_line(), solid_line(), solid_line(), solid_line()]);
}

/// Blocks without a table have none.
proof fn lemma_no_table(blocks: Seq<BlockView>)
    requires
        forall|k: int| 0 <= k < blocks.len() ==> !(#[trigger] blocks[k] is Table),
    ensures
        !has_table(blocks),
    decreases blocks.len(),
{
    if blocks.len() > 0 {
        assert forall|k: int| 0 <= k < blocks.drop_last().len() implies !(
        #[trigger] blocks.drop_last()[k] is Table) by {
            assert(blocks.drop_last()[k] == blocks[k]);
        }
        lemma_no_table(blocks.drop_last());
        assert(!(blocks[blocks.len() - 1] is Table));
    }
}

// ---- What is derived ----

/// Whether two paragraph shapes have the same values.
pub open spec fn same_para_values(a: ParaShape, b: ParaShape) -> bool {
    &&& a.margin_left == b.margin_left
    &&& a.margin_right == b.margin_right
    &&& a.indent == b.indent
    &&& a.spacing_before == b.spacing_before
    &&& a.spacing_after == b.spacing_after
    &&& a.line_spacing == b.line_spacing
    &&& a.tab_def_id == b.tab_def_id
    &&& a.numbering_id == b.numbering_id
    &&& a.border_fill_id == b.border_fill_id
    &&& a.head_type == b.head_type
    &&& a.para_level == b.para_level
}

/// Whether two character shapes have the same values.
pub open spec fn same_char_values(a: CharShape, b: CharShape) -> bool {
    &&& a.base_size == b.base_size
    &&& a.text_color == b.text_color
    &&& a.bold == b.bold
    &&& a.italic == b.italic
}

/// What is derived of a paragraph has the values of the shapes that it refers to: of its paragraph
/// shape, and of each of its character shapes, from the same position on.
pub proof fn law_derived_has_the_values(core: DocumentCore, section: int, i: int)
    requires
        core.is_current(),
        0 <= section < core.document.sections@.len(),
        0 <= i < core.document.sections@[section].paragraphs@.len(),
    ensures
        ({
            let info = core.document.doc_info;
            let paragraph = core.document.sections@[section].paragraphs@[i];
            let looks = core.derived.sections@[section]@[i];
            &&& core.derived.sections@.len() == core.document.sections@.len()
            &&& core.derived.sections@[section]@.len()
                == core.document.sections@[section].paragraphs@.len()
            &&& paragraph.para_shape_id < info.para_shapes@.len() ==> same_para_values(
                looks.shape,
                info.para_shapes@[paragraph.para_shape_id as int],
            )
            &&& looks.runs@.len() == paragraph.char_shapes@.len()
            &&& forall|j: int|
                0 <= j < looks.runs@.len() ==> {
                    let run = #[trigger] looks.runs@[j];
                    let at = paragraph.char_shapes@[j];
                    &&& run.start_pos == at.start_pos
                    &&& at.char_shape_id < info.char_shapes@.len() ==> same_char_values(
                        run.shape,
                        info.char_shapes@[at.char_shape_id as int],
                    )
                }
        }),
{
    let state = core.derived.sections;
    let all = derived_of(core.document);
    assert(state.deep_view().len() == state@.len());
    assert(all.len() == core.document.sections@.len());
    assert(state.deep_view()[section] == state@[section].deep_view());
    assert(all[section] == resolved_section(
        core.document.doc_info,
        core.document.sections@[section],
    ));
    assert(state@[section].deep_view().len() == state@[section]@.len());
    assert(state@[section].deep_view()[i] == state@[section]@[i].deep_view());
    let paragraph = core.document.sections@[section].paragraphs@[i];
    let view = resolved_paragraph(core.document.doc_info, paragraph);
    assert(all[section][i] == view);
    let looks = state@[section]@[i];
    assert(looks.shape == view.shape);
    assert(looks.runs@ == view.runs);
}

}
