//! What holds of every insertion.

use crate::document_core::{derived_of, resolved_section, DocumentCore};
use crate::error::HwpError;
use crate::model::document::{Document, Section};
use crate::model::paragraph::ParagraphView;
use crate::model::style::{char_shape_or_plain, BorderFill, ParaShape};
use crate::scaffold::builder::has_cells;
use crate::scaffold::insert::{
    block_paragraphs, bodies, bold_shape, clamped, document_gains, format_at,
    frame_index, giving_break, has_table, headings, id16, id32, insertion, is_frame, is_outline,
    is_outline_of, lemma_frame_index, lemma_outline_index, lemma_outline_stays,
    lemma_outlines_grow, new_paragraphs, outline_index, paragraphs_of, position, reports, solid_frame,
    solid_line, tables, takes_bold, takes_frame, takes_outline, with_frame, with_outline,
    with_outlines, Format, InsertBlocksReport, Resolved,
};
use crate::scaffold::markdown::{lines_of, markdown_blocks};
use crate::scaffold::markdown_laws::{ends_in_code, law_empty_line_parts_texts};
use crate::scaffold::schema::BlockView;
use vstd::prelude::*;

verus! {

/// No entry of the tables of shapes changes: each table keeps what it had, and new entries stand
/// behind it.
pub proof fn law_tables_only_grow(
    before: Document,
    after: Document,
    section: int,
    at: int,
    blocks: Seq<BlockView>,
)
    requires
        document_gains(before, after, section, at, blocks),
    ensures
        before.doc_info.para_shapes@.is_prefix_of(after.doc_info.para_shapes@),
        before.doc_info.char_shapes@.is_prefix_of(after.doc_info.char_shapes@),
        before.doc_info.border_fills@.is_prefix_of(after.doc_info.border_fills@),
        before.doc_info.styles == after.doc_info.styles,
{
    let format = format_at(before, section, at, blocks);
    lemma_outlines_grow(
        before.doc_info.para_shapes@,
        format.inherited.para_shape_id,
        blocks,
        0,
    );
    assert(blocks.take(0) =~= seq![]);
}

/// The index, in the section, of the first paragraph that the block `k` becomes: each heading and
/// each paragraph before it takes one place, each table two.
pub open spec fn block_index(at: int, blocks: Seq<BlockView>, k: int) -> int {
    let earlier = blocks.take(k);
    at + headings(earlier) + bodies(earlier) + 2 * tables(earlier)
}

/// A new paragraph stands at its index, and is what it was made to be but for the break that it
/// may take over.
proof fn lemma_new_paragraph(
    before: Document,
    after: Document,
    section: int,
    at: int,
    blocks: Seq<BlockView>,
    i: int,
)
    requires
        document_gains(before, after, section, at, blocks),
        0 <= at <= before.sections@[section].paragraphs@.len(),
        0 <= i < new_paragraphs(before, section, at, blocks).len(),
    ensures
        ({
            let new = after.sections@[section].paragraphs@[at + i];
            &&& at + i < after.sections@[section].paragraphs@.len()
            &&& new.deep_view() == (ParagraphView {
                column_type: new.column_type,
                raw_break_type: new.raw_break_type,
                ..new_paragraphs(before, section, at, blocks)[i]
            })
        }),
{
    let paragraphs = after.sections@[section].paragraphs;
    let n = new_paragraphs(before, section, at, blocks).len();
    assert(paragraphs.deep_view()[at + i] == paragraphs@[at + i].deep_view());
    assert(paragraphs.deep_view().subrange(at, at + n)[i] == paragraphs.deep_view()[at + i]);
}

/// Blocks stand in the document in their order, from the place of insertion on: each paragraph of
/// each block is at its index, and is what the block becomes. (Only the break is not the block's
/// own: the first new paragraph may take one over.)
pub proof fn law_blocks_stand_in_order(
    before: Document,
    after: Document,
    section: int,
    at: int,
    blocks: Seq<BlockView>,
    k: int,
    j: int,
)
    requires
        document_gains(before, after, section, at, blocks),
        0 <= at <= before.sections@[section].paragraphs@.len(),
        0 <= k < blocks.len(),
        0 <= j < block_paragraphs(blocks[k], format_at(before, section, at, blocks)).len(),
    ensures
        ({
            let i = block_index(at, blocks, k) + j;
            let new = after.sections@[section].paragraphs@[i];
            &&& at <= i < after.sections@[section].paragraphs@.len()
            &&& new.deep_view() == (ParagraphView {
                column_type: new.column_type,
                raw_break_type: new.raw_break_type,
                ..block_paragraphs(blocks[k], format_at(before, section, at, blocks))[j]
            })
        }),
{
    let format = format_at(before, section, at, blocks);
    let earlier = blocks.take(k);
    let own = seq![blocks[k]];
    let later = blocks.skip(k + 1);
    assert(earlier + own + later =~= blocks);
    law_paragraphs_in_order(earlier + own, later, format);
    law_paragraphs_in_order(earlier, own, format);
    assert(paragraphs_of(own, format) =~= block_paragraphs(blocks[k], format)) by {
        reveal_with_fuel(paragraphs_of, 2);
        assert(own.drop_last() =~= seq![]);
    }
    lemma_paragraph_count(earlier, format);
    let i = paragraphs_of(earlier, format).len() + j;
    lemma_new_paragraph(before, after, section, at, blocks, i);
}

/// A heading is a paragraph of an outline level: it has the heading's text, and the shape that it
/// refers to is in the document and is that of the heading's level. (Indices are stored in two
/// bytes, so the document must not have more shapes than these can tell apart.)
pub proof fn law_heading_is_outline(
    before: Document,
    after: Document,
    section: int,
    at: int,
    blocks: Seq<BlockView>,
    k: int,
)
    requires
        document_gains(before, after, section, at, blocks),
        0 <= at <= before.sections@[section].paragraphs@.len(),
        0 <= k < blocks.len(),
        blocks[k] is Heading,
        after.doc_info.para_shapes@.len() <= 0x1_0000,
    ensures
        ({
            let shapes = after.doc_info.para_shapes@;
            let new = after.sections@[section].paragraphs@[block_index(at, blocks, k)];
            &&& new.text@ == blocks[k]->Heading_text
            &&& new.para_shape_id < shapes.len()
            &&& is_outline_of(shapes[new.para_shape_id as int], clamped(blocks[k]->level))
        }),
{
    let format = format_at(before, section, at, blocks);
    let base = format.inherited.para_shape_id;
    law_blocks_stand_in_order(before, after, section, at, blocks, k, 0);
    lemma_level_is_there(before.doc_info.para_shapes@, base, blocks, k);
    lemma_outline_index(format.para_shapes, clamped(blocks[k]->level));
}

/// After the shapes for `blocks` are there, so is one for the level of each heading.
pub(crate) proof fn lemma_level_is_there(
    shapes: Seq<ParaShape>,
    base_id: u16,
    blocks: Seq<BlockView>,
    k: int,
)
    requires
        0 <= k < blocks.len(),
        blocks[k] is Heading,
    ensures
        outline_index(with_outlines(shapes, base_id, blocks), clamped(blocks[k]->level))
            < with_outlines(shapes, base_id, blocks).len(),
{
    let level = clamped(blocks[k]->level);
    let earlier = with_outlines(shapes, base_id, blocks.take(k));
    let some = with_outlines(shapes, base_id, blocks.take(k + 1));
    assert(blocks.take(k + 1).drop_last() =~= blocks.take(k));
    assert(some == with_outline(earlier, base_id, level));
    lemma_outline_index(earlier, level);
    if outline_index(earlier, level) == earlier.len() {
        assert(some.drop_last() =~= earlier);
        assert(is_outline_of(some.last(), level));
    }
    lemma_outlines_grow(shapes, base_id, blocks, k + 1);
    lemma_outline_stays(some, with_outlines(shapes, base_id, blocks), level);
}

/// What is appended is not bound to bytes that were read: it is written from its values.
pub proof fn law_appended_entries_have_no_bytes(
    before: Document,
    after: Document,
    section: int,
    at: int,
    blocks: Seq<BlockView>,
    i: int,
)
    requires
        document_gains(before, after, section, at, blocks),
    ensures
        before.doc_info.para_shapes@.len() <= i < after.doc_info.para_shapes@.len()
            ==> after.doc_info.para_shapes@[i].raw_data is None,
        before.doc_info.char_shapes@.len() <= i < after.doc_info.char_shapes@.len()
            ==> after.doc_info.char_shapes@[i].raw_data is None,
        before.doc_info.border_fills@.len() <= i < after.doc_info.border_fills@.len()
            ==> after.doc_info.border_fills@[i].raw_data is None,
{
    let base = format_at(before, section, at, blocks).inherited.para_shape_id;
    if before.doc_info.para_shapes@.len() <= i < after.doc_info.para_shapes@.len() {
        lemma_new_shape(before.doc_info.para_shapes@, base, blocks, i);
    }
}

/// A paragraph shape that is appended for `blocks` is an outline level without bytes.
proof fn lemma_new_shape(shapes: Seq<ParaShape>, base_id: u16, blocks: Seq<BlockView>, i: int)
    requires
        shapes.len() <= i < with_outlines(shapes, base_id, blocks).len(),
    ensures
        with_outlines(shapes, base_id, blocks)[i].raw_data is None,
    decreases blocks.len(),
{
    if blocks.len() > 0 {
        let earlier = with_outlines(shapes, base_id, blocks.drop_last());
        if i < earlier.len() {
            lemma_new_shape(shapes, base_id, blocks.drop_last(), i);
        }
    }
}

/// An outline level gets a shape once: blocks whose headings all have levels that a document has
/// shapes for append no paragraph shape.
pub proof fn law_outline_is_reused(
    before: Document,
    after: Document,
    section: int,
    at: int,
    blocks: Seq<BlockView>,
)
    requires
        document_gains(before, after, section, at, blocks),
        forall|i: int|
            0 <= i < blocks.len() && (#[trigger] blocks[i]) is Heading ==> outline_index(
                before.doc_info.para_shapes@,
                clamped(blocks[i]->level),
            ) < before.doc_info.para_shapes@.len(),
    ensures
        after.doc_info.para_shapes@ == before.doc_info.para_shapes@,
{
    let base = format_at(before, section, at, blocks).inherited.para_shape_id;
    lemma_nothing_missing(before.doc_info.para_shapes@, base, blocks);
}

/// Shapes that have all levels of `blocks` stay as they are.
proof fn lemma_nothing_missing(shapes: Seq<ParaShape>, base_id: u16, blocks: Seq<BlockView>)
    requires
        forall|i: int|
            0 <= i < blocks.len() && (#[trigger] blocks[i]) is Heading ==> outline_index(
                shapes,
                clamped(blocks[i]->level),
            ) < shapes.len(),
    ensures
        with_outlines(shapes, base_id, blocks) == shapes,
    decreases blocks.len(),
{
    if blocks.len() > 0 {
        assert forall|i: int|
            0 <= i < blocks.drop_last().len() && (#[trigger] blocks.drop_last()[i]) is Heading implies outline_index(
            shapes,
            clamped(blocks.drop_last()[i]->level),
        ) < shapes.len() by {
            assert(blocks.drop_last()[i] == blocks[i]);
        }
        lemma_nothing_missing(shapes, base_id, blocks.drop_last());
        assert(blocks.last() == blocks[blocks.len() - 1]);
    }
}

/// Inserting the same blocks once more, anywhere in the document, appends no paragraph shape and
/// no border.
pub proof fn law_second_insertion_reuses(
    first: Document,
    second: Document,
    third: Document,
    section: int,
    at: int,
    next_section: int,
    next_at: int,
    blocks: Seq<BlockView>,
)
    requires
        document_gains(first, second, section, at, blocks),
        document_gains(second, third, next_section, next_at, blocks),
    ensures
        third.doc_info.para_shapes@ == second.doc_info.para_shapes@,
        third.doc_info.border_fills@ == second.doc_info.border_fills@,
{
    let base = format_at(first, section, at, blocks).inherited.para_shape_id;
    assert forall|i: int| 0 <= i < blocks.len() && (#[trigger] blocks[i]) is Heading implies outline_index(
        second.doc_info.para_shapes@,
        clamped(blocks[i]->level),
    ) < second.doc_info.para_shapes@.len() by {
        lemma_level_is_there(first.doc_info.para_shapes@, base, blocks, i);
    }
    law_outline_is_reused(second, third, next_section, next_at, blocks);
    if has_table(blocks) {
        lemma_frame_is_there(first.doc_info.border_fills@, blocks);
    }
}

/// A solid frame is a frame with four solid sides.
proof fn lemma_solid_frame()
    ensures
        is_frame(solid_frame()),
{
    let sides = solid_frame().borders@;
    assert(sides =~= seq![solid_line(), solid_line(), solid_line(), solid_line()]);
}

/// Where there is a table, the borders have a frame: the one that they had first, or a new one.
proof fn lemma_frame_is_there(fills: Seq<BorderFill>, blocks: Seq<BlockView>)
    requires
        has_table(blocks),
    ensures
        frame_index(with_frame(fills, blocks)) == frame_index(fills),
        frame_index(fills) < with_frame(fills, blocks).len(),
        is_frame(with_frame(fills, blocks)[frame_index(fills)]),
{
    lemma_frame_index(fills);
    lemma_solid_frame();
    if frame_index(fills) == fills.len() {
        assert(with_frame(fills, blocks).drop_last() =~= fills);
    }
}

/// A table stands in the document with its rows, and has solid lines on all four sides: the border
/// that it refers to, counted from 1, is in the document and is a solid frame. (It is stored in two
/// bytes, so the document must not have more borders than these can tell apart.)
pub proof fn law_table_is_framed(
    before: Document,
    after: Document,
    section: int,
    at: int,
    blocks: Seq<BlockView>,
    k: int,
)
    requires
        document_gains(before, after, section, at, blocks),
        0 <= at <= before.sections@[section].paragraphs@.len(),
        0 <= k < blocks.len(),
        blocks[k] is Table,
        has_cells(blocks[k]->rows),
        after.doc_info.border_fills@.len() < 0x1_0000,
    ensures
        ({
            let fills = after.doc_info.border_fills@;
            let new = after.sections@[section].paragraphs@[block_index(at, blocks, k)];
            &&& new.table matches Some(table)
            &&& table.rows.deep_view() == blocks[k]->rows
            &&& 1 <= table.border_fill_id <= fills.len()
            &&& is_frame(fills[table.border_fill_id - 1])
        }),
{
    law_blocks_stand_in_order(before, after, section, at, blocks, k, 0);
    lemma_has_table(blocks, k);
    lemma_frame_is_there(before.doc_info.border_fills@, blocks);
    lemma_frame_index(before.doc_info.border_fills@);
    let new = after.sections@[section].paragraphs@[block_index(at, blocks, k)];
    assert(new.deep_view().table == new.table.deep_view());
}

/// A table among the blocks makes them have one.
pub(crate) proof fn lemma_has_table(blocks: Seq<BlockView>, k: int)
    requires
        0 <= k < blocks.len(),
        blocks[k] is Table,
    ensures
        has_table(blocks),
    decreases blocks.len(),
{
    if k < blocks.len() - 1 {
        lemma_has_table(blocks.drop_last(), k);
    }
}

/// A heading is bold, all of it: the one character shape that it refers to is in the document and
/// is bold. (It is stored in four bytes, so the document must not have more shapes than these can
/// tell apart.)
pub proof fn law_heading_is_bold(
    before: Document,
    after: Document,
    section: int,
    at: int,
    blocks: Seq<BlockView>,
    k: int,
)
    requires
        document_gains(before, after, section, at, blocks),
        0 <= at <= before.sections@[section].paragraphs@.len(),
        0 <= k < blocks.len(),
        blocks[k] is Heading,
        after.doc_info.char_shapes@.len() <= 0x1_0000_0000,
    ensures
        ({
            let shapes = after.doc_info.char_shapes@;
            let new = after.sections@[section].paragraphs@[block_index(at, blocks, k)];
            &&& new.char_shapes@.len() == 1
            &&& new.char_shapes@[0].start_pos == 0
            &&& new.char_shapes@[0].char_shape_id < shapes.len()
            &&& shapes[new.char_shapes@[0].char_shape_id as int].bold
        }),
{
    law_blocks_stand_in_order(before, after, section, at, blocks, k, 0);
    lemma_has_heading(blocks, k);
}

/// A heading among the blocks is counted.
pub(crate) proof fn lemma_has_heading(blocks: Seq<BlockView>, k: int)
    requires
        0 <= k < blocks.len(),
        blocks[k] is Heading,
    ensures
        headings(blocks) > 0,
    decreases blocks.len(),
{
    if k < blocks.len() - 1 {
        lemma_has_heading(blocks.drop_last(), k);
    }
}

/// The report adds up: each heading and each paragraph makes one new paragraph, each table makes
/// two, and the section has that many more.
pub proof fn law_report_adds_up(
    report: InsertBlocksReport,
    before: Document,
    after: Document,
    section: int,
    at: int,
    blocks: Seq<BlockView>,
)
    requires
        reports(report, before, section, at, blocks),
        document_gains(before, after, section, at, blocks),
    ensures
        report.inserted_paragraphs == report.heading_count + report.paragraph_count + 2
            * report.table_count,
        report.paragraph_count_after == after.sections@[section].paragraphs@.len(),
{
    lemma_paragraph_count(blocks, format_at(before, section, at, blocks));
}

/// How many paragraphs blocks become.
pub(crate) proof fn lemma_paragraph_count(blocks: Seq<BlockView>, format: Format)
    ensures
        paragraphs_of(blocks, format).len() == headings(blocks) + bodies(blocks) + 2 * tables(
            blocks,
        ),
    decreases blocks.len(),
{
    if blocks.len() > 0 {
        lemma_paragraph_count(blocks.drop_last(), format);
    }
}

/// To insert the same blocks once more is to have them twice: the section grows by as many
/// paragraphs as the first time.
pub proof fn law_repetition_inserts_again(
    first: Document,
    second: Document,
    third: Document,
    section: int,
    at: int,
    next_at: int,
    blocks: Seq<BlockView>,
)
    requires
        document_gains(first, second, section, at, blocks),
        document_gains(second, third, section, next_at, blocks),
    ensures
        third.sections@[section].paragraphs@.len() - second.sections@[section].paragraphs@.len()
            == second.sections@[section].paragraphs@.len()
            - first.sections@[section].paragraphs@.len(),
{
    lemma_paragraph_count(blocks, format_at(first, section, at, blocks));
    lemma_paragraph_count(blocks, format_at(second, section, next_at, blocks));
}

/// The index of the paragraph that new ones at `at` inherit from.
pub open spec fn template_index(at: int) -> int {
    if at == 0 {
        0
    } else {
        at - 1
    }
}

/// Each new paragraph has the style of the paragraph that it inherits from.
pub proof fn law_style_is_inherited(
    before: Document,
    after: Document,
    section: int,
    at: int,
    blocks: Seq<BlockView>,
    i: int,
)
    requires
        document_gains(before, after, section, at, blocks),
        before.sections@[section].paragraphs@.len() > 0,
        0 <= at <= before.sections@[section].paragraphs@.len(),
        0 <= i < new_paragraphs(before, section, at, blocks).len(),
    ensures
        after.sections@[section].paragraphs@[at + i].style_id
            == before.sections@[section].paragraphs@[template_index(at)].style_id,
{
    lemma_new_paragraph(before, after, section, at, blocks, i);
    lemma_style(blocks, format_at(before, section, at, blocks), i);
}

/// Each paragraph of blocks has the inherited style.
proof fn lemma_style(blocks: Seq<BlockView>, format: Format, i: int)
    requires
        0 <= i < paragraphs_of(blocks, format).len(),
    ensures
        paragraphs_of(blocks, format)[i].style_id == format.inherited.style_id,
    decreases blocks.len(),
{
    let before = paragraphs_of(blocks.drop_last(), format);
    if i < before.len() {
        lemma_style(blocks.drop_last(), format, i);
    }
}

/// Body text is no heading, whatever it stands behind: the paragraph shape that it refers to is no
/// outline level, as long as that of the first style is none. (The shapes of the first style and
/// of the paragraph before must be in the document: an index without a shape may get that of a
/// heading.)
pub proof fn law_body_is_no_heading(
    before: Document,
    after: Document,
    section: int,
    at: int,
    blocks: Seq<BlockView>,
    k: int,
)
    requires
        document_gains(before, after, section, at, blocks),
        0 <= at <= before.sections@[section].paragraphs@.len(),
        0 <= k < blocks.len(),
        blocks[k] is Paragraph,
        before.doc_info.styles@.len() > 0,
        before.doc_info.styles@[0].para_shape_id < before.doc_info.para_shapes@.len(),
        !is_outline(before.doc_info, before.doc_info.styles@[0].para_shape_id),
        before.sections@[section].paragraphs@.len() > 0
            ==> before.sections@[section].paragraphs@[template_index(at)].para_shape_id
            < before.doc_info.para_shapes@.len(),
    ensures
        !is_outline(
            after.doc_info,
            after.sections@[section].paragraphs@[block_index(at, blocks, k)].para_shape_id,
        ),
{
    law_blocks_stand_in_order(before, after, section, at, blocks, k, 0);
    law_tables_only_grow(before, after, section, at, blocks);
    let id = format_at(before, section, at, blocks).inherited.para_shape_id;
    assert(!is_outline(before.doc_info, id));
    assert(after.doc_info.para_shapes@[id as int] == before.doc_info.para_shapes@[id as int]);
}

/// Body text behind body text looks like it: it has the paragraph shape of the one before, the
/// last of its character shapes, and its style.
pub proof fn law_format_is_inherited(
    before: Document,
    after: Document,
    section: int,
    at: int,
    blocks: Seq<BlockView>,
    k: int,
)
    requires
        document_gains(before, after, section, at, blocks),
        before.sections@[section].paragraphs@.len() > 0,
        0 <= at <= before.sections@[section].paragraphs@.len(),
        0 <= k < blocks.len(),
        blocks[k] is Paragraph,
        ({
            let template = before.sections@[section].paragraphs@[template_index(at)];
            &&& !is_outline(before.doc_info, template.para_shape_id)
            &&& template.char_shapes@.len() > 0
        }),
    ensures
        ({
            let template = before.sections@[section].paragraphs@[template_index(at)];
            let new = after.sections@[section].paragraphs@[block_index(at, blocks, k)];
            &&& new.text@ == blocks[k]->Paragraph_text
            &&& new.para_shape_id == template.para_shape_id
            &&& new.char_shapes@.len() == 1
            &&& new.char_shapes@[0].char_shape_id == template.char_shapes@.last().char_shape_id
            &&& new.style_id == template.style_id
        }),
{
    law_blocks_stand_in_order(before, after, section, at, blocks, k, 0);
}

/// The paragraphs that were there stay, in their order, with their text, format and tables: those
/// before the place of insertion keep their index, the others move behind the new ones.
pub proof fn law_paragraphs_stay(
    before: Document,
    after: Document,
    section: int,
    at: int,
    blocks: Seq<BlockView>,
    i: int,
)
    requires
        document_gains(before, after, section, at, blocks),
        0 <= section < before.sections@.len(),
        0 <= at <= before.sections@[section].paragraphs@.len(),
        0 <= i < before.sections@[section].paragraphs@.len(),
    ensures
        ({
            let n = new_paragraphs(before, section, at, blocks).len();
            let old = before.sections@[section].paragraphs@[i];
            let new = after.sections@[section].paragraphs@[if i < at {
                i
            } else {
                i + n
            }];
            &&& new.text == old.text
            &&& new.para_shape_id == old.para_shape_id
            &&& new.style_id == old.style_id
            &&& new.char_shapes == old.char_shapes
            &&& new.has_para_text == old.has_para_text
            &&& new.table == old.table
            &&& !(at == 0 && i == 0) ==> new == old
        }),
{
    let n = new_paragraphs(before, section, at, blocks).len() as int;
    if n > 0 {
        let paragraphs = after.sections@[section].paragraphs@;
        if i < at {
            assert(paragraphs[i] == paragraphs.take(at)[i]);
        } else {
            assert(paragraphs[i + n] == paragraphs.skip(at + n)[i - at]);
        }
    }
}

/// A section that had a paragraph starts with the break that it started with, wherever blocks
/// are inserted.
pub proof fn law_section_break_stays(
    before: Document,
    after: Document,
    section: int,
    at: int,
    blocks: Seq<BlockView>,
)
    requires
        document_gains(before, after, section, at, blocks),
        0 <= section < before.sections@.len(),
        before.sections@[section].paragraphs@.len() > 0,
        0 <= at <= before.sections@[section].paragraphs@.len(),
    ensures
        ({
            let old = before.sections@[section].paragraphs@[0];
            let new = after.sections@[section].paragraphs@[0];
            new.column_type == old.column_type && new.raw_break_type == old.raw_break_type
        }),
{
    let new = new_paragraphs(before, section, at, blocks);
    let paragraphs = after.sections@[section].paragraphs;
    if new.len() > 0 {
        if at > 0 {
            assert(paragraphs@[0] == paragraphs@.take(at)[0]);
        } else {
            let view = paragraphs.deep_view().subrange(0, new.len() as int)[0];
            assert(view == paragraphs@[0].deep_view());
        }
    }
}

/// Blocks in a row become the paragraphs of each, in a row.
pub proof fn law_paragraphs_in_order(
    first: Seq<BlockView>,
    second: Seq<BlockView>,
    format: Format,
)
    ensures
        paragraphs_of(first + second, format) == paragraphs_of(first, format) + paragraphs_of(
            second,
            format,
        ),
    decreases second.len(),
{
    if second.len() == 0 {
        assert(first + second =~= first);
        assert(paragraphs_of(first, format) + paragraphs_of(second, format) =~= paragraphs_of(
            first,
            format,
        ));
    } else {
        law_paragraphs_in_order(first, second.drop_last(), format);
        assert((first + second).drop_last() =~= first + second.drop_last());
        assert((first + second).last() == second.last());
        assert(paragraphs_of(first + second, format) =~= paragraphs_of(first, format)
            + paragraphs_of(second, format));
    }
}

/// To leave out the index is to name the end of the section.
pub proof fn law_default_is_the_end(
    before: DocumentCore,
    after: DocumentCore,
    section_idx: usize,
    count: usize,
    blocks: Seq<BlockView>,
    res: Result<InsertBlocksReport, HwpError>,
)
    requires
        section_idx < before.document.sections@.len(),
        count == before.document.sections@[section_idx as int].paragraphs@.len(),
    ensures
        insertion(before, after, section_idx, None, blocks, res) <==> insertion(
            before,
            after,
            section_idx,
            Some(count),
            blocks,
            res,
        ),
{
}

/// An insertion fails if the section is not there or the index lies behind its end, and only
/// then; a failed one leaves the document as it was.
pub proof fn law_failure_changes_nothing(
    before: DocumentCore,
    after: DocumentCore,
    section_idx: usize,
    at: Option<usize>,
    blocks: Seq<BlockView>,
    res: Result<InsertBlocksReport, HwpError>,
)
    requires
        insertion(before, after, section_idx, at, blocks, res),
    ensures
        res is Err <==> section_idx >= before.document.sections@.len() || at is Some && at->0
            > before.document.sections@[section_idx as int].paragraphs@.len(),
        res is Err ==> after == before,
{
}

// ---- Shapes that are looked up ----

/// Whether one look-up, of an outline level, of the bold shape or of the frame, leads from one
/// state to the next.
pub open spec fn is_lookup(before: (Resolved, Document), after: (Resolved, Document)) -> bool {
    ||| exists|level: u8, id: u16|
        1 <= level <= 7 && #[trigger] takes_outline(
            before.0,
            after.0,
            before.1,
            after.1,
            level,
            id,
        )
    ||| exists|id: u32| #[trigger] takes_bold(before.0, after.0, before.1, after.1, id)
    ||| exists|id: u16| #[trigger] takes_frame(before.0, after.0, before.1, after.1, id)
}

/// Whether any number of look-ups lead from each state to the next one.
pub open spec fn are_lookups(states: Seq<(Resolved, Document)>) -> bool {
    &&& states.len() > 0
    &&& forall|k: int|
        0 <= k < states.len() - 1 ==> is_lookup(#[trigger] states[k], states[k + 1])
}

/// The paragraph shapes only grow, by what is appended for a level.
proof fn lemma_outline_grows(shapes: Seq<ParaShape>, base_id: u16, level: u8)
    requires
        level > 0,
    ensures
        shapes.is_prefix_of(with_outline(shapes, base_id, level)),
        outline_index(with_outline(shapes, base_id, level), level) < with_outline(
            shapes,
            base_id,
            level,
        ).len(),
{
    let after = with_outline(shapes, base_id, level);
    lemma_outline_index(shapes, level);
    assert(shapes =~= after.subrange(0, shapes.len() as int));
    if outline_index(shapes, level) == shapes.len() {
        assert(after.drop_last() =~= shapes);
        assert(is_outline_of(after.last(), level));
    }
}

/// Look-ups only add paragraph shapes, and a bold shape that was looked up stays the one.
proof fn lemma_lookups(states: Seq<(Resolved, Document)>)
    requires
        are_lookups(states),
    ensures
        states[0].1.doc_info.para_shapes@.is_prefix_of(states.last().1.doc_info.para_shapes@),
        states[0].0.bold is Some ==> {
            &&& states.last().0.bold == states[0].0.bold
            &&& states.last().1.doc_info.char_shapes == states[0].1.doc_info.char_shapes
        },
    decreases states.len(),
{
    let first = states[0].1.doc_info.para_shapes@;
    let last = states.last().1.doc_info.para_shapes@;
    if states.len() == 1 {
        assert(first =~= last.subrange(0, first.len() as int));
    } else {
        let earlier = states.drop_last();
        assert forall|k: int| 0 <= k < earlier.len() - 1 implies is_lookup(
            #[trigger] earlier[k],
            earlier[k + 1],
        ) by {
            assert(is_lookup(states[k], states[k + 1]));
        }
        lemma_lookups(earlier);
        let n = states.len() as int;
        let (before, after) = (states[n - 2], states[n - 1]);
        assert(is_lookup(states[n - 2], states[n - 2 + 1]));
        let middle = before.1.doc_info.para_shapes@;
        assert(middle.is_prefix_of(last)) by {
            if exists|level: u8, id: u16|
                1 <= level <= 7 && #[trigger] takes_outline(
                    before.0,
                    after.0,
                    before.1,
                    after.1,
                    level,
                    id,
                ) {
                let (level, id) = choose|level: u8, id: u16|
                    1 <= level <= 7 && #[trigger] takes_outline(
                        before.0,
                        after.0,
                        before.1,
                        after.1,
                        level,
                        id,
                    );
                lemma_outline_grows(middle, before.0.inherited.para_shape_id, level);
            } else {
                assert(middle =~= last.subrange(0, middle.len() as int));
            }
        }
        assert(first =~= last.subrange(0, first.len() as int));
    }
}

/// The stored indices of two levels, where shapes are added between their look-ups.
proof fn lemma_outline_ids(
    first: Seq<ParaShape>,
    last: Seq<ParaShape>,
    base_id: u16,
    l: u8,
    m: u8,
)
    requires
        l > 0,
        m > 0,
        first.is_prefix_of(last),
        outline_index(first, l) < first.len(),
        with_outline(last, base_id, m).len() <= 0x1_0000,
    ensures
        id16(outline_index(first, l)) == id16(outline_index(with_outline(last, base_id, m), m))
            <==> l == m,
        outline_index(last, l) < last.len(),
{
    let shapes = with_outline(last, base_id, m);
    lemma_outline_stays(first, last, l);
    lemma_outline_grows(last, base_id, m);
    lemma_outline_stays(last, shapes, l);
    lemma_outline_index(shapes, l);
    lemma_outline_index(shapes, m);
}

/// The shape of an outline level tells it apart: two look-ups of levels, with any look-ups between
/// them, give the same index if and only if the levels are equal, and to look up a level again
/// leaves the document as it is. (Indices are stored in two bytes, so the document must not have
/// more shapes than these can tell apart.)
pub proof fn law_outline_ids_tell_levels_apart(
    start: (Resolved, Document),
    states: Seq<(Resolved, Document)>,
    end: (Resolved, Document),
    l: u8,
    i: u16,
    m: u8,
    j: u16,
)
    requires
        1 <= l <= 7,
        1 <= m <= 7,
        are_lookups(states),
        takes_outline(start.0, states[0].0, start.1, states[0].1, l, i),
        takes_outline(states.last().0, end.0, states.last().1, end.1, m, j),
        end.1.doc_info.para_shapes@.len() <= 0x1_0000,
    ensures
        i == j <==> l == m,
        l == m ==> end.1 == states.last().1,
{
    let first = states[0].1.doc_info.para_shapes@;
    let last = states.last().1.doc_info.para_shapes@;
    lemma_lookups(states);
    lemma_outline_grows(start.1.doc_info.para_shapes@, start.0.inherited.para_shape_id, l);
    lemma_outline_ids(first, last, states.last().0.inherited.para_shape_id, l, m);
}

/// Headings get one bold shape: two look-ups in a row give the same index, that of the one shape
/// that they append. It is like the inherited one but bold, not bound to bytes that were read, and
/// nothing else changes. (The index is the number of shapes before, as far as four bytes hold it.)
pub proof fn law_bold_is_appended_once(
    start: (Resolved, Document),
    middle: (Resolved, Document),
    end: (Resolved, Document),
    i: u32,
    j: u32,
)
    requires
        start.0.bold is None,
        takes_bold(start.0, middle.0, start.1, middle.1, i),
        takes_bold(middle.0, end.0, middle.1, end.1, j),
    ensures
        i == j,
        i == id32(start.1.doc_info.char_shapes@.len() as int),
        start.1.doc_info.char_shapes@.len() < 0x1_0000_0000
            ==> i == start.1.doc_info.char_shapes@.len(),
        ({
            let shapes = start.1.doc_info.char_shapes@;
            end.1.doc_info.char_shapes@ == shapes.push(
                bold_shape(char_shape_or_plain(shapes, start.0.inherited.char_shape_id)),
            )
        }),
        end.1.sections == start.1.sections,
        end.1.doc_info.para_shapes == start.1.doc_info.para_shapes,
        end.1.doc_info.border_fills == start.1.doc_info.border_fills,
        end.1.doc_info.styles == start.1.doc_info.styles,
{
}

/// The bold shape stays the one, whatever is looked up in between: a later look-up gives the same
/// index and leaves the document as it is.
pub proof fn law_bold_is_found_again(
    start: (Resolved, Document),
    states: Seq<(Resolved, Document)>,
    end: (Resolved, Document),
    i: u32,
    j: u32,
)
    requires
        are_lookups(states),
        takes_bold(start.0, states[0].0, start.1, states[0].1, i),
        takes_bold(states.last().0, end.0, states.last().1, end.1, j),
    ensures
        i == j,
        end.1 == states.last().1,
        end.1.doc_info.char_shapes == states[0].1.doc_info.char_shapes,
{
    lemma_lookups(states);
}

// ---- How many shapes are appended ----

/// Whether there is a heading of the outline level `level` among the blocks.
pub open spec fn has_level(blocks: Seq<BlockView>, level: u8) -> bool {
    exists|k: int|
        0 <= k < blocks.len() && #[trigger] blocks[k] is Heading && clamped(blocks[k]->level)
            == level
}

/// Whether `shapes` lack the outline level `level` and the blocks need it.
pub open spec fn is_missing(shapes: Seq<ParaShape>, blocks: Seq<BlockView>, level: u8) -> bool {
    outline_index(shapes, level) == shapes.len() && has_level(blocks, level)
}

/// How many of the levels from 1 to `top` the blocks need and `shapes` lack.
pub open spec fn missing_levels(shapes: Seq<ParaShape>, blocks: Seq<BlockView>, top: nat) -> nat
    decreases top,
{
    if top == 0 {
        0
    } else {
        missing_levels(shapes, blocks, (top - 1) as nat) + if is_missing(
            shapes,
            blocks,
            top as u8,
        ) {
            1nat
        } else {
            0nat
        }
    }
}

/// No more levels are missing than there are.
proof fn lemma_missing_bound(shapes: Seq<ParaShape>, blocks: Seq<BlockView>, top: nat)
    ensures
        missing_levels(shapes, blocks, top) <= top,
    decreases top,
{
    if top > 0 {
        lemma_missing_bound(shapes, blocks, (top - 1) as nat);
    }
}

/// Without blocks no level is missing.
proof fn lemma_missing_none(shapes: Seq<ParaShape>, top: nat)
    ensures
        missing_levels(shapes, seq![], top) == 0,
    decreases top,
{
    if top > 0 {
        lemma_missing_none(shapes, (top - 1) as nat);
    }
}

/// The count differs by what differs at one level.
proof fn lemma_missing_differs(
    shapes: Seq<ParaShape>,
    some: Seq<BlockView>,
    more: Seq<BlockView>,
    level: u8,
    top: nat,
)
    requires
        top <= 7,
        level > 0,
        forall|l: u8|
            l != level ==> (#[trigger] is_missing(shapes, more, l) <==> is_missing(
                shapes,
                some,
                l,
            )),
        is_missing(shapes, some, level) ==> is_missing(shapes, more, level),
    ensures
        missing_levels(shapes, more, top) == missing_levels(shapes, some, top) + if level <= top
            && is_missing(shapes, more, level) && !is_missing(shapes, some, level) {
            1nat
        } else {
            0nat
        },
    decreases top,
{
    if top > 0 {
        lemma_missing_differs(shapes, some, more, level, (top - 1) as nat);
        assert(is_missing(shapes, more, top as u8) || !is_missing(shapes, more, top as u8));
    }
}

/// One block more adds at most its own level.
proof fn lemma_level_of_last(blocks: Seq<BlockView>, level: u8)
    requires
        blocks.len() > 0,
    ensures
        has_level(blocks, level) <==> has_level(blocks.drop_last(), level) || (blocks.last() is Heading
            && clamped(blocks.last()->level) == level),
{
    let some = blocks.drop_last();
    if has_level(blocks, level) {
        let k = choose|k: int|
            0 <= k < blocks.len() && #[trigger] blocks[k] is Heading && clamped(blocks[k]->level)
                == level;
        if k < some.len() {
            assert(some[k] == blocks[k]);
        }
    }
    if has_level(some, level) {
        let k = choose|k: int|
            0 <= k < some.len() && #[trigger] some[k] is Heading && clamped(some[k]->level)
                == level;
        assert(blocks[k] == some[k]);
    }
    if blocks.last() is Heading {
        assert(blocks[blocks.len() - 1] is Heading);
    }
}

/// The shapes for blocks have the levels that they had and those of the headings, and no others.
proof fn lemma_levels_that_are_there(
    shapes: Seq<ParaShape>,
    base_id: u16,
    blocks: Seq<BlockView>,
    level: u8,
)
    requires
        level > 0,
    ensures
        ({
            let after = with_outlines(shapes, base_id, blocks);
            outline_index(after, level) < after.len() <==> outline_index(shapes, level)
                < shapes.len() || has_level(blocks, level)
        }),
    decreases blocks.len(),
{
    lemma_outline_index(shapes, level);
    if blocks.len() > 0 {
        lemma_levels_that_are_there(shapes, base_id, blocks.drop_last(), level);
        lemma_level_of_last(blocks, level);
        let before = with_outlines(shapes, base_id, blocks.drop_last());
        let after = with_outlines(shapes, base_id, blocks);
        lemma_outline_index(before, level);
        lemma_outline_index(after, level);
        if blocks.last() is Heading {
            let own = clamped(blocks.last()->level);
            lemma_outline_grows(before, base_id, own);
            if outline_index(before, level) < before.len() {
                lemma_outline_stays(before, after, level);
            } else if own != level && after.len() > before.len() {
                assert(after.drop_last() =~= before);
                assert(is_outline_of(after.last(), own));
            }
        }
    }
}

/// How many shapes are appended for blocks.
proof fn lemma_appended_shapes(shapes: Seq<ParaShape>, base_id: u16, blocks: Seq<BlockView>)
    ensures
        with_outlines(shapes, base_id, blocks).len() == shapes.len() + missing_levels(
            shapes,
            blocks,
            7,
        ),
    decreases blocks.len(),
{
    if blocks.len() == 0 {
        assert(blocks =~= seq![]);
        lemma_missing_none(shapes, 7);
    } else {
        let some = blocks.drop_last();
        lemma_appended_shapes(shapes, base_id, some);
        let own = if blocks.last() is Heading {
            clamped(blocks.last()->level)
        } else {
            1
        };
        assert forall|l: u8| l != own implies (#[trigger] is_missing(shapes, blocks, l)
            <==> is_missing(shapes, some, l)) by {
            lemma_level_of_last(blocks, l);
        }
        lemma_level_of_last(blocks, own);
        lemma_missing_differs(shapes, some, blocks, own, 7);
        lemma_levels_that_are_there(shapes, base_id, some, own);
        lemma_outline_index(shapes, own);
        lemma_outline_index(with_outlines(shapes, base_id, some), own);
    }
}

/// One paragraph shape is appended for each level that a heading needs and the document lacks, and
/// none besides: so at most seven.
pub proof fn law_one_shape_for_each_missing_level(
    before: Document,
    after: Document,
    section: int,
    at: int,
    blocks: Seq<BlockView>,
)
    requires
        document_gains(before, after, section, at, blocks),
    ensures
        after.doc_info.para_shapes@.len() == before.doc_info.para_shapes@.len() + missing_levels(
            before.doc_info.para_shapes@,
            blocks,
            7,
        ),
        after.doc_info.para_shapes@.len() <= before.doc_info.para_shapes@.len() + 7,
        forall|level: u8|
            1 <= level <= 7 && #[trigger] is_missing(before.doc_info.para_shapes@, blocks, level)
                ==> before.doc_info.para_shapes@.len() <= outline_index(
                after.doc_info.para_shapes@,
                level,
            ) < after.doc_info.para_shapes@.len(),
{
    let shapes = before.doc_info.para_shapes@;
    let all = after.doc_info.para_shapes@;
    let base = format_at(before, section, at, blocks).inherited.para_shape_id;
    lemma_appended_shapes(shapes, base, blocks);
    lemma_missing_bound(shapes, blocks, 7);
    law_tables_only_grow(before, after, section, at, blocks);
    assert forall|level: u8| 1 <= level <= 7 && #[trigger] is_missing(shapes, blocks, level) implies shapes.len()
        <= outline_index(all, level) < all.len() by {
        lemma_levels_that_are_there(shapes, base, blocks, level);
        lemma_outline_index(all, level);
        let k = outline_index(all, level);
        if k < shapes.len() {
            assert(shapes[k] == all[k]);
            lemma_outline_is_found(shapes, level, k);
        }
    }
}

/// A level that a shape has is found.
pub(crate) proof fn lemma_outline_is_found(shapes: Seq<ParaShape>, level: u8, k: int)
    requires
        0 <= k < shapes.len(),
        is_outline_of(shapes[k], level),
    ensures
        outline_index(shapes, level) <= k,
    decreases shapes.len(),
{
    lemma_outline_index(shapes.drop_last(), level);
    if k < shapes.len() - 1 {
        lemma_outline_is_found(shapes.drop_last(), level, k);
    }
}

// ---- Two insertions ----

/// What a paragraph says, whatever it looks like: its text, and the rows of its table.
pub open spec fn content_of(paragraph: ParagraphView) -> (Seq<char>, Option<Seq<Seq<Seq<char>>>>) {
    (
        paragraph.text,
        match paragraph.table {
            Some(table) => Some(table.rows),
            None => None,
        },
    )
}

/// What paragraphs say, in order.
pub open spec fn contents(paragraphs: Seq<ParagraphView>) -> Seq<
    (Seq<char>, Option<Seq<Seq<Seq<char>>>>),
> {
    Seq::new(paragraphs.len(), |i: int| content_of(paragraphs[i]))
}

/// What the paragraphs of a section say, in order.
pub open spec fn section_contents(section: Section) -> Seq<
    (Seq<char>, Option<Seq<Seq<Seq<char>>>>),
> {
    contents(section.paragraphs.deep_view())
}

/// What blocks say does not depend on the format of their paragraphs.
proof fn lemma_same_contents(blocks: Seq<BlockView>, f: Format, g: Format)
    ensures
        contents(paragraphs_of(blocks, f)) == contents(paragraphs_of(blocks, g)),
    decreases blocks.len(),
{
    if blocks.len() == 0 {
        assert(contents(paragraphs_of(blocks, f)) =~= contents(paragraphs_of(blocks, g)));
    } else {
        let some = blocks.drop_last();
        lemma_same_contents(some, f, g);
        let (a, b) = (block_paragraphs(blocks.last(), f), block_paragraphs(blocks.last(), g));
        assert(contents(a) =~= contents(b));
        lemma_contents_concat(paragraphs_of(some, f), a);
        lemma_contents_concat(paragraphs_of(some, g), b);
    }
}

/// Paragraphs in a row say what each part says, in a row.
proof fn lemma_contents_concat(a: Seq<ParagraphView>, b: Seq<ParagraphView>)
    ensures
        contents(a + b) == contents(a) + contents(b),
{
    assert(contents(a + b) =~= contents(a) + contents(b));
}

/// What a section says after an insertion: what it said, with what the blocks say at their place.
proof fn lemma_contents_after(
    before: Document,
    after: Document,
    section: int,
    at: int,
    blocks: Seq<BlockView>,
)
    requires
        document_gains(before, after, section, at, blocks),
        0 <= at <= before.sections@[section].paragraphs@.len(),
    ensures
        ({
            let old_contents = section_contents(before.sections@[section]);
            section_contents(after.sections@[section]) == old_contents.take(at) + contents(
                new_paragraphs(before, section, at, blocks),
            ) + old_contents.skip(at)
        }),
{
    let old_section = before.sections@[section];
    let new_section = after.sections@[section];
    let said = section_contents(old_section);
    let new = new_paragraphs(before, section, at, blocks);
    let result = said.take(at) + contents(new) + said.skip(at);
    if new.len() == 0 {
        assert(result =~= said);
    } else {
        let kept = giving_break(old_section.paragraphs@, at);
        let end = at + new.len();
        assert forall|i: int| 0 <= i < result.len() implies section_contents(new_section)[i]
            == result[i] by {
            let paragraph = new_section.paragraphs@[i];
            assert(new_section.paragraphs.deep_view()[i] == paragraph.deep_view());
            if i < at {
                assert(paragraph == new_section.paragraphs@.take(at)[i]);
                assert(kept[i].deep_view().text == old_section.paragraphs@[i].deep_view().text);
                assert(paragraph == kept[i]);
            } else if i < end {
                lemma_new_paragraph(before, after, section, at, blocks, i - at);
            } else {
                assert(paragraph == new_section.paragraphs@.skip(end)[i - end]);
                assert(paragraph == kept[i - new.len()]);
            }
        }
        assert(section_contents(new_section) =~= result);
    }
}

/// Two insertions, the second one right behind the first, say what one insertion of all their
/// blocks says.
pub proof fn law_insertions_add_up(
    first: Document,
    second: Document,
    third: Document,
    whole: Document,
    section: int,
    at: int,
    a: Seq<BlockView>,
    b: Seq<BlockView>,
)
    requires
        0 <= at <= first.sections@[section].paragraphs@.len(),
        document_gains(first, second, section, at, a),
        document_gains(
            second,
            third,
            section,
            at + new_paragraphs(first, section, at, a).len(),
            b,
        ),
        document_gains(first, whole, section, at, a + b),
    ensures
        section_contents(third.sections@[section]) == section_contents(whole.sections@[section]),
{
    let n = new_paragraphs(first, section, at, a).len();
    let format = format_at(first, section, at, a + b);
    let said = section_contents(first.sections@[section]);
    lemma_contents_after(first, second, section, at, a);
    lemma_contents_after(second, third, section, at + n, b);
    lemma_contents_after(first, whole, section, at, a + b);
    law_paragraphs_in_order(a, b, format);
    lemma_contents_concat(paragraphs_of(a, format), paragraphs_of(b, format));
    lemma_same_contents(a, format, format_at(first, section, at, a));
    lemma_same_contents(b, format, format_at(second, section, at + n, b));
    let (x, y) = (
        contents(new_paragraphs(first, section, at, a)),
        contents(new_paragraphs(second, section, at + n, b)),
    );
    let between = said.take(at) + x + said.skip(at);
    assert(between.take(at + n as int) =~= said.take(at) + x);
    assert(between.skip(at + n as int) =~= said.skip(at));
    assert(said.take(at) + x + y + said.skip(at) =~= said.take(at) + (x + y) + said.skip(at));
}

/// To insert two texts, one behind the other, is to insert them as one text with an empty line
/// between them: the section says the same. (The first text must not end inside code.)
pub proof fn law_texts_add_up(
    first: Document,
    second: Document,
    third: Document,
    whole: Document,
    section: int,
    at: int,
    s: Seq<char>,
    t: Seq<char>,
)
    requires
        !ends_in_code(lines_of(s)),
        0 <= at <= first.sections@[section].paragraphs@.len(),
        document_gains(first, second, section, at, markdown_blocks(s)),
        document_gains(
            second,
            third,
            section,
            at + new_paragraphs(first, section, at, markdown_blocks(s)).len(),
            markdown_blocks(t),
        ),
        document_gains(
            first,
            whole,
            section,
            at,
            markdown_blocks(s + seq!['\n', '\n'] + t),
        ),
    ensures
        section_contents(third.sections@[section]) == section_contents(whole.sections@[section]),
{
    law_empty_line_parts_texts(s, t);
    law_insertions_add_up(
        first,
        second,
        third,
        whole,
        section,
        at,
        markdown_blocks(s),
        markdown_blocks(t),
    );
}

/// To insert two texts at the end of a section, one and then the other, is to insert them there as
/// one text with an empty line between them: the section says the same. (The first text must not
/// end inside code.)
pub proof fn law_texts_at_the_end_add_up(
    first: Document,
    second: Document,
    third: Document,
    whole: Document,
    section: int,
    s: Seq<char>,
    t: Seq<char>,
)
    requires
        !ends_in_code(lines_of(s)),
        document_gains(
            first,
            second,
            section,
            first.sections@[section].paragraphs@.len() as int,
            markdown_blocks(s),
        ),
        document_gains(
            second,
            third,
            section,
            second.sections@[section].paragraphs@.len() as int,
            markdown_blocks(t),
        ),
        document_gains(
            first,
            whole,
            section,
            first.sections@[section].paragraphs@.len() as int,
            markdown_blocks(s + seq!['\n', '\n'] + t),
        ),
    ensures
        section_contents(third.sections@[section]) == section_contents(whole.sections@[section]),
{
    let at = first.sections@[section].paragraphs@.len() as int;
    law_texts_add_up(first, second, third, whole, section, at, s, t);
}

// ---- What is derived ----

/// What is derived from a document stays up to date: if it is what the document gives before an
/// insertion, it is what the document gives after it, whatever comes of the insertion.
pub proof fn law_derived_state_stays_current(
    before: DocumentCore,
    after: DocumentCore,
    section_idx: usize,
    at: Option<usize>,
    blocks: Seq<BlockView>,
    res: Result<InsertBlocksReport, HwpError>,
)
    requires
        before.is_current(),
        insertion(before, after, section_idx, at, blocks, res),
    ensures
        after.is_current(),
{
    let section = section_idx as int;
    if res is Ok {
        let pos = position(at, before.document.sections@[section].paragraphs@.len());
        let format = format_at(before.document, section, pos, blocks);
        if new_paragraphs(before.document, section, pos, blocks).len() == 0 {
            lemma_paragraph_count(blocks, format);
            assert forall|k: int| 0 <= k < blocks.len() implies !(#[trigger] blocks[k] is Heading) by {
                if blocks[k] is Heading {
                    lemma_has_heading(blocks, k);
                }
            }
            law_outline_is_reused(before.document, after.document, section, pos, blocks);
            let (old_info, info) = (before.document.doc_info, after.document.doc_info);
            assert forall|i: int| 0 <= i < before.document.sections@.len() implies resolved_section(
                info,
                #[trigger] after.document.sections@[i],
            ) == resolved_section(old_info, before.document.sections@[i]) by {
                assert(after.document.sections@[i] == before.document.sections@[i]);
                assert(resolved_section(info, after.document.sections@[i]) =~= resolved_section(
                    old_info,
                    before.document.sections@[i],
                ));
            }
            assert(derived_of(after.document) =~= derived_of(before.document));
        }
    }
}

/// A shape that is appended shows at once: right after an insertion, a heading looks like one, of
/// its level and bold. (Indices are stored in two and in four bytes, so the document must not have
/// more shapes than these can tell apart.)
pub proof fn law_new_heading_looks_like_one(
    before: DocumentCore,
    after: DocumentCore,
    section_idx: usize,
    at: Option<usize>,
    blocks: Seq<BlockView>,
    res: Result<InsertBlocksReport, HwpError>,
    k: int,
)
    requires
        insertion(before, after, section_idx, at, blocks, res),
        res is Ok,
        0 <= k < blocks.len(),
        blocks[k] is Heading,
        after.document.doc_info.para_shapes@.len() <= 0x1_0000,
        after.document.doc_info.char_shapes@.len() <= 0x1_0000_0000,
    ensures
        ({
            let pos = res->Ok_0.first_paragraph as int;
            let looks =
                after.derived.sections.deep_view()[section_idx as int][block_index(pos, blocks, k)];
            &&& is_outline_of(looks.shape, clamped(blocks[k]->level))
            &&& looks.runs.len() == 1
            &&& looks.runs[0].start_pos == 0
            &&& looks.runs[0].shape.bold
        }),
{
    let section = section_idx as int;
    let pos = position(at, before.document.sections@[section].paragraphs@.len());
    law_blocks_stand_in_order(before.document, after.document, section, pos, blocks, k, 0);
    law_heading_is_outline(before.document, after.document, section, pos, blocks, k);
    law_heading_is_bold(before.document, after.document, section, pos, blocks, k);
    lemma_paragraph_count(blocks, format_at(before.document, section, pos, blocks));
    lemma_has_heading(blocks, k);
}

}
