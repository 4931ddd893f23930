//! Paragraphs made of plain values.

use crate::model::paragraph::{
    CharShapeRef, ColumnBreakType, Paragraph, ParagraphView, Table, TableView,
};
use vstd::prelude::*;

verus! {

/// A paragraph of text: one paragraph shape, one character shape from its start on, the first
/// style, no break and no table.
pub open spec fn text_paragraph(
    text: Seq<char>,
    para_shape_id: u16,
    char_shape_id: u32,
) -> ParagraphView {
    ParagraphView {
        text,
        para_shape_id,
        style_id: 0,
        char_shapes: seq![CharShapeRef { start_pos: 0, char_shape_id }],
        column_type: ColumnBreakType::NoBreak,
        raw_break_type: 0,
        has_para_text: true,
        table: None,
    }
}

/// Whether a table has any cell.
pub open spec fn has_cells(rows: Seq<Seq<Seq<char>>>) -> bool {
    exists|i: int| 0 <= i < rows.len() && (#[trigger] rows[i]).len() > 0
}

/// A paragraph that holds a table, and no text besides it.
pub open spec fn table_paragraph(
    rows: Seq<Seq<Seq<char>>>,
    width: u32,
    border_fill_id: u16,
    char_shape_id: u32,
) -> ParagraphView {
    ParagraphView {
        table: Some(TableView { rows, width, border_fill_id, char_shape_id }),
        ..text_paragraph(seq![], 0, char_shape_id)
    }
}

/// A paragraph of text.
pub(crate) fn make_text_para(text: &str, para_shape_id: u16, char_shape_id: u32) -> (para:
    Paragraph)
    ensures
        para.deep_view() == text_paragraph(text@, para_shape_id, char_shape_id),
{
    let mut char_shapes: Vec<CharShapeRef> = Vec::new();
    char_shapes.push(CharShapeRef { start_pos: 0, char_shape_id });
    let para = Paragraph {
        text: text.to_string(),
        para_shape_id,
        style_id: 0,
        char_shapes,
        column_type: ColumnBreakType::NoBreak,
        raw_break_type: 0,
        has_para_text: true,
        table: None,
    };
    assert(para.deep_view() =~= text_paragraph(text@, para_shape_id, char_shape_id));
    para
}

/// A copy of one row.
fn copy_row(row: &Vec<String>) -> (copy: Vec<String>)
    ensures
        copy.deep_view() == row.deep_view(),
{
    let mut copy: Vec<String> = Vec::new();
    let mut i: usize = 0;
    while i < row.len()
        invariant
            i <= row@.len(),
            copy.deep_view() == row.deep_view().take(i as int),
        decreases row.len() - i,
    {
        let ghost before = copy.deep_view();
        copy.push(row[i].clone());
        i += 1;
        assert(copy.deep_view() =~= before.push(row@[i - 1]@));
        assert(copy.deep_view() =~= row.deep_view().take(i as int));
    }
    assert(copy.deep_view() =~= row.deep_view());
    copy
}

/// A paragraph that holds the table of `rows`, unless it has no cell.
pub(crate) fn build_table_paragraph_with(
    rows: &Vec<Vec<String>>,
    width: u32,
    border_fill_id: u16,
    char_shape_id: u32,
) -> (para: Option<Paragraph>)
    ensures
        para is Some <==> has_cells(rows.deep_view()),
        para matches Some(p) ==> p.deep_view() == table_paragraph(
            rows.deep_view(),
            width,
            border_fill_id,
            char_shape_id,
        ),
{
    let ghost all = rows.deep_view();
    let mut copy: Vec<Vec<String>> = Vec::new();
    let mut any: bool = false;
    let mut i: usize = 0;
    while i < rows.len()
        invariant
            i <= rows@.len(),
            all == rows.deep_view(),
            copy.deep_view() == all.take(i as int),
            any <==> exists|j: int| 0 <= j < i && (#[trigger] all[j]).len() > 0,
        decreases rows.len() - i,
    {
        let ghost before = copy.deep_view();
        assert(all[i as int].len() == rows@[i as int]@.len());
        if rows[i].len() > 0 {
            any = true;
        }
        let row = copy_row(&rows[i]);
        copy.push(row);
        i += 1;
        assert(copy.deep_view() =~= before.push(row.deep_view()));
        assert(copy.deep_view() =~= all.take(i as int));
    }
    assert(all.take(i as int) =~= all);
    if !any {
        return None;
    }
    let mut para = make_text_para("", 0, char_shape_id);
    proof {
        reveal_strlit("");
        assert(""@ =~= seq![]);
    }
    para.table = Some(Table { rows: copy, width, border_fill_id, char_shape_id });
    Some(para)
}

}
