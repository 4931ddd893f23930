//! An open document, and what is derived from it.
//!
//! A paragraph refers to its shapes by index. What it looks like is found by resolving these
//! indices in the tables of the document. The result is kept beside the document and is rebuilt
//! as a whole: only so does it show an entry that was appended to the tables.

use crate::model::document::{DocInfo, Document, Section};
use crate::model::paragraph::Paragraph;
use crate::model::style::{char_shape_or_plain, para_shape_or_plain, CharShape, ParaShape};
use vstd::prelude::*;

verus! {

/// What a run of a paragraph looks like, from a position on.
#[derive(Debug, Clone, PartialEq, Eq)]
pub struct ResolvedRun {
    /// The position in the paragraph.
    pub start_pos: u32,
    /// The shape of the characters.
    pub shape: CharShape,
}

/// What a paragraph looks like.
#[derive(Debug, Clone, PartialEq, Eq)]
pub struct ResolvedParagraph {
    /// The shape of the paragraph.
    pub shape: ParaShape,
    /// The shapes of its characters, by position.
    pub runs: Vec<ResolvedRun>,
}

/// The mathematical value of a [`ResolvedParagraph`].
#[verifier::ext_equal]
pub struct ResolvedParagraphView {
    pub shape: ParaShape,
    pub runs: Seq<ResolvedRun>,
}

impl DeepView for ResolvedParagraph {
    type V = ResolvedParagraphView;

    open spec fn deep_view(&self) -> ResolvedParagraphView {
        ResolvedParagraphView { shape: self.shape, runs: self.runs@ }
    }
}

/// What is derived from a document: what each paragraph of each section looks like.
#[derive(Debug, Clone, PartialEq, Eq)]
pub struct DerivedState {
    /// The paragraphs of each section, in order.
    pub sections: Vec<Vec<ResolvedParagraph>>,
}

/// An open document.
#[derive(Debug, Clone, PartialEq, Eq)]
pub struct DocumentCore {
    /// The document itself.
    pub document: Document,
    /// What is derived from it.
    pub derived: DerivedState,
}

/// The values of a paragraph shape, not bound to bytes that were read.
pub open spec fn para_values(shape: ParaShape) -> ParaShape {
    ParaShape { raw_data: None, ..shape }
}

/// The values of a character shape, not bound to bytes that were read.
pub open spec fn char_values(shape: CharShape) -> CharShape {
    CharShape { raw_data: None, ..shape }
}

/// What a paragraph looks like: the values of the shapes that it refers to. An index without a
/// shape stands for the plain one.
pub open spec fn resolved_paragraph(info: DocInfo, paragraph: Paragraph) -> ResolvedParagraphView {
    ResolvedParagraphView {
        shape: para_values(para_shape_or_plain(info.para_shapes@, paragraph.para_shape_id)),
        runs: Seq::new(
            paragraph.char_shapes@.len(),
            |i: int|
                ResolvedRun {
                    start_pos: paragraph.char_shapes@[i].start_pos,
                    shape: char_values(
                        char_shape_or_plain(
                            info.char_shapes@,
                            paragraph.char_shapes@[i].char_shape_id,
                        ),
                    ),
                },
        ),
    }
}

/// What the paragraphs of a section look like.
pub open spec fn resolved_section(info: DocInfo, section: Section) -> Seq<ResolvedParagraphView> {
    Seq::new(
        section.paragraphs@.len(),
        |i: int| resolved_paragraph(info, section.paragraphs@[i]),
    )
}

/// What is derived from `document`.
pub open spec fn derived_of(document: Document) -> Seq<Seq<ResolvedParagraphView>> {
    Seq::new(
        document.sections@.len(),
        |i: int| resolved_section(document.doc_info, document.sections@[i]),
    )
}

/// The values of a paragraph shape, or of the plain one if there is none.
fn take_para_values(shapes: &Vec<ParaShape>, id: u16) -> (values: ParaShape)
    ensures
        values == para_values(para_shape_or_plain(shapes@, id)),
{
    if (id as usize) < shapes.len() {
        let shape = &shapes[id as usize];
        ParaShape {
            raw_data: None,
            margin_left: shape.margin_left,
            margin_right: shape.margin_right,
            indent: shape.indent,
            spacing_before: shape.spacing_before,
            spacing_after: shape.spacing_after,
            line_spacing: shape.line_spacing,
            tab_def_id: shape.tab_def_id,
            numbering_id: shape.numbering_id,
            border_fill_id: shape.border_fill_id,
            head_type: shape.head_type,
            para_level: shape.para_level,
        }
    } else {
        ParaShape::default()
    }
}

/// The values of a character shape, or of the plain one if there is none.
fn take_char_values(shapes: &Vec<CharShape>, id: u32) -> (values: CharShape)
    ensures
        values == char_values(char_shape_or_plain(shapes@, id)),
{
    if (id as usize) < shapes.len() {
        let shape = &shapes[id as usize];
        CharShape {
            raw_data: None,
            base_size: shape.base_size,
            text_color: shape.text_color,
            bold: shape.bold,
            italic: shape.italic,
        }
    } else {
        CharShape::default()
    }
}

/// What a paragraph looks like.
fn resolve_paragraph(info: &DocInfo, paragraph: &Paragraph) -> (resolved: ResolvedParagraph)
    ensures
        resolved.deep_view() == resolved_paragraph(*info, *paragraph),
{
    let ghost all = resolved_paragraph(*info, *paragraph).runs;
    let mut runs: Vec<ResolvedRun> = Vec::new();
    let mut i: usize = 0;
    while i < paragraph.char_shapes.len()
        invariant
            i <= paragraph.char_shapes@.len(),
            all == resolved_paragraph(*info, *paragraph).runs,
            runs@ == all.take(i as int),
        decreases paragraph.char_shapes.len() - i,
    {
        let at = paragraph.char_shapes[i];
        let shape: CharShape = take_char_values(&info.char_shapes, at.char_shape_id);
        runs.push(ResolvedRun { start_pos: at.start_pos, shape });
        i += 1;
        assert(runs@ =~= all.take(i as int));
    }
    assert(all.take(i as int) =~= all);
    ResolvedParagraph { shape: take_para_values(&info.para_shapes, paragraph.para_shape_id), runs }
}

/// What the paragraphs of a section look like.
fn resolve_section(info: &DocInfo, section: &Section) -> (resolved: Vec<ResolvedParagraph>)
    ensures
        resolved.deep_view() == resolved_section(*info, *section),
{
    let ghost all = resolved_section(*info, *section);
    let mut resolved: Vec<ResolvedParagraph> = Vec::new();
    let mut i: usize = 0;
    while i < section.paragraphs.len()
        invariant
            i <= section.paragraphs@.len(),
            all == resolved_section(*info, *section),
            resolved.deep_view() == all.take(i as int),
        decreases section.paragraphs.len() - i,
    {
        let ghost before = resolved.deep_view();
        let paragraph: ResolvedParagraph = resolve_paragraph(info, &section.paragraphs[i]);
        resolved.push(paragraph);
        i += 1;
        assert(resolved.deep_view() =~= before.push(paragraph.deep_view()));
        assert(resolved.deep_view() =~= all.take(i as int));
    }
    assert(all.take(i as int) =~= all);
    resolved
}

/// What is derived from `document`.
fn derive_state(document: &Document) -> (derived: DerivedState)
    ensures
        derived.sections.deep_view() == derived_of(*document),
{
    let ghost all = derived_of(*document);
    let mut sections: Vec<Vec<ResolvedParagraph>> = Vec::new();
    let mut i: usize = 0;
    while i < document.sections.len()
        invariant
            i <= document.sections@.len(),
            all == derived_of(*document),
            sections.deep_view() == all.take(i as int),
        decreases document.sections.len() - i,
    {
        let ghost before = sections.deep_view();
        let section: Vec<ResolvedParagraph> = resolve_section(
            &document.doc_info,
            &document.sections[i],
        );
        sections.push(section);
        i += 1;
        assert(sections.deep_view() =~= before.push(section.deep_view()));
        assert(sections.deep_view() =~= all.take(i as int));
    }
    assert(all.take(i as int) =~= all);
    DerivedState { sections }
}

impl DocumentCore {
    /// Whether what is derived is what the document gives now.
    pub open spec fn is_current(self) -> bool {
        self.derived.sections.deep_view() == derived_of(self.document)
    }

    /// Derives everything anew from the document.
    pub fn rebuild_derived_state(&mut self)
        ensures
            final(self).document == old(self).document,
            final(self).is_current(),
    {
        self.derived = derive_state(&self.document);
    }
}

}
