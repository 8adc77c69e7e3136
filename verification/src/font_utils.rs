//! What the layout is told about a block: the text to lay out and the
//! attributes of its spans.

use vstd::prelude::*;
use crate::document::{Block, Span, SpanStyle, SpanView};
use crate::inline_parser::{reserve_asterisk, restored};
use crate::inline_parser::spans::span_views;

verus! {

/// What an attribute changes.
#[derive(PartialEq, Eq, Structural, Debug, Clone, Copy)]
pub enum FontAttrKind {
    /// The weight of the font becomes bold.
    WeightBold,
    /// The style of the font becomes italic.
    StyleItalic,
}

/// An attribute over the bytes `start_index..end_index` of the text.
#[derive(PartialEq, Eq, Structural, Debug, Clone, Copy)]
pub struct FontAttr {
    pub kind: FontAttrKind,
    pub start_index: u32,
    pub end_index: u32,
}

/// The attributes of a span: none for a normal span, the bold weight for a
/// bold span, the italic style for an italic span, over the bytes of the
/// span. The byte indices are cut to 32 bits.
pub open spec fn font_attrs_of(span: SpanView) -> Seq<FontAttr> {
    match span.style {
        SpanStyle::Normal => Seq::empty(),
        SpanStyle::Bold => seq![
            FontAttr {
                kind: FontAttrKind::WeightBold,
                start_index: (span.start as usize) as u32,
                end_index: (span.end as usize) as u32,
            },
        ],
        SpanStyle::Italic => seq![
            FontAttr {
                kind: FontAttrKind::StyleItalic,
                start_index: (span.start as usize) as u32,
                end_index: (span.end as usize) as u32,
            },
        ],
    }
}

/// The attributes of all of `spans`, in their order.
pub open spec fn all_font_attrs(spans: Seq<SpanView>) -> Seq<FontAttr>
    decreases spans.len(),
{
    if spans.len() == 0 {
        Seq::empty()
    } else {
        all_font_attrs(spans.drop_last()) + font_attrs_of(spans.last())
    }
}

/// The attributes that the layout gets for `span`.
pub fn create_font_attrs(span: &Span) -> (attrs: Vec<FontAttr>)
    ensures
        attrs@ == font_attrs_of(span@),
{
    let mut attrs: Vec<FontAttr> = Vec::new();
    let start: u32 = #[verifier::truncate]
    (span.start() as u32);
    let end: u32 = #[verifier::truncate]
    (span.end() as u32);
    match *span.style() {
        SpanStyle::Normal => {},
        SpanStyle::Bold => {
            attrs.push(FontAttr { kind: FontAttrKind::WeightBold, start_index: start, end_index: end });
        },
        SpanStyle::Italic => {
            attrs.push(
                FontAttr { kind: FontAttrKind::StyleItalic, start_index: start, end_index: end },
            );
        },
    }
    assert(attrs@ =~= font_attrs_of(span@));
    attrs
}

/// The attributes that the layout gets for a block: those of the spans of a
/// paragraph, in the order of the spans, and none for a header.
pub fn block_font_attrs(block: &Block) -> (attrs: Vec<FontAttr>)
    ensures
        match *block {
            Block::Header { level, text } => attrs@ == Seq::<FontAttr>::empty(),
            Block::Paragraph { text, spans } => attrs@ == all_font_attrs(span_views(spans@)),
        },
{
    let mut attrs: Vec<FontAttr> = Vec::new();
    match block {
        Block::Header { level: _, text: _ } => {},
        Block::Paragraph { text: _, spans } => {
            let ghost views = span_views(spans@);
            let n = spans.len();
            let mut i: usize = 0;
            proof {
                assert(views.take(0) =~= Seq::<SpanView>::empty());
            }
            while i < n
                invariant
                    i <= n,
                    n == spans@.len(),
                    views == span_views(spans@),
                    attrs@ == all_font_attrs(views.take(i as int)),
                decreases n - i,
            {
                let mut more = create_font_attrs(&spans[i]);
                attrs.append(&mut more);
                proof {
                    assert(views.take(i as int + 1).drop_last() =~= views.take(i as int));
                    assert(views.take(i as int + 1).last() == spans@[i as int]@);
                }
                i += 1;
            }
            proof {
                assert(views.take(n as int) =~= views);
            }
        },
    }
    attrs
}

/// The text that the layout gets for a block: the text of a header as it
/// is, the text of a paragraph with its escaped asterisks as asterisks.
pub fn block_layout_text(block: &Block) -> (out: String)
    ensures
        match *block {
            Block::Header { level, text } => out@ == text@,
            Block::Paragraph { text, spans } => out@ == restored(text@),
        },
{
    match block {
        Block::Header { level: _, text } => text.clone(),
        Block::Paragraph { text, spans: _ } => reserve_asterisk(text.as_str()),
    }
}

} // verus!
