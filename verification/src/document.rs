//! Types that describe the structure of a document.

use vstd::prelude::*;

verus! {

/// Headers run from level 1 to this level.
pub const MAX_HEADER_LEVEL: usize = 6;

/// How a slice of paragraph text is rendered. Bold italic text is expressed
/// by a `Bold` span and an `Italic` span over the same byte range.
#[derive(PartialEq, Eq, Structural, Debug, Clone, Copy)]
pub enum SpanStyle {
    Normal,
    Bold,
    Italic,
}

/// The style that a marker of `marker_count` indicators stands for.
pub open spec fn style_of_count(marker_count: int) -> SpanStyle {
    if marker_count == 1 {
        SpanStyle::Italic
    } else if marker_count == 2 {
        SpanStyle::Bold
    } else {
        SpanStyle::Normal
    }
}

/// A span as mathematics sees it: a half-open byte range and a style.
pub struct SpanView {
    pub start: int,
    pub end: int,
    pub style: SpanStyle,
}

impl SpanView {
    /// True when byte `p` lies inside the span.
    pub open spec fn covers(self, p: int) -> bool {
        self.start <= p < self.end
    }

    /// True when the span carries a style other than `Normal`.
    pub open spec fn is_styled(self) -> bool {
        self.style != SpanStyle::Normal
    }
}

/// A slice of the paragraph text with one style. Spans may follow each other
/// or overlap.
#[derive(Debug, Clone, Copy)]
pub struct Span {
    /// The first byte of the slice.
    start: usize,
    /// The byte after the last byte of the slice.
    end: usize,
    /// The style of the slice `start..end`.
    style: SpanStyle,
}

impl View for Span {
    type V = SpanView;

    closed spec fn view(&self) -> SpanView {
        SpanView { start: self.start as int, end: self.end as int, style: self.style }
    }
}

impl DeepView for Span {
    type V = SpanView;

    open spec fn deep_view(&self) -> SpanView {
        self.view()
    }
}

impl Span {
    /// True when the span does not end before it starts.
    pub open spec fn wf(&self) -> bool {
        self@.start <= self@.end
    }

    /// A span over `start..end` in the style of a marker with `marker_count`
    /// indicators: italic for one, bold for two, normal for any other count.
    pub fn new(start: usize, end: usize, marker_count: u8) -> (span: Self)
        ensures
            span@ == (SpanView {
                start: start as int,
                end: end as int,
                style: style_of_count(marker_count as int),
            }),
    {
        let style = if marker_count == 1 {
            SpanStyle::Italic
        } else if marker_count == 2 {
            SpanStyle::Bold
        } else {
            SpanStyle::Normal
        };
        Span { start, end, style }
    }

    /// A span over `start..end` without a style.
    pub fn normal(start: usize, end: usize) -> (span: Self)
        ensures
            span@ == (SpanView {
                start: start as int,
                end: end as int,
                style: SpanStyle::Normal,
            }),
    {
        Span { start, end, style: SpanStyle::Normal }
    }

    /// The first byte of the slice.
    pub fn start(&self) -> (start: usize)
        ensures
            start == self@.start,
    {
        self.start
    }

    /// The byte after the last byte of the slice.
    pub fn end(&self) -> (end: usize)
        ensures
            end == self@.end,
    {
        self.end
    }

    /// The style of the slice.
    pub fn style(&self) -> (style: &SpanStyle)
        ensures
            *style == self@.style,
    {
        &self.style
    }
}

/// One line of the document.
#[derive(Debug, Clone)]
pub enum Block {
    /// A header line: its level, from 1 to [`MAX_HEADER_LEVEL`], and its
    /// text.
    Header { level: u8, text: String },
    /// Any other line: its text with the markers removed, and the styled
    /// byte ranges of that text.
    Paragraph { text: String, spans: Vec<Span> },
}

} // verus!
