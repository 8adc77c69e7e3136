//! Turns the events into styled spans and fills the gaps between them with
//! normal spans.

use vstd::prelude::*;
use crate::document::{Span, SpanStyle, SpanView, style_of_count};
use crate::sorting::{SortKey, key_fn, stable_sort, sort_stable, lemma_stable_sort_map};
use crate::text::utf8_len;
use crate::inline_parser::markers::{EventSpec, MarkerEvent};
use crate::inline_parser::matcher::MarkerResult;

verus! {

impl SortKey for Span {
    open spec fn key(self) -> int {
        self@.start
    }

    fn sort_key(&self) -> (k: usize) {
        self.start()
    }
}

/// The start byte of a span, by which spans are ordered.
pub open spec fn span_key() -> spec_fn(SpanView) -> int {
    |s: SpanView| s.start
}

/// The views of a sequence of spans.
pub open spec fn span_views(s: Seq<Span>) -> Seq<SpanView> {
    Seq::new(s.len(), |i: int| s[i]@)
}

/// The span between the markers of `e`: from the start byte of the opening
/// marker to the start byte of the closing marker, italic for a marker of
/// one indicator and bold for a marker of two. The count is read as a byte.
pub open spec fn styled_span(e: EventSpec) -> SpanView {
    SpanView {
        start: e.opening.start_byte,
        end: e.closing.start_byte,
        style: style_of_count((e.opening.count as u8) as int),
    }
}

/// The spans of `events`, one for one.
pub open spec fn styled_spans(events: Seq<EventSpec>) -> Seq<SpanView> {
    Seq::new(events.len(), |k: int| styled_span(events[k]))
}

/// A normal span over `start..end`.
pub open spec fn normal_span(start: int, end: int) -> SpanView {
    SpanView { start, end, style: SpanStyle::Normal }
}

/// The larger of two integers.
pub open spec fn max_int(a: int, b: int) -> int {
    if a >= b {
        a
    } else {
        b
    }
}

/// The styled spans with a normal span before each one that starts after
/// `cursor`, the furthest end seen so far, and a last normal span when the
/// cursor stays short of `len`.
pub open spec fn fill_gaps(styled: Seq<SpanView>, cursor: int, len: int) -> Seq<SpanView>
    decreases styled.len(),
{
    if styled.len() == 0 {
        if cursor < len {
            seq![normal_span(cursor, len)]
        } else {
            Seq::empty()
        }
    } else {
        let s = styled[0];
        let rest = fill_gaps(styled.drop_first(), max_int(cursor, s.end), len);
        if cursor < s.start {
            seq![normal_span(cursor, s.start), s] + rest
        } else {
            seq![s] + rest
        }
    }
}

/// All spans of a text of `len` bytes whose events are `events`: the styled
/// spans ordered by their start, with the gaps filled.
pub open spec fn all_spans(events: Seq<EventSpec>, len: int) -> Seq<SpanView> {
    fill_gaps(stable_sort(styled_spans(events), span_key()), 0, len)
}

/// The spans of the text `final_text`, from which the markers have been
/// removed, for the events of `marker_result`, whose markers have been moved
/// to the byte indices of that text.
///
/// Each event gives a styled span from its opening to its closing marker.
/// The styled spans are ordered by their start. Before each one that starts
/// after everything before it has ended stands a normal span over the gap,
/// and a normal span covers what is left of the text after the last end.
pub fn generate_spans(marker_result: &MarkerResult, final_text: &str) -> (spans: Vec<Span>)
    ensures
        span_views(spans@) == all_spans(marker_result.events(), utf8_len(final_text@) as int),
{
    let ghost events = marker_result.events();
    let len = final_text.as_bytes().len();
    let mut styled_spans_vec: Vec<Span> = Vec::new();
    let n = marker_result.marker_events.len();
    let mut k: usize = 0;
    while k < n
        invariant
            k <= n,
            n == marker_result.marker_events@.len(),
            events == marker_result.events(),
            styled_spans_vec@.len() == k,
            forall|j: int|
                0 <= j < k ==> (#[trigger] styled_spans_vec@[j])@ == styled_span(events[j]),
        decreases n - k,
    {
        let e: MarkerEvent = marker_result.marker_events[k];
        let count: u8 = #[verifier::truncate]
        (e.opening.count as u8);
        styled_spans_vec.push(Span::new(e.opening.start_byte, e.closing.start_byte, count));
        assert(events[k as int] == e@);
        k += 1;
    }
    let ghost unsorted = styled_spans_vec@;
    proof {
        assert(span_views(unsorted) =~= styled_spans(events));
        lemma_stable_sort_map(unsorted, |s: Span| s@, key_fn::<Span>(), span_key());
        assert(unsorted.map_values(|s: Span| s@) =~= span_views(unsorted));
    }
    sort_stable(&mut styled_spans_vec);
    let ghost styled = span_views(styled_spans_vec@);
    proof {
        assert(styled =~= stable_sort(unsorted, key_fn::<Span>()).map_values(|s: Span| s@));
        assert(styled == stable_sort(styled_spans(events), span_key()));
        assert(styled.skip(0) =~= styled);
    }
    let mut all_spans_vec: Vec<Span> = Vec::new();
    let mut cursor: usize = 0;
    let m = styled_spans_vec.len();
    let mut i: usize = 0;
    while i < m
        invariant
            i <= m,
            m == styled_spans_vec@.len(),
            styled == span_views(styled_spans_vec@),
            span_views(all_spans_vec@) + fill_gaps(styled.skip(i as int), cursor as int, len as int)
                == fill_gaps(styled, 0, len as int),
        decreases m - i,
    {
        let s: Span = styled_spans_vec[i];
        let ghost before = span_views(all_spans_vec@);
        let ghost old_cursor = cursor as int;
        let ghost rest = styled.skip(i as int);
        if cursor < s.start() {
            all_spans_vec.push(Span::normal(cursor, s.start()));
        }
        all_spans_vec.push(s);
        if s.end() > cursor {
            cursor = s.end();
        }
        proof {
            assert(rest[0] == s@);
            assert(rest.drop_first() =~= styled.skip(i as int + 1));
            let tail = fill_gaps(styled.skip(i as int + 1), cursor as int, len as int);
            assert(cursor as int == max_int(old_cursor, s@.end));
            assert(span_views(all_spans_vec@) + tail =~= before + fill_gaps(
                rest,
                old_cursor,
                len as int,
            ));
        }
        i += 1;
    }
    let ghost before = span_views(all_spans_vec@);
    if cursor < len {
        all_spans_vec.push(Span::normal(cursor, len));
    }
    proof {
        assert(styled.skip(m as int) =~= Seq::<SpanView>::empty());
        assert(span_views(all_spans_vec@) =~= before + fill_gaps(
            styled.skip(m as int),
            cursor as int,
            len as int,
        ));
    }
    all_spans_vec
}

} // verus!
