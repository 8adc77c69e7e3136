//! Parses one line of text for `*italic*`, `**bold**` and
//! `***bold italic***`.
//!
//! The only marker indicator is `*`. The escapes `\*` and `\\` give a literal
//! asterisk (carried as [`escape::ESCAPED_ASTERISK`] until rendering) and a
//! literal backslash. Markers may follow each other or nest; a marker that
//! finds no partner stays in the text as literal asterisks.
//!
//! The work is done in three stages: [`escape`] resolves the escapes,
//! [`matcher`] pairs the markers of the cleaned text, and [`strip`] and
//! [`spans`] remove the paired markers and lay out the spans.

pub mod bold_italic;
pub mod escape;
pub mod laws;
pub mod markers;
pub mod matcher;
pub mod spans;
pub mod strip;

use vstd::prelude::*;
use vstd::std_specs::iter::IteratorSpec;
use vstd::utf8::{encode_utf8, decode_utf8};
use crate::document::{Span, SpanView};
use crate::inline_parser::escape::{ESCAPED_ASTERISK, clean_chars};
use crate::inline_parser::markers::{EventSpec, STAR, event_in};
use crate::inline_parser::matcher::{MarkerResult, marker_events, get_marker_events};
use crate::inline_parser::spans::{all_spans, span_views, generate_spans};
use crate::inline_parser::strip::{marker_mask, final_map, strip_bytes, remap_events,
    is_marker_byte, event_covers, get_markers_global_mapping, get_markers_removed_clean_text,
    adjust_markers_start_byte, lemma_wf_in_range};

verus! {

/// What a line of text parses to.
pub struct InlineParseResult {
    /// The text with the escapes resolved and the paired markers removed.
    /// Escaped asterisks are carried as `ESCAPED_ASTERISK`.
    pub text: String,
    /// Byte ranges of `text` with their styles, ordered by their start.
    pub spans: Vec<Span>,
}

impl InlineParseResult {
    /// The result that holds `text` and `spans`.
    pub fn new(text: String, spans: Vec<Span>) -> (res: Self)
        ensures
            res.text == text,
            res.spans == spans,
    {
        Self { text, spans }
    }

    /// The text without markers.
    pub fn text(&self) -> (text: &str)
        ensures
            text@ == self.text@,
    {
        self.text.as_str()
    }

    /// The spans of the text.
    pub fn spans(&self) -> (spans: &[Span])
        ensures
            spans@ == self.spans@,
    {
        self.spans.as_slice()
    }
}

/// The character that `c` is rendered as: an asterisk for
/// `ESCAPED_ASTERISK`, `c` itself otherwise.
pub open spec fn restored_char(c: char) -> char {
    if c == ESCAPED_ASTERISK {
        '*'
    } else {
        c
    }
}

/// The text with every `ESCAPED_ASTERISK` turned into an asterisk.
pub open spec fn restored(s: Seq<char>) -> Seq<char> {
    Seq::new(s.len(), |i: int| restored_char(s[i]))
}

/// Rendering leaves no `ESCAPED_ASTERISK` in a text, and leaves a text
/// without one as it is.
pub proof fn lemma_restored(s: Seq<char>)
    ensures
        !restored(s).contains(ESCAPED_ASTERISK),
        !s.contains(ESCAPED_ASTERISK) ==> restored(s) == s,
        restored(restored(s)) == restored(s),
{
    if restored(s).contains(ESCAPED_ASTERISK) {
        let k = choose|k: int| 0 <= k < restored(s).len() && restored(s)[k] == ESCAPED_ASTERISK;
        assert(restored(s)[k] == restored_char(s[k]));
    }
    if !s.contains(ESCAPED_ASTERISK) {
        assert forall|i: int| 0 <= i < s.len() implies restored(s)[i] == s[i] by {
            if s[i] == ESCAPED_ASTERISK {
                assert(s.contains(ESCAPED_ASTERISK));
            }
        }
        assert(restored(s) =~= s);
    }
    assert(restored(restored(s)) =~= restored(s));
}

/// Puts an asterisk in the place of every `ESCAPED_ASTERISK` of `text`. A
/// text without one comes back as it is.
pub fn reserve_asterisk(text: &str) -> (out: String)
    ensures
        out@ == restored(text@),
        !out@.contains(ESCAPED_ASTERISK),
        !text@.contains(ESCAPED_ASTERISK) ==> out@ == text@,
{
    proof {
        lemma_restored(text@);
    }
    let mut out = String::new();
    let mut it = text.chars();
    let ghost s = text@;
    let ghost mut k: int = 0;
    proof {
        assert(s.skip(0) =~= s);
        assert(out@ =~= restored(s.take(0)));
    }
    loop
        invariant
            s == text@,
            0 <= k <= s.len(),
            it.obeys_prophetic_iter_laws(),
            it.remaining() == s.skip(k),
            out@ == restored(s.take(k)),
        ensures
            out@ == restored(s),
        decreases s.len() - k,
    {
        match it.next() {
            None => {
                proof {
                    assert(s.take(k) =~= s);
                }
                break ;
            },
            Some(c) => {
                out.push(
                    if c == ESCAPED_ASTERISK {
                        '*'
                    } else {
                        c
                    },
                );
                proof {
                    assert(s.skip(k).drop_first() =~= s.skip(k + 1));
                    assert(out@ =~= restored(s.take(k + 1)));
                    k = k + 1;
                }
            },
        }
    }
    out
}

/// The bytes of the cleaned text of `s`.
pub open spec fn clean_bytes(s: Seq<char>) -> Seq<u8> {
    encode_utf8(clean_chars(s))
}

/// The marker pairs of `s`, at the byte indices of its cleaned text.
pub open spec fn clean_events(s: Seq<char>) -> Seq<EventSpec> {
    marker_events(clean_bytes(s))
}

/// For each byte of the cleaned text of `s`, whether it belongs to a paired
/// marker.
pub open spec fn text_mask(s: Seq<char>) -> Seq<bool> {
    marker_mask(clean_events(s), clean_bytes(s).len())
}

/// The bytes of the text that `s` parses to: the cleaned text without the
/// bytes of the paired markers.
pub open spec fn final_bytes(s: Seq<char>) -> Seq<u8> {
    strip_bytes(clean_bytes(s), text_mask(s))
}

/// The text that `s` parses to.
pub open spec fn final_text(s: Seq<char>) -> Seq<char> {
    decode_utf8(final_bytes(s))
}

/// The marker pairs of `s`, at the byte indices of the text that `s` parses
/// to.
pub open spec fn final_events(s: Seq<char>) -> Seq<EventSpec> {
    remap_events(clean_events(s), final_map(text_mask(s)))
}

/// The spans that `s` parses to.
pub open spec fn final_spans(s: Seq<char>) -> Seq<SpanView> {
    all_spans(final_events(s), final_bytes(s).len() as int)
}

/// The bytes that the markers of well-placed events cover are indicators.
pub proof fn lemma_marked_bytes_are_stars(bytes: Seq<u8>, events: Seq<EventSpec>)
    requires
        forall|k: int|
            0 <= k < events.len() ==> event_in(bytes, #[trigger] events[k], bytes.len() as int),
    ensures
        forall|i: int|
            0 <= i < bytes.len() && #[trigger] marker_mask(events, bytes.len())[i] ==> bytes[i]
                == STAR,
{
    assert forall|i: int|
        0 <= i < bytes.len() && #[trigger] marker_mask(events, bytes.len())[i] implies bytes[i]
        == STAR by {
        assert(is_marker_byte(events, i));
        let k = choose|k: int| 0 <= k < events.len() && event_covers(#[trigger] events[k], i);
        assert(event_in(bytes, events[k], bytes.len() as int));
    }
}

/// Parses one line of text.
///
/// The escapes are resolved, the markers of the cleaned text are paired, and
/// the paired markers are removed. The result holds the text that is left
/// and its spans: one styled span for each pair, over what stood between the
/// two markers, and normal spans over everything that no styled span covers.
/// Markers without a partner stay in the text as asterisks.
pub fn parse_inline(markdown_text: &str) -> (res: InlineParseResult)
    ensures
        res.text@ == final_text(markdown_text@),
        encode_utf8(res.text@) == final_bytes(markdown_text@),
        span_views(res.spans@) == final_spans(markdown_text@),
        forall|i: int|
            0 <= i < res.spans@.len() ==> (#[trigger] res.spans@[i]).wf() && res.spans@[i]@.end
                <= encode_utf8(res.text@).len(),
{
    let mut res = get_marker_events(markdown_text);
    proof {
        lemma_wf_in_range(&res);
    }
    let (is_marker, mapping) = get_markers_global_mapping(&res);
    proof {
        lemma_marked_bytes_are_stars(res.clean_bytes(), res.events());
        assert(crate::inline_parser::escape::as_ints(mapping@).len() == mapping@.len());
    }
    adjust_markers_start_byte(&mut res, mapping.as_slice());
    let final_text = get_markers_removed_clean_text(&res, is_marker.as_slice());
    let all_spans = generate_spans(&res, final_text.as_str());
    proof {
        vstd::utf8::encode_utf8_decode_utf8(final_text@);
        crate::inline_parser::laws::law_span_structure(markdown_text@);
        assert forall|i: int| 0 <= i < all_spans@.len() implies (#[trigger] all_spans@[i]).wf()
            && all_spans@[i]@.end <= encode_utf8(final_text@).len() by {
            assert(final_spans(markdown_text@)[i] == all_spans@[i]@);
        }
    }
    InlineParseResult::new(final_text, all_spans)
}

} // verus!
