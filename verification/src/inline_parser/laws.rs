//! What holds of every line that is parsed.

use vstd::prelude::*;
use vstd::utf8::{encode_utf8, encode_scalar, decode_utf8, encode_utf8_decode_utf8};
use crate::document::{SpanStyle, SpanView};
use crate::sorting::{sorted_by, stable_sort, lemma_stable_sort, lemma_stable_sort_of_sorted};
use crate::text::{char_width, utf8_len, lemma_char_bytes, lemma_encode_push,
    lemma_encode_take_next};
use crate::inline_parser::{clean_bytes, clean_events, text_mask, final_bytes, final_text,
    final_events, final_spans, restored, restored_char, lemma_marked_bytes_are_stars};
use crate::inline_parser::escape::{ESCAPED_ASTERISK, clean_chars, escaped_char, unit_len,
    unit_char, unit_width, starts_with_escape, lemma_unit_bytes, lemma_clean_len_step};
use crate::inline_parser::markers::{EventSpec, MarkerSpec, MatchState, STAR, initial_state, scan,
    raw_events, run_len, event_in};
use crate::inline_parser::matcher::{marker_events, event_key, lemma_marker_events_in};
use crate::inline_parser::spans::{all_spans, fill_gaps, normal_span, span_key, styled_span,
    styled_spans, max_int};
use crate::inline_parser::strip::{marker_mask, is_marker_byte, event_covers, kept_before,
    final_map, strip_bytes, remap_events, lemma_kept_before, lemma_strip_unmarked};

verus! {

/// The spans of a text of `len` bytes without markers: one normal span over
/// all of it, or none when it is empty.
pub open spec fn plain_spans(len: int) -> Seq<SpanView> {
    if 0 < len {
        seq![normal_span(0, len)]
    } else {
        Seq::empty()
    }
}

/// A text without backslashes is its own cleaned text.
pub proof fn lemma_clean_chars_plain(s: Seq<char>)
    requires
        !s.contains('\\'),
    ensures
        clean_chars(s) == s,
    decreases s.len(),
{
    if s.len() > 0 {
        assert(s[0] != '\\') by {
            if s[0] == '\\' {
                assert(s.contains('\\'));
            }
        }
        let rest = s.skip(1);
        assert(!rest.contains('\\')) by {
            if rest.contains('\\') {
                let k = choose|k: int| 0 <= k < rest.len() && rest[k] == '\\';
                assert(s[k + 1] == '\\');
                assert(s.contains('\\'));
            }
        }
        lemma_clean_chars_plain(rest);
        assert(seq![s[0]] + rest =~= s);
    } else {
        assert(clean_chars(s) =~= s);
    }
}

/// Cleaning a text brings no asterisk into it.
pub proof fn lemma_clean_chars_no_star(s: Seq<char>)
    requires
        !s.contains('*'),
    ensures
        !clean_chars(s).contains('*'),
    decreases s.len(),
{
    if s.len() > 0 {
        let n = unit_len(s);
        let rest = s.skip(n);
        assert(!rest.contains('*')) by {
            if rest.contains('*') {
                let k = choose|k: int| 0 <= k < rest.len() && rest[k] == '*';
                assert(s[k + n] == '*');
                assert(s.contains('*'));
            }
        }
        lemma_clean_chars_no_star(rest);
        let c = unit_char(s);
        assert(c != '*') by {
            if starts_with_escape(s) {
                if s[1] != '*' {
                    assert(c == s[1]);
                }
            } else {
                if s[0] == '*' {
                    assert(s.contains('*'));
                }
            }
        }
        let out = clean_chars(s);
        if out.contains('*') {
            let k = choose|k: int| 0 <= k < out.len() && out[k] == '*';
            if k > 0 {
                assert(clean_chars(rest)[k - 1] == '*');
                assert(clean_chars(rest).contains('*'));
            }
        }
    } else {
        assert(clean_chars(s) =~= Seq::<char>::empty());
    }
}

/// A text without asterisks has no indicator among its bytes.
pub proof fn lemma_no_star_bytes(chars: Seq<char>)
    requires
        !chars.contains('*'),
    ensures
        forall|j: int| 0 <= j < encode_utf8(chars).len() ==> encode_utf8(chars)[j] != STAR,
    decreases chars.len(),
{
    if chars.len() > 0 {
        let rest = chars.drop_last();
        let c = chars.last();
        assert(!rest.contains('*')) by {
            if rest.contains('*') {
                let k = choose|k: int| 0 <= k < rest.len() && rest[k] == '*';
                assert(chars[k] == '*');
                assert(chars.contains('*'));
            }
        }
        assert(c != '*') by {
            if c == '*' {
                assert(chars[chars.len() - 1] == '*');
                assert(chars.contains('*'));
            }
        }
        lemma_no_star_bytes(rest);
        assert(chars =~= rest.push(c));
        lemma_encode_push(rest, c);
        lemma_char_bytes(c);
        let bytes = encode_utf8(chars);
        assert forall|j: int| 0 <= j < bytes.len() implies bytes[j] != STAR by {
            if j >= encode_utf8(rest).len() {
                let d = j - encode_utf8(rest).len();
                assert(bytes[j] == encode_scalar(c as u32)[d]);
                if char_width(c) == 1 && c as u32 == 0x2A {
                    vstd::utf8::char_u32_cast(c, 0x2Au32);
                    vstd::utf8::char_u32_cast('*', 0x2Au32);
                }
            }
        }
    }
}

/// Reading bytes that hold no indicator changes nothing.
pub proof fn lemma_scan_plain(bytes: Seq<u8>, i: int, j: int, st: MatchState)
    requires
        0 <= i <= j <= bytes.len(),
        forall|k: int| i <= k < j ==> bytes[k] != STAR,
    ensures
        scan(bytes, i, st) == scan(bytes, j, st),
    decreases j - i,
{
    if i < j {
        lemma_scan_plain(bytes, i + 1, j, st);
    }
}

/// A text without indicators has no events.
pub proof fn lemma_no_events(bytes: Seq<u8>)
    requires
        forall|k: int| 0 <= k < bytes.len() ==> bytes[k] != STAR,
    ensures
        marker_events(bytes) == Seq::<EventSpec>::empty(),
{
    lemma_scan_plain(bytes, 0, bytes.len() as int, initial_state());
    assert(raw_events(bytes) =~= Seq::<EventSpec>::empty());
    assert(stable_sort(Seq::<EventSpec>::empty(), event_key()) =~= Seq::<EventSpec>::empty());
}

/// A line whose cleaned text holds no asterisk parses to that cleaned text,
/// with one normal span over all of it.
pub proof fn lemma_plain_line(s: Seq<char>)
    requires
        !clean_chars(s).contains('*'),
    ensures
        clean_events(s) == Seq::<EventSpec>::empty(),
        final_bytes(s) == clean_bytes(s),
        final_text(s) == clean_chars(s),
        final_spans(s) == plain_spans(utf8_len(clean_chars(s)) as int),
{
    let bytes = clean_bytes(s);
    let len = bytes.len() as int;
    lemma_no_star_bytes(clean_chars(s));
    lemma_no_events(bytes);
    let mask = text_mask(s);
    assert forall|i: int| 0 <= i < len implies !mask[i] by {
        assert(!is_marker_byte(Seq::<EventSpec>::empty(), i));
    }
    lemma_strip_unmarked(bytes, mask, 0, len);
    assert(bytes.take(len) =~= bytes);
    assert(bytes.take(0) =~= Seq::<u8>::empty());
    assert(strip_bytes(bytes.take(0), mask) + bytes.subrange(0, len) =~= bytes);
    encode_utf8_decode_utf8(clean_chars(s));
    assert(final_events(s) =~= Seq::<EventSpec>::empty());
    assert(styled_spans(final_events(s)) =~= Seq::<SpanView>::empty());
    assert(stable_sort(Seq::<SpanView>::empty(), span_key()) =~= Seq::<SpanView>::empty());
}

/// A line without asterisks and without backslashes parses to itself, with
/// one normal span over all of it, or with no span when it is empty.
pub proof fn law_plain_line_is_unchanged(s: Seq<char>)
    requires
        !s.contains('*'),
        !s.contains('\\'),
    ensures
        final_text(s) == s,
        final_spans(s) == plain_spans(utf8_len(s) as int),
{
    lemma_clean_chars_plain(s);
    lemma_plain_line(s);
}

/// Parsing once more the text that a line parsed to finds no marker in it,
/// when that text holds no asterisk: every span of the second parse is a
/// normal span, and there is at most one. Where the text holds no backslash
/// either, the second parse leaves the text as it is.
pub proof fn law_reparse_finds_no_markers(s: Seq<char>)
    requires
        !final_text(s).contains('*'),
    ensures
        clean_events(final_text(s)) == Seq::<EventSpec>::empty(),
        final_spans(final_text(s)) == plain_spans(utf8_len(final_text(final_text(s))) as int),
        forall|k: int|
            0 <= k < final_spans(final_text(s)).len() ==> !(#[trigger] final_spans(
                final_text(s),
            )[k]).is_styled(),
        !final_text(s).contains('\\') ==> final_text(final_text(s)) == final_text(s),
{
    let t = final_text(s);
    lemma_clean_chars_no_star(t);
    lemma_plain_line(t);
    if !t.contains('\\') {
        lemma_clean_chars_plain(t);
    }
}

/// True when a normal span of `spans` covers byte `p`.
pub open spec fn in_normal(spans: Seq<SpanView>, p: int) -> bool {
    exists|k: int| 0 <= k < spans.len() && !(#[trigger] spans[k]).is_styled() && spans[k].covers(p)
}

/// True when a styled span of `spans` covers byte `p`.
pub open spec fn in_styled(spans: Seq<SpanView>, p: int) -> bool {
    exists|k: int| 0 <= k < spans.len() && (#[trigger] spans[k]).is_styled() && spans[k].covers(p)
}

/// True when the two spans share no byte.
pub open spec fn disjoint(a: SpanView, b: SpanView) -> bool {
    a.end <= b.start || b.end <= a.start
}

/// True when `styled` holds styled spans only, ordered by their start, each
/// a byte range of a text of `len` bytes.
pub open spec fn styled_input(styled: Seq<SpanView>, len: int) -> bool {
    &&& sorted_by(styled, span_key())
    &&& forall|k: int|
        0 <= k < styled.len() ==> {
            &&& (#[trigger] styled[k]).is_styled()
            &&& 0 <= styled[k].start <= styled[k].end <= len
        }
}

/// What `fill_gaps` puts in front of the spans that follow the first styled
/// span `s`: the gap before `s`, if there is one, and `s`.
pub open spec fn gap_head(s: SpanView, cursor: int) -> Seq<SpanView> {
    if cursor < s.start {
        seq![normal_span(cursor, s.start), s]
    } else {
        seq![s]
    }
}

/// `fill_gaps` is the head for the first styled span and `fill_gaps` of the
/// rest.
pub proof fn lemma_fill_gaps_unfold(styled: Seq<SpanView>, cursor: int, len: int)
    requires
        styled.len() > 0,
        styled_input(styled, len),
    ensures
        fill_gaps(styled, cursor, len) == gap_head(styled[0], cursor) + fill_gaps(
            styled.drop_first(),
            max_int(cursor, styled[0].end),
            len,
        ),
        styled_input(styled.drop_first(), len),
{
    let rest = styled.drop_first();
    assert(fill_gaps(styled, cursor, len) =~= gap_head(styled[0], cursor) + fill_gaps(
        rest,
        max_int(cursor, styled[0].end),
        len,
    ));
    assert forall|i: int, j: int| 0 <= i <= j < rest.len() implies span_key()(
        #[trigger] rest[i],
    ) <= span_key()(#[trigger] rest[j]) by {
        assert(rest[i] == styled[i + 1] && rest[j] == styled[j + 1]);
    }
    assert forall|k: int| 0 <= k < rest.len() implies {
        &&& (#[trigger] rest[k]).is_styled()
        &&& 0 <= rest[k].start <= rest[k].end <= len
    } by {
        assert(rest[k] == styled[k + 1]);
    }
}

/// Every span that `fill_gaps` gives is a byte range of the text; its normal
/// spans are not empty and start at the cursor or after it; its styled spans
/// are the styled spans it was given.
pub proof fn lemma_fill_gaps_members(styled: Seq<SpanView>, cursor: int, len: int)
    requires
        0 <= cursor <= len,
        styled_input(styled, len),
    ensures
        forall|i: int|
            0 <= i < fill_gaps(styled, cursor, len).len() ==> {
                let x = #[trigger] fill_gaps(styled, cursor, len)[i];
                &&& 0 <= x.start <= x.end <= len
                &&& !x.is_styled() ==> cursor <= x.start < x.end
                &&& x.is_styled() ==> styled.contains(x)
            },
        forall|k: int|
            0 <= k < styled.len() ==> fill_gaps(styled, cursor, len).contains(#[trigger] styled[k]),
    decreases styled.len(),
{
    let out = fill_gaps(styled, cursor, len);
    if styled.len() > 0 {
        let s = styled[0];
        let tail = styled.drop_first();
        let next = max_int(cursor, s.end);
        let head = gap_head(s, cursor);
        let rest = fill_gaps(tail, next, len);
        lemma_fill_gaps_unfold(styled, cursor, len);
        lemma_fill_gaps_members(tail, next, len);
        assert forall|i: int| 0 <= i < out.len() implies {
            let x = #[trigger] out[i];
            &&& 0 <= x.start <= x.end <= len
            &&& !x.is_styled() ==> cursor <= x.start < x.end
            &&& x.is_styled() ==> styled.contains(x)
        } by {
            let x = out[i];
            if i < head.len() {
                assert(x == head[i]);
                if x.is_styled() {
                    assert(x == styled[0]);
                }
            } else {
                assert(x == rest[i - head.len()]);
                if x.is_styled() {
                    assert(tail.contains(x));
                    let k = choose|k: int| 0 <= k < tail.len() && tail[k] == x;
                    assert(styled[k + 1] == x);
                }
            }
        }
        assert forall|k: int| 0 <= k < styled.len() implies out.contains(
            #[trigger] styled[k],
        ) by {
            if k == 0 {
                assert(out[head.len() - 1] == s);
            } else {
                assert(tail[k - 1] == styled[k]);
                assert(rest.contains(tail[k - 1]));
                let j = choose|j: int| 0 <= j < rest.len() && rest[j] == tail[k - 1];
                assert(out[head.len() + j] == styled[k]);
            }
        }
    }
}

/// The spans that `fill_gaps` gives are ordered by their start, and a normal
/// span among them shares no byte with any other of them.
#[verifier::rlimit(50)]
pub proof fn lemma_fill_gaps_order(styled: Seq<SpanView>, cursor: int, len: int)
    requires
        0 <= cursor <= len,
        styled_input(styled, len),
    ensures
        sorted_by(fill_gaps(styled, cursor, len), span_key()),
        forall|i: int, j: int|
            0 <= i < fill_gaps(styled, cursor, len).len() && 0 <= j < fill_gaps(
                styled,
                cursor,
                len,
            ).len() && i != j && !(#[trigger] fill_gaps(styled, cursor, len)[i]).is_styled()
                ==> disjoint(
                fill_gaps(styled, cursor, len)[i],
                #[trigger] fill_gaps(styled, cursor, len)[j],
            ),
    decreases styled.len(),
{
    let out = fill_gaps(styled, cursor, len);
    if styled.len() > 0 {
        let s = styled[0];
        let tail = styled.drop_first();
        let next = max_int(cursor, s.end);
        let head = gap_head(s, cursor);
        let rest = fill_gaps(tail, next, len);
        let h = head.len() as int;
        lemma_fill_gaps_unfold(styled, cursor, len);
        lemma_fill_gaps_order(tail, next, len);
        lemma_fill_gaps_members(tail, next, len);
        // Every span of the rest starts at the start of `s` or after it, and
        // its normal spans start at the end of `s` or after it.
        assert forall|j: int| 0 <= j < rest.len() implies s.start <= (#[trigger] rest[j]).start
            && (!rest[j].is_styled() ==> next <= rest[j].start) by {
            let x = rest[j];
            if x.is_styled() {
                assert(tail.contains(x));
                let k = choose|k: int| 0 <= k < tail.len() && tail[k] == x;
                assert(styled[k + 1] == x);
                assert(span_key()(styled[0]) <= span_key()(styled[k + 1]));
            }
        }
        assert forall|i: int, j: int| 0 <= i <= j < out.len() implies span_key()(
            #[trigger] out[i],
        ) <= span_key()(#[trigger] out[j]) by {
            if j < h {
                assert(out[i] == head[i] && out[j] == head[j]);
            } else if i < h {
                assert(out[i] == head[i]);
                assert(out[j] == rest[j - h]);
            } else {
                assert(out[i] == rest[i - h] && out[j] == rest[j - h]);
                assert(span_key()(rest[i - h]) <= span_key()(rest[j - h]));
            }
        }
        assert forall|i: int, j: int|
            0 <= i < out.len() && 0 <= j < out.len() && i != j && !(#[trigger] out[i]).is_styled()
            implies disjoint(out[i], #[trigger] out[j]) by {
            if i < h {
                assert(out[i] == head[i]);
                assert(out[i] == normal_span(cursor, s.start));
                if j < h {
                    assert(out[j] == head[j]);
                } else {
                    assert(out[j] == rest[j - h]);
                }
            } else {
                assert(out[i] == rest[i - h]);
                if j < h {
                    assert(out[j] == head[j]);
                } else {
                    assert(out[j] == rest[j - h]);
                    assert(disjoint(rest[i - h], rest[j - h]));
                }
            }
        }
    } else {
        assert forall|i: int, j: int| 0 <= i <= j < out.len() implies span_key()(
            #[trigger] out[i],
        ) <= span_key()(#[trigger] out[j]) by {}
    }
}

/// From the cursor on, the normal spans that `fill_gaps` gives cover the
/// bytes that no styled span covers, and no others; before the cursor they
/// cover nothing.
#[verifier::rlimit(50)]
pub proof fn lemma_fill_gaps_cover(styled: Seq<SpanView>, cursor: int, len: int, p: int)
    requires
        0 <= cursor <= len,
        styled_input(styled, len),
    ensures
        cursor <= p < len ==> (in_normal(fill_gaps(styled, cursor, len), p) <==> !in_styled(
            styled,
            p,
        )),
        p < cursor || p >= len ==> !in_normal(fill_gaps(styled, cursor, len), p),
    decreases styled.len(),
{
    let out = fill_gaps(styled, cursor, len);
    lemma_fill_gaps_members(styled, cursor, len);
    if p < cursor || p >= len {
        if in_normal(out, p) {
            let k = choose|k: int|
                0 <= k < out.len() && !(#[trigger] out[k]).is_styled() && out[k].covers(p);
            assert(cursor <= out[k].start && out[k].end <= len);
        }
    } else if styled.len() == 0 {
        assert(out[0] == normal_span(cursor, len));
        assert(!out[0].is_styled() && out[0].covers(p));
    } else {
        let s = styled[0];
        let tail = styled.drop_first();
        let next = max_int(cursor, s.end);
        let head = gap_head(s, cursor);
        let rest = fill_gaps(tail, next, len);
        let h = head.len() as int;
        lemma_fill_gaps_unfold(styled, cursor, len);
        lemma_fill_gaps_cover(tail, next, len, p);
        // A normal span of the whole covers `p` exactly when the gap before
        // `s` or a normal span of the rest does.
        let gap = cursor < s.start && p < s.start;
        assert(in_normal(out, p) <==> gap || in_normal(rest, p)) by {
            if in_normal(out, p) {
                let k = choose|k: int|
                    0 <= k < out.len() && !(#[trigger] out[k]).is_styled() && out[k].covers(p);
                if k < h {
                    assert(out[k] == head[k]);
                } else {
                    assert(out[k] == rest[k - h]);
                }
            }
            if gap {
                assert(out[0] == head[0]);
                assert(!out[0].is_styled() && out[0].covers(p));
            }
            if in_normal(rest, p) {
                let k = choose|k: int|
                    0 <= k < rest.len() && !(#[trigger] rest[k]).is_styled() && rest[k].covers(p);
                assert(out[h + k] == rest[k]);
            }
        }
        // A styled span covers `p` exactly when `s` or a styled span after
        // it does.
        assert(in_styled(styled, p) <==> s.covers(p) || in_styled(tail, p)) by {
            if in_styled(styled, p) {
                let k = choose|k: int|
                    0 <= k < styled.len() && (#[trigger] styled[k]).is_styled()
                        && styled[k].covers(p);
                if k > 0 {
                    assert(tail[k - 1] == styled[k]);
                }
            }
            if in_styled(tail, p) {
                let k = choose|k: int|
                    0 <= k < tail.len() && (#[trigger] tail[k]).is_styled() && tail[k].covers(p);
                assert(styled[k + 1] == tail[k]);
            }
            if s.covers(p) {
                assert(styled[0].is_styled());
            }
        }
        if gap {
            assert(!s.covers(p));
            if in_styled(tail, p) {
                let k = choose|k: int|
                    0 <= k < tail.len() && (#[trigger] tail[k]).is_styled() && tail[k].covers(p);
                assert(styled[k + 1] == tail[k]);
                assert(span_key()(styled[0]) <= span_key()(styled[k + 1]));
            }
        }
    }
}

/// The text that is left has as many bytes as the cleaned text has bytes
/// outside the paired markers, and the map to it never decreases.
pub proof fn lemma_final_len(s: Seq<char>)
    ensures
        final_bytes(s).len() == kept_before(text_mask(s), clean_bytes(s).len() as int),
        final_bytes(s).len() <= clean_bytes(s).len(),
        forall|i: int, j: int|
            0 <= i <= j <= clean_bytes(s).len() ==> 0 <= #[trigger] kept_before(text_mask(s), i)
                <= #[trigger] kept_before(text_mask(s), j) <= final_bytes(s).len(),
{
    let bytes = clean_bytes(s);
    let mask = text_mask(s);
    let len = bytes.len() as int;
    lemma_kept_before(bytes, mask, len);
    assert(bytes.take(len) =~= bytes);
    assert forall|i: int, j: int| 0 <= i <= j <= len implies 0 <= #[trigger] kept_before(mask, i)
        <= #[trigger] kept_before(mask, j) <= final_bytes(s).len() by {
        lemma_kept_before(bytes, mask, j);
        lemma_kept_before(bytes, mask, i);
    }
}

/// The events of a parsed line, at the byte indices of the text that is
/// left: each pairs two markers of one width, one or two indicators wide;
/// the opening marker starts where the closing marker starts or before it,
/// both inside the text; and the events are ordered by the start of their
/// opening marker.
pub proof fn lemma_final_events_shape(s: Seq<char>)
    ensures
        final_events(s).len() == clean_events(s).len(),
        forall|k: int|
            0 <= k < final_events(s).len() ==> {
                let e = #[trigger] final_events(s)[k];
                &&& 1 <= e.opening.count <= 2
                &&& e.closing.count == e.opening.count
                &&& 0 <= e.opening.start_byte <= e.closing.start_byte <= final_bytes(s).len()
            },
        sorted_by(final_events(s), event_key()),
{
    let bytes = clean_bytes(s);
    let mask = text_mask(s);
    let len = bytes.len() as int;
    let ev = clean_events(s);
    let fe = final_events(s);
    lemma_marker_events_in(bytes);
    lemma_stable_sort(raw_events(bytes), event_key());
    lemma_final_len(s);
    assert forall|k: int| 0 <= k < fe.len() implies {
        let e = #[trigger] fe[k];
        &&& 1 <= e.opening.count <= 2
        &&& e.closing.count == e.opening.count
        &&& 0 <= e.opening.start_byte <= e.closing.start_byte <= final_bytes(s).len()
    } by {
        assert(event_in(bytes, ev[k], len));
        let o = ev[k].opening.start_byte;
        let c = ev[k].closing.start_byte;
        assert(fe[k].opening.start_byte == kept_before(mask, o));
        assert(fe[k].closing.start_byte == kept_before(mask, c));
    }
    assert forall|i: int, j: int| 0 <= i <= j < fe.len() implies event_key()(#[trigger] fe[i])
        <= event_key()(#[trigger] fe[j]) by {
        assert(event_in(bytes, ev[i], len));
        assert(event_in(bytes, ev[j], len));
        assert(event_key()(ev[i]) <= event_key()(ev[j]));
        let a = ev[i].opening.start_byte;
        let b = ev[j].opening.start_byte;
        assert(fe[i].opening.start_byte == kept_before(mask, a));
        assert(fe[j].opening.start_byte == kept_before(mask, b));
    }
}

/// The styled spans of a parsed line are its events, one for one and in
/// their order: a bold span for a pair of markers of two indicators, an
/// italic span for a pair of markers of one.
pub proof fn lemma_final_styled(s: Seq<char>)
    ensures
        styled_input(styled_spans(final_events(s)), final_bytes(s).len() as int),
        final_spans(s) == fill_gaps(
            styled_spans(final_events(s)),
            0,
            final_bytes(s).len() as int,
        ),
{
    let fe = final_events(s);
    let st = styled_spans(fe);
    lemma_final_events_shape(s);
    assert forall|k: int| 0 <= k < st.len() implies {
        &&& (#[trigger] st[k]).is_styled()
        &&& 0 <= st[k].start <= st[k].end <= final_bytes(s).len()
    } by {
        let e = fe[k];
        assert(1 <= e.opening.count <= 2);
        assert(st[k] == styled_span(e));
        if e.opening.count == 1 {
            assert((1int as u8) as int == 1);
        } else {
            assert((2int as u8) as int == 2);
        }
    }
    assert forall|i: int, j: int| 0 <= i <= j < st.len() implies span_key()(#[trigger] st[i])
        <= span_key()(#[trigger] st[j]) by {
        assert(event_key()(fe[i]) <= event_key()(fe[j]));
    }
    lemma_stable_sort_of_sorted(st, span_key());
}

/// The spans of a parsed line are ordered by their start. Every span is a
/// byte range of the text that is left. A normal span is not empty and
/// shares no byte with any other span. A byte of the text lies in a normal
/// span if and only if it lies in no styled span.
pub proof fn law_span_structure(s: Seq<char>)
    ensures
        sorted_by(final_spans(s), span_key()),
        forall|i: int|
            0 <= i < final_spans(s).len() ==> {
                let x = #[trigger] final_spans(s)[i];
                &&& 0 <= x.start <= x.end <= final_bytes(s).len()
                &&& !x.is_styled() ==> x.start < x.end
            },
        forall|i: int, j: int|
            0 <= i < final_spans(s).len() && 0 <= j < final_spans(s).len() && i != j && !(
            #[trigger] final_spans(s)[i]).is_styled() ==> disjoint(
                final_spans(s)[i],
                #[trigger] final_spans(s)[j],
            ),
        forall|p: int|
            0 <= p < final_bytes(s).len() ==> (#[trigger] in_normal(final_spans(s), p)
                <==> !in_styled(final_spans(s), p)),
        forall|p: int|
            p < 0 || p >= final_bytes(s).len() ==> !(#[trigger] in_normal(final_spans(s), p)),
{
    let len = final_bytes(s).len() as int;
    let st = styled_spans(final_events(s));
    let out = final_spans(s);
    lemma_final_styled(s);
    lemma_fill_gaps_members(st, 0, len);
    lemma_fill_gaps_order(st, 0, len);
    assert forall|p: int| 0 <= p < len implies (#[trigger] in_normal(out, p) <==> !in_styled(
        out,
        p,
    )) by {
        lemma_fill_gaps_cover(st, 0, len, p);
        assert(in_styled(out, p) <==> in_styled(st, p)) by {
            if in_styled(out, p) {
                let k = choose|k: int|
                    0 <= k < out.len() && (#[trigger] out[k]).is_styled() && out[k].covers(p);
                assert(st.contains(out[k]));
                let j = choose|j: int| 0 <= j < st.len() && st[j] == out[k];
                assert(st[j].is_styled() && st[j].covers(p));
            }
            if in_styled(st, p) {
                let k = choose|k: int|
                    0 <= k < st.len() && (#[trigger] st[k]).is_styled() && st[k].covers(p);
                assert(out.contains(st[k]));
                let j = choose|j: int| 0 <= j < out.len() && out[j] == st[k];
                assert(out[j].is_styled() && out[j].covers(p));
            }
        }
    }
    assert forall|p: int| p < 0 || p >= len implies !(#[trigger] in_normal(out, p)) by {
        lemma_fill_gaps_cover(st, 0, len, p);
    }
}

/// The characters of `chars` whose first byte `mask` does not mark, in
/// their order.
pub open spec fn kept_chars(chars: Seq<char>, mask: Seq<bool>) -> Seq<char>
    decreases chars.len(),
{
    if chars.len() == 0 {
        Seq::empty()
    } else if mask[utf8_len(chars.drop_last()) as int] {
        kept_chars(chars.drop_last(), mask)
    } else {
        kept_chars(chars.drop_last(), mask).push(chars.last())
    }
}

/// Number of asterisks among the first `k` characters of `chars` whose byte
/// `mask` marks.
pub open spec fn dropped_stars(chars: Seq<char>, mask: Seq<bool>, k: int) -> int
    decreases k,
{
    if k <= 0 {
        0
    } else if mask[utf8_len(chars.take(k - 1)) as int] {
        dropped_stars(chars, mask, k - 1) + 1
    } else {
        dropped_stars(chars, mask, k - 1)
    }
}

/// Where `mask` marks only bytes that are indicators, removing the marked
/// bytes removes whole characters, each an asterisk: the bytes that are left
/// are the bytes of the characters that are left, and as many bytes went as
/// asterisks.
#[verifier::rlimit(50)]
pub proof fn lemma_kept_chars(chars: Seq<char>, mask: Seq<bool>, k: int)
    requires
        mask.len() == utf8_len(chars),
        forall|i: int| 0 <= i < mask.len() && mask[i] ==> encode_utf8(chars)[i] == STAR,
        0 <= k <= chars.len(),
    ensures
        utf8_len(chars.take(k)) <= utf8_len(chars),
        encode_utf8(kept_chars(chars.take(k), mask)) == strip_bytes(
            encode_utf8(chars).take(utf8_len(chars.take(k)) as int),
            mask,
        ),
        kept_chars(chars.take(k), mask).len() <= k,
        0 <= dropped_stars(chars, mask, k),
        utf8_len(kept_chars(chars.take(k), mask)) + dropped_stars(chars, mask, k) == utf8_len(
            chars.take(k),
        ),
        forall|c: char|
            (#[trigger] restored(chars.take(k)).to_multiset().count(c)) == restored(
                kept_chars(chars.take(k), mask),
            ).to_multiset().count(c) + if c == '*' {
                dropped_stars(chars, mask, k)
            } else {
                0
            },
    decreases k,
{
    broadcast use vstd::seq_lib::group_to_multiset_ensures;

    let bytes = encode_utf8(chars);
    if k == 0 {
        assert(chars.take(0) =~= Seq::<char>::empty());
        assert(bytes.take(0) =~= Seq::<u8>::empty());
        assert(restored(Seq::<char>::empty()) =~= Seq::<char>::empty());
    } else {
        lemma_kept_chars(chars, mask, k - 1);
        let before = chars.take(k - 1);
        let now = chars.take(k);
        let c = chars[k - 1];
        let i = utf8_len(before) as int;
        let w = char_width(c) as int;
        assert(now.drop_last() =~= before);
        assert(now.last() == c);
        lemma_encode_take_next(chars, k - 1);
        lemma_char_bytes(c);
        assert(bytes[i + 0] == encode_scalar(c as u32)[0]);
        let kept = kept_chars(before, mask);
        assert(restored(now) =~= restored(before).push(restored_char(c)));
        if mask[i] {
            assert(bytes[i] == STAR);
            assert(w == 1);
            assert(bytes.take(i + 1).drop_last() =~= bytes.take(i));
            vstd::utf8::char_u32_cast(c, 0x2Au32);
            vstd::utf8::char_u32_cast('*', 0x2Au32);
            assert(c == '*');
        } else {
            lemma_encode_push(kept, c);
            assert forall|j: int| i <= j < i + w implies !mask[j] by {
                if j > i {
                    assert(bytes[i + (j - i)] == encode_scalar(c as u32)[j - i]);
                }
            }
            lemma_strip_unmarked(bytes, mask, i, i + w);
            assert(bytes.subrange(i, i + w) =~= encode_scalar(c as u32)) by {
                assert forall|j: int| 0 <= j < w implies bytes.subrange(i, i + w)[j]
                    == #[trigger] encode_scalar(c as u32)[j] by {
                    assert(bytes[i + j] == encode_scalar(c as u32)[j]);
                }
            }
            assert(restored(kept.push(c)) =~= restored(kept).push(restored_char(c)));
        }
    }
}

/// The text that a line parses to is its cleaned text without the
/// characters of the paired markers.
pub proof fn lemma_final_text_is_kept_chars(s: Seq<char>)
    ensures
        final_text(s) == kept_chars(clean_chars(s), text_mask(s)),
        encode_utf8(final_text(s)) == final_bytes(s),
{
    let chars = clean_chars(s);
    let bytes = clean_bytes(s);
    let mask = text_mask(s);
    lemma_marker_events_in(bytes);
    lemma_marked_bytes_are_stars(bytes, clean_events(s));
    lemma_kept_chars(chars, mask, chars.len() as int);
    assert(chars.take(chars.len() as int) =~= chars);
    assert(bytes.take(bytes.len() as int) =~= bytes);
    encode_utf8_decode_utf8(kept_chars(chars, mask));
}

/// Cleaning a text does not add characters to it.
pub proof fn lemma_clean_chars_len(s: Seq<char>)
    ensures
        clean_chars(s).len() <= s.len(),
    decreases s.len(),
{
    if s.len() > 0 {
        lemma_clean_chars_len(s.skip(unit_len(s)));
    }
}

/// Number of escaped asterisks in `s`.
pub open spec fn escaped_asterisks(s: Seq<char>) -> nat
    decreases s.len(),
{
    if s.len() == 0 {
        0
    } else if starts_with_escape(s) && s[1] == '*' {
        1 + escaped_asterisks(s.skip(unit_len(s)))
    } else {
        escaped_asterisks(s.skip(unit_len(s)))
    }
}

/// The cleaned text is longer than the text by at most one byte for each
/// escaped asterisk.
pub proof fn lemma_clean_bytes_len(s: Seq<char>)
    ensures
        utf8_len(clean_chars(s)) <= utf8_len(s) + escaped_asterisks(s),
    decreases s.len(),
{
    if s.len() > 0 {
        lemma_clean_bytes_len(s.skip(unit_len(s)));
        lemma_unit_bytes(s);
        lemma_clean_len_step(s);
        lemma_char_bytes(s[0]);
        if starts_with_escape(s) {
            lemma_char_bytes(s[1]);
            assert(char_width('\\') == 1);
            if s[1] == '*' {
                assert(char_width('*') == 1);
                assert(char_width(ESCAPED_ASTERISK) == 3);
            }
        }
    } else {
        assert(clean_chars(s) =~= Seq::<char>::empty());
    }
}

/// The text that a line parses to has no more characters than the line,
/// and no more bytes than the line and one byte for each escaped asterisk.
pub proof fn law_text_is_not_longer(s: Seq<char>)
    ensures
        final_text(s).len() <= s.len(),
        utf8_len(final_text(s)) <= utf8_len(s) + escaped_asterisks(s),
        escaped_asterisks(s) == 0 ==> utf8_len(final_text(s)) <= utf8_len(s),
{
    let chars = clean_chars(s);
    let bytes = clean_bytes(s);
    let mask = text_mask(s);
    lemma_final_text_is_kept_chars(s);
    lemma_marker_events_in(bytes);
    lemma_marked_bytes_are_stars(bytes, clean_events(s));
    lemma_kept_chars(chars, mask, chars.len() as int);
    assert(chars.take(chars.len() as int) =~= chars);
    lemma_clean_chars_len(s);
    lemma_final_len(s);
    lemma_clean_bytes_len(s);
}

/// The text with its escapes resolved: `\X` gives `X`, whatever `X` is.
pub open spec fn unescaped(s: Seq<char>) -> Seq<char>
    decreases s.len(),
{
    if s.len() == 0 {
        Seq::empty()
    } else if starts_with_escape(s) {
        seq![s[1]] + unescaped(s.skip(2))
    } else {
        seq![s[0]] + unescaped(s.skip(1))
    }
}

/// Rendering the cleaned text of a line that holds no `ESCAPED_ASTERISK`
/// gives the line with its escapes resolved.
pub proof fn lemma_restored_clean_chars(s: Seq<char>)
    requires
        !s.contains(ESCAPED_ASTERISK),
    ensures
        restored(clean_chars(s)) == unescaped(s),
    decreases s.len(),
{
    if s.len() == 0 {
        assert(restored(clean_chars(s)) =~= unescaped(s));
    } else {
        let n = unit_len(s);
        let rest = s.skip(n);
        assert(!rest.contains(ESCAPED_ASTERISK)) by {
            if rest.contains(ESCAPED_ASTERISK) {
                let k = choose|k: int| 0 <= k < rest.len() && rest[k] == ESCAPED_ASTERISK;
                assert(s[k + n] == ESCAPED_ASTERISK);
                assert(s.contains(ESCAPED_ASTERISK));
            }
        }
        lemma_restored_clean_chars(rest);
        let c = if starts_with_escape(s) {
            s[1]
        } else {
            s[0]
        };
        assert(c != ESCAPED_ASTERISK) by {
            if c == ESCAPED_ASTERISK {
                if starts_with_escape(s) {
                    assert(s[1] == ESCAPED_ASTERISK);
                } else {
                    assert(s[0] == ESCAPED_ASTERISK);
                }
                assert(s.contains(ESCAPED_ASTERISK));
            }
        }
        assert(restored_char(unit_char(s)) == c);
        assert(restored(clean_chars(s)) =~= seq![c] + restored(clean_chars(rest)));
    }
}

/// Number of bytes that parsing removes from the cleaned text of `s`: the
/// indicators of the paired markers.
pub open spec fn removed_indicators(s: Seq<char>) -> int {
    clean_bytes(s).len() - final_bytes(s).len()
}

/// The rendered text of a parsed line and the indicators that parsing
/// removed hold together the characters of the line with its escapes
/// resolved, each as often: every character but the asterisk occurs as often
/// in the one as in the other, and the asterisk occurs in the line as often
/// as in the text and among the removed indicators together.
///
/// This holds of a line without `ESCAPED_ASTERISK`; such a character in the
/// line is rendered as an asterisk like any escaped asterisk.
pub proof fn law_text_accounts_for_line(s: Seq<char>)
    requires
        !s.contains(ESCAPED_ASTERISK),
    ensures
        0 <= removed_indicators(s),
        forall|c: char|
            (#[trigger] unescaped(s).to_multiset().count(c)) == restored(
                final_text(s),
            ).to_multiset().count(c) + if c == '*' {
                removed_indicators(s)
            } else {
                0
            },
{
    let chars = clean_chars(s);
    let bytes = clean_bytes(s);
    let mask = text_mask(s);
    lemma_final_text_is_kept_chars(s);
    lemma_marker_events_in(bytes);
    lemma_marked_bytes_are_stars(bytes, clean_events(s));
    lemma_kept_chars(chars, mask, chars.len() as int);
    assert(chars.take(chars.len() as int) =~= chars);
    lemma_restored_clean_chars(s);
}

} // verus!
