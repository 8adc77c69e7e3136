//! A text between two runs of three indicators is bold and italic.

use vstd::prelude::*;
use crate::document::{SpanStyle, SpanView};
use crate::sorting::{stable_sort, insert_sorted};
use vstd::utf8::{encode_utf8, encode_utf8_decode_utf8};
use crate::text::{lemma_encode_concat, lemma_encode_single, lemma_char_bytes};
use crate::inline_parser::{clean_bytes, clean_events, text_mask, final_bytes, final_text,
    final_events};
use crate::inline_parser::laws::{lemma_scan_plain, lemma_clean_chars_plain, lemma_no_star_bytes};
use crate::inline_parser::markers::{EventSpec, MarkerSpec, MatchState, STAR, initial_state,
    last_opener, place_marker, atom_width, split_run, process_run, run_len, scan, raw_events,
    lemma_run_len};
use crate::inline_parser::matcher::{marker_events, event_key};
use crate::inline_parser::spans::{styled_span, styled_spans};
use crate::inline_parser::strip::{marker_mask, is_marker_byte, event_covers, kept_before,
    final_map, strip_bytes, remap_events, lemma_strip_unmarked};

verus! {

/// True when `bytes` holds no indicator.
pub open spec fn no_star(bytes: Seq<u8>) -> bool {
    forall|i: int| 0 <= i < bytes.len() ==> bytes[i] != STAR
}

/// A run of three indicators.
pub open spec fn triple() -> Seq<u8> {
    seq![STAR, STAR, STAR]
}

/// The bytes `before`, `inner` between two runs of three indicators, and
/// `after`.
pub open spec fn triple_line(before: Seq<u8>, inner: Seq<u8>, after: Seq<u8>) -> Seq<u8> {
    before + triple() + inner + triple() + after
}

/// An event of two markers of `count` indicators at `open` and `close`.
pub open spec fn event_at(count: int, open: int, close: int) -> EventSpec {
    EventSpec {
        opening: MarkerSpec { count, start_byte: open },
        closing: MarkerSpec { count, start_byte: close },
    }
}

/// A run of exactly `n` indicators at `i`, the first of which is at `i`.
proof fn lemma_run_of(bytes: Seq<u8>, i: int, n: int)
    requires
        0 <= i,
        1 <= n,
        i + n <= bytes.len(),
        forall|j: int| i <= j < i + n ==> bytes[j] == STAR,
        i + n < bytes.len() ==> bytes[i + n] != STAR,
    ensures
        1 + run_len(bytes, i + 1) == n,
{
    lemma_run_len(bytes, i + 1);
    let r = run_len(bytes, i + 1) as int;
    if r < n - 1 {
        assert(bytes[i + 1 + r] == STAR);
    } else if r > n - 1 {
        assert(bytes[i + n] == STAR);
    }
}

/// Where `mask` marks no byte from `lo` to `hi`, every byte between them is
/// kept.
proof fn lemma_kept_unmarked(mask: Seq<bool>, lo: int, hi: int)
    requires
        0 <= lo <= hi,
        forall|j: int| lo <= j < hi ==> !mask[j],
    ensures
        kept_before(mask, hi) == kept_before(mask, lo) + hi - lo,
    decreases hi - lo,
{
    if lo < hi {
        lemma_kept_unmarked(mask, lo, hi - 1);
    }
}

/// Where `mask` marks every byte from `lo` to `hi`, none of them is kept.
proof fn lemma_kept_marked(bytes: Seq<u8>, mask: Seq<bool>, lo: int, hi: int)
    requires
        0 <= lo <= hi <= bytes.len(),
        forall|j: int| lo <= j < hi ==> mask[j],
    ensures
        kept_before(mask, hi) == kept_before(mask, lo),
        strip_bytes(bytes.take(hi), mask) == strip_bytes(bytes.take(lo), mask),
    decreases hi - lo,
{
    if lo < hi {
        lemma_kept_marked(bytes, mask, lo, hi - 1);
        assert(bytes.take(hi).drop_last() =~= bytes.take(hi - 1));
    }
}

/// The matcher pairs the two runs of three indicators around `inner` into
/// one event of width two and one event of width one.
#[verifier::rlimit(50)]
pub proof fn lemma_triple_events(before: Seq<u8>, inner: Seq<u8>, after: Seq<u8>)
    requires
        no_star(before),
        no_star(inner),
        no_star(after),
        inner.len() > 0,
    ensures
        marker_events(triple_line(before, inner, after)) == seq![
            event_at(2, before.len() as int, (before.len() + 3 + inner.len() + 1) as int),
            event_at(1, (before.len() + 2) as int, (before.len() + 3 + inner.len()) as int),
        ],
{
    let bytes = triple_line(before, inner, after);
    let a = before.len() as int;
    let b = a + 3 + inner.len();
    let n = bytes.len() as int;
    assert(n == b + 3 + after.len());
    assert forall|k: int| 0 <= k < a implies bytes[k] != STAR by {
        assert(bytes[k] == before[k]);
    }
    assert forall|k: int| a <= k < a + 3 implies bytes[k] == STAR by {
        assert(bytes[k] == triple()[k - a]);
    }
    assert forall|k: int| a + 3 <= k < b implies bytes[k] != STAR by {
        assert(bytes[k] == inner[k - a - 3]);
    }
    assert forall|k: int| b <= k < b + 3 implies bytes[k] == STAR by {
        assert(bytes[k] == triple()[k - b]);
    }
    assert forall|k: int| b + 3 <= k < n implies bytes[k] != STAR by {
        assert(bytes[k] == after[k - b - 3]);
    }
    let m2 = MarkerSpec { count: 2, start_byte: a };
    let m1 = MarkerSpec { count: 1, start_byte: a + 2 };
    let st0 = initial_state();
    let st1 = MatchState { stack: seq![m2], events: Seq::empty() };
    let st2 = MatchState { stack: seq![m2, m1], events: Seq::empty() };
    let e1 = event_at(1, a + 2, b);
    let e2 = event_at(2, a, b + 1);
    let st3 = MatchState { stack: seq![m2], events: seq![e1] };
    let st4 = MatchState { stack: Seq::empty(), events: seq![e1, e2] };
    // The opening run.
    lemma_scan_plain(bytes, 0, a, st0);
    lemma_run_of(bytes, a, 3);
    assert(process_run(st0, a, 3) == st2) by {
        reveal_with_fuel(last_opener, 3);
        reveal_with_fuel(split_run, 4);
        assert(last_opener(st0.stack, 3) == -1);
        assert(atom_width(st0.stack, 3) == 2);
        assert(place_marker(st0, 2, a) == st1) by {
            assert(st0.stack.push(m2) =~= st1.stack);
        }
        assert(atom_width(st1.stack, 1) == 1);
        assert(seq![m2].drop_last() =~= Seq::<MarkerSpec>::empty());
        assert(last_opener(st1.stack, 1) == -1);
        assert(place_marker(st1, 1, a + 2) == st2) by {
            assert(st1.stack.push(m1) =~= st2.stack);
        }
        assert(split_run(st2, a + 3, 0) == st2);
        assert(split_run(st1, a + 2, 1) == st2);
        assert(split_run(st0, a, 3) == st2);
    }
    assert(scan(bytes, a, st0) == scan(bytes, a + 3, st2));
    // The closing run.
    lemma_scan_plain(bytes, a + 3, b, st2);
    lemma_run_of(bytes, b, 3);
    assert(process_run(st2, b, 3) == st4) by {
        reveal_with_fuel(last_opener, 3);
        reveal_with_fuel(split_run, 4);
        assert(seq![m2, m1].drop_last() =~= seq![m2]);
        assert(seq![m2].drop_last() =~= Seq::<MarkerSpec>::empty());
        assert(last_opener(st2.stack, 3) == -1);
        assert(atom_width(st2.stack, 3) == 1);
        assert(last_opener(st2.stack, 1) == 1);
        assert(place_marker(st2, 1, b) == st3) by {
            assert(st2.stack.remove(1) =~= st3.stack);
            assert(st2.events.push(e1) =~= st3.events);
        }
        assert(atom_width(st3.stack, 2) == 2);
        assert(last_opener(st3.stack, 2) == 0);
        assert(place_marker(st3, 2, b + 1) == st4) by {
            assert(st3.stack.remove(0) =~= st4.stack);
            assert(st3.events.push(e2) =~= st4.events);
        }
        assert(split_run(st4, b + 3, 0) == st4);
        assert(split_run(st3, b + 1, 2) == st4);
        assert(split_run(st2, b, 3) == st4);
    }
    assert(scan(bytes, b, st2) == scan(bytes, b + 3, st4));
    lemma_scan_plain(bytes, b + 3, n, st4);
    assert(raw_events(bytes) == seq![e1, e2]);
    // Ordering the events by their opening marker.
    let key = event_key();
    assert(stable_sort(seq![e1, e2], key) == seq![e2, e1]) by {
        reveal_with_fuel(stable_sort, 3);
        reveal_with_fuel(insert_sorted, 3);
        let none = Seq::<EventSpec>::empty();
        assert(seq![e1, e2].drop_last() =~= seq![e1]);
        assert(seq![e1].drop_last() =~= none);
        assert(stable_sort(none, key) =~= none);
        assert(insert_sorted(none, e1, key) =~= seq![e1]);
        assert(stable_sort(seq![e1], key) =~= seq![e1]);
        assert(key(e1) == a + 2);
        assert(key(e2) == a);
        assert(insert_sorted(none, e2, key) =~= seq![e2]);
        assert(insert_sorted(seq![e1], e2, key) =~= seq![e2, e1]);
    }
}

/// The mask of a line with a text between two runs of three indicators
/// marks the bytes of the two runs, and no other.
pub proof fn lemma_triple_mask(before: Seq<u8>, inner: Seq<u8>, after: Seq<u8>)
    requires
        no_star(before),
        no_star(inner),
        no_star(after),
        inner.len() > 0,
    ensures
        ({
            let bytes = triple_line(before, inner, after);
            let mask = marker_mask(marker_events(bytes), bytes.len());
            let a = before.len() as int;
            let b = a + 3 + inner.len();
            &&& bytes.len() == b + 3 + after.len()
            &&& forall|i: int|
                0 <= i < bytes.len() ==> #[trigger] mask[i] == (a <= i < a + 3 || b <= i < b + 3)
        }),
{
    let bytes = triple_line(before, inner, after);
    let a = before.len() as int;
    let b = a + 3 + inner.len();
    let n = bytes.len() as int;
    let events = marker_events(bytes);
    let mask = marker_mask(events, bytes.len());
    lemma_triple_events(before, inner, after);
    let e2 = event_at(2, a, b + 1);
    let e1 = event_at(1, a + 2, b);
    assert(events.len() == 2);
    assert(events[0] == e2 && events[1] == e1);
    assert forall|i: int| 0 <= i < n implies #[trigger] mask[i] == (a <= i < a + 3 || b <= i < b
        + 3) by {
        if a <= i < a + 2 || b + 1 <= i < b + 3 {
            assert(event_covers(events[0], i));
        } else if i == a + 2 || i == b {
            assert(event_covers(events[1], i));
        } else {
            if is_marker_byte(events, i) {
                let k = choose|k: int|
                    0 <= k < events.len() && event_covers(#[trigger] events[k], i);
                assert(k == 0 || k == 1);
                assert(!event_covers(e2, i));
                assert(!event_covers(e1, i));
            }
        }
    }
}

/// Removing the two runs of three indicators leaves the bytes around and
/// between them, and moves the bytes between them to where the line begins
/// after `before`.
#[verifier::rlimit(50)]
pub proof fn lemma_triple_strip(before: Seq<u8>, inner: Seq<u8>, after: Seq<u8>)
    requires
        no_star(before),
        no_star(inner),
        no_star(after),
        inner.len() > 0,
    ensures
        ({
            let bytes = triple_line(before, inner, after);
            let mask = marker_mask(marker_events(bytes), bytes.len());
            let a = before.len() as int;
            let b = a + 3 + inner.len();
            &&& strip_bytes(bytes, mask) == before + inner + after
            &&& kept_before(mask, a) == a
            &&& kept_before(mask, a + 2) == a
            &&& kept_before(mask, b) == a + inner.len()
            &&& kept_before(mask, b + 1) == a + inner.len()
        }),
{
    let bytes = triple_line(before, inner, after);
    let a = before.len() as int;
    let b = a + 3 + inner.len();
    let n = bytes.len() as int;
    let mask = marker_mask(marker_events(bytes), bytes.len());
    lemma_triple_mask(before, inner, after);
    assert forall|i: int| 0 <= i < a implies !mask[i] by {}
    assert forall|i: int| a <= i < a + 3 implies mask[i] by {}
    assert forall|i: int| a + 3 <= i < b implies !mask[i] by {}
    assert forall|i: int| b <= i < b + 3 implies mask[i] by {}
    assert forall|i: int| b + 3 <= i < n implies !mask[i] by {}
    lemma_kept_unmarked(mask, 0, a);
    lemma_kept_marked(bytes, mask, a, a + 2);
    lemma_kept_marked(bytes, mask, a, a + 3);
    lemma_kept_unmarked(mask, a + 3, b);
    lemma_kept_marked(bytes, mask, b, b + 1);
    lemma_kept_marked(bytes, mask, b, b + 3);
    lemma_strip_unmarked(bytes, mask, 0, a);
    lemma_strip_unmarked(bytes, mask, a + 3, b);
    lemma_strip_unmarked(bytes, mask, b + 3, n);
    assert(bytes.take(0) =~= Seq::<u8>::empty());
    assert(bytes.take(n) =~= bytes);
    assert(bytes.subrange(0, a) =~= before);
    assert(bytes.subrange(a + 3, b) =~= inner);
    assert(bytes.subrange(b + 3, n) =~= after);
    assert(strip_bytes(bytes.take(a), mask) =~= before);
    assert(strip_bytes(bytes.take(b), mask) =~= before + inner);
    assert(strip_bytes(bytes, mask) =~= before + inner + after);
}

/// A text between two runs of three indicators, with no other indicator in
/// the line, gives exactly one bold and one italic span, both over that
/// text, and the six indicators are removed.
pub proof fn law_triple_run_is_bold_and_italic(before: Seq<u8>, inner: Seq<u8>, after: Seq<u8>)
    requires
        no_star(before),
        no_star(inner),
        no_star(after),
        inner.len() > 0,
    ensures
        ({
            let bytes = triple_line(before, inner, after);
            let events = marker_events(bytes);
            let mask = marker_mask(events, bytes.len());
            let start = before.len() as int;
            let end = (before.len() + inner.len()) as int;
            &&& strip_bytes(bytes, mask) == before + inner + after
            &&& remap_events(events, final_map(mask)) == seq![
                event_at(2, start, end),
                event_at(1, start, end),
            ]
            &&& styled_spans(remap_events(events, final_map(mask))) == seq![
                SpanView { start, end, style: SpanStyle::Bold },
                SpanView { start, end, style: SpanStyle::Italic },
            ]
        }),
{
    let bytes = triple_line(before, inner, after);
    let a = before.len() as int;
    let b = a + 3 + inner.len();
    let events = marker_events(bytes);
    let mask = marker_mask(events, bytes.len());
    lemma_triple_events(before, inner, after);
    lemma_triple_mask(before, inner, after);
    lemma_triple_strip(before, inner, after);
    let map = final_map(mask);
    assert(map[a] == a && map[a + 2] == a && map[b] == a + inner.len() && map[b + 1] == a
        + inner.len());
    let moved = remap_events(events, map);
    assert(moved.len() == 2);
    assert(moved[0] == event_at(2, a, a + inner.len()));
    assert(moved[1] == event_at(1, a, a + inner.len()));
    assert(moved =~= seq![event_at(2, a, a + inner.len()), event_at(1, a, a + inner.len())]);
    assert((2int as u8) as int == 2);
    assert((1int as u8) as int == 1);
    assert(styled_spans(moved) =~= seq![
        SpanView { start: a, end: a + inner.len(), style: SpanStyle::Bold },
        SpanView { start: a, end: a + inner.len(), style: SpanStyle::Italic },
    ]);
}

/// The characters `before`, `inner` between two runs of three asterisks, and
/// `after`.
pub open spec fn triple_text(before: Seq<char>, inner: Seq<char>, after: Seq<char>) -> Seq<char> {
    before + seq!['*', '*', '*'] + inner + seq!['*', '*', '*'] + after
}

/// True when `s` holds no asterisk and no backslash.
pub open spec fn plain(s: Seq<char>) -> bool {
    !s.contains('*') && !s.contains('\\')
}

/// A line that holds a text between two runs of three asterisks, and no
/// other asterisk and no backslash, parses to the line without the two
/// runs, with exactly two events: a bold one and an italic one, both over
/// the bytes of that text.
#[verifier::rlimit(50)]
pub proof fn law_triple_run_line(before: Seq<char>, inner: Seq<char>, after: Seq<char>)
    requires
        plain(before),
        plain(inner),
        plain(after),
        inner.len() > 0,
    ensures
        ({
            let line = triple_text(before, inner, after);
            let start = encode_utf8(before).len() as int;
            let end = (encode_utf8(before).len() + encode_utf8(inner).len()) as int;
            &&& final_text(line) == before + inner + after
            &&& final_events(line) == seq![event_at(2, start, end), event_at(1, start, end)]
            &&& styled_spans(final_events(line)) == seq![
                SpanView { start, end, style: SpanStyle::Bold },
                SpanView { start, end, style: SpanStyle::Italic },
            ]
        }),
{
    let stars = seq!['*', '*', '*'];
    let line = triple_text(before, inner, after);
    assert(!line.contains('\\')) by {
        if line.contains('\\') {
            let k = choose|k: int| 0 <= k < line.len() && line[k] == '\\';
            let a = before.len() as int;
            let b = a + 3 + inner.len();
            if k < a {
                assert(before[k] == '\\');
                assert(before.contains('\\'));
            } else if k < a + 3 {
                assert(line[k] == stars[k - a]);
            } else if k < b {
                assert(inner[k - a - 3] == '\\');
                assert(inner.contains('\\'));
            } else if k < b + 3 {
                assert(line[k] == stars[k - b]);
            } else {
                assert(after[k - b - 3] == '\\');
                assert(after.contains('\\'));
            }
        }
    }
    lemma_clean_chars_plain(line);
    let pb = encode_utf8(before);
    let xb = encode_utf8(inner);
    let qb = encode_utf8(after);
    assert(encode_utf8(stars) == triple()) by {
        lemma_char_bytes('*');
        lemma_encode_single('*');
        assert(stars =~= seq!['*'] + seq!['*'] + seq!['*']);
        lemma_encode_concat(seq!['*'] + seq!['*'], seq!['*']);
        lemma_encode_concat(seq!['*'], seq!['*']);
        assert(encode_utf8(seq!['*']) =~= seq![STAR]);
        assert(encode_utf8(stars) =~= triple());
    }
    assert(clean_bytes(line) == triple_line(pb, xb, qb)) by {
        lemma_encode_concat(before + stars + inner + stars, after);
        lemma_encode_concat(before + stars + inner, stars);
        lemma_encode_concat(before + stars, inner);
        lemma_encode_concat(before, stars);
    }
    lemma_no_star_bytes(before);
    lemma_no_star_bytes(inner);
    lemma_no_star_bytes(after);
    assert(xb.len() > 0) by {
        crate::text::lemma_encode_split(inner, 1);
        assert(inner.take(1) =~= seq![inner[0]]);
        lemma_encode_single(inner[0]);
        lemma_char_bytes(inner[0]);
    }
    law_triple_run_is_bold_and_italic(pb, xb, qb);
    assert(encode_utf8(before + inner + after) == pb + xb + qb) by {
        lemma_encode_concat(before + inner, after);
        lemma_encode_concat(before, inner);
    }
    encode_utf8_decode_utf8(before + inner + after);
}

} // verus!
