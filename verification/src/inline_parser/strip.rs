//! Removes the marker bytes from the cleaned text and moves the events to
//! the byte indices of the text that is left.

use vstd::prelude::*;
use vstd::std_specs::iter::IteratorSpec;
use vstd::utf8::encode_utf8;
use crate::text::{char_width, utf8_len, lemma_char_bytes, lemma_encode_push,
    lemma_encode_take_next};
use crate::inline_parser::escape::as_ints;
use crate::inline_parser::markers::{Marker, MarkerEvent, MarkerSpec, EventSpec, event_views};
use crate::inline_parser::matcher::MarkerResult;

verus! {

/// True when byte `i` is one of the `width` bytes of marker `m`.
pub open spec fn marker_covers(m: MarkerSpec, width: int, i: int) -> bool {
    m.start_byte <= i < m.start_byte + width
}

/// True when byte `i` belongs to the opening or the closing marker of `e`.
/// Both markers are as wide as the opening marker says.
pub open spec fn event_covers(e: EventSpec, i: int) -> bool {
    marker_covers(e.opening, e.opening.count, i) || marker_covers(e.closing, e.opening.count, i)
}

/// True when byte `i` belongs to a marker of one of `events`.
pub open spec fn is_marker_byte(events: Seq<EventSpec>, i: int) -> bool {
    exists|k: int| 0 <= k < events.len() && event_covers(#[trigger] events[k], i)
}

/// For each of the `len` bytes of a text, whether it belongs to a marker of
/// one of `events`.
pub open spec fn marker_mask(events: Seq<EventSpec>, len: nat) -> Seq<bool> {
    Seq::new(len, |i: int| is_marker_byte(events, i))
}

/// Number of bytes before byte `i` that `mask` does not mark.
pub open spec fn kept_before(mask: Seq<bool>, i: int) -> int
    decreases i,
{
    if i <= 0 {
        0
    } else if mask[i - 1] {
        kept_before(mask, i - 1)
    } else {
        kept_before(mask, i - 1) + 1
    }
}

/// For every byte index of a text, and for its length, the byte index in the
/// text without the marked bytes.
pub open spec fn final_map(mask: Seq<bool>) -> Seq<int> {
    Seq::new(mask.len() + 1, |i: int| kept_before(mask, i))
}

/// The bytes of `bytes` that `mask` does not mark, in their order.
pub open spec fn strip_bytes(bytes: Seq<u8>, mask: Seq<bool>) -> Seq<u8>
    decreases bytes.len(),
{
    if bytes.len() == 0 {
        Seq::empty()
    } else if mask[bytes.len() - 1] {
        strip_bytes(bytes.drop_last(), mask)
    } else {
        strip_bytes(bytes.drop_last(), mask).push(bytes.last())
    }
}

/// The marker `m` moved through `map`.
pub open spec fn remap_marker(m: MarkerSpec, map: Seq<int>) -> MarkerSpec {
    MarkerSpec { count: m.count, start_byte: map[m.start_byte] }
}

/// The events with the start bytes of their markers moved through `map`.
pub open spec fn remap_events(events: Seq<EventSpec>, map: Seq<int>) -> Seq<EventSpec> {
    Seq::new(
        events.len(),
        |k: int|
            EventSpec {
                opening: remap_marker(events[k].opening, map),
                closing: remap_marker(events[k].closing, map),
            },
    )
}

impl MarkerResult {
    /// True when the markers of every event, each as wide as its opening
    /// marker says, lie inside the cleaned text.
    pub open spec fn in_range(&self) -> bool {
        forall|k: int|
            0 <= k < self.marker_events@.len() ==> {
                let e = #[trigger] self.marker_events@[k];
                &&& e.opening.start_byte + e.opening.count <= self.clean_bytes().len()
                &&& e.closing.start_byte + e.opening.count <= self.clean_bytes().len()
            }
    }

    /// True when every marker starts inside a text of `len` bytes or at its
    /// end.
    pub open spec fn starts_within(&self, len: int) -> bool {
        forall|k: int|
            0 <= k < self.marker_events@.len() ==> {
                let e = #[trigger] self.marker_events@[k];
                e.opening.start_byte <= len && e.closing.start_byte <= len
            }
    }
}

/// A well-formed result has its markers inside the cleaned text.
pub proof fn lemma_wf_in_range(res: &MarkerResult)
    requires
        res.wf(),
    ensures
        res.in_range(),
        res.starts_within(res.clean_bytes().len() as int),
{
    assert forall|k: int| 0 <= k < res.marker_events@.len() implies {
        let e = #[trigger] res.marker_events@[k];
        &&& e.opening.start_byte + e.opening.count <= res.clean_bytes().len()
        &&& e.closing.start_byte + e.opening.count <= res.clean_bytes().len()
        &&& e.opening.start_byte <= res.clean_bytes().len()
        &&& e.closing.start_byte <= res.clean_bytes().len()
    } by {
        assert(res.events()[k] == res.marker_events@[k]@);
    }
}

/// One more event marks its own bytes and those marked before.
pub proof fn lemma_is_marker_byte_push(events: Seq<EventSpec>, e: EventSpec, i: int)
    ensures
        is_marker_byte(events.push(e), i) <==> is_marker_byte(events, i) || event_covers(e, i),
{
    let more = events.push(e);
    if is_marker_byte(events, i) {
        let k = choose|k: int| 0 <= k < events.len() && event_covers(#[trigger] events[k], i);
        assert(more[k] == events[k]);
    }
    if event_covers(e, i) {
        assert(more[events.len() as int] == e);
    }
    if is_marker_byte(more, i) {
        let k = choose|k: int| 0 <= k < more.len() && event_covers(#[trigger] more[k], i);
        if k < events.len() {
            assert(more[k] == events[k]);
        }
    }
}

/// The map counts the kept bytes: it starts at 0, grows by at most one per
/// byte, and ends at the number of bytes that are left.
pub proof fn lemma_kept_before(bytes: Seq<u8>, mask: Seq<bool>, i: int)
    requires
        0 <= i <= bytes.len(),
    ensures
        0 <= kept_before(mask, i) <= i,
        strip_bytes(bytes.take(i), mask).len() == kept_before(mask, i),
        forall|j: int| 0 <= j <= i ==> kept_before(mask, j) <= kept_before(mask, i),
    decreases i,
{
    if i > 0 {
        lemma_kept_before(bytes, mask, i - 1);
        assert(bytes.take(i).drop_last() =~= bytes.take(i - 1));
    }
}

/// Bytes that are not marked are kept as they are.
pub proof fn lemma_strip_unmarked(bytes: Seq<u8>, mask: Seq<bool>, a: int, b: int)
    requires
        0 <= a <= b <= bytes.len(),
        forall|j: int| a <= j < b ==> !mask[j],
    ensures
        strip_bytes(bytes.take(b), mask) == strip_bytes(bytes.take(a), mask) + bytes.subrange(
            a,
            b,
        ),
    decreases b - a,
{
    if a == b {
        assert(strip_bytes(bytes.take(a), mask) + bytes.subrange(a, b) =~= strip_bytes(
            bytes.take(a),
            mask,
        ));
    } else {
        lemma_strip_unmarked(bytes, mask, a, b - 1);
        assert(bytes.take(b).drop_last() =~= bytes.take(b - 1));
        assert(!mask[b - 1]);
        assert((strip_bytes(bytes.take(a), mask) + bytes.subrange(a, b - 1)).push(bytes[b - 1])
            =~= strip_bytes(bytes.take(a), mask) + bytes.subrange(a, b));
    }
}

/// Sets `count` entries of `mask` from `start` on.
fn mark_range(mask: &mut Vec<bool>, start: usize, count: usize)
    requires
        start + count <= old(mask)@.len(),
    ensures
        final(mask)@ == Seq::new(
            old(mask)@.len(),
            |i: int| old(mask)@[i] || start <= i < start + count,
        ),
{
    let len = mask.len();
    let mut i: usize = start;
    let end: usize = start + count;
    while i < end
        invariant
            start <= i <= end,
            end == start + count,
            end <= mask@.len(),
            mask@ == Seq::new(old(mask)@.len(), |j: int| old(mask)@[j] || start <= j < i),
        decreases end - i,
    {
        mask.set(i, true);
        i += 1;
        assert(mask@ =~= Seq::new(old(mask)@.len(), |j: int| old(mask)@[j] || start <= j < i));
    }
    assert(mask@ =~= Seq::new(
        old(mask)@.len(),
        |i: int| old(mask)@[i] || start <= i < start + count,
    ));
}

/// Marks the bytes of the cleaned text that belong to a marker of an event,
/// and maps every byte index of the cleaned text, and its length, to the
/// number of unmarked bytes before it.
pub fn get_markers_global_mapping(marker_result: &MarkerResult) -> (res: (Vec<bool>, Vec<usize>))
    requires
        marker_result.in_range(),
    ensures
        res.0@ == marker_mask(marker_result.events(), marker_result.clean_bytes().len()),
        as_ints(res.1@) == final_map(res.0@),
{
    let len = marker_result.escape.clean_text.as_str().as_bytes().len();
    let ghost events = marker_result.events();
    let mut is_marker: Vec<bool> = Vec::new();
    while is_marker.len() < len
        invariant
            is_marker@.len() <= len,
            forall|i: int| 0 <= i < is_marker@.len() ==> !is_marker@[i],
        decreases len - is_marker@.len(),
    {
        is_marker.push(false);
    }
    let n = marker_result.marker_events.len();
    let mut k: usize = 0;
    assert(is_marker@ =~= marker_mask(events.take(0), len as nat));
    while k < n
        invariant
            k <= n,
            n == marker_result.marker_events@.len(),
            len == marker_result.clean_bytes().len(),
            events == marker_result.events(),
            marker_result.in_range(),
            is_marker@ == marker_mask(events.take(k as int), len as nat),
        decreases n - k,
    {
        let e = marker_result.marker_events[k];
        let o = e.opening.start_byte;
        let c = e.closing.start_byte;
        let count = e.opening.count;
        let ghost before = is_marker@;
        mark_range(&mut is_marker, o, count);
        mark_range(&mut is_marker, c, count);
        proof {
            assert(events[k as int] == e@);
            assert(events.take(k as int + 1) =~= events.take(k as int).push(e@));
            assert forall|i: int| 0 <= i < len implies is_marker@[i] == is_marker_byte(
                events.take(k as int + 1),
                i,
            ) by {
                lemma_is_marker_byte_push(events.take(k as int), e@, i);
            }
            assert(is_marker@ =~= marker_mask(events.take(k as int + 1), len as nat));
        }
        k += 1;
    }
    assert(events.take(n as int) =~= events);
    let mut mapping: Vec<usize> = Vec::new();
    let mut out: usize = 0;
    let mut i: usize = 0;
    while i < len
        invariant
            i <= len,
            len == is_marker@.len(),
            out <= i,
            out == kept_before(is_marker@, i as int),
            mapping@.len() == i,
            forall|j: int| 0 <= j < i ==> mapping@[j] == kept_before(is_marker@, j),
        decreases len - i,
    {
        mapping.push(out);
        if !is_marker[i] {
            out += 1;
        }
        i += 1;
    }
    mapping.push(out);
    assert(as_ints(mapping@) =~= final_map(is_marker@));
    (is_marker, mapping)
}

/// The cleaned text without the bytes that `is_marker` marks.
///
/// The marked bytes must be one-byte characters, as indicators are; then
/// every other character is copied whole.
#[verifier::rlimit(50)]
pub fn get_markers_removed_clean_text(marker_result: &MarkerResult, is_marker: &[bool]) -> (text:
    String)
    requires
        is_marker@.len() == marker_result.clean_bytes().len(),
        forall|i: int|
            0 <= i < is_marker@.len() && is_marker@[i] ==> marker_result.clean_bytes()[i] < 0x80,
    ensures
        encode_utf8(text@) == strip_bytes(marker_result.clean_bytes(), is_marker@),
{
    let ghost chars = marker_result.escape.clean_text@;
    let ghost bytes = encode_utf8(chars);
    let ghost mask = is_marker@;
    let mut final_text = String::new();
    let mut it = marker_result.escape.clean_text.as_str().chars();
    let mut i: usize = 0;
    let ghost mut k: int = 0;
    proof {
        assert(chars.skip(0) =~= chars);
        assert(chars.take(0) =~= Seq::<char>::empty());
        assert(bytes.take(0) =~= Seq::<u8>::empty());
        assert(final_text@ =~= Seq::<char>::empty());
    }
    loop
        invariant
            chars == marker_result.escape.clean_text@,
            bytes == encode_utf8(chars),
            mask == is_marker@,
            mask.len() == bytes.len(),
            forall|j: int| 0 <= j < mask.len() && mask[j] ==> bytes[j] < 0x80,
            0 <= k <= chars.len(),
            it.obeys_prophetic_iter_laws(),
            it.remaining() == chars.skip(k),
            i == utf8_len(chars.take(k)),
            i <= bytes.len(),
            encode_utf8(final_text@) == strip_bytes(bytes.take(i as int), mask),
        ensures
            k == chars.len(),
            i == utf8_len(chars.take(k)),
            encode_utf8(final_text@) == strip_bytes(bytes.take(i as int), mask),
        decreases chars.len() - k,
    {
        match it.next() {
            None => {
                break ;
            },
            Some(ch) => {
                let w = ch.len_utf8();
                proof {
                    assert(ch == chars[k]);
                    assert(chars.skip(k).drop_first() =~= chars.skip(k + 1));
                    lemma_encode_take_next(chars, k);
                    lemma_char_bytes(ch);
                    assert(1 <= w <= 4) by {
                        crate::text::lemma_char_width_bounds(ch);
                    }
                    assert(bytes[i as int + 0] == vstd::utf8::encode_scalar(ch as u32)[0]);
                }
                let ghost before = final_text@;
                if !is_marker[i] {
                    final_text.push(ch);
                    proof {
                        lemma_encode_push(before, ch);
                        assert forall|j: int| i <= j < i + w implies !mask[j] by {
                            if j > i {
                                assert(bytes[i as int + (j - i)] == vstd::utf8::encode_scalar(
                                    ch as u32,
                                )[j - i]);
                            }
                        }
                        lemma_strip_unmarked(bytes, mask, i as int, i as int + w as int);
                        assert(bytes.subrange(i as int, i as int + w as int)
                            =~= vstd::utf8::encode_scalar(ch as u32)) by {
                            assert forall|j: int| 0 <= j < w implies bytes.subrange(
                                i as int,
                                i as int + w as int,
                            )[j] == #[trigger] vstd::utf8::encode_scalar(ch as u32)[j] by {
                                assert(bytes[i as int + j] == vstd::utf8::encode_scalar(
                                    ch as u32,
                                )[j]);
                            }
                        }
                    }
                } else {
                    proof {
                        assert(w == 1);
                        assert(bytes.take(i as int + 1).drop_last() =~= bytes.take(i as int));
                    }
                }
                i += w;
                proof {
                    k = k + 1;
                }
            },
        }
    }
    proof {
        assert(chars.take(k) =~= chars);
        assert(bytes.take(i as int) =~= bytes);
    }
    final_text
}

/// Moves the start byte of every marker through `adjusted_mapping`, the map
/// from the byte indices of the cleaned text to those of the text without
/// markers.
pub fn adjust_markers_start_byte(marker_result: &mut MarkerResult, adjusted_mapping: &[usize])
    requires
        old(marker_result).starts_within(adjusted_mapping@.len() - 1),
    ensures
        final(marker_result).escape == old(marker_result).escape,
        final(marker_result).events() == remap_events(
            old(marker_result).events(),
            as_ints(adjusted_mapping@),
        ),
{
    let ghost orig = marker_result.marker_events@;
    let ghost map = as_ints(adjusted_mapping@);
    let n = marker_result.marker_events.len();
    let mut k: usize = 0;
    while k < n
        invariant
            k <= n,
            n == orig.len(),
            marker_result.marker_events@.len() == n,
            marker_result.escape == old(marker_result).escape,
            orig == old(marker_result).marker_events@,
            old(marker_result).starts_within(adjusted_mapping@.len() - 1),
            map == as_ints(adjusted_mapping@),
            forall|j: int| k <= j < n ==> marker_result.marker_events@[j] == orig[j],
            forall|j: int|
                0 <= j < k ==> (#[trigger] marker_result.marker_events@[j])@ == remap_events(
                    event_views(orig),
                    map,
                )[j],
        decreases n - k,
    {
        let mut e: MarkerEvent = marker_result.marker_events[k];
        assert(e == orig[k as int]);
        let o = e.opening.start_byte;
        e.opening.set_start_byte(adjusted_mapping[o]);
        let c = e.closing.start_byte;
        e.closing.set_start_byte(adjusted_mapping[c]);
        marker_result.marker_events.set(k, e);
        k += 1;
    }
    assert(marker_result.events() =~= remap_events(old(marker_result).events(), map));
}

} // verus!
