//! Finds the pairs of opening and closing markers in a line of text.

use vstd::prelude::*;
use vstd::utf8::encode_utf8;
use crate::sorting::{SortKey, key_fn, sorted_by, stable_sort, sort_stable, lemma_stable_sort_map,
    lemma_stable_sort_same_elements};
use crate::text::utf8_len;
use crate::inline_parser::escape::{EscapeResult, preprocess_escapes, clean_chars, escape_map,
    as_ints};
use crate::inline_parser::markers::{Marker, MarkerEvent, MarkerSpec, EventSpec, MatchState, STAR,
    marker_views, event_views, initial_state, last_opener, place_marker, atom_width, split_run,
    process_run, run_len, scan, raw_events, marker_in, event_in, state_in, lemma_place_marker_in,
    lemma_scan_in, lemma_state_in_grow};

verus! {

impl SortKey for MarkerEvent {
    open spec fn key(self) -> int {
        self.opening.start_byte as int
    }

    fn sort_key(&self) -> (k: usize) {
        self.opening.start_byte
    }
}

/// The byte index of an event's opening marker, by which events are ordered.
pub open spec fn event_key() -> spec_fn(EventSpec) -> int {
    |e: EventSpec| e.opening.start_byte
}

/// The pairs of markers found in `bytes`, ordered by the byte index of their
/// opening marker.
pub open spec fn marker_events(bytes: Seq<u8>) -> Seq<EventSpec> {
    stable_sort(raw_events(bytes), event_key())
}

/// A sequence of events.
pub type MarkerEvents = Vec<MarkerEvent>;

/// The cleaned text of a line together with the marker pairs found in it.
#[derive(Debug)]
pub struct MarkerResult {
    pub escape: EscapeResult,
    pub marker_events: MarkerEvents,
}

impl MarkerResult {
    /// The result that holds `escape` and `marker_events`.
    pub fn new(escape: EscapeResult, marker_events: MarkerEvents) -> (res: Self)
        ensures
            res.escape == escape,
            res.marker_events == marker_events,
    {
        Self { escape, marker_events }
    }

    /// The bytes of the cleaned text.
    pub open spec fn clean_bytes(&self) -> Seq<u8> {
        encode_utf8(self.escape.clean_text@)
    }

    /// The events as mathematics sees them.
    pub open spec fn events(&self) -> Seq<EventSpec> {
        event_views(self.marker_events@)
    }

    /// True when every event pairs two markers of one width, one or two
    /// indicators wide, that are made of indicators of the cleaned text, the
    /// opener wholly before the closer.
    pub open spec fn wf(&self) -> bool {
        forall|k: int|
            0 <= k < self.events().len() ==> event_in(
                self.clean_bytes(),
                #[trigger] self.events()[k],
                self.clean_bytes().len() as int,
            )
    }
}

/// The state that a stack and a list of events stand for.
pub open spec fn state_of(stack: Seq<Marker>, events: Seq<MarkerEvent>) -> MatchState {
    MatchState { stack: marker_views(stack), events: event_views(events) }
}

/// The pairs found in any text lie inside it, whatever order they are in.
pub proof fn lemma_marker_events_in(bytes: Seq<u8>)
    ensures
        marker_events(bytes).len() == raw_events(bytes).len(),
        forall|k: int|
            0 <= k < marker_events(bytes).len() ==> event_in(
                bytes,
                #[trigger] marker_events(bytes)[k],
                bytes.len() as int,
            ),
{
    let raw = raw_events(bytes);
    lemma_scan_in(bytes, 0, initial_state());
    lemma_stable_sort_same_elements(raw, event_key());
    crate::sorting::lemma_stable_sort(raw, event_key());
    assert forall|k: int| 0 <= k < marker_events(bytes).len() implies event_in(
        bytes,
        #[trigger] marker_events(bytes)[k],
        bytes.len() as int,
    ) by {
        let e = marker_events(bytes)[k];
        assert(raw.contains(e));
        let j = choose|j: int| 0 <= j < raw.len() && raw[j] == e;
        assert(event_in(bytes, raw[j], bytes.len() as int));
    }
}

/// Index of the most recent opener of `count` indicators on `stack`.
fn find_opener(stack: &Vec<Marker>, count: usize) -> (found: Option<usize>)
    ensures
        match found {
            Some(p) => p < stack@.len() && p as int == last_opener(
                marker_views(stack@),
                count as int,
            ),
            None => last_opener(marker_views(stack@), count as int) == -1,
        },
{
    let ghost views = marker_views(stack@);
    let mut k: usize = stack.len();
    proof {
        assert(views.take(k as int) =~= views);
    }
    while k > 0
        invariant
            k <= stack@.len(),
            views == marker_views(stack@),
            last_opener(views, count as int) == last_opener(views.take(k as int), count as int),
        decreases k,
    {
        if stack[k - 1].count == count {
            return Some(k - 1);
        }
        proof {
            assert(views.take(k as int).drop_last() =~= views.take(k as int - 1));
        }
        k -= 1;
    }
    None
}

/// Reads one marker of `count` indicators at `pos`: closes the most recent
/// opener of that width, or waits on the stack as an opener.
fn place(stack: &mut Vec<Marker>, events: &mut Vec<MarkerEvent>, count: usize, pos: usize)
    ensures
        state_of(final(stack)@, final(events)@) == place_marker(
            state_of(old(stack)@, old(events)@),
            count as int,
            pos as int,
        ),
{
    let ghost st = state_of(stack@, events@);
    match find_opener(stack, count) {
        Some(p) => {
            let opening = stack.remove(p);
            events.push(MarkerEvent::new(opening, Marker::new(count, pos)));
            proof {
                let out = place_marker(st, count as int, pos as int);
                assert(marker_views(stack@) =~= out.stack);
                assert(event_views(events@) =~= out.events);
            }
        },
        None => {
            stack.push(Marker::new(count, pos));
            proof {
                let out = place_marker(st, count as int, pos as int);
                assert(marker_views(stack@) =~= out.stack);
                assert(event_views(events@) =~= out.events);
            }
        },
    }
}

/// Resolves the escapes of `text` and pairs the markers of the cleaned text.
///
/// The text is read byte by byte. A run of indicators closes the most recent
/// opener of exactly its width when there is one. Otherwise the run is cut
/// into markers, each as wide as the top opener when that fits, else two
/// wide when two indicators are left, else one; each marker closes the most
/// recent opener of its width or becomes an opener. Openers left at the end
/// are dropped. The events come ordered by the byte index of their opening
/// marker.
#[verifier::rlimit(50)]
pub fn get_marker_events(text: &str) -> (res: MarkerResult)
    ensures
        res.escape.clean_text@ == clean_chars(text@),
        as_ints(res.escape.original_to_clean@) == escape_map(text@),
        res.events() == marker_events(encode_utf8(clean_chars(text@))),
        res.wf(),
        sorted_by(res.events(), event_key()),
{
    let esc = preprocess_escapes(text);
    let mut events: Vec<MarkerEvent> = Vec::new();
    let mut stack: Vec<Marker> = Vec::new();
    let bytes = esc.clean_text.as_str().as_bytes();
    let len = bytes.len();
    let mut i: usize = 0;
    proof {
        assert(state_of(stack@, events@) == initial_state()) by {
            assert(marker_views(stack@) =~= Seq::<MarkerSpec>::empty());
            assert(event_views(events@) =~= Seq::<EventSpec>::empty());
        }
    }
    while i < len
        invariant
            len == bytes@.len(),
            i <= len,
            scan(bytes@, i as int, state_of(stack@, events@)) == scan(
                bytes@,
                0,
                initial_state(),
            ),
            state_in(bytes@, state_of(stack@, events@), i as int),
        decreases len - i,
    {
        let ghost st = state_of(stack@, events@);
        if bytes[i] != STAR {
            proof {
                lemma_state_in_grow(bytes@, st, i as int, i as int + 1);
            }
            i += 1;
        } else {
            let mut count: usize = 1;
            while i + count < len && bytes[i + count] == STAR
                invariant
                    len == bytes@.len(),
                    1 <= count,
                    i + count <= len,
                    forall|j: int| i <= j < i + count ==> bytes@[j] == STAR,
                    run_len(bytes@, i as int + 1) == count - 1 + run_len(
                        bytes@,
                        i as int + count as int,
                    ),
                decreases len - i - count,
            {
                count += 1;
            }
            assert(count as int == 1 + run_len(bytes@, i as int + 1));
            let ghost after = process_run(st, i as int, count as int);
            if find_opener(&stack, count).is_some() {
                proof {
                    let p = last_opener(st.stack, count as int);
                    crate::inline_parser::markers::lemma_last_opener(st.stack, count as int);
                    assert(marker_in(bytes@, st.stack[p], i as int));
                    lemma_place_marker_in(
                        bytes@,
                        st,
                        count as int,
                        i as int,
                        i as int + count as int,
                    );
                }
                place(&mut stack, &mut events, count, i);
            } else {
                let mut remaining: usize = count;
                let mut j: usize = i;
                while remaining > 0
                    invariant
                        len == bytes@.len(),
                        i <= j,
                        j + remaining == i + count,
                        i + count <= len,
                        forall|k: int| i <= k < i + count ==> bytes@[k] == STAR,
                        state_in(bytes@, state_of(stack@, events@), j as int),
                        split_run(state_of(stack@, events@), j as int, remaining as int)
                            == after,
                    decreases remaining,
                {
                    let ghost cur = state_of(stack@, events@);
                    let depth = stack.len();
                    let this_count: usize = if depth > 0 && stack[depth - 1].count <= remaining {
                        stack[depth - 1].count
                    } else if remaining >= 2 {
                        2
                    } else {
                        1
                    };
                    proof {
                        if depth > 0 {
                            assert(marker_in(bytes@, cur.stack[depth - 1], j as int));
                        }
                        assert(this_count as int == atom_width(cur.stack, remaining as int));
                        lemma_place_marker_in(
                            bytes@,
                            cur,
                            this_count as int,
                            j as int,
                            j as int + this_count as int,
                        );
                    }
                    place(&mut stack, &mut events, this_count, j);
                    j += this_count;
                    remaining -= this_count;
                }
            }
            assert(state_of(stack@, events@) == after);
            i += count;
        }
    }
    proof {
        let raw = event_views(events@);
        assert(raw == raw_events(bytes@));
        lemma_stable_sort_map(
            events@,
            |e: MarkerEvent| e@,
            key_fn::<MarkerEvent>(),
            event_key(),
        );
        assert(events@.map_values(|e: MarkerEvent| e@) =~= raw);
        lemma_marker_events_in(bytes@);
        crate::sorting::lemma_stable_sort(raw, event_key());
    }
    let ghost unsorted = events@;
    sort_stable(&mut events);
    proof {
        assert(event_views(events@) =~= stable_sort(unsorted, key_fn::<MarkerEvent>()).map_values(
            |e: MarkerEvent| e@,
        ));
    }
    MarkerResult::new(esc, events)
}

} // verus!
