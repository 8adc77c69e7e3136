//! Markers and the rule that pairs them.
//!
//! A run of `*` is read as markers of one or two indicators. Openers wait on
//! a stack; a marker closes the most recent opener of its own width, and a
//! marker that finds no opener becomes one.

use vstd::prelude::*;

verus! {

/// The marker indicator `*` as a byte.
pub const STAR: u8 = 0x2A;

/// A marker as mathematics sees it.
pub struct MarkerSpec {
    /// Number of indicators.
    pub count: int,
    /// Byte index of the first indicator.
    pub start_byte: int,
}

/// A pair of markers as mathematics sees it.
pub struct EventSpec {
    pub opening: MarkerSpec,
    pub closing: MarkerSpec,
}

/// An opening or closing marker: one or two indicators in a row.
#[derive(Debug, Clone, Copy)]
pub struct Marker {
    /// How many indicators the marker has. A run of three is read as a
    /// marker of two and a marker of one.
    pub count: usize,
    /// Byte index of the first indicator in the text the marker belongs to.
    pub start_byte: usize,
}

impl View for Marker {
    type V = MarkerSpec;

    open spec fn view(&self) -> MarkerSpec {
        MarkerSpec { count: self.count as int, start_byte: self.start_byte as int }
    }
}

impl DeepView for Marker {
    type V = MarkerSpec;

    open spec fn deep_view(&self) -> MarkerSpec {
        self.view()
    }
}

impl Marker {
    /// A marker of `count` indicators at `start_byte`.
    pub fn new(count: usize, start_byte: usize) -> (marker: Self)
        ensures
            marker.count == count,
            marker.start_byte == start_byte,
    {
        Self { count, start_byte }
    }

    /// Moves the marker to `new_start_byte`.
    pub fn set_start_byte(&mut self, new_start_byte: usize)
        ensures
            final(self).start_byte == new_start_byte,
            final(self).count == old(self).count,
    {
        self.start_byte = new_start_byte;
    }
}

/// An opening marker and the closing marker that was paired with it.
#[derive(Debug, Clone, Copy)]
pub struct MarkerEvent {
    pub opening: Marker,
    pub closing: Marker,
}

impl View for MarkerEvent {
    type V = EventSpec;

    open spec fn view(&self) -> EventSpec {
        EventSpec { opening: self.opening@, closing: self.closing@ }
    }
}

impl DeepView for MarkerEvent {
    type V = EventSpec;

    open spec fn deep_view(&self) -> EventSpec {
        self.view()
    }
}

impl MarkerEvent {
    /// The pair of `opening` and `closing`.
    pub fn new(opening: Marker, closing: Marker) -> (event: Self)
        ensures
            event.opening == opening,
            event.closing == closing,
    {
        Self { opening, closing }
    }
}

/// The views of a sequence of markers.
pub open spec fn marker_views(s: Seq<Marker>) -> Seq<MarkerSpec> {
    Seq::new(s.len(), |i: int| s[i]@)
}

/// The views of a sequence of events.
pub open spec fn event_views(s: Seq<MarkerEvent>) -> Seq<EventSpec> {
    Seq::new(s.len(), |i: int| s[i]@)
}

/// What the matcher holds between two markers: the openers that wait for a
/// partner, oldest first, and the pairs found so far, in the order in which
/// they were closed.
pub struct MatchState {
    pub stack: Seq<MarkerSpec>,
    pub events: Seq<EventSpec>,
}

/// The state before the first marker.
pub open spec fn initial_state() -> MatchState {
    MatchState { stack: Seq::empty(), events: Seq::empty() }
}

/// Index of the most recent opener of width `w` on `stack`, or -1 when there
/// is none.
pub open spec fn last_opener(stack: Seq<MarkerSpec>, w: int) -> int
    decreases stack.len(),
{
    if stack.len() == 0 {
        -1
    } else if stack.last().count == w {
        stack.len() - 1
    } else {
        last_opener(stack.drop_last(), w)
    }
}

/// Reads one marker of width `w` at `pos`: it closes the most recent opener
/// of width `w`, which leaves the stack, or, when there is none, becomes an
/// opener itself.
pub open spec fn place_marker(st: MatchState, w: int, pos: int) -> MatchState {
    let p = last_opener(st.stack, w);
    let m = MarkerSpec { count: w, start_byte: pos };
    if p >= 0 {
        MatchState {
            stack: st.stack.remove(p),
            events: st.events.push(EventSpec { opening: st.stack[p], closing: m }),
        }
    } else {
        MatchState { stack: st.stack.push(m), events: st.events }
    }
}

/// Width of the next marker cut from a run with `remaining` indicators left:
/// the width of the top opener when it fits, else two when two are left,
/// else one.
pub open spec fn atom_width(stack: Seq<MarkerSpec>, remaining: int) -> int {
    if stack.len() > 0 && 1 <= stack.last().count <= remaining {
        stack.last().count
    } else if remaining >= 2 {
        2
    } else {
        1
    }
}

/// Cuts the `remaining` indicators at `pos` into markers and reads them one
/// by one.
pub open spec fn split_run(st: MatchState, pos: int, remaining: int) -> MatchState
    decreases remaining,
{
    if remaining <= 0 {
        st
    } else {
        let w = atom_width(st.stack, remaining);
        split_run(place_marker(st, w, pos), pos + w, remaining - w)
    }
}

/// Reads a whole run of `n` indicators at `pos`: as one marker when an
/// opener of exactly that width waits, cut into markers otherwise.
pub open spec fn process_run(st: MatchState, pos: int, n: int) -> MatchState {
    if last_opener(st.stack, n) >= 0 {
        place_marker(st, n, pos)
    } else {
        split_run(st, pos, n)
    }
}

/// Number of indicators in a row from byte `i` on.
pub open spec fn run_len(bytes: Seq<u8>, i: int) -> nat
    decreases bytes.len() - i,
{
    if 0 <= i < bytes.len() && bytes[i] == STAR {
        1 + run_len(bytes, i + 1)
    } else {
        0
    }
}

/// The state after reading `bytes` from byte `i` to the end, starting in
/// state `st`.
pub open spec fn scan(bytes: Seq<u8>, i: int, st: MatchState) -> MatchState
    decreases
            (if i < bytes.len() {
                bytes.len() - i
            } else {
                0
            }),
{
    if i < 0 || i >= bytes.len() {
        st
    } else if bytes[i] != STAR {
        scan(bytes, i + 1, st)
    } else {
        let n = 1 + run_len(bytes, i + 1) as int;
        scan(bytes, i + n, process_run(st, i, n))
    }
}

/// The pairs found in `bytes`, in the order in which they were closed.
/// Openers that are still waiting at the end are dropped.
pub open spec fn raw_events(bytes: Seq<u8>) -> Seq<EventSpec> {
    scan(bytes, 0, initial_state()).events
}

/// True when the `m.count` bytes from `m.start_byte` on are indicators that
/// lie before byte `limit` of `bytes`, and `m` has one or two of them.
pub open spec fn marker_in(bytes: Seq<u8>, m: MarkerSpec, limit: int) -> bool {
    &&& 1 <= m.count <= 2
    &&& 0 <= m.start_byte
    &&& m.start_byte + m.count <= limit <= bytes.len()
    &&& forall|j: int| m.start_byte <= j < m.start_byte + m.count ==> bytes[j] == STAR
}

/// True when `e` pairs two markers of one width, the opener wholly before
/// the closer, both before byte `limit` of `bytes`.
pub open spec fn event_in(bytes: Seq<u8>, e: EventSpec, limit: int) -> bool {
    &&& marker_in(bytes, e.opening, limit)
    &&& marker_in(bytes, e.closing, limit)
    &&& e.opening.count == e.closing.count
    &&& e.opening.start_byte + e.opening.count <= e.closing.start_byte
}

/// True when every opener and every pair of `st` lies before byte `limit`.
pub open spec fn state_in(bytes: Seq<u8>, st: MatchState, limit: int) -> bool {
    &&& forall|k: int| 0 <= k < st.stack.len() ==> marker_in(bytes, #[trigger] st.stack[k], limit)
    &&& forall|k: int|
        0 <= k < st.events.len() ==> event_in(bytes, #[trigger] st.events[k], limit)
}

/// `last_opener` finds an opener of the width asked for, and none of that
/// width lies above it.
pub proof fn lemma_last_opener(stack: Seq<MarkerSpec>, w: int)
    ensures
        -1 <= last_opener(stack, w) < stack.len(),
        last_opener(stack, w) >= 0 ==> stack[last_opener(stack, w)].count == w,
        forall|k: int| last_opener(stack, w) < k < stack.len() ==> stack[k].count != w,
    decreases stack.len(),
{
    if stack.len() > 0 && stack.last().count != w {
        let rest = stack.drop_last();
        lemma_last_opener(rest, w);
        assert forall|k: int| last_opener(stack, w) < k < stack.len() implies stack[k].count
            != w by {
            if k < rest.len() {
                assert(rest[k] == stack[k]);
            }
        }
    }
}

/// A run is made of indicators and ends at a byte that is none, or at the
/// end of the text.
pub proof fn lemma_run_len(bytes: Seq<u8>, i: int)
    requires
        0 <= i <= bytes.len(),
    ensures
        0 <= run_len(bytes, i) <= bytes.len() - i,
        forall|j: int| i <= j < i + run_len(bytes, i) ==> bytes[j] == STAR,
        i + run_len(bytes, i) < bytes.len() ==> bytes[i + run_len(bytes, i)] != STAR,
    decreases bytes.len() - i,
{
    if i < bytes.len() && bytes[i] == STAR {
        lemma_run_len(bytes, i + 1);
    }
}

/// Reading a marker that lies before `limit` keeps the state before `limit`.
pub proof fn lemma_place_marker_in(bytes: Seq<u8>, st: MatchState, w: int, pos: int, limit: int)
    requires
        state_in(bytes, st, pos),
        marker_in(bytes, MarkerSpec { count: w, start_byte: pos }, limit),
    ensures
        state_in(bytes, place_marker(st, w, pos), limit),
{
    lemma_last_opener(st.stack, w);
    let p = last_opener(st.stack, w);
    let out = place_marker(st, w, pos);
    assert forall|k: int| 0 <= k < out.stack.len() implies marker_in(
        bytes,
        #[trigger] out.stack[k],
        limit,
    ) by {
        if p >= 0 {
            if k < p {
                assert(out.stack[k] == st.stack[k]);
            } else {
                assert(out.stack[k] == st.stack[k + 1]);
            }
        } else {
            if k < st.stack.len() {
                assert(out.stack[k] == st.stack[k]);
            }
        }
    }
    assert forall|k: int| 0 <= k < out.events.len() implies event_in(
        bytes,
        #[trigger] out.events[k],
        limit,
    ) by {
        if k < st.events.len() {
            assert(out.events[k] == st.events[k]);
        } else {
            assert(marker_in(bytes, st.stack[p], pos));
        }
    }
}

/// Cutting a run that lies before `limit` keeps the state before `limit`.
pub proof fn lemma_split_run_in(bytes: Seq<u8>, st: MatchState, pos: int, remaining: int)
    requires
        0 <= pos,
        0 <= remaining,
        pos + remaining <= bytes.len(),
        state_in(bytes, st, pos),
        forall|j: int| pos <= j < pos + remaining ==> bytes[j] == STAR,
    ensures
        state_in(bytes, split_run(st, pos, remaining), pos + remaining),
    decreases remaining,
{
    if remaining > 0 {
        let w = atom_width(st.stack, remaining);
        if st.stack.len() > 0 {
            assert(marker_in(bytes, st.stack[st.stack.len() - 1], pos));
        }
        assert(1 <= w <= 2 && w <= remaining);
        lemma_place_marker_in(bytes, st, w, pos, pos + w);
        lemma_split_run_in(bytes, place_marker(st, w, pos), pos + w, remaining - w);
    } else {
        lemma_state_in_grow(bytes, st, pos, pos + remaining);
    }
}

/// A state before `a` is a state before any later `b`.
pub proof fn lemma_state_in_grow(bytes: Seq<u8>, st: MatchState, a: int, b: int)
    requires
        state_in(bytes, st, a),
        a <= b <= bytes.len(),
    ensures
        state_in(bytes, st, b),
{
    assert forall|k: int| 0 <= k < st.stack.len() implies marker_in(
        bytes,
        #[trigger] st.stack[k],
        b,
    ) by {
        assert(marker_in(bytes, st.stack[k], a));
    }
    assert forall|k: int| 0 <= k < st.events.len() implies event_in(
        bytes,
        #[trigger] st.events[k],
        b,
    ) by {
        assert(event_in(bytes, st.events[k], a));
    }
}

/// Reading a whole run keeps the state before the end of the run.
pub proof fn lemma_process_run_in(bytes: Seq<u8>, st: MatchState, pos: int)
    requires
        0 <= pos < bytes.len(),
        bytes[pos] == STAR,
        state_in(bytes, st, pos),
    ensures
        state_in(
            bytes,
            process_run(st, pos, run_len(bytes, pos) as int),
            pos + run_len(bytes, pos),
        ),
{
    let n = run_len(bytes, pos) as int;
    lemma_run_len(bytes, pos);
    lemma_last_opener(st.stack, n);
    let p = last_opener(st.stack, n);
    if p >= 0 {
        assert(marker_in(bytes, st.stack[p], pos));
        lemma_place_marker_in(bytes, st, n, pos, pos + n);
    } else {
        lemma_split_run_in(bytes, st, pos, n);
    }
}

/// Every opener and every pair that the scan leaves lies inside the text.
pub proof fn lemma_scan_in(bytes: Seq<u8>, i: int, st: MatchState)
    requires
        0 <= i <= bytes.len(),
        state_in(bytes, st, i),
    ensures
        state_in(bytes, scan(bytes, i, st), bytes.len() as int),
    decreases bytes.len() - i,
{
    if i >= bytes.len() {
    } else if bytes[i] != STAR {
        lemma_state_in_grow(bytes, st, i, i + 1);
        lemma_scan_in(bytes, i + 1, st);
    } else {
        let n = run_len(bytes, i) as int;
        lemma_run_len(bytes, i);
        lemma_process_run_in(bytes, st, i);
        lemma_scan_in(bytes, i + n, process_run(st, i, n));
    }
}

} // verus!
