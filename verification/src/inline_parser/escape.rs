//! Escape preprocessing: `\*` becomes the sentinel [`ESCAPED_ASTERISK`], `\\`
//! becomes `\`, any other `\X` keeps `X`, and a byte-index map from the
//! original text to the cleaned text is built alongside.

use vstd::prelude::*;
use vstd::std_specs::iter::IteratorSpec;
use crate::text::{char_width, utf8_len, lemma_char_bytes, lemma_encode_push};

verus! {

/// Private Use Area code point that stands for an escaped asterisk until
/// rendering. Three bytes in UTF-8.
pub const ESCAPED_ASTERISK: char = '\u{E000}';

/// Markdown text with the escapes resolved.
#[derive(Debug)]
pub struct EscapeResult {
    /// The text with every escape sequence collapsed to one character.
    pub clean_text: String,
    /// For every byte index of the original text, and for its length, the
    /// byte index in `clean_text` where that byte ended up.
    pub original_to_clean: Vec<usize>,
}

/// The character that `\c` stands for.
pub open spec fn escaped_char(c: char) -> char {
    if c == '*' {
        ESCAPED_ASTERISK
    } else {
        c
    }
}

/// True when `s` starts with a backslash that has a character to escape.
pub open spec fn starts_with_escape(s: Seq<char>) -> bool {
    s.len() >= 2 && s[0] == '\\'
}

/// Number of characters of the unit at the head of a non-empty `s`: two for
/// an escape sequence, one otherwise.
pub open spec fn unit_len(s: Seq<char>) -> int {
    if starts_with_escape(s) {
        2
    } else {
        1
    }
}

/// The single character that the unit at the head of a non-empty `s` leaves
/// in the cleaned text.
pub open spec fn unit_char(s: Seq<char>) -> char {
    if starts_with_escape(s) {
        escaped_char(s[1])
    } else {
        s[0]
    }
}

/// Number of bytes that the unit at the head of a non-empty `s` takes in the
/// original text.
pub open spec fn unit_width(s: Seq<char>) -> nat {
    if starts_with_escape(s) {
        char_width(s[0]) + char_width(s[1])
    } else {
        char_width(s[0])
    }
}

/// The cleaned text of `s`.
pub open spec fn clean_chars(s: Seq<char>) -> Seq<char>
    decreases s.len(),
{
    if s.len() == 0 {
        Seq::empty()
    } else {
        seq![unit_char(s)] + clean_chars(s.skip(unit_len(s)))
    }
}

/// Adds `d` to every entry of `m`.
pub open spec fn shifted(m: Seq<int>, d: int) -> Seq<int> {
    Seq::new(m.len(), |i: int| m[i] + d)
}

/// The byte map of `s`: entry `i` is the byte index in the cleaned text of
/// the character that the unit holding original byte `i` left there; the
/// last entry is the length of the cleaned text.
pub open spec fn escape_map(s: Seq<char>) -> Seq<int>
    decreases s.len(),
{
    if s.len() == 0 {
        seq![0int]
    } else {
        Seq::new(unit_width(s), |i: int| 0int) + shifted(
            escape_map(s.skip(unit_len(s))),
            char_width(unit_char(s)) as int,
        )
    }
}

/// The entries of a vector of indices as mathematical integers.
pub open spec fn as_ints(v: Seq<usize>) -> Seq<int> {
    Seq::new(v.len(), |i: int| v[i] as int)
}

/// The byte map has one entry per original byte and one for the end, starts
/// at the byte index 0, never decreases, and ends at the length of the
/// cleaned text.
pub proof fn lemma_escape_map_shape(s: Seq<char>)
    ensures
        escape_map(s).len() == utf8_len(s) + 1,
        escape_map(s)[0] == 0,
        escape_map(s).last() == utf8_len(clean_chars(s)),
        forall|i: int, j: int|
            0 <= i <= j < escape_map(s).len() ==> 0 <= #[trigger] escape_map(s)[i]
                <= #[trigger] escape_map(s)[j],
    decreases s.len(),
{
    if s.len() == 0 {
        assert(clean_chars(s) =~= Seq::<char>::empty());
    } else {
        let n = unit_len(s);
        let rest = s.skip(n);
        let w = unit_width(s) as int;
        let d = char_width(unit_char(s)) as int;
        lemma_escape_map_shape(rest);
        lemma_unit_bytes(s);
        lemma_clean_len_step(s);
        let m = escape_map(s);
        let r = escape_map(rest);
        assert(m.len() == w + r.len());
        assert forall|i: int, j: int| 0 <= i <= j < m.len() implies 0 <= #[trigger] m[i]
            <= #[trigger] m[j] by {
            if j < w {
            } else if i < w {
                assert(m[j] == r[j - w] + d);
                assert(0 <= r[0] <= r[j - w]);
            } else {
                assert(m[i] == r[i - w] + d);
                assert(m[j] == r[j - w] + d);
                assert(r[i - w] <= r[j - w]);
            }
        }
        assert(m.last() == r.last() + d);
    }
}

/// The unit at the head of `s` and the rest of `s` make up the bytes of `s`.
pub proof fn lemma_unit_bytes(s: Seq<char>)
    requires
        s.len() > 0,
    ensures
        utf8_len(s) == unit_width(s) + utf8_len(s.skip(unit_len(s))),
        unit_width(s) >= 1,
{
    let n = unit_len(s);
    crate::text::lemma_encode_split(s, n);
    lemma_char_bytes(s[0]);
    if n == 2 {
        lemma_char_bytes(s[1]);
        assert(s.take(2) =~= seq![s[0]].push(s[1]));
        crate::text::lemma_encode_single(s[0]);
        lemma_encode_push(seq![s[0]], s[1]);
    } else {
        assert(s.take(1) =~= seq![s[0]]);
        crate::text::lemma_encode_single(s[0]);
    }
}

/// The cleaned text grows by the bytes of the unit's character.
pub proof fn lemma_clean_len_step(s: Seq<char>)
    requires
        s.len() > 0,
    ensures
        utf8_len(clean_chars(s)) == char_width(unit_char(s)) + utf8_len(
            clean_chars(s.skip(unit_len(s))),
        ),
{
    let c = unit_char(s);
    let rest = clean_chars(s.skip(unit_len(s)));
    crate::text::lemma_encode_concat(seq![c], rest);
    crate::text::lemma_encode_single(c);
}

/// Appends `times` copies of `value` to `map`.
fn push_repeated(map: &mut Vec<usize>, value: usize, times: usize)
    ensures
        final(map)@ == old(map)@ + Seq::new(times as nat, |i: int| value),
{
    let mut j: usize = 0;
    while j < times
        invariant
            j <= times,
            map@ == old(map)@ + Seq::new(j as nat, |i: int| value),
        decreases times - j,
    {
        map.push(value);
        j += 1;
        assert(map@ =~= old(map)@ + Seq::new(j as nat, |i: int| value));
    }
}

/// Resolves the escape sequences of `text` and maps every original byte to
/// its place in the cleaned text.
///
/// A backslash consumes the character after it: `\*` leaves
/// [`ESCAPED_ASTERISK`], any other `\X` leaves `X`. A backslash at the very
/// end of the text stands for itself.
#[verifier::rlimit(50)]
pub fn preprocess_escapes(text: &str) -> (res: EscapeResult)
    ensures
        res.clean_text@ == clean_chars(text@),
        as_ints(res.original_to_clean@) == escape_map(text@),
        res.original_to_clean@.len() == utf8_len(text@) + 1,
        res.original_to_clean@.last() == utf8_len(res.clean_text@),
        forall|i: int, j: int|
            0 <= i <= j < res.original_to_clean@.len() ==> res.original_to_clean@[i]
                <= res.original_to_clean@[j],
{
    let mut clean = String::new();
    let mut map: Vec<usize> = Vec::new();
    let mut it = text.chars();
    let ghost s = text@;
    let ghost mut k: int = 0;
    proof {
        assert(s.skip(0) =~= s);
        assert(clean@ + clean_chars(s.skip(0)) =~= clean_chars(s));
        assert(utf8_len(clean@) == 0) by {
            assert(clean@ =~= Seq::<char>::empty());
        }
        assert(as_ints(map@) + shifted(escape_map(s.skip(0)), 0) =~= escape_map(s));
    }
    loop
        invariant
            s == text@,
            0 <= k <= s.len(),
            it.obeys_prophetic_iter_laws(),
            it.remaining() == s.skip(k),
            clean@ + clean_chars(s.skip(k)) == clean_chars(s),
            as_ints(map@) + shifted(escape_map(s.skip(k)), utf8_len(clean@) as int) == escape_map(
                s,
            ),
        ensures
            k == s.len(),
            clean@ + clean_chars(s.skip(k)) == clean_chars(s),
            as_ints(map@) + shifted(escape_map(s.skip(k)), utf8_len(clean@) as int) == escape_map(
                s,
            ),
        decreases s.len() - k,
    {
        let ghost rest = s.skip(k);
        let ghost old_clean = clean@;
        let ghost old_map = map@;
        match it.next() {
            None => {
                break ;
            },
            Some(c) => {
                let clean_pos = clean.as_str().as_bytes().len();
                assert(clean_pos == utf8_len(old_clean));
                let mut escaped: bool = false;
                if c == '\\' {
                    match it.next() {
                        Some(next_c) => {
                            escaped = true;
                            clean.push(
                                if next_c == '*' {
                                    ESCAPED_ASTERISK
                                } else {
                                    next_c
                                },
                            );
                            let w = next_c.len_utf8();
                            proof {
                                lemma_char_bytes(next_c);
                                lemma_char_bytes(c);
                                assert(rest.drop_first().len() > 0);
                                assert(rest[1] == next_c);
                                assert(starts_with_escape(rest));
                            }
                            push_repeated(&mut map, clean_pos, 1 + w);
                        },
                        None => {
                            proof {
                                assert(rest.len() == 1);
                                assert(!starts_with_escape(rest));
                            }
                        },
                    }
                }
                if !escaped {
                    clean.push(c);
                    let w = c.len_utf8();
                    push_repeated(&mut map, clean_pos, w);
                }
                proof {
                    let n = unit_len(rest);
                    let uc = unit_char(rest);
                    let uw = unit_width(rest);
                    let d = char_width(uc) as int;
                    let base = utf8_len(old_clean) as int;
                    assert(rest.skip(n) =~= s.skip(k + n));
                    assert(it.remaining() == s.skip(k + n)) by {
                        assert(rest.drop_first() =~= s.skip(k + 1));
                        if n == 2 {
                            assert(s.skip(k + 1).drop_first() =~= s.skip(k + 2));
                        }
                    }
                    assert(clean@ == old_clean.push(uc));
                    lemma_encode_push(old_clean, uc);
                    assert(clean@ + clean_chars(s.skip(k + n)) =~= old_clean + clean_chars(rest));
                    assert(map@ == old_map + Seq::new(uw, |i: int| clean_pos));
                    let tail = escape_map(s.skip(k + n));
                    assert(as_ints(map@) + shifted(tail, base + d) =~= as_ints(old_map) + shifted(
                        escape_map(rest),
                        base,
                    ));
                    k = k + n;
                }
            },
        }
    }
    let clean_len = clean.as_str().as_bytes().len();
    proof {
        assert(s.skip(k) =~= Seq::<char>::empty());
        assert(clean@ =~= clean_chars(s));
        assert(as_ints(map@.push(clean_len)) =~= as_ints(map@) + shifted(
            escape_map(s.skip(k)),
            utf8_len(clean@) as int,
        ));
        lemma_escape_map_shape(s);
    }
    map.push(clean_len);
    proof {
        let m = escape_map(s);
        assert forall|i: int, j: int| 0 <= i <= j < map@.len() implies map@[i] <= map@[j] by {
            assert(as_ints(map@)[i] == m[i]);
            assert(as_ints(map@)[j] == m[j]);
        }
        assert(as_ints(map@).last() == m.last());
    }
    EscapeResult { clean_text: clean, original_to_clean: map }
}

} // verus!
