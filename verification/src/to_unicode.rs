//! The ToUnicode CMap of an embedded font: the text that tells a reader of
//! the document which character each glyph that was written stands for.

use vstd::prelude::*;
use vstd::std_specs::iter::IteratorSpec;
use vstd::string::StringExecFns;
use vstd::utf8::is_scalar;
use crate::pdf_page::{PdfPage, PdfPages, glyph_index};

verus! {

/// `char::from_u32`: the character with the scalar value `i`, or nothing
/// when `i` is no scalar value.
pub assume_specification[ char::from_u32 ](i: u32) -> (c: Option<char>)
    ensures
        match c {
            Some(ch) => ch as u32 == i,
            None => !is_scalar(i),
        },
;

/// A UTF-16 code unit of the text and the glyph that draws its character;
/// no glyph when the font has none or when the unit alone is no character.
#[derive(Debug, Clone, Copy)]
pub struct UnitGlyph {
    pub unit: u16,
    pub glyph: Option<u16>,
}

/// Largest number of entries in one block of the mapping.
pub const BFCHAR_CHUNK: usize = 100;

/// The digit `d`, from 0 to 15, as a character; capital letters from 10 on.
pub open spec fn digit_char(d: int) -> char {
    if d < 10 {
        (48 + d) as char
    } else {
        (55 + d) as char
    }
}

/// `v` as four hexadecimal digits.
pub open spec fn hex4(v: u16) -> Seq<char> {
    seq![
        digit_char(v as int / 4096),
        digit_char(v as int / 256 % 16),
        digit_char(v as int / 16 % 16),
        digit_char(v as int % 16),
    ]
}

/// `n` in decimal digits.
pub open spec fn decimal(n: nat) -> Seq<char>
    decreases n,
{
    if n < 10 {
        seq![digit_char(n as int)]
    } else {
        decimal(n / 10).push(digit_char(n as int % 10))
    }
}

/// The UTF-16 code units of one character.
pub open spec fn char_units(c: char) -> Seq<u16> {
    let v = c as u32 as int;
    if v < 0x10000 {
        seq![v as u16]
    } else {
        seq![(0xD800 + (v - 0x10000) / 0x400) as u16, (0xDC00 + (v - 0x10000) % 0x400) as u16]
    }
}

/// The UTF-16 code units of a text.
pub open spec fn utf16_units(s: Seq<char>) -> Seq<u16>
    decreases s.len(),
{
    if s.len() == 0 {
        Seq::empty()
    } else {
        utf16_units(s.drop_last()) + char_units(s.last())
    }
}

/// The UTF-16 code units of the texts of all pages, page after page.
pub open spec fn pages_units(pages: Seq<PdfPage>) -> Seq<u16>
    decreases pages.len(),
{
    if pages.len() == 0 {
        Seq::empty()
    } else {
        pages_units(pages.drop_last()) + utf16_units(pages.last().spec_text())
    }
}

/// The line of the mapping for one code unit: its glyph and the unit, or the
/// missing glyph and the replacement character when it has no glyph.
pub open spec fn bfchar_line(e: UnitGlyph) -> Seq<char> {
    match e.glyph {
        Some(g) => seq!['<'] + hex4(g) + "> <"@ + hex4(e.unit) + ">\n"@,
        None => "<0000> <FFFD>\n"@,
    }
}

/// The lines of the mapping for `entries`, one after the other.
pub open spec fn bfchar_lines(entries: Seq<UnitGlyph>) -> Seq<char>
    decreases entries.len(),
{
    if entries.len() == 0 {
        Seq::empty()
    } else {
        bfchar_lines(entries.drop_last()) + bfchar_line(entries.last())
    }
}

/// One block of the mapping: the number of its entries, the entries, and the
/// end of the block.
pub open spec fn bfchar_block(entries: Seq<UnitGlyph>) -> Seq<char> {
    decimal(entries.len()) + " beginbfchar\n"@ + bfchar_lines(entries) + "endbfchar\n"@
}

/// The mapping for `entries` in blocks of at most `BFCHAR_CHUNK` entries;
/// nothing for no entries.
pub open spec fn bfchar_blocks(entries: Seq<UnitGlyph>) -> Seq<char>
    decreases entries.len(),
{
    if entries.len() == 0 {
        Seq::empty()
    } else if entries.len() <= BFCHAR_CHUNK {
        bfchar_block(entries)
    } else {
        bfchar_block(entries.take(BFCHAR_CHUNK as int)) + bfchar_blocks(
            entries.skip(BFCHAR_CHUNK as int),
        )
    }
}

/// What stands before the mapping in every ToUnicode CMap: the name and the
/// kind of the map, the range of the codes, and the entry for the missing
/// glyph.
pub open spec fn cmap_head() -> Seq<char> {
    "/CIDInit /ProcSet findresource begin\n"@ + "12 dict begin\n"@ + "begincmap\n"@
        + "/CIDSystemInfo << /Registry (Adobe) /Ordering (Identity) /Supplement 0 >> def\n"@
        + "/CMapName /Identity-H def\n"@ + "/CMapType 2 def\n"@ + "1 begincodespacerange\n"@
        + "<0000> <FFFF>\n"@ + "endcodespacerange\n"@ + "1 beginnotdefrange\n"@
        + "<0000> <FFFF> 0\n"@ + "endnotdefrange\n"@ + "1 beginbfchar\n"@ + "<0000> <FFFD>\n"@
        + "endbfchar\n"@
}

/// What stands after the mapping in every ToUnicode CMap.
pub open spec fn cmap_tail() -> Seq<char> {
    "endcmap\n"@ + "CMapName currentdict /CMap defineresource pop\n"@ + "end\n"@ + "end\n"@
}

/// The ToUnicode CMap with the mapping `body`.
pub open spec fn cmap_text(body: Seq<char>) -> Seq<char> {
    cmap_head() + body + cmap_tail()
}

/// True when `entries` pairs the code units `units`, one for one, with
/// glyphs, and gives no glyph to a unit that alone is no character.
pub open spec fn entries_of(entries: Seq<UnitGlyph>, units: Seq<u16>) -> bool {
    &&& entries.len() == units.len()
    &&& forall|i: int|
        0 <= i < entries.len() ==> (#[trigger] entries[i]).unit == units[i] && (0xD800
            <= units[i] <= 0xDFFF ==> entries[i].glyph is None)
}

/// Appends the digit `d` to `out`.
fn push_digit(out: &mut String, d: u8)
    requires
        d < 16,
    ensures
        final(out)@ == old(out)@.push(digit_char(d as int)),
{
    if d < 10 {
        out.push((48 + d) as char);
    } else {
        out.push((55 + d) as char);
    }
}

/// Appends `v` as four hexadecimal digits to `out`.
fn push_hex4(out: &mut String, v: u16)
    ensures
        final(out)@ == old(out)@ + hex4(v),
{
    push_digit(out, (v / 4096) as u8);
    push_digit(out, (v / 256 % 16) as u8);
    push_digit(out, (v / 16 % 16) as u8);
    push_digit(out, (v % 16) as u8);
    assert(out@ =~= old(out)@ + hex4(v));
}

/// Appends `n` in decimal digits to `out`.
fn push_decimal(out: &mut String, n: usize)
    ensures
        final(out)@ == old(out)@ + decimal(n as nat),
    decreases n,
{
    if n >= 10 {
        push_decimal(out, n / 10);
    }
    push_digit(out, (n % 10) as u8);
    assert(out@ =~= old(out)@ + decimal(n as nat));
}

/// Appends the line of the mapping for `e` to `out`.
fn push_bfchar_line(out: &mut String, e: UnitGlyph)
    ensures
        final(out)@ == old(out)@ + bfchar_line(e),
{
    match e.glyph {
        Some(g) => {
            out.push('<');
            push_hex4(out, g);
            out.append("> <");
            push_hex4(out, e.unit);
            out.append(">\n");
            assert(out@ =~= old(out)@ + bfchar_line(e));
        },
        None => {
            out.append("<0000> <FFFD>\n");
        },
    }
}

/// Appends one block of the mapping, for the entries `from..to` of
/// `entries`, to `out`.
fn push_bfchar_block(out: &mut String, entries: &Vec<UnitGlyph>, from: usize, to: usize)
    requires
        from <= to <= entries@.len(),
    ensures
        final(out)@ == old(out)@ + bfchar_block(entries@.subrange(from as int, to as int)),
{
    let ghost part = entries@.subrange(from as int, to as int);
    push_decimal(out, to - from);
    out.append(" beginbfchar\n");
    let ghost start = out@;
    let mut i: usize = from;
    proof {
        assert(part.take(0) =~= Seq::<UnitGlyph>::empty());
        assert(start + bfchar_lines(part.take(0)) =~= start);
    }
    while i < to
        invariant
            from <= i <= to,
            to <= entries@.len(),
            part == entries@.subrange(from as int, to as int),
            out@ == start + bfchar_lines(part.take(i - from)),
        decreases to - i,
    {
        push_bfchar_line(out, entries[i]);
        proof {
            assert(part.take(i - from + 1).drop_last() =~= part.take(i - from));
            assert(part.take(i - from + 1).last() == entries@[i as int]);
            assert(out@ =~= start + bfchar_lines(part.take(i - from + 1)));
        }
        i += 1;
    }
    out.append("endbfchar\n");
    proof {
        assert(part.take(to - from) =~= part);
        assert(out@ =~= old(out)@ + bfchar_block(part));
    }
}

/// A text that holds what stands before the mapping.
fn cmap_start() -> (out: String)
    ensures
        out@ == cmap_head(),
{
    let mut cmap = String::new();
    cmap.append("/CIDInit /ProcSet findresource begin\n");
    cmap.append("12 dict begin\n");
    cmap.append("begincmap\n");
    cmap.append("/CIDSystemInfo << /Registry (Adobe) /Ordering (Identity) /Supplement 0 >> def\n");
    cmap.append("/CMapName /Identity-H def\n");
    cmap.append("/CMapType 2 def\n");
    cmap.append("1 begincodespacerange\n");
    cmap.append("<0000> <FFFF>\n");
    cmap.append("endcodespacerange\n");
    cmap.append("1 beginnotdefrange\n");
    cmap.append("<0000> <FFFF> 0\n");
    cmap.append("endnotdefrange\n");
    cmap.append("1 beginbfchar\n");
    cmap.append("<0000> <FFFD>\n");
    cmap.append("endbfchar\n");
    assert(cmap@ =~= cmap_head());
    cmap
}

/// Appends what stands after the mapping to `out`.
fn push_cmap_end(out: &mut String)
    ensures
        final(out)@ == old(out)@ + cmap_tail(),
{
    out.append("endcmap\n");
    out.append("CMapName currentdict /CMap defineresource pop\n");
    out.append("end\n");
    out.append("end\n");
    assert(out@ =~= old(out)@ + cmap_tail());
}

/// The ToUnicode CMap with the mapping for `entries` in one block.
pub fn to_unicode_cmap(entries: &Vec<UnitGlyph>) -> (text: String)
    ensures
        text@ == cmap_text(bfchar_block(entries@)),
{
    let mut cmap = cmap_start();
    push_bfchar_block(&mut cmap, entries, 0, entries.len());
    assert(entries@.subrange(0, entries@.len() as int) =~= entries@);
    push_cmap_end(&mut cmap);
    assert(cmap@ =~= cmap_text(bfchar_block(entries@)));
    cmap
}

/// The ToUnicode CMap with the mapping for `entries` in blocks of at most
/// `BFCHAR_CHUNK` entries.
pub fn to_unicode_cmap_in_chunks(entries: &Vec<UnitGlyph>) -> (text: String)
    ensures
        text@ == cmap_text(bfchar_blocks(entries@)),
{
    let mut cmap = cmap_start();
    let n = entries.len();
    let mut i: usize = 0;
    proof {
        assert(entries@.skip(0) =~= entries@);
    }
    while i < n
        invariant
            i <= n,
            n == entries@.len(),
            cmap@ + bfchar_blocks(entries@.skip(i as int)) == cmap_head() + bfchar_blocks(
                entries@,
            ),
        decreases n - i,
    {
        let to: usize = if n - i <= BFCHAR_CHUNK {
            n
        } else {
            i + BFCHAR_CHUNK
        };
        let ghost before = cmap@;
        let ghost rest = entries@.skip(i as int);
        push_bfchar_block(&mut cmap, entries, i, to);
        proof {
            assert(entries@.subrange(i as int, to as int) =~= rest.take(to - i));
            if to == n {
                assert(rest.take(to - i) =~= rest);
                assert(entries@.skip(to as int) =~= Seq::<UnitGlyph>::empty());
                assert(cmap@ + bfchar_blocks(entries@.skip(to as int)) =~= before + bfchar_blocks(
                    rest,
                ));
            } else {
                assert(rest.skip(BFCHAR_CHUNK as int) =~= entries@.skip(to as int));
                assert(cmap@ + bfchar_blocks(entries@.skip(to as int)) =~= before + bfchar_blocks(
                    rest,
                ));
            }
        }
        i = to;
    }
    proof {
        assert(entries@.skip(n as int) =~= Seq::<UnitGlyph>::empty());
        assert(cmap@ =~= cmap_head() + bfchar_blocks(entries@));
    }
    push_cmap_end(&mut cmap);
    assert(cmap@ =~= cmap_text(bfchar_blocks(entries@)));
    cmap
}

/// Appends the UTF-16 code units of `text` to `units`.
pub fn push_utf16_units(units: &mut Vec<u16>, text: &str)
    ensures
        final(units)@ == old(units)@ + utf16_units(text@),
{
    let mut it = text.chars();
    let ghost s = text@;
    let ghost mut k: int = 0;
    proof {
        assert(s.skip(0) =~= s);
        assert(s.take(0) =~= Seq::<char>::empty());
        assert(units@ =~= old(units)@ + utf16_units(s.take(0)));
    }
    loop
        invariant
            s == text@,
            0 <= k <= s.len(),
            it.obeys_prophetic_iter_laws(),
            it.remaining() == s.skip(k),
            units@ == old(units)@ + utf16_units(s.take(k)),
        ensures
            units@ == old(units)@ + utf16_units(s),
        decreases s.len() - k,
    {
        match it.next() {
            None => {
                proof {
                    assert(s.take(k) =~= s);
                }
                break ;
            },
            Some(c) => {
                let v = c as u32;
                proof {
                    vstd::utf8::char_is_scalar(c);
                }
                if v < 0x10000 {
                    units.push(v as u16);
                } else {
                    let w = v - 0x10000;
                    units.push((0xD800 + w / 0x400) as u16);
                    units.push((0xDC00 + w % 0x400) as u16);
                }
                proof {
                    assert(s.skip(k).drop_first() =~= s.skip(k + 1));
                    assert(s.take(k + 1).drop_last() =~= s.take(k));
                    assert(s.take(k + 1).last() == c);
                    assert(units@ =~= old(units)@ + utf16_units(s.take(k + 1)));
                    k = k + 1;
                }
            },
        }
    }
}

/// The UTF-16 code units of the texts of all pages, page after page.
pub fn pages_utf16_units(pdf_pages: &PdfPages) -> (units: Vec<u16>)
    ensures
        units@ == pages_units(pdf_pages.spec_pages()),
{
    let mut units: Vec<u16> = Vec::new();
    let pages = pdf_pages.pages();
    let n = pages.len();
    let mut i: usize = 0;
    proof {
        assert(pages@.take(0) =~= Seq::<PdfPage>::empty());
    }
    while i < n
        invariant
            i <= n,
            n == pages@.len(),
            units@ == pages_units(pages@.take(i as int)),
        decreases n - i,
    {
        push_utf16_units(&mut units, pages[i].text());
        proof {
            assert(pages@.take(i as int + 1).drop_last() =~= pages@.take(i as int));
            assert(pages@.take(i as int + 1).last() == pages@[i as int]);
        }
        i += 1;
    }
    proof {
        assert(pages@.take(n as int) =~= pages@);
    }
    units
}

/// Pairs every code unit of `units` with the glyph that `face` draws its
/// character with. A unit that alone is no character gets no glyph.
pub fn unit_glyphs(face: &ttf_parser::Face<'_>, units: &Vec<u16>) -> (entries: Vec<UnitGlyph>)
    ensures
        entries_of(entries@, units@),
{
    let mut entries: Vec<UnitGlyph> = Vec::new();
    let n = units.len();
    let mut i: usize = 0;
    while i < n
        invariant
            i <= n,
            n == units@.len(),
            entries@.len() == i,
            forall|j: int|
                0 <= j < i ==> (#[trigger] entries@[j]).unit == units@[j] && (0xD800 <= units@[j]
                    <= 0xDFFF ==> entries@[j].glyph is None),
        decreases n - i,
    {
        let unit = units[i];
        let glyph = match char::from_u32(unit as u32) {
            Some(ch) => {
                proof {
                    vstd::utf8::char_is_scalar(ch);
                }
                glyph_index(face, ch)
            },
            None => None,
        };
        entries.push(UnitGlyph { unit, glyph });
        i += 1;
    }
    entries
}

/// The ToUnicode CMap for the texts of `pdf_pages`, with one entry for each
/// UTF-16 code unit of the texts, in one block.
///
/// Which glyphs the face gives is not known here; whatever it gives, the
/// text is the map for the code units of the pages paired with some glyphs.
/// [`to_unicode_cmap`] states the text for given glyphs.
pub fn make_to_unicode_cmap(pdf_pages: &PdfPages, face: &ttf_parser::Face<'_>) -> (text: String)
    ensures
        exists|entries: Seq<UnitGlyph>|
            entries_of(entries, pages_units(pdf_pages.spec_pages())) && text@ == cmap_text(
                bfchar_block(entries),
            ),
{
    let units = pages_utf16_units(pdf_pages);
    let entries = unit_glyphs(face, &units);
    to_unicode_cmap(&entries)
}

} // verus!
