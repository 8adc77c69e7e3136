//! Reads the lines of a document into blocks: a line that starts with one to
//! six `#` is a header, any other line is a paragraph.

use vstd::prelude::*;
use vstd::std_specs::iter::IteratorSpec;
use vstd::string::StrSliceExecFns;
use crate::config::{FontConfig, FontSpec};
use crate::document::{Block, Span, MAX_HEADER_LEVEL};
use crate::inline_parser::{InlineParseResult, final_spans, final_text, parse_inline};
use crate::inline_parser::spans::span_views;

verus! {

/// True when `c` has the Unicode property `White_Space`, which is what
/// `str::trim` removes.
pub uninterp spec fn is_white_space(c: char) -> bool;

/// `s` without the white space at its start.
pub open spec fn trim_start(s: Seq<char>) -> Seq<char>
    decreases s.len(),
{
    if s.len() > 0 && is_white_space(s[0]) {
        trim_start(s.drop_first())
    } else {
        s
    }
}

/// `s` without the white space at its end.
pub open spec fn trim_end(s: Seq<char>) -> Seq<char>
    decreases s.len(),
{
    if s.len() > 0 && is_white_space(s.last()) {
        trim_end(s.drop_last())
    } else {
        s
    }
}

/// `s` without the white space at its start and at its end.
pub open spec fn trimmed(s: Seq<char>) -> Seq<char> {
    trim_end(trim_start(s))
}

/// `str::trim`: the text without the characters of the Unicode property
/// `White_Space` at its start and at its end. Which characters have that
/// property is not stated here.
pub assume_specification[ str::trim ](s: &str) -> (out: &str)
    ensures
        out@ == trimmed(s@),
        out@.len() > 0 ==> !is_white_space(out@[0]) && !is_white_space(out@.last()),
;

/// Number of `#` at the start of `s`.
pub open spec fn leading_hashes(s: Seq<char>) -> nat
    decreases s.len(),
{
    if s.len() > 0 && s[0] == '#' {
        1 + leading_hashes(s.drop_first())
    } else {
        0
    }
}

/// True when `s` is a header line: it starts with one to six `#`.
pub open spec fn is_header_line(s: Seq<char>) -> bool {
    1 <= leading_hashes(s) <= MAX_HEADER_LEVEL
}

/// The text of the header line `s`: what follows the `#`, without the white
/// space around it.
pub open spec fn header_text(s: Seq<char>) -> Seq<char> {
    trimmed(s.skip(leading_hashes(s) as int))
}

/// True when `block` is what the line `line` reads as.
pub open spec fn is_block_of(block: Block, line: Seq<char>) -> bool {
    match block {
        Block::Header { level, text } => {
            &&& is_header_line(line)
            &&& level == leading_hashes(line)
            &&& text@ == header_text(line)
        },
        Block::Paragraph { text, spans } => {
            &&& !is_header_line(line)
            &&& text@ == final_text(line)
            &&& span_views(spans@) == final_spans(line)
        },
    }
}

/// The `#` at the start of `s` are among its first characters, and counting
/// them from a later `#` on gives the rest of them.
pub proof fn lemma_leading_hashes(s: Seq<char>, k: int)
    requires
        0 <= k <= s.len(),
        forall|j: int| 0 <= j < k ==> s[j] == '#',
    ensures
        leading_hashes(s) == k + leading_hashes(s.skip(k)),
        leading_hashes(s) <= s.len(),
    decreases k,
{
    if k > 0 {
        lemma_leading_hashes(s, k - 1);
        let rest = s.skip(k - 1);
        assert(rest[0] == '#');
        assert(rest.drop_first() =~= s.skip(k));
    } else {
        assert(s.skip(0) =~= s);
    }
    lemma_leading_hashes_bound(s.skip(k));
}

/// There are no more `#` at the start of `s` than characters in `s`.
pub proof fn lemma_leading_hashes_bound(s: Seq<char>)
    ensures
        leading_hashes(s) <= s.len(),
    decreases s.len(),
{
    if s.len() > 0 && s[0] == '#' {
        lemma_leading_hashes_bound(s.drop_first());
    }
}

/// The level and the text of a header line, or nothing for any other line.
///
/// The level is the number of `#` at the start of the line, from one to
/// six; the text is what follows them, without the white space around it.
pub fn detect_header(line: &str) -> (header: Option<(usize, &str)>)
    ensures
        match header {
            Some((level, text)) => {
                &&& is_header_line(line@)
                &&& level == leading_hashes(line@)
                &&& text@ == header_text(line@)
            },
            None => !is_header_line(line@),
        },
{
    let total = line.unicode_len();
    let mut count: usize = 0;
    let mut it = line.chars();
    proof {
        assert(line@.skip(0) =~= line@);
    }
    loop
        invariant_except_break
            it.obeys_prophetic_iter_laws(),
            it.remaining() == line@.skip(count as int),
        invariant
            total == line@.len(),
            count <= total,
            forall|j: int| 0 <= j < count ==> line@[j] == '#',
        ensures
            count <= total,
            total == line@.len(),
            count == leading_hashes(line@),
        decreases total - count,
    {
        match it.next() {
            Some(c) => {
                if c == '#' {
                    proof {
                        assert(line@.skip(count as int).drop_first() =~= line@.skip(
                            count as int + 1,
                        ));
                    }
                    count += 1;
                } else {
                    proof {
                        lemma_leading_hashes(line@, count as int);
                    }
                    break ;
                }
            },
            None => {
                proof {
                    lemma_leading_hashes(line@, count as int);
                }
                break ;
            },
        }
    }
    if count > 0 && count <= MAX_HEADER_LEVEL {
        let rest = line.substring_char(count, total);
        proof {
            assert(line@.subrange(count as int, total as int) =~= line@.skip(count as int));
        }
        Some((count, rest.trim()))
    } else {
        None
    }
}

/// The block that the line `line` reads as: a header with its level and
/// text, or a paragraph with the text and the spans that the line parses to.
pub fn parse_block(line: &str) -> (block: Block)
    ensures
        is_block_of(block, line@),
{
    match detect_header(line) {
        Some((level, text)) => Block::Header { level: level as u8, text: text.to_owned() },
        None => {
            let res = parse_inline(line);
            let InlineParseResult { text, spans } = res;
            Block::Paragraph { text, spans }
        },
    }
}

/// The blocks that the lines `lines` read as, one for one.
pub fn parse_blocks(lines: &Vec<String>) -> (blocks: Vec<Block>)
    ensures
        blocks@.len() == lines@.len(),
        forall|i: int| 0 <= i < lines@.len() ==> is_block_of(#[trigger] blocks@[i], lines@[i]@),
{
    let mut blocks: Vec<Block> = Vec::new();
    let n = lines.len();
    let mut i: usize = 0;
    while i < n
        invariant
            i <= n,
            n == lines@.len(),
            blocks@.len() == i,
            forall|j: int| 0 <= j < i ==> is_block_of(#[trigger] blocks@[j], lines@[j]@),
        decreases n - i,
    {
        let block = parse_block(lines[i].as_str());
        blocks.push(block);
        i += 1;
    }
    blocks
}

/// True when the configuration has a font for `block`: any paragraph, and a
/// header whose level is among the header fonts.
pub open spec fn has_font_for(block: Block, font_config: FontConfig) -> bool {
    match block {
        Block::Header { level, text } => 1 <= level <= font_config.spec_headers().len(),
        Block::Paragraph { text, spans } => true,
    }
}

/// True when the configuration has a font for `block`.
pub fn has_font(block: &Block, font_config: &FontConfig) -> (found: bool)
    ensures
        found == has_font_for(*block, *font_config),
{
    match block {
        Block::Header { level, text: _ } => {
            let fonts = font_config.headers();
            1 <= *level && (*level as usize) <= fonts.len()
        },
        Block::Paragraph { text: _, spans: _ } => true,
    }
}

/// The font that `block` is set in: the header font of its level for a
/// header, the paragraph font for a paragraph.
pub fn block_font<'a>(block: &'a Block, font_config: &'a FontConfig) -> (font: &'a FontSpec)
    requires
        has_font_for(*block, *font_config),
    ensures
        match *block {
            Block::Header { level, text } => *font == font_config.spec_headers()[level - 1],
            Block::Paragraph { text, spans } => *font == font_config.spec_paragraph(),
        },
{
    match block {
        Block::Header { level, text: _ } => {
            let fonts = font_config.headers();
            &fonts[(*level - 1) as usize]
        },
        Block::Paragraph { text: _, spans: _ } => font_config.paragraph(),
    }
}

} // verus!
