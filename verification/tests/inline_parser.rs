use polyglot_pdf::document::{Span, SpanStyle};
use polyglot_pdf::inline_parser::markers::MarkerEvent;
use polyglot_pdf::inline_parser::matcher::get_marker_events;
use polyglot_pdf::inline_parser::{parse_inline, reserve_asterisk};
// Valid
const MARKDOWN_01: &str = "— **Tưởng Vĩnh Kính**, Hồ Chí Minh Tại *Trung Quốc*, \
    Thượng Huyền dịch, ***trang 339***.";
const CLEAN_01: &str = "— Tưởng Vĩnh Kính, Hồ Chí Minh Tại Trung Quốc, \
    Thượng Huyền dịch, trang 339.";

const MARKDOWN_02: &str = "— **Tưởng Vĩnh Kính**, Hồ Chí Minh Tại *Trung Quốc*, \
    Thượng Huyền dịch, ***trang 339***.*";
const CLEAN_02: &str = "— Tưởng Vĩnh Kính, Hồ Chí Minh Tại Trung Quốc, \
    Thượng Huyền dịch, trang 339.*";

// MARKDOWN_03: `Tưởng Vĩnh Kính` in bold, followed by `*`.
// MARKDOWN_04: `*Tưởng Vĩnh Kính` in bold.
// MARKDOWN_05: `**` follows by `Tưởng Vĩnh Kính` in italic.
const MARKDOWN_03: &str = "**Tưởng Vĩnh Kính***";
const CLEAN_03: &str = "Tưởng Vĩnh Kính*";
const MARKDOWN_04: &str = "***Tưởng Vĩnh Kính**";
const CLEAN_04: &str = "*Tưởng Vĩnh Kính";
const MARKDOWN_05: &str = "***Tưởng Vĩnh Kính*";
const CLEAN_05: &str = "**Tưởng Vĩnh Kính";

// Valid
const MARKDOWN_06: &str = "Tưởng Vĩnh Kính (*)";
// Valid adjacent markers
const MARKDOWN_07: &str = "***bold***text**more**";
const CLEAN_07: &str = "boldtextmore";

// Valid escape
const MARKDOWN_08: &str = r"***bold*** \*";
const CLEAN_08: &str = "bold *";
const MARKDOWN_09: &str = r"\*not bold\*";
const CLEAN_09: &str = "*not bold*";
const MARKDOWN_10: &str = r"**bold \*inside\***";
const CLEAN_10: &str = "bold *inside*";
const MARKDOWN_11: &str = r"\\Úc Đại Lợi\\";
const CLEAN_11: &str = r"\Úc Đại Lợi\";
const MARKDOWN_12: &str = r"**bold \\Úc Đại Lợi\\**";
const CLEAN_12: &str = r"bold \Úc Đại Lợi\";

// Valid nested
const MARKDOWN_13: &str = "**bold *italic inside bold* bold**";
const CLEAN_13: &str = "bold italic inside bold bold";
const MARKDOWN_14: &str = "**Không đọc *sử* không đủ tư cách nói chuyện *chính trị*.**";
const CLEAN_14: &str = "Không đọc sử không đủ tư cách nói chuyện chính trị.";

const FINAL_MARKDOWN: &str = "— **Tưởng Vĩnh Kính**, Hồ Chí Minh Tại *Trung Quốc*, \
    Thượng Huyền dịch, ***trang 339***.* **Tưởng Vĩnh Kính***";

// `MARKDOWN_02 + " " + MARKDOWN_03` introduces additional markdown, which makes
// the final text not equal to `CLEAN_02 + " " + CLEAN_03`!
const FINAL_CLEAN: &str = "— Tưởng Vĩnh Kính, Hồ Chí Minh Tại Trung Quốc, \
    Thượng Huyền dịch, trang 339. Tưởng Vĩnh Kính**";

const MARKDOWN_BUG_01: &str = "( **Chính Ðạo, *Việt Nam Niên Biểu*, *Tập 1A***, trang 347 )";
const CLEAN_BUG_01: &str = "( Chính Ðạo, Việt Nam Niên Biểu, Tập 1A, trang 347 )";

const MARKDOWN_BUG_02: &str = "***bold***";
const CLEAN_BUG_02: &str = "bold";
const MARKDOWN_BUG_03: &str = "**xy, *bc*, *de***";
const CLEAN_BUG_03: &str = "xy, bc, de";
const MARKDOWN_BUG_04: &str = "***xy* z**";
const CLEAN_BUG_04: &str = "xy z";

// 0: . | 1: * | 2:  | 3: * | 4: * | 5: T | 6: Æ | 7: ° | 8: á | 9: » |
// 10:  | 11: n | 12: g | 13:  | 14: V | 15: Ä | 16: © |  17: n | 18: h |
// 19:  | 20: K | 21: Ã | 22: ­| 23: n | 24: h | 25: * | 26: * | 27: *
// This is an oddity, if this was a real intention, it should have been
// written more explicitly. These cases are not guaranteed to produce
// what the users expect.
//
// A normal `.`, followed by an italic ` `, finally `. Tưởng Vĩnh Kính**` in space.
const MARKDOWN_BUG_05: &str = ".* **Tưởng Vĩnh Kính***";
const CLEAN_BUG_05: &str = ". Tưởng Vĩnh Kính**";

fn verify_marker(marker: &MarkerEvent, count: usize,
    opening_start_byte: usize, closing_start_byte: usize) {
    assert_eq!(marker.opening.count, count, "opening count");
    assert_eq!(marker.closing.count, count, "closing count");
    assert_eq!(marker.opening.start_byte, opening_start_byte, "opening start byte");
    assert_eq!(marker.closing.start_byte, closing_start_byte, "closing start byte");
}

#[test]
fn test_get_marker_events_valid_01() {
    let res = get_marker_events(MARKDOWN_01);
    let events = &res.marker_events;
    let clean_text = &res.escape.clean_text;

    assert_eq!(events.len(), 4, "number of events");

    verify_marker(&events[0], 2, 4, 26);
    verify_marker(&events[1], 1, 51, 64);
    verify_marker(&events[2], 2, 93, 106);
    verify_marker(&events[3], 1, 95, 105);

    let event = &events[0];
    assert_eq!(&clean_text[0..event.opening.start_byte], "— ", "span 1");

    // Marker indicators are single-byte.
    let start = event.opening.count + event.opening.start_byte;
    assert_eq!(start, 6, "start 1");

    assert_eq!(&clean_text[start..event.closing.start_byte], "Tưởng Vĩnh Kính", "span 2");

    let start = event.opening.count + event.closing.start_byte;
    assert_eq!(start, 28, "start 2");

    let event = &events[1];
    assert_eq!(&clean_text[start..event.opening.start_byte], ", Hồ Chí Minh Tại ", "span 3");

    let start = event.opening.count + event.opening.start_byte;
    assert_eq!(start, 52, "start 3");

    assert_eq!(&clean_text[start..event.closing.start_byte], "Trung Quốc", "span 4");
    let start = event.opening.count + event.closing.start_byte;
    assert_eq!(start, 65, "start 4");

    let event = &events[2];
    assert_eq!(&clean_text[start..event.opening.start_byte], ", Thượng Huyền dịch, ", "span 5");

    let start = event.opening.count + event.opening.start_byte;
    assert_eq!(start, 95, "start 5 bold");

    assert_eq!(&clean_text[start..event.closing.start_byte], "*trang 339*", "span 6 bold");

    let event = &events[3];

    let start = event.opening.count + event.opening.start_byte;
    assert_eq!(start, 96, "start 5 italic");

    assert_eq!(&clean_text[start..event.closing.start_byte], "trang 339", "span 6 italic");

    let start = event.opening.count + event.closing.start_byte;
    assert_eq!(start, 106, "start 6");

    // "**." appears unintuitive -- at the final stage, the marker indicators
    //     get removed, `start_byte`s get adjusted. Perhaps it makes more sense
    //     then.
    assert_eq!(&clean_text[start..], "**.", "span 7");
}

#[test]
/// An extension of `test_get_marker_events_valid_01()`: the text just has has
/// an `*` appended to the end. The last span text is `.*` instead of `.`.
fn test_get_marker_events_valid_02() {
    let res = get_marker_events(MARKDOWN_02);
    let events = &res.marker_events;
    let clean_text = &res.escape.clean_text;

    assert_eq!(events.len(), 4, "number of events");

    let event = &events[3];

    let start = event.opening.count + event.closing.start_byte;
    assert_eq!(start, 106, "start 6");

    // "**." appears unintuitive -- at the final stage, the marker indicators
    //     get removed, `start_byte`s get adjusted. Perhaps it makes more sense
    //     then.
    assert_eq!(&clean_text[start..], "**.*", "span 7");
}

#[test]
fn test_get_marker_events_uneven_markers_01() {
    // `Tưởng Vĩnh Kính` in bold, followed by `*`.
    let res = get_marker_events(MARKDOWN_03);
    let events = &res.marker_events;
    let clean_text = &res.escape.clean_text;

    assert_eq!(res.marker_events.len(), 1, "MARKDOWN_03 number of events");

    let event = &events[0];
    let start = event.opening.count + event.opening.start_byte;
    assert_eq!(&clean_text[start..event.closing.start_byte], "Tưởng Vĩnh Kính", "MARKDOWN_03 span 1");

    // `*Tưởng Vĩnh Kính` in bold.
    let res = get_marker_events(MARKDOWN_04);
    let events = &res.marker_events;
    let clean_text = &res.escape.clean_text;

    assert_eq!(res.marker_events.len(), 1, "MARKDOWN_04 number of events");

    let event = &events[0];
    let start = event.opening.count + event.opening.start_byte;
    assert_eq!(&clean_text[start..event.closing.start_byte], "*Tưởng Vĩnh Kính", "MARKDOWN_04 span 1");

    // `**` follows by `Tưởng Vĩnh Kính` in italic.
    let res = get_marker_events(MARKDOWN_05);
    let events = &res.marker_events;
    let clean_text = &res.escape.clean_text;

    assert_eq!(res.marker_events.len(), 1, "MARKDOWN_05 number of events");

    let event = &events[0];
    let start = event.opening.count + event.opening.start_byte;
    assert_eq!(&clean_text[start..event.closing.start_byte], "Tưởng Vĩnh Kính", "MARKDOWN_05 span 1");
}

#[test]
fn test_get_marker_events_valid_03() {
    let res = get_marker_events(MARKDOWN_06);
    assert_eq!(res.marker_events.len(), 0, "number of events");
    assert_eq!(&res.escape.clean_text, MARKDOWN_06, "text");
}

#[test]
/// Handle adjacent markers.
fn test_get_marker_events_valid_04() {
    let res = get_marker_events(MARKDOWN_07);
    let events = &res.marker_events;

    assert_eq!(events.len(), 3, "number of events");

    verify_marker(&events[0], 2, 0, 8);
    verify_marker(&events[1], 1, 2, 7);
    verify_marker(&events[2], 2, 14, 20);
}

#[test]
/// Escape supporting: `\*` is treated as literal string `*`.
fn test_get_marker_events_escaped_01() {
    let res = get_marker_events(MARKDOWN_08);
    let events = &res.marker_events;
    let clean_text = &res.escape.clean_text;

    assert_eq!(events.len(), 2, "number of events");

    verify_marker(&events[0], 2, 0, 8);
    verify_marker(&events[1], 1, 2, 7);

    let event = &events[0];
    // Marker indicators are single-byte.
    let start = event.opening.count + event.opening.start_byte;
    assert_eq!(&clean_text[start..event.closing.start_byte], "*bold*", "span 1 bold");

    let event = &events[1];
    let start = event.opening.count + event.opening.start_byte;
    assert_eq!(&clean_text[start..event.closing.start_byte], "bold", "span 1 italic");

    let start = event.opening.count + event.closing.start_byte;
    let span_2 = &clean_text[start..];
    // "** *" appears unintuitive -- at the final stage, the marker indicators
    //     get removed, `start_byte`s get adjusted. Perhaps it makes more sense
    //     then.
    assert_eq!(span_2, "** ", "span 2");
}

#[test]
/// Escape supporting: `\*` is treated as literal string `*`.
/// `r"\*not bold\*"` → `*not bold*`, no markers.
fn test_get_marker_events_escaped_02() {
    let res = get_marker_events(MARKDOWN_09);
    let events = &res.marker_events;
    // Note: must call reserve_asterisk()!
    let clean_text = reserve_asterisk(&res.escape.clean_text);

    assert_eq!(events.len(), 0, "number of events");
    assert_eq!(clean_text, CLEAN_09, "clean text");
}

#[test]
/// `r"**bold \*inside\***"` → bold span over `bold *inside*`.
/// Gets turned into: `**bold inside**` which is 21 bytes.
/// Then `**bold inside**` is fed into the parser.
fn test_get_marker_events_escaped_03() {
    let res = get_marker_events(MARKDOWN_10);
    let events = &res.marker_events;
    let clean_text = &res.escape.clean_text;

    assert_eq!(events.len(), 1, "number of events");

    verify_marker(&events[0], 2, 0, 19);

    let event = &events[0];
    // Marker indicators are single-byte.
    let start = event.opening.count + event.opening.start_byte;
    assert_eq!(&clean_text[start..event.closing.start_byte], "bold inside", "span 1");
}

#[test]
/// `r"\\Úc Đại Lợi\\"` → `\Úc Đại Lợi\`, no markers.
fn test_get_marker_events_escaped_04() {
    let res = get_marker_events(MARKDOWN_11);
    let events = &res.marker_events;
    // Note: must call reserve_asterisk()!
    let clean_text = reserve_asterisk(&res.escape.clean_text);

    assert_eq!(events.len(), 0, "number of events");
    assert_eq!(clean_text, CLEAN_11, "clean text");
}

#[test]
/// `r"**bold \\Úc Đại Lợi\\**"` → bold span over `bold \Úc Đại Lợi\`.
/// Gets turned into: `**bold \Úc Đại Lợi\**` which is 27 bytes.
fn test_get_marker_events_escaped_05() {
    let res = get_marker_events(MARKDOWN_12);
    let events = &res.marker_events;
    let clean_text = &res.escape.clean_text;

    assert_eq!(events.len(), 1, "number of events");

    verify_marker(&events[0], 2, 0, 25);

    let event = &events[0];
    // Marker indicators are single-byte.
    let start = event.opening.count + event.opening.start_byte;
    assert_eq!(&clean_text[start..event.closing.start_byte], CLEAN_12, "span 1");
}

#[test]
/// Nested markdown results in overlapped spans.
fn test_get_marker_events_nested_01() {
    let res = get_marker_events(MARKDOWN_13);
    let events = &res.marker_events;
    let clean_text = &res.escape.clean_text;

    assert_eq!(events.len(), 2, "number of events");

    verify_marker(&events[0], 2, 0, 32);
    verify_marker(&events[1], 1, 7, 26);

    let event = &events[0];
    let start = event.opening.count + event.opening.start_byte;
    assert_eq!(&clean_text[start..event.closing.start_byte],
        "bold *italic inside bold* bold", "span 1");

    let event = &events[1];
    let start = event.opening.count + event.opening.start_byte;
    assert_eq!(&clean_text[start..event.closing.start_byte],
        "italic inside bold", "span 2");
}

#[test]
/// Nested markdown results in overlapped spans.
fn test_get_marker_events_nested_02() {
    let res = get_marker_events(MARKDOWN_14);
    let events = &res.marker_events;
    let clean_text = &res.escape.clean_text;

    assert_eq!(events.len(), 3, "number of events");

    verify_marker(&events[0], 2, 0, 75);
    verify_marker(&events[1], 1, 16, 21);
    verify_marker(&events[2], 1, 60, 73);

    let event = &events[0];
    let start = event.opening.count + event.opening.start_byte;
    assert_eq!(&clean_text[start..event.closing.start_byte],
        "Không đọc *sử* không đủ tư cách nói chuyện *chính trị*.", "span 1");

    let event = &events[1];
    let start = event.opening.count + event.opening.start_byte;
    assert_eq!(&clean_text[start..event.closing.start_byte], "sử", "span 2");

    let event = &events[2];
    let start = event.opening.count + event.opening.start_byte;
    assert_eq!(&clean_text[start..event.closing.start_byte], "chính trị", "span 3");
}

#[test]
fn test_get_marker_events_bug_fix_01() {
    /*
    let res = get_marker_events("a, **xy, *bc*, *de***, w");
    let events = &res.marker_events;
    let clean_text = &res.escape.clean_text;

    assert_eq!(events.len(), 3, "number of events");

    let event = &events[0];
    let start = event.opening.count + event.opening.start_byte;
    assert_eq!(&clean_text[start..event.closing.start_byte], "xy, *bc*, *de*", "span 1");

    let event = &events[1];
    let start = event.opening.count + event.opening.start_byte;
    assert_eq!(&clean_text[start..event.closing.start_byte], "bc", "span 2");

    let event = &events[2];
    let start = event.opening.count + event.opening.start_byte;
    assert_eq!(&clean_text[start..event.closing.start_byte], "de", "span 3");
    */

    let res = get_marker_events(MARKDOWN_BUG_01);
    let events = &res.marker_events;
    let clean_text = &res.escape.clean_text;

    assert_eq!(events.len(), 3, "number of events");

    let event = &events[0];
    let start = event.opening.count + event.opening.start_byte;
    assert_eq!(&clean_text[start..event.closing.start_byte],
        "Chính Ðạo, *Việt Nam Niên Biểu*, *Tập 1A*", "span 1");

    let event = &events[1];
    let start = event.opening.count + event.opening.start_byte;
    assert_eq!(&clean_text[start..event.closing.start_byte],
        "Việt Nam Niên Biểu", "span 2");

    let event = &events[2];
    let start = event.opening.count + event.opening.start_byte;
    assert_eq!(&clean_text[start..event.closing.start_byte], "Tập 1A", "span 3");
}

#[test]
fn test_get_marker_events_bug_fix_02() {
    let res = get_marker_events(MARKDOWN_BUG_02);
    let events = &res.marker_events;
    let clean_text = &res.escape.clean_text;

    assert_eq!(events.len(), 2, "MARKDOWN_BUG_02 number of events");

    let event = &events[0];
    let start = event.opening.count + event.opening.start_byte;
    assert_eq!(&clean_text[start..event.closing.start_byte],
        "*bold*", "MARKDOWN_BUG_02 span 1 bold");

    let event = &events[1];
    let start = event.opening.count + event.opening.start_byte;
    assert_eq!(&clean_text[start..event.closing.start_byte],
        "bold", "MARKDOWN_BUG_02 span 1 italic");

    //
    let res = get_marker_events(MARKDOWN_BUG_03);
    let events = &res.marker_events;
    let clean_text = &res.escape.clean_text;

    assert_eq!(events.len(), 3, "MARKDOWN_BUG_03 number of events");

    let event = &events[0];
    let start = event.opening.count + event.opening.start_byte;
    assert_eq!(&clean_text[start..event.closing.start_byte],
        "xy, *bc*, *de*", "MARKDOWN_BUG_03 span 1 bold");

    let event = &events[1];
    let start = event.opening.count + event.opening.start_byte;
    assert_eq!(&clean_text[start..event.closing.start_byte],
        "bc", "MARKDOWN_BUG_03 span 2 italic");

    let event = &events[2];
    let start = event.opening.count + event.opening.start_byte;
    assert_eq!(&clean_text[start..event.closing.start_byte],
        "de", "MARKDOWN_BUG_03 span 3 italic");

    //
    let res = get_marker_events(MARKDOWN_BUG_04);
    let events = &res.marker_events;
    let clean_text = &res.escape.clean_text;

    assert_eq!(events.len(), 2, "MARKDOWN_BUG_04 number of events");

    let event = &events[0];
    let start = event.opening.count + event.opening.start_byte;
    assert_eq!(&clean_text[start..event.closing.start_byte],
        "*xy* z", "MARKDOWN_BUG_04 span 1 bold");

    let event = &events[1];
    let start = event.opening.count + event.opening.start_byte;
    assert_eq!(&clean_text[start..event.closing.start_byte],
        "xy", "MARKDOWN_BUG_04 span 2 italic");

}

#[test]
// This is an oddity, if this was a real intention, it should have been
// written more explicitly. These cases are not guaranteed to produce
// what the users expect.
fn test_get_marker_events_bug_fix_03() {
    let res = get_marker_events(MARKDOWN_BUG_05);
    let events = &res.marker_events;
    let clean_text = &res.escape.clean_text;

    assert_eq!(events.len(), 2, "MARKDOWN_BUG_05 number of events");

    let event = &events[0];
    let start = event.opening.count + event.opening.start_byte;
    assert_eq!(&clean_text[start..event.closing.start_byte],
        " ", "MARKDOWN_BUG_05 span 1 italic");

    let event = &events[1];
    let start = event.opening.count + event.opening.start_byte;
    assert_eq!(&clean_text[start..event.closing.start_byte],
        "Tưởng Vĩnh Kính", "MARKDOWN_BUG_05 span 2 italic");
}

fn verify_span(span: &Span, final_text: &str, text: &str, style: SpanStyle, label: &str) {
    assert_eq!(final_text[span.start()..span.end()], *text,
        "{}", format!("{}: text", label));
    assert_eq!(*span.style(), style, "{}", format!("{}: style", label));
}

#[test]
fn test_parse_inline_valid_01() {
    let res = parse_inline(MARKDOWN_01);

    let text = res.text();

    assert_eq!(text, CLEAN_01, "text");

    let spans = res.spans();
    assert_eq!(spans.len(), 8, "span length");

    verify_span(&spans[0], text, "— ", SpanStyle::Normal, "span 1");
    verify_span(&spans[1], text, "Tưởng Vĩnh Kính", SpanStyle::Bold, "span 2");
    verify_span(&spans[2], text, ", Hồ Chí Minh Tại ", SpanStyle::Normal, "span 3");
    verify_span(&spans[3], text, "Trung Quốc", SpanStyle::Italic, "span 4");
    verify_span(&spans[4], text, ", Thượng Huyền dịch, ", SpanStyle::Normal, "span 5");
    verify_span(&spans[5], text, "trang 339", SpanStyle::Bold, "span 6");
    verify_span(&spans[6], text, "trang 339", SpanStyle::Italic, "span 7");
    verify_span(&spans[7], text, ".", SpanStyle::Normal, "span 8");
}

#[test]
/// An extension of `test_parse_inline_valid_01()`: the text just has has
/// an `*` appended to the end. The last span text is `.*` instead of `.`.
fn test_parse_inline_valid_02() {
    let res = parse_inline(MARKDOWN_02);

    let text = res.text();

    assert_eq!(text, CLEAN_02, "text");

    let spans = res.spans();
    assert_eq!(spans.len(), 8, "span length");

    verify_span(&spans[7], text, ".*", SpanStyle::Normal, "span 7");
}

#[test]
fn test_parse_inline_uneven_markers_01() {
    let res = parse_inline(MARKDOWN_03);

    let text = res.text();
    assert_eq!(text, CLEAN_03, "CLEAN_03 text");
    let spans = res.spans();
    assert_eq!(spans.len(), 2, "MARKDOWN_03 span length");
    verify_span(&spans[0], text, "Tưởng Vĩnh Kính", SpanStyle::Bold, "MARKDOWN_03 span 1");
    verify_span(&spans[1], text, "*", SpanStyle::Normal, "MARKDOWN_03 span 2");

    //
    let res = parse_inline(MARKDOWN_04);

    let text = res.text();
    assert_eq!(text, CLEAN_04, "CLEAN_04 text");
    let spans = res.spans();
    assert_eq!(spans.len(), 1, "MARKDOWN_04 span length");
    verify_span(&spans[0], text, "*Tưởng Vĩnh Kính", SpanStyle::Bold, "MARKDOWN_04 span 1");

    //
    let res = parse_inline(MARKDOWN_05);

    let text = res.text();
    assert_eq!(text, CLEAN_05, "CLEAN_05 text");
    let spans = res.spans();
    assert_eq!(spans.len(), 2, "MARKDOWN_05 span length");
    verify_span(&spans[0], text, "**", SpanStyle::Normal, "MARKDOWN_05 span 1");
    verify_span(&spans[1], text, "Tưởng Vĩnh Kính", SpanStyle::Italic, "MARKDOWN_05 span 2");
}

#[test]
fn test_parse_inline_valid_03() {
    let res = parse_inline(MARKDOWN_06);

    let text = res.text();

    assert_eq!(text, MARKDOWN_06, "text");

    let spans = res.spans();
    assert_eq!(spans.len(), 1, "span length");

    verify_span(&spans[0], text, MARKDOWN_06, SpanStyle::Normal, "span 1");
}

#[test]
/// Handle adjacent markers.
fn test_parse_inline_valid_04() {
    let res = parse_inline(MARKDOWN_07);

    let text = res.text();

    assert_eq!(text, CLEAN_07, "text");

    let spans = res.spans();
    assert_eq!(spans.len(), 4, "span length");

    verify_span(&spans[0], text, "bold", SpanStyle::Bold, "span 1 bold");
    verify_span(&spans[1], text, "bold", SpanStyle::Italic, "span 1 italic");
    verify_span(&spans[2], text, "text", SpanStyle::Normal, "span 2");
    verify_span(&spans[3], text, "more", SpanStyle::Bold, "span 3");
}

#[test]
/// Escape supporting: `\*` is treated as literal string `*`.
fn test_parse_inline_escaped_01() {
    let res = parse_inline(MARKDOWN_08);

    let text = res.text();

    // Note reserve_asterisk() call here and in verify_span().
    assert_eq!(reserve_asterisk(text), CLEAN_08, "text");

    let spans = res.spans();
    assert_eq!(spans.len(), 3, "span length");

    verify_span(&spans[0], text, "bold", SpanStyle::Bold, "span 1 bold");
    verify_span(&spans[1], text, "bold", SpanStyle::Italic, "span 1 italic");
    verify_span(&spans[2], text, " ", SpanStyle::Normal, "span 2");
}

#[test]
/// Escape supporting: `\*` is treated as literal string `*`.
/// `r"\*not bold\*"` → `*not bold*`, no markers.
fn test_parse_inline_escaped_02() {
    let res = parse_inline(MARKDOWN_09);

    let text = res.text();

    // Note reserve_asterisk() call here and in verify_span().
    assert_eq!(reserve_asterisk(text), CLEAN_09, "text");

    let spans = res.spans();
    assert_eq!(spans.len(), 1, "span length");

    verify_span(&spans[0], text, "not bold", SpanStyle::Normal, "span 1");
}

#[test]
/// Escape supporting: `\*` is treated as literal string `*`.
/// `r"**bold \*inside\***"` → bold span over `bold *inside*`.
fn test_parse_inline_escaped_03() {
    let res = parse_inline(MARKDOWN_10);

    let text = res.text();

    // Note reserve_asterisk() call here and in verify_span().
    assert_eq!(reserve_asterisk(text), CLEAN_10, "text");

    let spans = res.spans();
    assert_eq!(spans.len(), 1, "span length");

    verify_span(&spans[0], text, "bold inside", SpanStyle::Bold, "span 1");
}

#[test]
/// Escape supporting: `\\` is treated as literal string `\`.
/// `r"\\Úc Đại Lợi\\"` → `\Úc Đại Lợi\`, no markers.
fn test_parse_inline_escaped_04() {
    let res = parse_inline(MARKDOWN_11);

    let text = res.text();

    // Note reserve_asterisk() call here and in verify_span().
    assert_eq!(reserve_asterisk(text), CLEAN_11, "text");

    let spans = res.spans();
    assert_eq!(spans.len(), 1, "span length");

    verify_span(&spans[0], text, r"\Úc Đại Lợi\", SpanStyle::Normal, "span 1");
}

#[test]
/// Escape supporting: `\\` is treated as literal string `\`.
/// `r"**bold \\Úc Đại Lợi\\**"` → bold span over `bold \Úc Đại Lợi\`.
fn test_parse_inline_escaped_05() {
    let res = parse_inline(MARKDOWN_12);

    let text = res.text();

    // Note reserve_asterisk() call here and in verify_span().
    assert_eq!(reserve_asterisk(text), CLEAN_12, "text");

    let spans = res.spans();
    assert_eq!(spans.len(), 1, "span length");

    verify_span(&spans[0], text, r"bold \Úc Đại Lợi\", SpanStyle::Bold, "span 1");
}

#[test]
/// Nested markdown results in overlapped spans.
fn test_parse_inline_nested_01() {
    let res = parse_inline(MARKDOWN_13);

    let text = res.text();

    // Note reserve_asterisk() call here and in verify_span().
    assert_eq!(reserve_asterisk(text), CLEAN_13, "text");

    let spans = res.spans();
    assert_eq!(spans.len(), 2, "span length");

    verify_span(&spans[0], text, CLEAN_13, SpanStyle::Bold, "span 1");
    verify_span(&spans[1], text, "italic inside bold", SpanStyle::Italic, "span 2");
}

#[test]
/// Nested markdown results in overlapped spans.
fn test_parse_inline_nested_02() {
    let res = parse_inline(MARKDOWN_14);

    let text = res.text();

    // Note reserve_asterisk() call here and in verify_span().
    assert_eq!(reserve_asterisk(text), CLEAN_14, "text");

    let spans = res.spans();
    assert_eq!(spans.len(), 3, "span length");

    verify_span(&spans[0], text, CLEAN_14, SpanStyle::Bold, "span 1");
    verify_span(&spans[1], text, "sử", SpanStyle::Italic, "span 2");
    verify_span(&spans[2], text, "chính trị", SpanStyle::Italic, "span 3");
}

#[test]
fn test_parse_inline() {
    let res = parse_inline(FINAL_MARKDOWN);

    let text = res.text();

    assert_eq!(reserve_asterisk(text), FINAL_CLEAN, "text");

    let spans = res.spans();
    // MARKDOWN_02 → 8; MARKDOWN_03 → 11;
    assert_eq!(spans.len(), 11, "span length");

    // MARKDOWN_02.
    verify_span(&spans[0], text, "— ", SpanStyle::Normal, "span 1");
    verify_span(&spans[1], text, "Tưởng Vĩnh Kính", SpanStyle::Bold, "span 2");
    verify_span(&spans[2], text, ", Hồ Chí Minh Tại ", SpanStyle::Normal, "span 3");
    verify_span(&spans[3], text, "Trung Quốc", SpanStyle::Italic, "span 4");
    verify_span(&spans[4], text, ", Thượng Huyền dịch, ", SpanStyle::Normal, "span 5");
    verify_span(&spans[5], text, "trang 339", SpanStyle::Bold, "span 6 bold");
    verify_span(&spans[6], text, "trang 339", SpanStyle::Italic, "span 6 italic");
    verify_span(&spans[7], text,".", SpanStyle::Normal, "span 7 normal");

    // MARKDOWN_03.
    verify_span(&spans[8], text," ", SpanStyle::Italic, "span 8 normal");
    verify_span(&spans[9], text, "Tưởng Vĩnh Kính", SpanStyle::Italic, "span 9 italic");
    verify_span(&spans[10], text, "**", SpanStyle::Normal, "span 10 normal");
}

#[test]
fn test_parse_inline_bug_fix_01() {
    let res = parse_inline(MARKDOWN_BUG_01);

    let text = res.text();

    assert_eq!(reserve_asterisk(text), CLEAN_BUG_01, "text");

    let spans = res.spans();
    assert_eq!(spans.len(), 5, "span length");

    verify_span(&spans[0], text, "( ", SpanStyle::Normal, "span 1");
    verify_span(&spans[1], text, "Chính Ðạo, Việt Nam Niên Biểu, Tập 1A", SpanStyle::Bold, "span 2");
    verify_span(&spans[2], text, "Việt Nam Niên Biểu", SpanStyle::Italic, "span 3");
    verify_span(&spans[3], text, "Tập 1A", SpanStyle::Italic, "span 4");
    verify_span(&spans[4], text, ", trang 347 )", SpanStyle::Normal, "span 5");
}

#[test]
fn test_parse_inline_bug_fix_02() {
    let res = parse_inline(MARKDOWN_BUG_02);

    let text = res.text();
    assert_eq!(reserve_asterisk(text), CLEAN_BUG_02, "CLEAN_BUG_02 text");

    let spans = res.spans();
    assert_eq!(spans.len(), 2, "MARKDOWN_BUG_02 span length");

    verify_span(&spans[0], text, "bold", SpanStyle::Bold, "MARKDOWN_BUG_02 span 1 bold");
    verify_span(&spans[1], text, "bold", SpanStyle::Italic, "MARKDOWN_BUG_02 span 1 italic");

    //
    let res = parse_inline(MARKDOWN_BUG_03);

    let text = res.text();
    assert_eq!(reserve_asterisk(text), CLEAN_BUG_03, "CLEAN_BUG_03 text");

    let spans = res.spans();
    assert_eq!(spans.len(), 3, "MARKDOWN_BUG_03 span length");

    verify_span(&spans[0], text, "xy, bc, de", SpanStyle::Bold, "MARKDOWN_BUG_03 span 1 bold");
    verify_span(&spans[1], text, "bc", SpanStyle::Italic, "MARKDOWN_BUG_03 span 2 italic");
    verify_span(&spans[2], text, "de", SpanStyle::Italic, "MARKDOWN_BUG_03 span 3 italic");

    //
    let res = parse_inline(MARKDOWN_BUG_04);

    let text = res.text();
    assert_eq!(reserve_asterisk(text), CLEAN_BUG_04, "CLEAN_BUG_04 text");

    let spans = res.spans();
    assert_eq!(spans.len(), 2, "MARKDOWN_BUG_04 span length");

    verify_span(&spans[0], text, "xy z", SpanStyle::Bold, "MARKDOWN_BUG_04 span 1 bold");
    verify_span(&spans[1], text, "xy", SpanStyle::Italic, "MARKDOWN_BUG_04 span 2 italic");
}

#[test]
// This is an oddity, if this was a real intention, it should have been
// written more explicitly. These cases are not guaranteed to produce
// what the users expect.
fn test_parse_inline_bug_fix_03() {
    let res = parse_inline(MARKDOWN_BUG_05);

    let text = res.text();
    assert_eq!(reserve_asterisk(text), CLEAN_BUG_05, "MARKDOWN_BUG_05 text");

    let spans = res.spans();
    assert_eq!(spans.len(), 4, "MARKDOWN_BUG_05 span length");

    verify_span(&spans[0], text, ".", SpanStyle::Normal, "MARKDOWN_BUG_05 span 1 normal");
    verify_span(&spans[1], text, " ", SpanStyle::Italic, "MARKDOWN_BUG_05 span 2 italic");
    verify_span(&spans[2], text, "Tưởng Vĩnh Kính", SpanStyle::Italic, "MARKDOWN_BUG_05 span 3 italic");
    verify_span(&spans[3], text, "**", SpanStyle::Normal, "MARKDOWN_BUG_05 span 4 normal");
}

