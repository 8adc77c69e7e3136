use polyglot_pdf::document::SpanStyle;
use polyglot_pdf::inline_parser::{parse_inline, reserve_asterisk};

const LINES: [&str; 24] = [
    "",
    "plain",
    "*",
    "**",
    "***",
    "****",
    "******",
    "*a*",
    "**a**",
    "***a***",
    "***a**",
    "***a*",
    "**a***",
    "*a**",
    ".* **X***",
    "— **Tưởng Vĩnh Kính**, Hồ Chí Minh Tại *Trung Quốc*, Thượng Huyền dịch, ***trang 339***.",
    "**Không đọc *sử* không đủ tư cách nói chuyện *chính trị*.**",
    "( **Chính Ðạo, *Việt Nam Niên Biểu*, *Tập 1A***, trang 347 )",
    r"\*not bold\*",
    r"**bold \*inside\***",
    r"\\Úc Đại Lợi\\",
    r"***bold*** \*",
    "a\\",
    r"*a\**b* \\*c*\",
];

fn spans_of(text: &str) -> Vec<(usize, usize, SpanStyle)> {
    parse_inline(text)
        .spans
        .iter()
        .map(|s| (s.start(), s.end(), *s.style()))
        .collect()
}

fn count_char(text: &str, c: char) -> usize {
    text.chars().filter(|x| *x == c).count()
}

/// The line with every `\X` turned into `X`.
fn unescaped(line: &str) -> String {
    let mut out = String::new();
    let mut chars = line.chars();
    while let Some(c) = chars.next() {
        if c == '\\' {
            match chars.next() {
                Some(next) => out.push(next),
                None => out.push(c),
            }
        } else {
            out.push(c);
        }
    }
    out
}

#[test]
fn text_has_no_more_characters_than_the_line() {
    for line in LINES {
        let res = parse_inline(line);
        assert!(res.text.chars().count() <= line.chars().count(), "{}", line);
    }
}

#[test]
fn text_has_no_more_bytes_than_a_line_without_escaped_asterisks() {
    for line in LINES {
        if !line.contains(r"\*") {
            let res = parse_inline(line);
            assert!(res.text.len() <= line.len(), "{}", line);
        }
    }
}

#[test]
fn escaped_asterisk_makes_the_text_longer_than_the_line() {
    let res = parse_inline(r"\*");
    assert_eq!(res.text, "\u{E000}");
    assert_eq!(res.text.len(), 3);
    assert_eq!(reserve_asterisk(&res.text).len(), 1);
}

#[test]
fn rendered_text_and_removed_indicators_account_for_the_line() {
    for line in LINES {
        let res = parse_inline(line);
        let rendered = reserve_asterisk(&res.text);
        let whole = unescaped(line);
        let removed = count_char(&whole, '*') - count_char(&rendered, '*');
        assert_eq!(rendered.chars().count() + removed, whole.chars().count(), "{}", line);
        for c in whole.chars() {
            if c != '*' {
                assert_eq!(count_char(&rendered, c), count_char(&whole, c), "{}", line);
            }
        }
        let without_stars: String = whole.chars().filter(|c| *c != '*').collect();
        let rendered_without_stars: String = rendered.chars().filter(|c| *c != '*').collect();
        assert_eq!(rendered_without_stars, without_stars, "{}", line);
    }
}

#[test]
fn spans_are_ordered_and_lie_inside_the_text() {
    for line in LINES {
        let res = parse_inline(line);
        let spans = spans_of(line);
        for i in 0..spans.len() {
            let (start, end, _) = spans[i];
            assert!(start <= end && end <= res.text.len(), "{}", line);
            assert!(res.text.is_char_boundary(start) && res.text.is_char_boundary(end));
            if i > 0 {
                assert!(spans[i - 1].0 <= start, "{}", line);
            }
        }
    }
}

#[test]
fn normal_spans_share_no_byte_with_another_span() {
    for line in LINES {
        let spans = spans_of(line);
        for i in 0..spans.len() {
            if spans[i].2 != SpanStyle::Normal {
                continue;
            }
            assert!(spans[i].0 < spans[i].1, "{}", line);
            for j in 0..spans.len() {
                if i != j {
                    assert!(spans[i].1 <= spans[j].0 || spans[j].1 <= spans[i].0, "{}", line);
                }
            }
        }
    }
}

#[test]
fn normal_spans_cover_what_no_styled_span_covers() {
    for line in LINES {
        let res = parse_inline(line);
        let spans = spans_of(line);
        for p in 0..res.text.len() {
            let normal = spans
                .iter()
                .filter(|s| s.2 == SpanStyle::Normal && s.0 <= p && p < s.1)
                .count();
            let styled = spans
                .iter()
                .filter(|s| s.2 != SpanStyle::Normal && s.0 <= p && p < s.1)
                .count();
            if styled == 0 {
                assert_eq!(normal, 1, "{} at {}", line, p);
            } else {
                assert_eq!(normal, 0, "{} at {}", line, p);
            }
        }
    }
}

#[test]
fn parsing_the_text_again_finds_no_styled_span() {
    for line in LINES {
        let first = parse_inline(line);
        if first.text.contains('*') {
            continue;
        }
        let second = parse_inline(&first.text);
        for s in second.spans.iter() {
            assert_eq!(*s.style(), SpanStyle::Normal, "{}", line);
        }
        assert!(second.spans.len() <= 1);
        if !first.text.contains('\\') {
            assert_eq!(second.text, first.text, "{}", line);
        }
    }
}

#[test]
fn parsing_the_text_again_resolves_a_backslash_that_was_left() {
    let first = parse_inline(r"\\x");
    assert_eq!(first.text, r"\x");
    let second = parse_inline(&first.text);
    assert_eq!(second.text, "x");
    assert_eq!(spans_of(&first.text), vec![(0, 1, SpanStyle::Normal)]);
}

#[test]
fn triple_runs_give_one_bold_and_one_italic_span_over_the_same_range() {
    for (before, inner, after) in [
        ("", "bold", ""),
        ("a ", "x", " b"),
        ("— ", "trang 339", "."),
        ("ử", "é é", "ử"),
        ("", " ", "tail"),
    ] {
        let line = format!("{}***{}***{}", before, inner, after);
        let res = parse_inline(&line);
        assert_eq!(res.text, format!("{}{}{}", before, inner, after));
        let styled: Vec<(usize, usize, SpanStyle)> =
            spans_of(&line).into_iter().filter(|s| s.2 != SpanStyle::Normal).collect();
        let start = before.len();
        let end = before.len() + inner.len();
        assert_eq!(styled, vec![(start, end, SpanStyle::Bold), (start, end, SpanStyle::Italic)]);
    }
}

#[test]
fn triple_run_without_a_partner_of_its_width_gives_one_span() {
    assert_eq!(
        spans_of("***Tưởng Vĩnh Kính**"),
        vec![(0, 21, SpanStyle::Bold)]
    );
}

#[test]
fn line_without_asterisk_and_backslash_is_unchanged() {
    for line in ["plain", "ử é — text", " ", "a#b", "\u{E000}"] {
        let res = parse_inline(line);
        assert_eq!(res.text, line);
        assert_eq!(spans_of(line), vec![(0, line.len(), SpanStyle::Normal)]);
    }
}

#[test]
fn empty_line_has_no_text_and_no_span() {
    let res = parse_inline("");
    assert_eq!(res.text, "");
    assert_eq!(res.spans.len(), 0);
}

#[test]
fn sentinel_in_the_line_is_rendered_as_an_asterisk() {
    let res = parse_inline("a\u{E000}b");
    assert_eq!(res.text, "a\u{E000}b");
    assert_eq!(reserve_asterisk(&res.text), "a*b");
}

#[test]
fn scenario_adjacent_markers() {
    let line = "— **Tưởng Vĩnh Kính**, Hồ Chí Minh Tại *Trung Quốc*, Thượng Huyền dịch, ***trang 339***.";
    let res = parse_inline(line);
    assert_eq!(
        reserve_asterisk(&res.text),
        "— Tưởng Vĩnh Kính, Hồ Chí Minh Tại Trung Quốc, Thượng Huyền dịch, trang 339."
    );
    assert_eq!(
        spans_of(line),
        vec![
            (0, 4, SpanStyle::Normal),
            (4, 24, SpanStyle::Bold),
            (24, 47, SpanStyle::Normal),
            (47, 59, SpanStyle::Italic),
            (59, 87, SpanStyle::Normal),
            (87, 96, SpanStyle::Bold),
            (87, 96, SpanStyle::Italic),
            (96, 97, SpanStyle::Normal),
        ]
    );
    let texts: Vec<&str> = res.spans.iter().map(|s| &res.text[s.start()..s.end()]).collect();
    assert_eq!(
        texts,
        vec![
            "— ",
            "Tưởng Vĩnh Kính",
            ", Hồ Chí Minh Tại ",
            "Trung Quốc",
            ", Thượng Huyền dịch, ",
            "trang 339",
            "trang 339",
            ".",
        ]
    );
}

#[test]
fn scenario_bold_italic() {
    let res = parse_inline("***bold***");
    assert_eq!(res.text, "bold");
    assert_eq!(spans_of("***bold***"), vec![(0, 4, SpanStyle::Bold), (0, 4, SpanStyle::Italic)]);
}

#[test]
fn scenario_nested_markers() {
    let line = "**Không đọc *sử* không đủ tư cách nói chuyện *chính trị*.**";
    let res = parse_inline(line);
    assert_eq!(res.text, "Không đọc sử không đủ tư cách nói chuyện chính trị.");
    assert_eq!(
        spans_of(line),
        vec![(0, 69, SpanStyle::Bold), (14, 18, SpanStyle::Italic), (56, 68, SpanStyle::Italic)]
    );
    assert_eq!(&res.text[14..18], "sử");
    assert_eq!(&res.text[56..68], "chính trị");
}

#[test]
fn scenario_escaped_asterisks() {
    let res = parse_inline(r"\*not bold\*");
    assert_eq!(reserve_asterisk(&res.text), "*not bold*");
    assert_eq!(spans_of(r"\*not bold\*"), vec![(0, res.text.len(), SpanStyle::Normal)]);
    assert_eq!(res.text.len(), 14);
}

#[test]
fn scenario_opening_run_too_long() {
    let res = parse_inline("***Tưởng Vĩnh Kính**");
    assert_eq!(res.text, "*Tưởng Vĩnh Kính");
    assert_eq!(spans_of("***Tưởng Vĩnh Kính**"), vec![(0, res.text.len(), SpanStyle::Bold)]);
}

#[test]
fn scenario_escaped_asterisks_inside_bold() {
    let res = parse_inline(r"**bold \*inside\***");
    assert_eq!(reserve_asterisk(&res.text), "bold *inside*");
    assert_eq!(spans_of(r"**bold \*inside\***"), vec![(0, res.text.len(), SpanStyle::Bold)]);
}

#[test]
fn scenario_lone_asterisk() {
    let line = "Tưởng Vĩnh Kính (*)";
    let res = parse_inline(line);
    assert_eq!(res.text, line);
    assert_eq!(spans_of(line), vec![(0, line.len(), SpanStyle::Normal)]);
}

#[test]
fn scenario_known_oddity() {
    let line = ".* **X***";
    let res = parse_inline(line);
    assert_eq!(res.text, ". X**");
    assert_eq!(
        spans_of(line),
        vec![
            (0, 1, SpanStyle::Normal),
            (1, 2, SpanStyle::Italic),
            (2, 3, SpanStyle::Italic),
            (3, 5, SpanStyle::Normal),
        ]
    );
}
