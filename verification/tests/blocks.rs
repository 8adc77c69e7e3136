use polyglot_pdf::blocks::{block_font, detect_header, parse_block, parse_blocks};
use polyglot_pdf::config::{FontConfig, FontSpec, FontStyle, FontWeight, LAYOUT_SCALE};
use polyglot_pdf::document::{Block, Span, SpanStyle, MAX_HEADER_LEVEL};
use polyglot_pdf::font_utils::{
    block_font_attrs, block_layout_text, create_font_attrs, FontAttr, FontAttrKind,
};

fn font(family: &str, size: i32, weight: &str, style: &str) -> FontSpec {
    FontSpec::new(family.to_string(), size, weight.to_string(), style.to_string())
}

fn config() -> FontConfig {
    FontConfig::new(
        font("Body", 12, "normal", "normal"),
        vec![font("H1", 24, "bold", "normal"), font("H2", 20, "bold", "italic")],
        font("Footer", 10, "light", "normal"),
    )
}

#[test]
fn header_levels_one_to_six() {
    assert_eq!(detect_header("# Title"), Some((1, "Title")));
    assert_eq!(detect_header("## Title"), Some((2, "Title")));
    assert_eq!(detect_header("###### Six"), Some((6, "Six")));
    assert_eq!(MAX_HEADER_LEVEL, 6);
}

#[test]
fn seven_hashes_are_no_header() {
    assert_eq!(detect_header("####### Seven"), None);
    assert_eq!(detect_header("########"), None);
}

#[test]
fn line_without_leading_hash_is_no_header() {
    assert_eq!(detect_header("Title"), None);
    assert_eq!(detect_header(" # Title"), None);
    assert_eq!(detect_header("a # b"), None);
    assert_eq!(detect_header(""), None);
}

#[test]
fn header_text_is_trimmed() {
    assert_eq!(detect_header("#   Title  with  space \t"), Some((1, "Title  with  space")));
    assert_eq!(detect_header("##NoSpace"), Some((2, "NoSpace")));
    assert_eq!(detect_header("#"), Some((1, "")));
    assert_eq!(detect_header("###   "), Some((3, "")));
    assert_eq!(detect_header("# \u{3000}Tiêu đề\u{a0}"), Some((1, "Tiêu đề")));
}

#[test]
fn header_text_keeps_later_hashes_and_markers() {
    assert_eq!(detect_header("## a # b"), Some((2, "a # b")));
    assert_eq!(detect_header("# **bold**"), Some((1, "**bold**")));
    assert_eq!(detect_header("# #"), Some((1, "#")));
}

#[test]
fn header_line_becomes_a_header_block() {
    match parse_block("### **Chương** 1 ") {
        Block::Header { level, text } => {
            assert_eq!(level, 3);
            assert_eq!(text, "**Chương** 1");
        }
        Block::Paragraph { .. } => panic!("a header was expected"),
    }
}

#[test]
fn other_line_becomes_a_paragraph_block() {
    match parse_block("a **b** c") {
        Block::Paragraph { text, spans } => {
            assert_eq!(text, "a b c");
            let found: Vec<(usize, usize, SpanStyle)> =
                spans.iter().map(|s| (s.start(), s.end(), *s.style())).collect();
            assert_eq!(
                found,
                vec![(0, 2, SpanStyle::Normal), (2, 3, SpanStyle::Bold), (3, 5, SpanStyle::Normal)]
            );
        }
        Block::Header { .. } => panic!("a paragraph was expected"),
    }
}

#[test]
fn empty_line_becomes_an_empty_paragraph() {
    match parse_block("") {
        Block::Paragraph { text, spans } => {
            assert_eq!(text, "");
            assert_eq!(spans.len(), 0);
        }
        Block::Header { .. } => panic!("a paragraph was expected"),
    }
}

#[test]
fn line_of_seven_hashes_becomes_a_paragraph() {
    match parse_block("####### x") {
        Block::Paragraph { text, spans } => {
            assert_eq!(text, "####### x");
            assert_eq!(spans.len(), 1);
        }
        Block::Header { .. } => panic!("a paragraph was expected"),
    }
}

#[test]
fn lines_become_blocks_one_for_one() {
    let lines = vec!["# One".to_string(), "".to_string(), "*two*".to_string()];
    let blocks = parse_blocks(&lines);
    assert_eq!(blocks.len(), 3);
    assert!(matches!(&blocks[0], Block::Header { level: 1, text } if text == "One"));
    assert!(matches!(&blocks[1], Block::Paragraph { text, spans } if text == "" && spans.is_empty()));
    assert!(matches!(&blocks[2], Block::Paragraph { text, spans } if text == "two" && spans.len() == 1));
    assert_eq!(parse_blocks(&Vec::new()).len(), 0);
}

#[test]
fn font_of_a_block() {
    let config = config();
    let header = Block::Header { level: 2, text: "t".to_string() };
    assert_eq!(block_font(&header, &config).family(), "H2");
    let header = Block::Header { level: 1, text: "t".to_string() };
    assert_eq!(block_font(&header, &config).family(), "H1");
    let paragraph = Block::Paragraph { text: "t".to_string(), spans: vec![] };
    assert_eq!(block_font(&paragraph, &config).family(), "Body");
}

#[test]
fn font_spec_getters() {
    let f = font("Noto Sans", 12, "bold", "italic");
    assert_eq!(f.family(), "Noto Sans");
    assert_eq!(f.size(), 12);
    assert_eq!(f.weight(), "bold");
    assert_eq!(f.style(), "italic");
}

#[test]
fn font_config_getters() {
    let config = config();
    assert_eq!(config.paragraph().family(), "Body");
    assert_eq!(config.headers().len(), 2);
    assert_eq!(config.headers()[1].size(), 20);
    assert_eq!(config.page_number().weight(), "light");
}

#[test]
fn font_weight_words() {
    assert_eq!(font("f", 1, "thin", "").font_weight(), FontWeight::Thin);
    assert_eq!(font("f", 1, "light", "").font_weight(), FontWeight::Light);
    assert_eq!(font("f", 1, "medium", "").font_weight(), FontWeight::Medium);
    assert_eq!(font("f", 1, "bold", "").font_weight(), FontWeight::Bold);
    assert_eq!(font("f", 1, "normal", "").font_weight(), FontWeight::Normal);
    assert_eq!(font("f", 1, "Bold", "").font_weight(), FontWeight::Normal);
    assert_eq!(font("f", 1, "bolder", "").font_weight(), FontWeight::Normal);
    assert_eq!(font("f", 1, "", "").font_weight(), FontWeight::Normal);
}

#[test]
fn font_style_words() {
    assert_eq!(font("f", 1, "", "italic").font_style(), FontStyle::Italic);
    assert_eq!(font("f", 1, "", "normal").font_style(), FontStyle::Normal);
    assert_eq!(font("f", 1, "", "oblique").font_style(), FontStyle::Normal);
    assert_eq!(font("f", 1, "", "Italic").font_style(), FontStyle::Normal);
}

#[test]
fn font_size_in_layout_units() {
    assert_eq!(LAYOUT_SCALE, 1024);
    assert_eq!(font("f", 12, "", "").scaled_size(), Some(12288));
    assert_eq!(font("f", 0, "", "").scaled_size(), Some(0));
    assert_eq!(font("f", -2, "", "").scaled_size(), Some(-2048));
    assert_eq!(font("f", 2097151, "", "").scaled_size(), Some(2147482624));
    assert_eq!(font("f", 2097152, "", "").scaled_size(), None);
    assert_eq!(font("f", i32::MIN, "", "").scaled_size(), None);
}

#[test]
fn attributes_of_a_span() {
    assert_eq!(create_font_attrs(&Span::normal(0, 5)), vec![]);
    assert_eq!(
        create_font_attrs(&Span::new(4, 24, 2)),
        vec![FontAttr { kind: FontAttrKind::WeightBold, start_index: 4, end_index: 24 }]
    );
    assert_eq!(
        create_font_attrs(&Span::new(47, 59, 1)),
        vec![FontAttr { kind: FontAttrKind::StyleItalic, start_index: 47, end_index: 59 }]
    );
}

#[test]
fn attributes_of_a_block() {
    let block = parse_block("a ***b*** c *d*");
    assert_eq!(
        block_font_attrs(&block),
        vec![
            FontAttr { kind: FontAttrKind::WeightBold, start_index: 2, end_index: 3 },
            FontAttr { kind: FontAttrKind::StyleItalic, start_index: 2, end_index: 3 },
            FontAttr { kind: FontAttrKind::StyleItalic, start_index: 6, end_index: 7 },
        ]
    );
    assert_eq!(block_font_attrs(&parse_block("# **h**")), vec![]);
}

#[test]
fn layout_text_of_a_block() {
    assert_eq!(block_layout_text(&parse_block(r"a \* **b**")), "a * b");
    assert_eq!(block_layout_text(&parse_block(r"# a \* **b**")), r"a \* **b**");
    let header = Block::Header { level: 1, text: "x\u{E000}".to_string() };
    assert_eq!(block_layout_text(&header), "x\u{E000}");
}
