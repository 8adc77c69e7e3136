//! Text to PDF: the parts of the pipeline that decide something.
//!
//! The heart of the crate is [`inline_parser`], which reads one line of
//! lightly marked-up text into a clean text and the byte ranges of it that
//! are bold or italic. [`blocks`] sorts the lines of a document into headers
//! and paragraphs, [`config`] and [`font_utils`] say which font and which
//! attributes the layout gets for a block, and [`pdf_page`],
//! [`glyph_widths`], [`to_unicode`] and [`pdf_font_info`] prepare what a
//! document with an embedded font subset is written from.
//!
//! Every function is verified against its contract. What is taken on trust
//! is named where it stands: a handful of functions of the standard library
//! that have no specification yet, the glyph lookup of `ttf_parser`, and the
//! random letter of `rand`.

pub mod blocks;
pub mod config;
pub mod document;
pub mod font_utils;
pub mod glyph_widths;
pub mod inline_parser;
pub mod pdf_font_info;
pub mod pdf_page;
pub mod sorting;
pub mod text;
pub mod to_unicode;
