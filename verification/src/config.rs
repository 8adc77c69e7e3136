//! Font configuration: which font a paragraph, a header of each level and
//! the page number are set in.

use vstd::prelude::*;
use crate::text::str_eq;

verus! {

/// How heavy a font is drawn.
#[derive(PartialEq, Eq, Structural, Debug, Clone, Copy)]
pub enum FontWeight {
    Thin,
    Light,
    Medium,
    Bold,
    Normal,
}

/// Whether a font is slanted.
#[derive(PartialEq, Eq, Structural, Debug, Clone, Copy)]
pub enum FontStyle {
    Italic,
    Normal,
}

/// Number of layout units in one point of font size.
pub const LAYOUT_SCALE: i32 = 1024;

/// The weight that the word `s` names; any word that names none stands for
/// the normal weight.
pub open spec fn weight_of(s: Seq<char>) -> FontWeight {
    if s == "thin"@ {
        FontWeight::Thin
    } else if s == "light"@ {
        FontWeight::Light
    } else if s == "medium"@ {
        FontWeight::Medium
    } else if s == "bold"@ {
        FontWeight::Bold
    } else {
        FontWeight::Normal
    }
}

/// The style that the word `s` names; any word but `italic` stands for the
/// normal style.
pub open spec fn style_of(s: Seq<char>) -> FontStyle {
    if s == "italic"@ {
        FontStyle::Italic
    } else {
        FontStyle::Normal
    }
}

/// A font as the configuration names it.
#[derive(Debug)]
pub struct FontSpec {
    family: String,
    size: i32,
    weight: String,
    style: String,
}

/// The fonts of a document.
#[derive(Debug)]
pub struct FontConfig {
    paragraph: FontSpec,
    headers: Vec<FontSpec>,
    page_number: FontSpec,
}

impl FontSpec {
    /// The font family name.
    pub closed spec fn spec_family(&self) -> Seq<char> {
        self.family@
    }

    /// The font size in points.
    pub closed spec fn spec_size(&self) -> int {
        self.size as int
    }

    /// The word for the weight.
    pub closed spec fn spec_weight(&self) -> Seq<char> {
        self.weight@
    }

    /// The word for the style.
    pub closed spec fn spec_style(&self) -> Seq<char> {
        self.style@
    }

    /// A font of the family `family` at `size` points, with the words
    /// `weight` and `style` for its weight and style.
    pub fn new(family: String, size: i32, weight: String, style: String) -> (spec: Self)
        ensures
            spec.spec_family() == family@,
            spec.spec_size() == size,
            spec.spec_weight() == weight@,
            spec.spec_style() == style@,
    {
        FontSpec { family, size, weight, style }
    }

    /// The font family name.
    pub fn family(&self) -> (family: &str)
        ensures
            family@ == self.spec_family(),
    {
        self.family.as_str()
    }

    /// The font size in points.
    pub fn size(&self) -> (size: i32)
        ensures
            size == self.spec_size(),
    {
        self.size
    }

    /// The word for the weight.
    pub fn weight(&self) -> (weight: &str)
        ensures
            weight@ == self.spec_weight(),
    {
        self.weight.as_str()
    }

    /// The word for the style.
    pub fn style(&self) -> (style: &str)
        ensures
            style@ == self.spec_style(),
    {
        self.style.as_str()
    }

    /// The weight that the font is drawn in.
    pub fn font_weight(&self) -> (weight: FontWeight)
        ensures
            weight == weight_of(self.spec_weight()),
    {
        let word = self.weight.as_str();
        if str_eq(word, "thin") {
            FontWeight::Thin
        } else if str_eq(word, "light") {
            FontWeight::Light
        } else if str_eq(word, "medium") {
            FontWeight::Medium
        } else if str_eq(word, "bold") {
            FontWeight::Bold
        } else {
            FontWeight::Normal
        }
    }

    /// The style that the font is drawn in.
    pub fn font_style(&self) -> (style: FontStyle)
        ensures
            style == style_of(self.spec_style()),
    {
        if str_eq(self.style.as_str(), "italic") {
            FontStyle::Italic
        } else {
            FontStyle::Normal
        }
    }

    /// The font size in layout units, when that fits.
    pub fn scaled_size(&self) -> (scaled: Option<i32>)
        ensures
            match scaled {
                Some(v) => v == self.spec_size() * LAYOUT_SCALE,
                None => self.spec_size() * LAYOUT_SCALE > i32::MAX || self.spec_size()
                    * LAYOUT_SCALE < i32::MIN,
            },
    {
        self.size.checked_mul(LAYOUT_SCALE)
    }
}

impl FontConfig {
    /// The font of paragraphs.
    pub closed spec fn spec_paragraph(&self) -> FontSpec {
        self.paragraph
    }

    /// The fonts of headers, the font of level 1 first.
    pub closed spec fn spec_headers(&self) -> Seq<FontSpec> {
        self.headers@
    }

    /// The font of the page number.
    pub closed spec fn spec_page_number(&self) -> FontSpec {
        self.page_number
    }

    /// The configuration with the fonts given.
    pub fn new(paragraph: FontSpec, headers: Vec<FontSpec>, page_number: FontSpec) -> (config:
        Self)
        ensures
            config.spec_paragraph() == paragraph,
            config.spec_headers() == headers@,
            config.spec_page_number() == page_number,
    {
        FontConfig { paragraph, headers, page_number }
    }

    /// The font of paragraphs.
    pub fn paragraph(&self) -> (font: &FontSpec)
        ensures
            *font == self.spec_paragraph(),
    {
        &self.paragraph
    }

    /// The fonts of headers, the font of level 1 first.
    pub fn headers(&self) -> (fonts: &[FontSpec])
        ensures
            fonts@ == self.spec_headers(),
    {
        self.headers.as_slice()
    }

    /// The font of the page number.
    pub fn page_number(&self) -> (font: &FontSpec)
        ensures
            *font == self.spec_page_number(),
    {
        &self.page_number
    }
}

} // verus!
