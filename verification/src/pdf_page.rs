//! The pages of a document as text, and the glyphs that draw them.

use vstd::prelude::*;
use vstd::std_specs::iter::IteratorSpec;
use vstd::string::StringExecFns;
use crate::sorting::{SortKey, key_fn, sorted_by, stable_sort, sort_stable, lemma_stable_sort};

verus! {

/// A parsed font face of `ttf_parser`. Nothing is known of what it holds.
#[verifier::external_type_specification]
#[verifier::external_body]
pub struct ExFace<'a>(ttf_parser::Face<'a>);

/// `ttf_parser::Face::glyph_index`: the glyph that the face draws `ch` with,
/// if it has one. Nothing is claimed of which glyph that is.
#[verifier::external_body]
pub(crate) fn glyph_index(face: &ttf_parser::Face<'_>, ch: char) -> (gid: Option<u16>) {
    face.glyph_index(ch).map(|g| g.0)
}

impl SortKey for u16 {
    open spec fn key(self) -> int {
        self as int
    }

    fn sort_key(&self) -> (k: usize) {
        *self as usize
    }
}

/// The glyph ids as bytes, two for each, the high byte first.
pub open spec fn glyph_be_bytes(glyphs: Seq<u16>) -> Seq<u8>
    decreases glyphs.len(),
{
    if glyphs.len() == 0 {
        Seq::empty()
    } else {
        glyph_be_bytes(glyphs.drop_last()) + seq![
            (glyphs.last() / 256) as u8,
            (glyphs.last() % 256) as u8,
        ]
    }
}

/// `cids` with the glyph ids of `glyphs` that it lacks, each added once, in
/// the order in which they first appear.
pub open spec fn with_new_cids(cids: Seq<u16>, glyphs: Seq<u16>) -> Seq<u16>
    decreases glyphs.len(),
{
    if glyphs.len() == 0 {
        cids
    } else {
        let before = with_new_cids(cids, glyphs.drop_last());
        if before.contains(glyphs.last()) {
            before
        } else {
            before.push(glyphs.last())
        }
    }
}

/// The texts joined by single spaces.
pub open spec fn joined(texts: Seq<Seq<char>>) -> Seq<char>
    decreases texts.len(),
{
    if texts.len() == 0 {
        Seq::empty()
    } else if texts.len() == 1 {
        texts[0]
    } else {
        joined(texts.drop_last()) + seq![' '] + texts.last()
    }
}

/// Two bytes per glyph.
pub proof fn lemma_glyph_be_bytes_len(glyphs: Seq<u16>)
    ensures
        glyph_be_bytes(glyphs).len() == 2 * glyphs.len(),
    decreases glyphs.len(),
{
    if glyphs.len() > 0 {
        lemma_glyph_be_bytes_len(glyphs.drop_last());
    }
}

/// One page of a document.
pub struct PdfPage {
    /// Text of the page.
    text: String,
    /// The glyph ids of the text as bytes, two for each, the high byte first.
    glyph_bytes: Vec<u8>,
}

/// The pages of a document.
pub struct PdfPages {
    /// All pages.
    pages: Vec<PdfPage>,
    /// The glyph ids that the pages use, each once.
    used_cids: Vec<u16>,
}

impl PdfPage {
    /// The text of the page.
    pub closed spec fn spec_text(&self) -> Seq<char> {
        self.text@
    }

    /// The glyph bytes of the page.
    pub closed spec fn spec_glyph_bytes(&self) -> Seq<u8> {
        self.glyph_bytes@
    }

    /// A page with the text `page_text` and no glyphs yet.
    pub fn new(page_text: &str) -> (page: Self)
        ensures
            page.spec_text() == page_text@,
            page.spec_glyph_bytes() == Seq::<u8>::empty(),
    {
        Self { text: page_text.to_owned(), glyph_bytes: Vec::<u8>::new() }
    }

    /// The text of the page.
    pub fn text(&self) -> (text: &str)
        ensures
            text@ == self.spec_text(),
    {
        self.text.as_str()
    }

    /// The glyph bytes of the page.
    pub fn glyph_bytes(&self) -> (bytes: &Vec<u8>)
        ensures
            bytes@ == self.spec_glyph_bytes(),
    {
        &self.glyph_bytes
    }
}

/// The texts of `pages`, one for one.
pub open spec fn page_texts(pages: Seq<PdfPage>) -> Seq<Seq<char>> {
    Seq::new(pages.len(), |i: int| pages[i].spec_text())
}

/// True when `cids` holds `gid`.
fn contains_cid(cids: &Vec<u16>, gid: u16) -> (found: bool)
    ensures
        found == cids@.contains(gid),
{
    let mut i: usize = 0;
    while i < cids.len()
        invariant
            i <= cids@.len(),
            forall|j: int| 0 <= j < i ==> cids@[j] != gid,
        decreases cids@.len() - i,
    {
        if cids[i] == gid {
            return true;
        }
        i += 1;
    }
    false
}

/// The glyph of every character of `text`, glyph 0 where the face has none.
fn lookup_glyphs(face: &ttf_parser::Face<'_>, text: &str) -> (glyphs: Vec<u16>)
    ensures
        glyphs@.len() == text@.len(),
{
    let mut glyphs: Vec<u16> = Vec::new();
    let mut it = text.chars();
    let ghost mut k: int = 0;
    proof {
        assert(text@.skip(0) =~= text@);
    }
    loop
        invariant
            0 <= k <= text@.len(),
            it.obeys_prophetic_iter_laws(),
            it.remaining() == text@.skip(k),
            glyphs@.len() == k,
        ensures
            glyphs@.len() == text@.len(),
        decreases text@.len() - k,
    {
        match it.next() {
            None => {
                break ;
            },
            Some(ch) => {
                let gid = match glyph_index(face, ch) {
                    Some(gid) => gid,
                    None => 0u16,
                };
                glyphs.push(gid);
                proof {
                    assert(text@.skip(k).drop_first() =~= text@.skip(k + 1));
                    k = k + 1;
                }
            },
        }
    }
    glyphs
}

impl PdfPages {
    /// The pages.
    pub closed spec fn spec_pages(&self) -> Seq<PdfPage> {
        self.pages@
    }

    /// The glyph ids in use.
    pub closed spec fn spec_used_cids(&self) -> Seq<u16> {
        self.used_cids@
    }

    /// A document without pages.
    pub fn new() -> (pages: Self)
        ensures
            pages.spec_pages() == Seq::<PdfPage>::empty(),
            pages.spec_used_cids() == Seq::<u16>::empty(),
    {
        Self { pages: Vec::<PdfPage>::new(), used_cids: Vec::<u16>::new() }
    }

    /// The document with one more page, whose text is `page_text`.
    pub fn add_page(self, page_text: &str) -> (pages: Self)
        ensures
            pages.spec_pages().len() == self.spec_pages().len() + 1,
            pages.spec_pages().drop_last() == self.spec_pages(),
            pages.spec_pages().last().spec_text() == page_text@,
            pages.spec_pages().last().spec_glyph_bytes() == Seq::<u8>::empty(),
            pages.spec_used_cids() == self.spec_used_cids(),
    {
        let mut pages = self;
        pages.pages.push(PdfPage::new(page_text));
        assert(pages.pages@.drop_last() =~= self.pages@);
        pages
    }

    /// The pages.
    pub fn pages(&self) -> (pages: &Vec<PdfPage>)
        ensures
            pages@ == self.spec_pages(),
    {
        &self.pages
    }

    /// The texts of all pages, joined by single spaces.
    pub fn all_text(&self) -> (text: String)
        ensures
            text@ == joined(page_texts(self.spec_pages())),
    {
        let mut out = String::new();
        let ghost texts = page_texts(self.pages@);
        let n = self.pages.len();
        let mut i: usize = 0;
        proof {
            assert(texts.take(0) =~= Seq::<Seq<char>>::empty());
        }
        while i < n
            invariant
                i <= n,
                n == self.pages@.len(),
                texts == page_texts(self.pages@),
                out@ == joined(texts.take(i as int)),
            decreases n - i,
        {
            if i > 0 {
                out.push(' ');
            }
            out.append(self.pages[i].text.as_str());
            proof {
                assert(texts.take(i as int + 1).drop_last() =~= texts.take(i as int));
                assert(texts.take(i as int + 1).last() == self.pages@[i as int].spec_text());
                if i == 0 {
                    assert(out@ =~= texts[0]);
                }
            }
            i += 1;
        }
        proof {
            assert(texts.take(n as int) =~= texts);
        }
        out
    }

    /// The glyph ids in use.
    pub fn used_cids(&self) -> (cids: &Vec<u16>)
        ensures
            cids@ == self.spec_used_cids(),
    {
        &self.used_cids
    }

    /// Appends the bytes of `glyphs` to the glyph bytes of page `page`, and
    /// adds to the glyph ids in use those of `glyphs` that are new.
    pub fn record_glyphs(&mut self, page: usize, glyphs: &Vec<u16>)
        requires
            page < old(self).spec_pages().len(),
        ensures
            final(self).spec_pages().len() == old(self).spec_pages().len(),
            final(self).spec_pages()[page as int].spec_text() == old(self).spec_pages()[page as int].spec_text(),
            final(self).spec_pages()[page as int].spec_glyph_bytes() == old(
                self,
            ).spec_pages()[page as int].spec_glyph_bytes() + glyph_be_bytes(glyphs@),
            forall|j: int|
                0 <= j < old(self).spec_pages().len() && j != page ==> final(self).spec_pages()[j]
                    == old(self).spec_pages()[j],
            final(self).spec_used_cids() == with_new_cids(old(self).spec_used_cids(), glyphs@),
    {
        let n = glyphs.len();
        let mut i: usize = 0;
        proof {
            assert(glyphs@.take(0) =~= Seq::<u16>::empty());
            assert(self.pages@[page as int].glyph_bytes@ + glyph_be_bytes(glyphs@.take(0))
                =~= self.pages@[page as int].glyph_bytes@);
        }
        while i < n
            invariant
                i <= n,
                n == glyphs@.len(),
                page < self.pages@.len(),
                self.pages@.len() == old(self).pages@.len(),
                self.pages@[page as int].text == old(self).pages@[page as int].text,
                self.pages@[page as int].glyph_bytes@ == old(
                    self,
                ).pages@[page as int].glyph_bytes@ + glyph_be_bytes(glyphs@.take(i as int)),
                forall|j: int|
                    0 <= j < self.pages@.len() && j != page ==> self.pages@[j] == old(
                        self,
                    ).pages@[j],
                self.used_cids@ == with_new_cids(old(self).used_cids@, glyphs@.take(i as int)),
            decreases n - i,
        {
            let gid = glyphs[i];
            if !contains_cid(&self.used_cids, gid) {
                self.used_cids.push(gid);
            }
            let ghost bytes_before = self.pages@[page as int].glyph_bytes@;
            self.pages[page].glyph_bytes.push((gid / 256) as u8);
            self.pages[page].glyph_bytes.push((gid % 256) as u8);
            proof {
                assert(glyphs@.take(i as int + 1).drop_last() =~= glyphs@.take(i as int));
                assert(glyphs@.take(i as int + 1).last() == gid);
                assert(self.pages@[page as int].glyph_bytes@ =~= old(
                    self,
                ).pages@[page as int].glyph_bytes@ + glyph_be_bytes(glyphs@.take(i as int + 1)));
            }
            i += 1;
        }
        proof {
            assert(glyphs@.take(n as int) =~= glyphs@);
        }
    }

    /// Orders the glyph ids in use from the smallest to the largest.
    pub fn sort_used_cids(&mut self)
        ensures
            final(self).spec_pages() == old(self).spec_pages(),
            final(self).spec_used_cids() == stable_sort(
                old(self).spec_used_cids(),
                key_fn::<u16>(),
            ),
            sorted_by(final(self).spec_used_cids(), key_fn::<u16>()),
    {
        proof {
            lemma_stable_sort(self.used_cids@, key_fn::<u16>());
        }
        sort_stable(&mut self.used_cids);
    }

    /// Looks up the glyph of every character of every page in `face`, glyph
    /// 0 where the face has none, appends the glyphs of each page to its
    /// glyph bytes, and collects the glyph ids in use, ordered from the
    /// smallest to the largest.
    ///
    /// Which glyphs the face gives is not known here: whatever it gives,
    /// every page keeps its text and gains two bytes per character, and the
    /// glyph ids in use come out ordered. [`PdfPages::record_glyphs`] states
    /// what is done with the glyphs of one page.
    pub fn prepare_used_cids_glyph_bytes(&mut self, face: &ttf_parser::Face<'_>)
        ensures
            final(self).spec_pages().len() == old(self).spec_pages().len(),
            forall|j: int|
                0 <= j < old(self).spec_pages().len() ==> {
                    &&& (#[trigger] final(self).spec_pages()[j]).spec_text() == old(
                        self,
                    ).spec_pages()[j].spec_text()
                    &&& final(self).spec_pages()[j].spec_glyph_bytes().len() == old(
                        self,
                    ).spec_pages()[j].spec_glyph_bytes().len() + 2 * old(
                        self,
                    ).spec_pages()[j].spec_text().len()
                },
            sorted_by(final(self).spec_used_cids(), key_fn::<u16>()),
    {
        let n = self.pages.len();
        let mut i: usize = 0;
        while i < n
            invariant
                i <= n,
                n == self.pages@.len(),
                n == old(self).pages@.len(),
                forall|j: int|
                    0 <= j < n ==> (#[trigger] self.pages@[j]).text@ == old(self).pages@[j].text@,
                forall|j: int|
                    0 <= j < i ==> (#[trigger] self.pages@[j]).glyph_bytes@.len() == old(
                        self,
                    ).pages@[j].glyph_bytes@.len() + 2 * old(self).pages@[j].text@.len(),
                forall|j: int|
                    i <= j < n ==> (#[trigger] self.pages@[j]).glyph_bytes@ == old(
                        self,
                    ).pages@[j].glyph_bytes@,
            decreases n - i,
        {
            let glyphs = lookup_glyphs(face, self.pages[i].text.as_str());
            proof {
                lemma_glyph_be_bytes_len(glyphs@);
            }
            self.record_glyphs(i, &glyphs);
            i += 1;
        }
        self.sort_used_cids();
    }
}

} // verus!
