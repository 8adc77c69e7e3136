//! Where the font programs are found, and the name a font subset is
//! embedded under.

use vstd::prelude::*;
use vstd::string::StringExecFns;
use rand::Rng;

verus! {

/// `str::eq_ignore_ascii_case`: true when the two texts are the same once
/// the ASCII letters `A` to `Z` of both are turned into `a` to `z`.
pub assume_specification[ str::eq_ignore_ascii_case ](a: &str, b: &str) -> (same: bool)
    ensures
        same == (ascii_lowered(a@) == ascii_lowered(b@)),
;

/// One letter drawn by `rand` from its `Alphabetic` distribution with the
/// thread's generator: a byte in `a` to `z` or `A` to `Z`. Nothing is claimed
/// of which letter comes.
#[verifier::external_body]
fn random_letter() -> (letter: u8)
    ensures
        (0x41 <= letter <= 0x5A) || (0x61 <= letter <= 0x7A),
{
    rand::rng().sample(rand::distr::Alphabetic)
}

/// `c` with an ASCII capital letter turned into its small letter.
pub open spec fn ascii_lower(c: char) -> char {
    if 'A' <= c <= 'Z' {
        ((c as u8) + 32) as char
    } else {
        c
    }
}

/// `s` with every ASCII capital letter turned into its small letter.
pub open spec fn ascii_lowered(s: Seq<char>) -> Seq<char> {
    Seq::new(s.len(), |i: int| ascii_lower(s[i]))
}

/// Length of the tag that starts the embedded name of a font subset.
pub const FONT_TAG_LEN: usize = 6;

/// True when `tag` is six ASCII capital letters.
pub open spec fn is_font_tag(tag: Seq<char>) -> bool {
    &&& tag.len() == FONT_TAG_LEN
    &&& forall|i: int| 0 <= i < tag.len() ==> 'A' <= #[trigger] tag[i] <= 'Z'
}

/// The name that a subset of the font `name` is embedded under, with the
/// tag `tag`.
pub open spec fn embedded_name_of(tag: Seq<char>, name: Seq<char>) -> Seq<char> {
    tag + seq!['+'] + name
}

/// A font program known by a name: the name, the path of the file, and the
/// index of the face in the file.
pub struct FontPath {
    pub alias: &'static str,
    pub path: &'static str,
    pub face_index: u32,
}

/// Index of the first entry of `table` whose name matches `name`, letter
/// case of ASCII letters aside, or -1.
pub open spec fn first_match(table: Seq<FontPath>, name: Seq<char>) -> int
    decreases table.len(),
{
    if table.len() == 0 {
        -1
    } else {
        let before = first_match(table.drop_last(), name);
        if before >= 0 {
            before
        } else if ascii_lowered(table.last().alias@) == ascii_lowered(name) {
            table.len() - 1
        } else {
            -1
        }
    }
}

/// A font program in use.
#[derive(Debug, Clone)]
pub struct FontInfo {
    /// Path of the font program file.
    path: String,
    /// The name the font subset is embedded under: a tag of six capital
    /// letters, a plus sign, and the name of the font.
    embedded_name: String,
    /// Index of the face in the font program file.
    face_index: u32,
}

impl Default for FontInfo {
    fn default() -> (info: Self)
        ensures
            info.spec_path() == Seq::<char>::empty(),
            info.spec_embedded_name() == Seq::<char>::empty(),
            info.spec_face_index() == 0,
    {
        FontInfo { path: String::new(), embedded_name: String::new(), face_index: 0 }
    }
}

impl FontInfo {
    /// Path of the font program file.
    pub closed spec fn spec_path(&self) -> Seq<char> {
        self.path@
    }

    /// The name the font subset is embedded under.
    pub closed spec fn spec_embedded_name(&self) -> Seq<char> {
        self.embedded_name@
    }

    /// Index of the face in the font program file.
    pub closed spec fn spec_face_index(&self) -> u32 {
        self.face_index
    }

    /// Path of the font program file.
    pub fn path(&self) -> (path: &str)
        ensures
            path@ == self.spec_path(),
    {
        self.path.as_str()
    }

    /// The name the font subset is embedded under.
    pub fn embedded_name(&self) -> (name: &str)
        ensures
            name@ == self.spec_embedded_name(),
    {
        self.embedded_name.as_str()
    }

    /// Index of the face in the font program file.
    pub fn face_index(&self) -> (index: u32)
        ensures
            index == self.spec_face_index(),
    {
        self.face_index
    }
}

/// The font programs known on a Linux host, as a sequence.
pub open spec fn linux_font_table() -> Seq<FontPath> {
    seq![
        FontPath {
            alias: "Arial Unicode MS",
            path: "/usr/share/fonts/truetype/dejavu/DejaVuSans.ttf",
            face_index: 0,
        },
        FontPath {
            alias: "Arial",
            path: "/usr/share/fonts/truetype/liberation/LiberationSans-Regular.ttf",
            face_index: 0,
        },
        FontPath {
            alias: "Noto Sans CJK",
            path: "/usr/share/fonts/truetype/noto/NotoSansCJK-Regular.ttc",
            face_index: 0,
        },
        FontPath {
            alias: "NotoSansCJK-Regular",
            path: "/usr/share/fonts/opentype/noto/NotoSansCJK-Regular.ttc",
            face_index: 2,
        },
        FontPath {
            alias: "NotoSansTC-Regular",
            path: "/home/behai/Noto_Sans_TC/NotoSansTC-Regular.ttf",
            face_index: 0,
        },
    ]
}

/// The font programs known on a Linux host.
pub fn linux_font_paths() -> (table: Vec<FontPath>)
    ensures
        table@ == linux_font_table(),
{
    vec![
        FontPath {
            alias: "Arial Unicode MS",
            path: "/usr/share/fonts/truetype/dejavu/DejaVuSans.ttf",
            face_index: 0,
        },
        FontPath {
            alias: "Arial",
            path: "/usr/share/fonts/truetype/liberation/LiberationSans-Regular.ttf",
            face_index: 0,
        },
        FontPath {
            alias: "Noto Sans CJK",
            path: "/usr/share/fonts/truetype/noto/NotoSansCJK-Regular.ttc",
            face_index: 0,
        },
        FontPath {
            alias: "NotoSansCJK-Regular",
            path: "/usr/share/fonts/opentype/noto/NotoSansCJK-Regular.ttc",
            face_index: 2,
        },
        FontPath {
            alias: "NotoSansTC-Regular",
            path: "/home/behai/Noto_Sans_TC/NotoSansTC-Regular.ttf",
            face_index: 0,
        },
    ]
}

/// The font programs known on a Windows host, as a sequence.
pub open spec fn windows_font_table() -> Seq<FontPath> {
    seq![
        FontPath { alias: "Arial", path: "C:/Windows/Fonts/arial.ttf", face_index: 0 },
        FontPath { alias: "Arial Unicode MS", path: "C:/Windows/Fonts/arialuni.ttf", face_index: 0 },
        FontPath {
            alias: "Blade Runner Movie Font",
            path: "c:/windows/fonts/bladrmf_.ttf",
            face_index: 0,
        },
        FontPath { alias: "Times New Romman", path: "C:/Windows/Fonts/times.ttf", face_index: 0 },
        FontPath { alias: "Tahoma", path: "C:/Windows/Fonts/tahoma.ttf", face_index: 0 },
        FontPath {
            alias: "NotoSansCJK-Regular",
            path: "F:/rust/polyglot_pdf/font/NotoSansCJK-Regular.ttc",
            face_index: 7,
        },
        FontPath {
            alias: "NotoSansCJK-Regular-2",
            path: "F:/rust/polyglot_pdf/font/NotoSansCJK-Regular_2.ttf",
            face_index: 0,
        },
        FontPath {
            alias: "NotoSansCJK-Regular-3",
            path: "F:/rust/polyglot_pdf/font/NotoSansCJK-Regular_3.ttf",
            face_index: 0,
        },
        FontPath {
            alias: "NotoSansCJK-Regular-7",
            path: "F:/rust/polyglot_pdf/font/NotoSansCJK-Regular_7.ttf",
            face_index: 0,
        },
        FontPath {
            alias: "NotoSansCJK-Regular-8",
            path: "F:/rust/polyglot_pdf/font/NotoSansCJK-Regular_8.ttf",
            face_index: 0,
        },
    ]
}

/// The font programs known on a Windows host.
pub fn windows_font_paths() -> (table: Vec<FontPath>)
    ensures
        table@ == windows_font_table(),
{
    vec![
        FontPath { alias: "Arial", path: "C:/Windows/Fonts/arial.ttf", face_index: 0 },
        FontPath { alias: "Arial Unicode MS", path: "C:/Windows/Fonts/arialuni.ttf", face_index: 0 },
        FontPath {
            alias: "Blade Runner Movie Font",
            path: "c:/windows/fonts/bladrmf_.ttf",
            face_index: 0,
        },
        FontPath { alias: "Times New Romman", path: "C:/Windows/Fonts/times.ttf", face_index: 0 },
        FontPath { alias: "Tahoma", path: "C:/Windows/Fonts/tahoma.ttf", face_index: 0 },
        FontPath {
            alias: "NotoSansCJK-Regular",
            path: "F:/rust/polyglot_pdf/font/NotoSansCJK-Regular.ttc",
            face_index: 7,
        },
        FontPath {
            alias: "NotoSansCJK-Regular-2",
            path: "F:/rust/polyglot_pdf/font/NotoSansCJK-Regular_2.ttf",
            face_index: 0,
        },
        FontPath {
            alias: "NotoSansCJK-Regular-3",
            path: "F:/rust/polyglot_pdf/font/NotoSansCJK-Regular_3.ttf",
            face_index: 0,
        },
        FontPath {
            alias: "NotoSansCJK-Regular-7",
            path: "F:/rust/polyglot_pdf/font/NotoSansCJK-Regular_7.ttf",
            face_index: 0,
        },
        FontPath {
            alias: "NotoSansCJK-Regular-8",
            path: "F:/rust/polyglot_pdf/font/NotoSansCJK-Regular_8.ttf",
            face_index: 0,
        },
    ]
}

/// The path and the face index of the first font program of `table` whose
/// name matches `name`, letter case of ASCII letters aside.
pub fn resolve_font_path_in(table: &Vec<FontPath>, name: &str) -> (found: Option<(String, u32)>)
    ensures
        match found {
            Some((path, face_index)) => {
                let i = first_match(table@, name@);
                &&& 0 <= i < table@.len()
                &&& path@ == table@[i].path@
                &&& face_index == table@[i].face_index
            },
            None => first_match(table@, name@) == -1,
        },
{
    let n = table.len();
    let mut i: usize = 0;
    proof {
        assert(table@.take(0) =~= Seq::<FontPath>::empty());
    }
    while i < n
        invariant
            i <= n,
            n == table@.len(),
            first_match(table@.take(i as int), name@) == -1,
        decreases n - i,
    {
        proof {
            assert(table@.take(i as int + 1).drop_last() =~= table@.take(i as int));
        }
        if table[i].alias.eq_ignore_ascii_case(name) {
            proof {
                lemma_first_match_prefix(table@, name@, i as int + 1);
            }
            return Some((table[i].path.to_owned(), table[i].face_index));
        }
        i += 1;
    }
    proof {
        assert(table@.take(n as int) =~= table@);
    }
    None
}

/// A match found in a prefix of the table is the match of the whole table.
pub proof fn lemma_first_match_prefix(table: Seq<FontPath>, name: Seq<char>, k: int)
    requires
        0 <= k <= table.len(),
        first_match(table.take(k), name) >= 0,
    ensures
        first_match(table, name) == first_match(table.take(k), name),
    decreases table.len() - k,
{
    if k < table.len() {
        assert(table.take(k + 1).drop_last() =~= table.take(k));
        lemma_first_match_prefix(table, name, k + 1);
    } else {
        assert(table.take(k) =~= table);
    }
}

/// The path and the face index of the font program that a Linux host knows
/// by `name`.
pub fn resolve_font_path(name: &str) -> (found: Option<(String, u32)>)
    ensures
        found is Some <==> first_match(linux_font_table(), name@) >= 0,
{
    let table = linux_font_paths();
    resolve_font_path_in(&table, name)
}

/// A tag for the embedded name of a font subset: six capital letters drawn
/// at random.
pub fn unique_font_tag() -> (tag: String)
    ensures
        is_font_tag(tag@),
{
    let mut tag = String::new();
    let mut i: usize = 0;
    while i < FONT_TAG_LEN
        invariant
            i <= FONT_TAG_LEN,
            tag@.len() == i,
            forall|j: int| 0 <= j < tag@.len() ==> 'A' <= #[trigger] tag@[j] <= 'Z',
        decreases FONT_TAG_LEN - i,
    {
        let letter = random_letter();
        let upper: u8 = if letter >= 0x61 {
            letter - 32
        } else {
            letter
        };
        tag.push(upper as char);
        i += 1;
    }
    tag
}

/// The font program that `table` knows by `name`, to be embedded under the
/// tag `tag`.
pub fn font_info_with_tag(table: &Vec<FontPath>, tag: String, name: &str) -> (info: Option<
    FontInfo,
>)
    ensures
        match info {
            Some(fi) => {
                let i = first_match(table@, name@);
                &&& 0 <= i < table@.len()
                &&& fi.spec_path() == table@[i].path@
                &&& fi.spec_face_index() == table@[i].face_index
                &&& fi.spec_embedded_name() == embedded_name_of(tag@, name@)
            },
            None => first_match(table@, name@) == -1,
        },
{
    match resolve_font_path_in(table, name) {
        None => None,
        Some((path, face_index)) => {
            let mut embedded_name = tag;
            embedded_name.push('+');
            embedded_name.append(name);
            assert(embedded_name@ =~= embedded_name_of(tag@, name@));
            Some(FontInfo { path, embedded_name, face_index })
        },
    }
}

/// The font program that `table` knows by `name`, with a fresh tag in its
/// embedded name.
pub fn get_font_info_in(table: &Vec<FontPath>, name: &str) -> (info: Option<FontInfo>)
    ensures
        match info {
            Some(fi) => {
                let i = first_match(table@, name@);
                &&& 0 <= i < table@.len()
                &&& fi.spec_path() == table@[i].path@
                &&& fi.spec_face_index() == table@[i].face_index
                &&& exists|tag: Seq<char>|
                    is_font_tag(tag) && fi.spec_embedded_name() == embedded_name_of(tag, name@)
            },
            None => first_match(table@, name@) == -1,
        },
{
    if resolve_font_path_in(table, name).is_none() {
        return None;
    }
    let tag = unique_font_tag();
    font_info_with_tag(table, tag, name)
}

/// The font program that a Linux host knows by `name`, with a fresh tag in
/// its embedded name.
pub fn get_font_info(name: &str) -> (info: Option<FontInfo>)
    ensures
        info is Some <==> first_match(linux_font_table(), name@) >= 0,
        info is Some ==> exists|tag: Seq<char>|
            is_font_tag(tag) && info->0.spec_embedded_name() == embedded_name_of(tag, name@),
{
    let table = linux_font_paths();
    get_font_info_in(&table, name)
}

} // verus!
