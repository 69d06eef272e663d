//! Recognised book formats, file-name classification and image signatures.
use vstd::prelude::*;
use std::cmp::Ordering;
use crate::text::{chars_of, digits_value, ends_with, has_suffix, is_digit, str_eq};

verus! {

/// Supported book formats.
#[derive(Clone, Copy, Debug, PartialEq, Eq, Hash, Structural)]
pub enum BookFormat {
    /// EPUB (electronic publication).
    Epub,
    /// PDF (portable document format).
    Pdf,
    /// CBZ (comic book ZIP archive).
    Cbz,
    /// CBR (comic book RAR archive).
    Cbr,
    /// CB7 (comic book 7-Zip archive).
    Cb7,
    /// MOBI (Mobipocket eBook).
    Mobi,
    /// FB2 (FictionBook).
    Fb2,
    /// Plain text.
    Txt,
    /// HTML.
    Html,
    /// Markdown.
    Md,
}

/// What `str::to_lowercase` makes of a string.
pub uninterp spec fn lower_of(s: Seq<char>) -> Seq<char>;

/// Relies on `str::to_lowercase`: the result depends on the characters alone.
#[verifier::external_body]
pub(crate) fn lowercase(s: &str) -> (r: String)
    ensures
        r@ == lower_of(s@),
{
    s.to_lowercase()
}

/// The format named by an already lower-cased file extension.
pub open spec fn format_of_lower(e: Seq<char>) -> Option<BookFormat> {
    if e == "epub"@ {
        Some(BookFormat::Epub)
    } else if e == "pdf"@ {
        Some(BookFormat::Pdf)
    } else if e == "cbz"@ {
        Some(BookFormat::Cbz)
    } else if e == "cbr"@ {
        Some(BookFormat::Cbr)
    } else if e == "cb7"@ {
        Some(BookFormat::Cb7)
    } else if e == "mobi"@ || e == "azw"@ || e == "azw3"@ {
        Some(BookFormat::Mobi)
    } else if e == "fb2"@ {
        Some(BookFormat::Fb2)
    } else if e == "txt"@ {
        Some(BookFormat::Txt)
    } else if e == "html"@ || e == "htm"@ {
        Some(BookFormat::Html)
    } else if e == "md"@ || e == "markdown"@ {
        Some(BookFormat::Md)
    } else {
        None
    }
}

/// The MIME type of a format.
pub open spec fn mime_of(f: BookFormat) -> Seq<char> {
    match f {
        BookFormat::Epub => "application/epub+zip"@,
        BookFormat::Pdf => "application/pdf"@,
        BookFormat::Cbz => "application/vnd.comicbook+zip"@,
        BookFormat::Cbr => "application/vnd.comicbook-rar"@,
        BookFormat::Cb7 => "application/x-cb7"@,
        BookFormat::Mobi => "application/x-mobipocket-ebook"@,
        BookFormat::Fb2 => "application/x-fictionbook+xml"@,
        BookFormat::Txt => "text/plain"@,
        BookFormat::Html => "text/html"@,
        BookFormat::Md => "text/markdown"@,
    }
}

/// The lower-case tag under which a format is stored.
pub open spec fn tag_of(f: BookFormat) -> Seq<char> {
    match f {
        BookFormat::Epub => "epub"@,
        BookFormat::Pdf => "pdf"@,
        BookFormat::Cbz => "cbz"@,
        BookFormat::Cbr => "cbr"@,
        BookFormat::Cb7 => "cb7"@,
        BookFormat::Mobi => "mobi"@,
        BookFormat::Fb2 => "fb2"@,
        BookFormat::Txt => "txt"@,
        BookFormat::Html => "html"@,
        BookFormat::Md => "md"@,
    }
}

impl BookFormat {
    /// The MIME type for this format.
    pub fn mime_type(&self) -> (r: &'static str)
        ensures
            r@ == mime_of(*self),
    {
        match self {
            BookFormat::Epub => "application/epub+zip",
            BookFormat::Pdf => "application/pdf",
            BookFormat::Cbz => "application/vnd.comicbook+zip",
            BookFormat::Cbr => "application/vnd.comicbook-rar",
            BookFormat::Cb7 => "application/x-cb7",
            BookFormat::Mobi => "application/x-mobipocket-ebook",
            BookFormat::Fb2 => "application/x-fictionbook+xml",
            BookFormat::Txt => "text/plain",
            BookFormat::Html => "text/html",
            BookFormat::Md => "text/markdown",
        }
    }

    /// The lower-case tag of this format ("epub", "pdf", ...).
    pub fn tag(&self) -> (r: &'static str)
        ensures
            r@ == tag_of(*self),
    {
        match self {
            BookFormat::Epub => "epub",
            BookFormat::Pdf => "pdf",
            BookFormat::Cbz => "cbz",
            BookFormat::Cbr => "cbr",
            BookFormat::Cb7 => "cb7",
            BookFormat::Mobi => "mobi",
            BookFormat::Fb2 => "fb2",
            BookFormat::Txt => "txt",
            BookFormat::Html => "html",
            BookFormat::Md => "md",
        }
    }

    /// The format named by an extension that is already in lower case.
    pub fn from_lowercase_extension(ext: &str) -> (r: Option<BookFormat>)
        ensures
            r == format_of_lower(ext@),
    {
        if str_eq(ext, "epub") {
            Some(BookFormat::Epub)
        } else if str_eq(ext, "pdf") {
            Some(BookFormat::Pdf)
        } else if str_eq(ext, "cbz") {
            Some(BookFormat::Cbz)
        } else if str_eq(ext, "cbr") {
            Some(BookFormat::Cbr)
        } else if str_eq(ext, "cb7") {
            Some(BookFormat::Cb7)
        } else if str_eq(ext, "mobi") || str_eq(ext, "azw") || str_eq(ext, "azw3") {
            Some(BookFormat::Mobi)
        } else if str_eq(ext, "fb2") {
            Some(BookFormat::Fb2)
        } else if str_eq(ext, "txt") {
            Some(BookFormat::Txt)
        } else if str_eq(ext, "html") || str_eq(ext, "htm") {
            Some(BookFormat::Html)
        } else if str_eq(ext, "md") || str_eq(ext, "markdown") {
            Some(BookFormat::Md)
        } else {
            None
        }
    }

    /// Detects the format from a file extension, ignoring case.
    pub fn from_extension(ext: &str) -> (r: Option<BookFormat>)
        ensures
            r == format_of_lower(lower_of(ext@)),
    {
        let lower = lowercase(ext);
        BookFormat::from_lowercase_extension(lower.as_str())
    }

    /// Whether this format is a comic book archive.
    pub fn is_comic(&self) -> (r: bool)
        ensures
            r == (*self == BookFormat::Cbz || *self == BookFormat::Cbr || *self
                == BookFormat::Cb7),
    {
        match self {
            BookFormat::Cbz | BookFormat::Cbr | BookFormat::Cb7 => true,
            _ => false,
        }
    }
}

/// An already lower-cased file name that ends in an image extension.
pub open spec fn is_image_name(lower: Seq<char>) -> bool {
    has_suffix(lower, ".jpg"@) || has_suffix(lower, ".jpeg"@) || has_suffix(lower, ".png"@)
        || has_suffix(lower, ".gif"@) || has_suffix(lower, ".webp"@) || has_suffix(
        lower,
        ".jxl"@,
    )
}

/// Handler of comic book archives (CBZ and the like).
pub struct CbzHandler;

impl CbzHandler {
    /// Whether an already lower-cased file name is that of an image.
    pub fn is_lowercase_image_file(lower: &str) -> (r: bool)
        ensures
            r == is_image_name(lower@),
    {
        ends_with(lower, ".jpg") || ends_with(lower, ".jpeg") || ends_with(lower, ".png")
            || ends_with(lower, ".gif") || ends_with(lower, ".webp") || ends_with(lower, ".jxl")
    }

    /// Whether a file name is that of an image, ignoring case.
    pub fn is_image_file(name: &str) -> (r: bool)
        ensures
            r == is_image_name(lower_of(name@)),
    {
        let lower = lowercase(name);
        CbzHandler::is_lowercase_image_file(lower.as_str())
    }
}

/// Handler of EPUB files.
pub struct EpubHandler;

/// Handler of PDF files.
pub struct PdfHandler;

/// The bare JPEG XL codestream signature.
pub open spec fn jxl_codestream_sig() -> Seq<u8> {
    seq![0xFFu8, 0x0Au8]
}

/// The signature box of the JPEG XL container format.
pub open spec fn jxl_container_sig() -> Seq<u8> {
    seq![0x00u8, 0x00u8, 0x00u8, 0x0Cu8, 0x4Au8, 0x58u8, 0x4Cu8, 0x20u8, 0x0Du8, 0x0Au8, 0x87u8, 0x0Au8]
}

/// Data begins with one of the two JPEG XL signatures.
pub open spec fn is_jxl_data(d: Seq<u8>) -> bool {
    (d.len() >= 2 && d.subrange(0, 2) == jxl_codestream_sig()) || (d.len() >= 12 && d.subrange(
        0,
        12,
    ) == jxl_container_sig())
}

/// Whether the data is a JPEG XL image, by its signature.
pub fn is_jxl(data: &[u8]) -> (r: bool)
    ensures
        r == is_jxl_data(data@),
{
    let n = data.len();
    if n >= 2 && data[0] == 0xFFu8 && data[1] == 0x0Au8 {
        assert(data@.subrange(0, 2) =~= jxl_codestream_sig());
        return true;
    }
    if n >= 2 {
        assert(jxl_codestream_sig()[0] == 0xFFu8 && jxl_codestream_sig()[1] == 0x0Au8);
        assert(data@.subrange(0, 2)[0] == data@[0]);
        assert(data@.subrange(0, 2)[1] == data@[1]);
        assert(data@.subrange(0, 2) != jxl_codestream_sig());
    }
    if n >= 12 {
        let sig: [u8; 12] = [0x00u8, 0x00u8, 0x00u8, 0x0Cu8, 0x4Au8, 0x58u8, 0x4Cu8, 0x20u8, 0x0Du8, 0x0Au8, 0x87u8, 0x0Au8];
        let mut i: usize = 0;
        while i < 12
            invariant
                n == data@.len(),
                n >= 12,
                data@.subrange(0, 2) != jxl_codestream_sig(),
                sig@ == jxl_container_sig(),
                i <= 12,
                forall|k: int| 0 <= k < i ==> data@[k] == sig@[k],
            decreases 12 - i,
        {
            if data[i] != sig[i] {
                assert(data@.subrange(0, 12)[i as int] != jxl_container_sig()[i as int]);
                return false;
            }
            i = i + 1;
        }
        assert(data@.subrange(0, 12) =~= jxl_container_sig());
        return true;
    }
    false
}

/// What `char::to_lowercase` yields for a character.
pub uninterp spec fn char_lower_of(c: char) -> Seq<char>;

/// Relies on `char::to_lowercase`: the characters depend on `c` alone.
#[verifier::external_body]
fn char_lowercase(c: char) -> (r: Vec<char>)
    ensures
        r@ == char_lower_of(c),
{
    c.to_lowercase().collect()
}

/// Lexicographic order of two character sequences, by code point.
pub open spec fn lex_cmp(a: Seq<char>, b: Seq<char>) -> Ordering
    decreases a.len(),
{
    if a.len() == 0 && b.len() == 0 {
        Ordering::Equal
    } else if a.len() == 0 {
        Ordering::Less
    } else if b.len() == 0 {
        Ordering::Greater
    } else if a[0] < b[0] {
        Ordering::Less
    } else if a[0] > b[0] {
        Ordering::Greater
    } else {
        lex_cmp(a.drop_first(), b.drop_first())
    }
}

/// The length of the run of digits that starts `s`.
pub open spec fn digit_run(s: Seq<char>) -> int
    decreases s.len(),
{
    if s.len() > 0 && is_digit(s[0]) {
        1 + digit_run(s.drop_first())
    } else {
        0
    }
}

/// How many characters reading a run of digits consumes: the run and the
/// character that ends it, if any (as `take_while` on a shared iterator
/// does), at least one and at most all.
pub open spec fn consumed(s: Seq<char>) -> int {
    let r = digit_run(s);
    let c = if r < s.len() {
        r + 1
    } else {
        r
    };
    if c < 1 {
        1
    } else if c > s.len() {
        s.len() as int
    } else {
        c
    }
}

/// The value of a run of digits as `u64` parsing gives it, 0 on overflow.
pub open spec fn run_value(run: Seq<char>) -> int {
    if digits_value(run) > u64::MAX {
        0
    } else {
        digits_value(run)
    }
}

/// Natural order of two names: runs of digits compare by value, other
/// characters by their lower-case forms.
pub open spec fn natord(a: Seq<char>, b: Seq<char>) -> Ordering
    decreases a.len() + b.len(),
{
    if a.len() == 0 && b.len() == 0 {
        Ordering::Equal
    } else if a.len() == 0 {
        Ordering::Less
    } else if b.len() == 0 {
        Ordering::Greater
    } else if is_digit(a[0]) && is_digit(b[0]) {
        let va = run_value(a.subrange(0, digit_run(a)));
        let vb = run_value(b.subrange(0, digit_run(b)));
        if va < vb {
            Ordering::Less
        } else if va > vb {
            Ordering::Greater
        } else {
            natord(a.subrange(consumed(a), a.len() as int), b.subrange(consumed(b), b.len() as int))
        }
    } else {
        let c = lex_cmp(char_lower_of(a[0]), char_lower_of(b[0]));
        if c == Ordering::Equal {
            natord(a.drop_first(), b.drop_first())
        } else {
            c
        }
    }
}

/// Lexicographic comparison of two character vectors.
fn compare_chars(a: &Vec<char>, b: &Vec<char>) -> (r: Ordering)
    ensures
        r == lex_cmp(a@, b@),
{
    let mut i: usize = 0;
    assert(a@.subrange(0, a@.len() as int) =~= a@);
    assert(b@.subrange(0, b@.len() as int) =~= b@);
    while i < a.len() && i < b.len() && a[i] == b[i]
        invariant
            i <= a@.len(),
            i <= b@.len(),
            lex_cmp(a@, b@) == lex_cmp(a@.subrange(i as int, a@.len() as int), b@.subrange(i as int, b@.len() as int)),
        decreases a@.len() - i,
    {
        assert(a@.subrange(i as int, a@.len() as int).drop_first() =~= a@.subrange(i + 1, a@.len() as int));
        assert(b@.subrange(i as int, b@.len() as int).drop_first() =~= b@.subrange(i + 1, b@.len() as int));
        i = i + 1;
    }
    if i == a.len() && i == b.len() {
        Ordering::Equal
    } else if i == a.len() {
        Ordering::Less
    } else if i == b.len() {
        Ordering::Greater
    } else if a[i] < b[i] {
        Ordering::Less
    } else {
        Ordering::Greater
    }
}

/// The end of the run of digits of `cs` that starts at `i`.
fn run_end(cs: &Vec<char>, i: usize) -> (r: usize)
    requires
        i <= cs@.len(),
    ensures
        i <= r <= cs@.len(),
        r - i == digit_run(cs@.subrange(i as int, cs@.len() as int)),
{
    let n = cs.len();
    let mut k: usize = i;
    while k < n && '0' <= cs[k] && cs[k] <= '9'
        invariant
            i <= k <= n,
            n == cs@.len(),
            digit_run(cs@.subrange(i as int, n as int)) == (k - i) + digit_run(cs@.subrange(k as int, n as int)),
        decreases n - k,
    {
        assert(cs@.subrange(k as int, n as int).drop_first() =~= cs@.subrange(k + 1, n as int));
        k = k + 1;
    }
    k
}

/// The value of the digits `cs[a..b]` as `u64` parsing gives it, 0 on
/// overflow.
fn run_value_of(cs: &Vec<char>, a: usize, b: usize) -> (r: u64)
    requires
        a <= b <= cs@.len(),
        forall|k: int| a <= k < b ==> is_digit(cs@[k]),
    ensures
        r == run_value(cs@.subrange(a as int, b as int)),
{
    let mut val: u64 = 0;
    let mut over = false;
    let mut k: usize = a;
    while k < b
        invariant
            a <= k <= b <= cs@.len(),
            forall|m: int| a <= m < b ==> is_digit(cs@[m]),
            !over ==> val == digits_value(cs@.subrange(a as int, k as int)),
            over ==> digits_value(cs@.subrange(a as int, k as int)) > u64::MAX,
        decreases b - k,
    {
        let ghost prev = digits_value(cs@.subrange(a as int, k as int));
        assert(cs@.subrange(a as int, k + 1).drop_last() =~= cs@.subrange(a as int, k as int));
        let d = (cs[k] as u32 - '0' as u32) as u64;
        assert(digits_value(cs@.subrange(a as int, k + 1)) == prev * 10 + d);
        if !over {
            if val > (u64::MAX - d) / 10 {
                over = true;
                assert(prev * 10 + d > u64::MAX) by (nonlinear_arith)
                    requires
                        prev == val,
                        val > (u64::MAX - d) / 10,
                        0 <= d <= 9,
                ;
            } else {
                assert(val * 10 + d <= u64::MAX) by (nonlinear_arith)
                    requires
                        val <= (u64::MAX - d) / 10,
                        0 <= d <= 9,
                ;
                val = val * 10 + d;
            }
        } else {
            assert(prev * 10 + d > u64::MAX) by (nonlinear_arith)
                requires
                    prev > u64::MAX,
                    0 <= d <= 9,
            ;
        }
        k = k + 1;
    }
    if over {
        0
    } else {
        val
    }
}

/// Natural comparison of two names, so that "page2" sorts before "page10".
/// Runs of digits compare by value; other characters compare by their
/// lower-case forms. The character that ends a run of digits is passed over.
pub fn natord_compare(a: &str, b: &str) -> (r: Ordering)
    ensures
        r == natord(a@, b@),
{
    let ac = chars_of(a);
    let bc = chars_of(b);
    let n = ac.len();
    let m = bc.len();
    let mut i: usize = 0;
    let mut j: usize = 0;
    assert(ac@.subrange(0, n as int) =~= ac@);
    assert(bc@.subrange(0, m as int) =~= bc@);
    loop
        invariant
            n == ac@.len(),
            m == bc@.len(),
            ac@ == a@,
            bc@ == b@,
            i <= n,
            j <= m,
            natord(a@, b@) == natord(ac@.subrange(i as int, n as int), bc@.subrange(j as int, m as int)),
        decreases (n - i) + (m - j),
    {
        let ghost sa = ac@.subrange(i as int, n as int);
        let ghost sb = bc@.subrange(j as int, m as int);
        if i == n && j == m {
            return Ordering::Equal;
        }
        if i == n {
            return Ordering::Less;
        }
        if j == m {
            return Ordering::Greater;
        }
        assert(sa[0] == ac@[i as int]);
        assert(sb[0] == bc@[j as int]);
        let ca = ac[i];
        let cb = bc[j];
        if '0' <= ca && ca <= '9' && '0' <= cb && cb <= '9' {
            let ea = run_end(&ac, i);
            let eb = run_end(&bc, j);
            proof {
                assert forall|k: int| i <= k < ea implies is_digit(ac@[k]) by {
                    lemma_run_digits(sa, k - i);
                    assert(sa[k - i] == ac@[k]);
                }
                assert forall|k: int| j <= k < eb implies is_digit(bc@[k]) by {
                    lemma_run_digits(sb, k - j);
                    assert(sb[k - j] == bc@[k]);
                }
                assert(sa.subrange(0, digit_run(sa)) =~= ac@.subrange(i as int, ea as int));
                assert(sb.subrange(0, digit_run(sb)) =~= bc@.subrange(j as int, eb as int));
            }
            let va = run_value_of(&ac, i, ea);
            let vb = run_value_of(&bc, j, eb);
            if va < vb {
                return Ordering::Less;
            }
            if va > vb {
                return Ordering::Greater;
            }
            let ni = if ea < n { ea + 1 } else { ea };
            let nj = if eb < m { eb + 1 } else { eb };
            proof {
                assert(consumed(sa) == ni - i);
                assert(consumed(sb) == nj - j);
                assert(sa.subrange(consumed(sa), sa.len() as int) =~= ac@.subrange(ni as int, n as int));
                assert(sb.subrange(consumed(sb), sb.len() as int) =~= bc@.subrange(nj as int, m as int));
            }
            i = ni;
            j = nj;
        } else {
            let la = char_lowercase(ca);
            let lb = char_lowercase(cb);
            let c = compare_chars(&la, &lb);
            match c {
                Ordering::Equal => {},
                _ => {
                    return c;
                },
            }
            assert(sa.drop_first() =~= ac@.subrange(i + 1, n as int));
            assert(sb.drop_first() =~= bc@.subrange(j + 1, m as int));
            i = i + 1;
            j = j + 1;
        }
    }
}

/// The leading run of digits lies within the sequence.
proof fn lemma_run_within(s: Seq<char>)
    ensures
        0 <= digit_run(s) <= s.len(),
    decreases s.len(),
{
    if s.len() > 0 && is_digit(s[0]) {
        lemma_run_within(s.drop_first());
    }
}

/// Every character of the leading run of digits is a digit.
proof fn lemma_run_digits(s: Seq<char>, k: int)
    requires
        0 <= k < digit_run(s),
    ensures
        is_digit(s[k]),
    decreases s.len(),
{
    assert(s.len() > 0 && is_digit(s[0]));
    lemma_run_within(s);
    if k > 0 {
        lemma_run_digits(s.drop_first(), k - 1);
        assert(s.drop_first()[k - 1] == s[k]);
    }
}

} // verus!
