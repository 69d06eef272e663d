//! The summary of a device's reading-state backup: its last page and the
//! fraction finished, read out of the backup's embedded metadata text.
use vstd::prelude::*;
use vstd::string::*;
use vstd::utf8::{valid_utf8, decode_utf8};
use crate::text::{
    all_digits, chars_of, digits_value, ends_with, has_prefix, has_suffix, is_digit, starts_with,
};

verus! {

/// `char::is_whitespace`: the characters with the Unicode White_Space property.
pub open spec fn is_ws(c: char) -> bool {
    let u = c as u32;
    ||| 0x09 <= u <= 0x0D
    ||| u == 0x20
    ||| u == 0x85
    ||| u == 0xA0
    ||| u == 0x1680
    ||| 0x2000 <= u <= 0x200A
    ||| u == 0x2028
    ||| u == 0x2029
    ||| u == 0x202F
    ||| u == 0x205F
    ||| u == 0x3000
}

/// Whether a character is white space, as `char::is_whitespace` decides.
pub fn is_whitespace(c: char) -> (r: bool)
    ensures
        r == is_ws(c),
{
    let u = c as u32;
    (0x09 <= u && u <= 0x0D) || u == 0x20 || u == 0x85 || u == 0xA0 || u == 0x1680 || (0x2000 <= u
        && u <= 0x200A) || u == 0x2028 || u == 0x2029 || u == 0x202F || u == 0x205F || u == 0x3000
}

/// `s` without its leading white space.
pub open spec fn trim_start(s: Seq<char>) -> Seq<char>
    decreases s.len(),
{
    if s.len() > 0 && is_ws(s[0]) {
        trim_start(s.drop_first())
    } else {
        s
    }
}

/// `s` without its trailing white space.
pub open spec fn trim_end(s: Seq<char>) -> Seq<char>
    decreases s.len(),
{
    if s.len() > 0 && is_ws(s.last()) {
        trim_end(s.drop_last())
    } else {
        s
    }
}

/// `s` without leading and trailing white space (`str::trim`).
pub open spec fn trim(s: Seq<char>) -> Seq<char> {
    trim_end(trim_start(s))
}

/// `s` without its trailing commas.
pub open spec fn trim_commas(s: Seq<char>) -> Seq<char>
    decreases s.len(),
{
    if s.len() > 0 && s.last() == ',' {
        trim_commas(s.drop_last())
    } else {
        s
    }
}

/// The lines of a text, split at each line feed; the last line is what
/// follows the last line feed (possibly nothing).
pub open spec fn lines_of(s: Seq<char>) -> Seq<Seq<char>>
    decreases s.len(),
{
    if s.len() == 0 {
        seq![Seq::<char>::empty()]
    } else {
        let l = lines_of(s.drop_last());
        if s.last() == '\n' {
            l.push(Seq::<char>::empty())
        } else {
            l.update(l.len() - 1, l.last().push(s.last()))
        }
    }
}



/// The index of the first `c` in `s`, or the length of `s`.
pub open spec fn first_index(s: Seq<char>, c: char) -> int
    decreases s.len(),
{
    if s.len() == 0 {
        0
    } else if s[0] == c {
        0
    } else {
        1 + first_index(s.drop_first(), c)
    }
}

/// The index of the first '.' of `s`, or its length.
pub open spec fn dot_index(s: Seq<char>) -> int {
    first_index(s, '.')
}

/// A decimal without sign: digits, then optionally a '.' and digits, with at
/// least one digit in all.
pub open spec fn is_unsigned_decimal(b: Seq<char>) -> bool {
    let d = dot_index(b);
    &&& all_digits(b.subrange(0, d))
    &&& (d < b.len() ==> all_digits(b.subrange(d + 1, b.len() as int)))
    &&& (d < b.len() ==> b.len() >= 2)
    &&& b.len() >= 1
}

/// Whether `v` has a sign character in front.
pub open spec fn has_sign(v: Seq<char>) -> bool {
    v.len() > 0 && (v[0] == '+' || v[0] == '-')
}

/// `v` without its sign character.
pub open spec fn unsigned_part(v: Seq<char>) -> Seq<char> {
    if has_sign(v) {
        v.drop_first()
    } else {
        v
    }
}

/// A decimal number, optionally signed, without exponent.
pub open spec fn is_decimal(v: Seq<char>) -> bool {
    is_unsigned_decimal(unsigned_part(v))
}


/// `x` saturated into the range of `i64`.
pub open spec fn clamp_i64(x: int) -> i64 {
    if x > i64::MAX {
        i64::MAX
    } else if x < i64::MIN {
        i64::MIN
    } else {
        x as i64
    }
}

/// The integer part of a decimal, rounded toward zero and saturated to `i64`.
pub open spec fn truncated(v: Seq<char>) -> i64 {
    let b = unsigned_part(v);
    let m = digits_value(b.subrange(0, dot_index(b)));
    if has_sign(v) && v[0] == '-' {
        clamp_i64(-m)
    } else {
        clamp_i64(m)
    }
}

/// The index of the first '=' of `s`, or its length.
pub open spec fn eq_index(s: Seq<char>) -> int {
    first_index(s, '=')
}

/// The value text of an assignment line `key = value,`: what stands between
/// the first '=' and the next one (or the end), trimmed, without trailing
/// commas. None where the line has no '='.
pub open spec fn value_text(line: Seq<char>) -> Option<Seq<char>> {
    let i = eq_index(line);
    if i >= line.len() {
        None
    } else {
        let rest = line.subrange(i + 1, line.len() as int);
        Some(trim_commas(trim(rest.subrange(0, eq_index(rest)))))
    }
}

/// The number an assignment line assigns, as decimal text, where it is one.
pub open spec fn lua_number(line: Seq<char>) -> Option<Seq<char>> {
    match value_text(line) {
        Some(v) => if is_decimal(v) {
            Some(v)
        } else {
            None
        },
        None => None,
    }
}

/// The index of the exponent mark (`e` or `E`) of `s`, or its length.
pub open spec fn exp_index(s: Seq<char>) -> int {
    let a = first_index(s, 'e');
    let b = first_index(s, 'E');
    if a < b {
        a
    } else {
        b
    }
}

/// An exponent: an optional sign and at least one digit.
pub open spec fn is_exponent(s: Seq<char>) -> bool {
    unsigned_part(s).len() >= 1 && all_digits(unsigned_part(s))
}

/// A number as text: a decimal, optionally followed by an exponent mark and
/// an exponent (`1e-05`).
pub open spec fn is_number_text(v: Seq<char>) -> bool {
    let x = exp_index(v);
    is_decimal(v.subrange(0, x)) && (x < v.len() ==> is_exponent(v.subrange(x + 1, v.len() as int)))
}

/// The number text an assignment line assigns, where it is one.
pub open spec fn lua_number_text(line: Seq<char>) -> Option<Seq<char>> {
    match value_text(line) {
        Some(v) => if is_number_text(v) {
            Some(v)
        } else {
            None
        },
        None => None,
    }
}

/// The key of the last page read.
pub open spec fn last_page_key() -> Seq<char> {
    "[\"last_page\"]"@
}

/// The key of the fraction finished.
pub open spec fn percent_key() -> Seq<char> {
    "[\"percent_finished\"]"@
}

/// The summary after one more line: a line that starts with a key and
/// assigns a number overrides what earlier lines gave for that key. The
/// page must be a plain decimal; the fraction may carry an exponent.
pub open spec fn summary_step(acc: (Option<i64>, Option<Seq<char>>), line: Seq<char>) -> (Option<i64>, Option<Seq<char>>) {
    let t = trim(line);
    let n = lua_number(t);
    let a = if has_prefix(t, last_page_key()) && n is Some {
        (Some(truncated(n->Some_0)), acc.1)
    } else {
        acc
    };
    let pn = lua_number_text(t);
    if has_prefix(t, percent_key()) && pn is Some {
        (a.0, Some(pn->Some_0))
    } else {
        a
    }
}

/// The summary of a sequence of lines, read in order.
pub open spec fn summary_of_lines(lines: Seq<Seq<char>>) -> (Option<i64>, Option<Seq<char>>)
    decreases lines.len(),
{
    if lines.len() == 0 {
        (None, None)
    } else {
        summary_step(summary_of_lines(lines.drop_last()), lines.last())
    }
}

/// The first index of `c` in `cs[a..b]`, or `b`.
fn find_in(cs: &Vec<char>, a: usize, b: usize, c: char) -> (r: usize)
    requires
        a <= b <= cs@.len(),
    ensures
        a <= r <= b,
        r - a == first_index(cs@.subrange(a as int, b as int), c),
{
    let mut i: usize = a;
    while i < b && cs[i] != c
        invariant
            a <= i <= b,
            b <= cs@.len(),
            first_index(cs@.subrange(a as int, b as int), c) == (i - a) + first_index(
                cs@.subrange(i as int, b as int),
                c,
            ),
        decreases b - i,
    {
        assert(cs@.subrange(i as int, b as int).drop_first() =~= cs@.subrange(i + 1, b as int));
        i = i + 1;
    }
    i
}

/// The range of `cs[a..b]` left by `str::trim`.
fn trim_range(cs: &Vec<char>, a: usize, b: usize) -> (r: (usize, usize))
    requires
        a <= b <= cs@.len(),
    ensures
        a <= r.0 <= r.1 <= b,
        cs@.subrange(r.0 as int, r.1 as int) == trim(cs@.subrange(a as int, b as int)),
{
    let mut i: usize = a;
    while i < b && is_whitespace(cs[i])
        invariant
            a <= i <= b,
            b <= cs@.len(),
            trim_start(cs@.subrange(a as int, b as int)) == trim_start(cs@.subrange(i as int, b as int)),
        decreases b - i,
    {
        assert(cs@.subrange(i as int, b as int).drop_first() =~= cs@.subrange(i + 1, b as int));
        i = i + 1;
    }
    let mut j: usize = b;
    while j > i && is_whitespace(cs[j - 1])
        invariant
            a <= i <= j <= b,
            b <= cs@.len(),
            trim(cs@.subrange(a as int, b as int)) == trim_end(cs@.subrange(i as int, j as int)),
        decreases j - i,
    {
        assert(cs@.subrange(i as int, j as int).drop_last() =~= cs@.subrange(i as int, j - 1));
        j = j - 1;
    }
    (i, j)
}

/// The range of `cs[a..b]` without its trailing commas.
fn trim_commas_range(cs: &Vec<char>, a: usize, b: usize) -> (r: usize)
    requires
        a <= b <= cs@.len(),
    ensures
        a <= r <= b,
        cs@.subrange(a as int, r as int) == trim_commas(cs@.subrange(a as int, b as int)),
{
    let mut j: usize = b;
    while j > a && cs[j - 1] == ','
        invariant
            a <= j <= b,
            b <= cs@.len(),
            trim_commas(cs@.subrange(a as int, b as int)) == trim_commas(cs@.subrange(a as int, j as int)),
        decreases j - a,
    {
        assert(cs@.subrange(a as int, j as int).drop_last() =~= cs@.subrange(a as int, j - 1));
        j = j - 1;
    }
    j
}

/// Whether `cs[a..b]` begins with `key`.
fn range_has_prefix(cs: &Vec<char>, a: usize, b: usize, key: &Vec<char>) -> (r: bool)
    requires
        a <= b <= cs@.len(),
    ensures
        r == has_prefix(cs@.subrange(a as int, b as int), key@),
{
    let ghost t = cs@.subrange(a as int, b as int);
    if key.len() > b - a {
        return false;
    }
    let mut k: usize = 0;
    while k < key.len()
        invariant
            t == cs@.subrange(a as int, b as int),
            a <= b <= cs@.len(),
            key@.len() <= b - a,
            k <= key@.len(),
            forall|m: int| 0 <= m < k ==> t[m] == key@[m],
        decreases key@.len() - k,
    {
        if cs[a + k] != key[k] {
            assert(t.subrange(0, key@.len() as int)[k as int] != key@[k as int]);
            return false;
        }
        k = k + 1;
    }
    assert(t.subrange(0, key@.len() as int) =~= key@);
    true
}

/// Whether `cs[a..b]` is all decimal digits.
fn range_all_digits(cs: &Vec<char>, a: usize, b: usize) -> (r: bool)
    requires
        a <= b <= cs@.len(),
    ensures
        r == all_digits(cs@.subrange(a as int, b as int)),
{
    let ghost t = cs@.subrange(a as int, b as int);
    let mut k: usize = a;
    while k < b
        invariant
            a <= k <= b <= cs@.len(),
            t == cs@.subrange(a as int, b as int),
            forall|m: int| 0 <= m < k - a ==> is_digit(#[trigger] t[m]),
        decreases b - k,
    {
        if !('0' <= cs[k] && cs[k] <= '9') {
            assert(!is_digit(t[k - a]));
            return false;
        }
        k = k + 1;
    }
    true
}

/// The value of the digits `cs[a..b]`, saturated to `i64::MAX`; the flag
/// tells whether it saturated.
fn range_digits_value(cs: &Vec<char>, a: usize, b: usize) -> (r: (i64, bool))
    requires
        a <= b <= cs@.len(),
        all_digits(cs@.subrange(a as int, b as int)),
    ensures
        !r.1 ==> r.0 == digits_value(cs@.subrange(a as int, b as int)),
        r.1 ==> digits_value(cs@.subrange(a as int, b as int)) > i64::MAX,
        r.0 >= 0,
{
    let mut val: i64 = 0;
    let mut sat = false;
    let mut k: usize = a;
    assert(cs@.subrange(a as int, a as int) =~= Seq::<char>::empty());
    while k < b
        invariant
            a <= k <= b <= cs@.len(),
            all_digits(cs@.subrange(a as int, b as int)),
            val >= 0,
            !sat ==> val == digits_value(cs@.subrange(a as int, k as int)),
            sat ==> digits_value(cs@.subrange(a as int, k as int)) > i64::MAX,
        decreases b - k,
    {
        let ghost prev = digits_value(cs@.subrange(a as int, k as int));
        assert(cs@.subrange(a as int, k + 1).drop_last() =~= cs@.subrange(a as int, k as int));
        assert(cs@.subrange(a as int, b as int)[k - a] == cs@[k as int]);
        let d = (cs[k] as u32 - '0' as u32) as i64;
        assert(digits_value(cs@.subrange(a as int, k + 1)) == prev * 10 + d);
        if !sat {
            if val > (i64::MAX - d) / 10 {
                sat = true;
                assert(prev * 10 + d > i64::MAX) by (nonlinear_arith)
                    requires
                        prev == val,
                        val > (i64::MAX - d) / 10,
                        0 <= d <= 9,
                ;
            } else {
                assert(val * 10 + d <= i64::MAX) by (nonlinear_arith)
                    requires
                        val <= (i64::MAX - d) / 10,
                        0 <= d <= 9,
                        val >= 0,
                ;
                val = val * 10 + d;
            }
        } else {
            assert(prev * 10 + d > i64::MAX) by (nonlinear_arith)
                requires
                    prev > i64::MAX,
                    0 <= d <= 9,
            ;
        }
        k = k + 1;
    }
    (val, sat)
}

/// Whether `cs[a..b]` is a number as text, exponent allowed.
fn range_number_text(cs: &Vec<char>, a: usize, b: usize) -> (r: bool)
    requires
        a <= b <= cs@.len(),
    ensures
        r == is_number_text(cs@.subrange(a as int, b as int)),
{
    let ghost v = cs@.subrange(a as int, b as int);
    let x1 = find_in(cs, a, b, 'e');
    let x2 = find_in(cs, a, b, 'E');
    let x = if x1 < x2 { x1 } else { x2 };
    assert(exp_index(v) == x - a);
    assert(v.subrange(0, x - a) =~= cs@.subrange(a as int, x as int));
    if range_decimal(cs, a, x).is_none() {
        return false;
    }
    if x == b {
        return true;
    }
    let ghost ex = cs@.subrange(x + 1, b as int);
    assert(v.subrange(x - a + 1, v.len() as int) =~= ex);
    let signed = x + 1 < b && (cs[x + 1] == '+' || cs[x + 1] == '-');
    let s0 = if signed { x + 2 } else { x + 1 };
    proof {
        if signed {
            assert(ex.drop_first() =~= cs@.subrange(s0 as int, b as int));
        } else {
            assert(ex =~= cs@.subrange(s0 as int, b as int));
        }
    }
    s0 < b && range_all_digits(cs, s0, b)
}

/// The truncated value of `cs[a..b]` where it is a decimal number.
fn range_decimal(cs: &Vec<char>, a: usize, b: usize) -> (r: Option<i64>)
    requires
        a <= b <= cs@.len(),
    ensures
        r is Some <==> is_decimal(cs@.subrange(a as int, b as int)),
        r is Some ==> r->Some_0 == truncated(cs@.subrange(a as int, b as int)),
{
    let ghost v = cs@.subrange(a as int, b as int);
    let signed = a < b && (cs[a] == '+' || cs[a] == '-');
    let neg = signed && cs[a] == '-';
    let s0 = if signed { a + 1 } else { a };
    proof {
        if signed {
            assert(v.drop_first() =~= cs@.subrange(s0 as int, b as int));
        } else {
            assert(v =~= cs@.subrange(s0 as int, b as int));
        }
    }
    let ghost u = cs@.subrange(s0 as int, b as int);
    assert(unsigned_part(v) == u);
    let d = find_in(cs, s0, b, '.');
    assert(u.subrange(0, d - s0) =~= cs@.subrange(s0 as int, d as int));
    if d < b {
        assert(u.subrange(d - s0 + 1, u.len() as int) =~= cs@.subrange(d + 1, b as int));
    }
    let ok = range_all_digits(cs, s0, d) && (d >= b || range_all_digits(cs, d + 1, b)) && (d >= b
        || b - s0 >= 2) && b - s0 >= 1;
    if !ok {
        return None;
    }
    let (m, sat) = range_digits_value(cs, s0, d);
    if neg {
        if sat {
            Some(i64::MIN)
        } else {
            Some(-m)
        }
    } else {
        if sat {
            Some(i64::MAX)
        } else {
            Some(m)
        }
    }
}

/// The summary read out of a backup's metadata text.
pub struct SdrSummary {
    /// Last page read.
    pub last_page: Option<i64>,
    /// Fraction finished, as the decimal text found.
    pub percent_finished: Option<String>,
}

impl SdrSummary {
    /// The summary as plain values.
    pub open spec fn view_pair(&self) -> (Option<i64>, Option<Seq<char>>) {
        (self.last_page, self.percent_finished.deep_view())
    }
}

/// The summary after the line `cs[a..b]` of `content` (whose characters
/// are `cs`).
fn summary_after_line(
    content: &str,
    cs: &Vec<char>,
    a: usize,
    b: usize,
    last_page: Option<i64>,
    percent: Option<String>,
    lp_key: &Vec<char>,
    pf_key: &Vec<char>,
) -> (r: (Option<i64>, Option<String>))
    requires
        cs@ == content@,
        a <= b <= cs@.len(),
        lp_key@ == last_page_key(),
        pf_key@ == percent_key(),
    ensures
        (r.0, r.1.deep_view()) == summary_step(
            (last_page, percent.deep_view()),
            cs@.subrange(a as int, b as int),
        ),
{
    let (ta, tb) = trim_range(cs, a, b);
    let ghost t = cs@.subrange(ta as int, tb as int);
    let e = find_in(cs, ta, tb, '=');
    let number: Option<(Option<i64>, bool, usize, usize)> = if e >= tb {
        None
    } else {
        let e2 = find_in(cs, e + 1, tb, '=');
        let (va, vb) = trim_range(cs, e + 1, e2);
        let vc = trim_commas_range(cs, va, vb);
        proof {
            let rest = t.subrange(e - ta + 1, t.len() as int);
            assert(rest =~= cs@.subrange(e + 1, tb as int));
            assert(rest.subrange(0, eq_index(rest)) =~= cs@.subrange(e + 1, e2 as int));
            assert(value_text(t) == Some(cs@.subrange(va as int, vc as int)));
        }
        Some((range_decimal(cs, va, vc), range_number_text(cs, va, vc), va, vc))
    };
    let ghost n = lua_number(t);
    let ghost pn = lua_number_text(t);
    let mut lp = last_page;
    let mut pf = percent;
    if range_has_prefix(cs, ta, tb, lp_key) {
        match number {
            Some((Some(v), _, _, _)) => {
                lp = Some(v);
            },
            _ => {},
        }
    }
    if range_has_prefix(cs, ta, tb, pf_key) {
        match number {
            Some((_, true, va, vc)) => {
                let text = content.substring_char(va, vc);
                pf = Some(String::from_str(text));
            },
            _ => {},
        }
    }
    (lp, pf)
}

/// Reads the last page and the fraction finished out of a backup's metadata
/// text: on each line, trimmed, that starts with `["last_page"]` or
/// `["percent_finished"]` and assigns a number, the number is taken, later
/// lines overriding earlier ones. The page is a plain decimal's integer part;
/// the fraction is kept as its text and may carry an exponent. Anything else
/// leaves the field unset.
pub fn parse_lua_metadata(content: &str) -> (r: SdrSummary)
    ensures
        r.view_pair() == summary_of_lines(lines_of(content@)),
{
    let cs = chars_of(content);
    let lp_key = chars_of("[\"last_page\"]");
    let pf_key = chars_of("[\"percent_finished\"]");
    let n = cs.len();
    let mut last_page: Option<i64> = None;
    let mut percent: Option<String> = None;
    let mut start: usize = 0;
    let mut i: usize = 0;
    let ghost mut done: Seq<Seq<char>> = Seq::empty();
    assert(cs@.subrange(0, 0) =~= Seq::<char>::empty());
    assert(cs@.subrange(0, 0) == cs@.subrange(0, 0));
    assert(lines_of(cs@.subrange(0, 0)) =~= done.push(cs@.subrange(0, 0)));
    while i < n
        invariant
            n == cs@.len(),
            cs@ == content@,
            lp_key@ == last_page_key(),
            pf_key@ == percent_key(),
            start <= i <= n,
            lines_of(cs@.subrange(0, i as int)) == done.push(cs@.subrange(start as int, i as int)),
            (last_page, percent.deep_view()) == summary_of_lines(done),
        decreases n - i,
    {
        let ghost pre = cs@.subrange(0, i as int);
        assert(cs@.subrange(0, i + 1).drop_last() =~= pre);
        assert(cs@.subrange(0, i + 1).last() == cs@[i as int]);
        if cs[i] == '\n' {
            let (lp, pf) = summary_after_line(content, &cs, start, i, last_page, percent, &lp_key, &pf_key);
            proof {
                let line = cs@.subrange(start as int, i as int);
                assert(done.push(line).drop_last() =~= done);
                done = done.push(line);
                assert(cs@.subrange(i + 1, i + 1) =~= Seq::<char>::empty());
            }
            last_page = lp;
            percent = pf;
            start = i + 1;
        } else {
            proof {
                let l = lines_of(pre);
                assert(cs@.subrange(start as int, i + 1) =~= cs@.subrange(start as int, i as int).push(cs@[i as int]));
                assert(l.update(l.len() - 1, l.last().push(cs@[i as int])) =~= done.push(cs@.subrange(start as int, i + 1)));
            }
        }
        i = i + 1;
    }
    let (lp, pf) = summary_after_line(content, &cs, start, n, last_page, percent, &lp_key, &pf_key);
    proof {
        let line = cs@.subrange(start as int, n as int);
        assert(cs@.subrange(0, n as int) =~= cs@);
        assert(done.push(line).drop_last() =~= done);
    }
    SdrSummary { last_page: lp, percent_finished: pf }
}

/// What decompressing a gzip stream gives; none where it is not one.
pub uninterp spec fn gunzip_of(data: Seq<u8>) -> Option<Seq<u8>>;

/// Relies on flate2's `read::GzDecoder`: the decompressed bytes, or a
/// failure, depend on the compressed bytes alone.
#[verifier::external_body]
fn gunzip(data: &[u8]) -> (r: Option<Vec<u8>>)
    ensures
        match r {
            Some(v) => gunzip_of(data@) == Some(v@),
            None => gunzip_of(data@) is None,
        },
{
    let mut decoder = flate2::read::GzDecoder::new(data);
    let mut out: Vec<u8> = Vec::new();
    match std::io::Read::read_to_end(&mut decoder, &mut out) {
        Ok(_) => Some(out),
        Err(_) => None,
    }
}

/// One member of a tar archive: the final component of its path and its
/// contents.
pub struct TarMember {
    /// File name of the member (empty where its path has none).
    pub name: String,
    /// Contents of the member.
    pub data: Vec<u8>,
}

/// The members of a tar archive that can be read, as (file name, contents)
/// pairs in archive order, up to the first one that cannot.
pub uninterp spec fn tar_members_of(data: Seq<u8>) -> Seq<(Seq<char>, Seq<u8>)>;

/// A member as plain values.
pub open spec fn member_view(m: TarMember) -> (Seq<char>, Seq<u8>) {
    (m.name@, m.data@)
}

/// Relies on tar's `Archive::entries`, `Entry::path` and reading each entry
/// to its end: the members read before the first failure depend on the
/// archive's bytes alone.
#[verifier::external_body]
fn tar_members(data: &[u8]) -> (r: Vec<TarMember>)
    ensures
        r@.map_values(|m: TarMember| member_view(m)) == tar_members_of(data@),
{
    let mut archive = tar::Archive::new(data);
    let mut out: Vec<TarMember> = Vec::new();
    let Ok(entries) = archive.entries() else { return out };
    for entry in entries {
        let Ok(mut entry) = entry else { break };
        let Ok(path) = entry.path() else { break };
        let name = path.file_name().map(|n| n.to_string_lossy().into_owned()).unwrap_or_default();
        let mut bytes: Vec<u8> = Vec::new();
        let Ok(_) = std::io::Read::read_to_end(&mut entry, &mut bytes) else { break };
        out.push(TarMember { name, data: bytes });
    }
    out
}

/// Relies on `String::from_utf8`, which fails exactly on bytes that are not
/// UTF-8 and otherwise keeps the characters they encode.
#[verifier::external_body]
fn utf8_text(bytes: Vec<u8>) -> (r: Option<String>)
    ensures
        r is Some <==> valid_utf8(bytes@),
        r is Some ==> r->Some_0@ == decode_utf8(bytes@),
{
    String::from_utf8(bytes).ok()
}

/// The file name of a backup's metadata text: `metadata.*.lua`.
pub open spec fn is_metadata_name(name: Seq<char>) -> bool {
    has_prefix(name, "metadata."@) && has_suffix(name, ".lua"@)
}

/// The index of the first member holding metadata text, or the number of
/// members.
pub open spec fn first_metadata(ms: Seq<(Seq<char>, Seq<u8>)>) -> int
    decreases ms.len(),
{
    if ms.len() == 0 {
        0
    } else if is_metadata_name(ms[0].0) {
        0
    } else {
        1 + first_metadata(ms.drop_first())
    }
}

/// Whether a member's file name is that of a backup's metadata text.
pub fn is_metadata_file(name: &str) -> (r: bool)
    ensures
        r == is_metadata_name(name@),
{
    starts_with(name, "metadata.") && ends_with(name, ".lua")
}

/// The summary held by the members of a backup archive: that of the first
/// `metadata.*.lua` member, read as UTF-8 text; empty where there is no such
/// member or it is not UTF-8.
pub open spec fn members_summary(ms: Seq<(Seq<char>, Seq<u8>)>) -> (Option<i64>, Option<Seq<char>>) {
    let k = first_metadata(ms);
    if k < ms.len() && valid_utf8(ms[k].1) {
        summary_of_lines(lines_of(decode_utf8(ms[k].1)))
    } else {
        (None, None)
    }
}

/// The summary of a backup blob (a gzip-compressed tar archive): that of the
/// members that can be read. A blob that is not gzip data has an empty
/// summary.
pub open spec fn backup_summary(blob: Seq<u8>) -> (Option<i64>, Option<Seq<char>>) {
    match gunzip_of(blob) {
        None => (None, None),
        Some(raw) => members_summary(tar_members_of(raw)),
    }
}

/// Reads the summary out of the members of a backup archive.
pub fn summarize_members(members: Vec<TarMember>) -> (r: SdrSummary)
    ensures
        r.view_pair() == members_summary(members@.map_values(|m: TarMember| member_view(m))),
{
    let empty = SdrSummary { last_page: None, percent_finished: None };
    let mut members = members;
    let ghost ms = members@.map_values(|m: TarMember| member_view(m));
    let mut k: usize = 0;
    assert(ms.subrange(0, ms.len() as int) =~= ms);
    while k < members.len() && !is_metadata_file(members[k].name.as_str())
        invariant
            ms == members@.map_values(|m: TarMember| member_view(m)),
            k <= members@.len(),
            first_metadata(ms) == k + first_metadata(ms.subrange(k as int, ms.len() as int)),
        decreases members@.len() - k,
    {
        assert(ms[k as int].0 == members@[k as int].name@);
        assert(ms.subrange(k as int, ms.len() as int).drop_first() =~= ms.subrange(k + 1, ms.len() as int));
        k = k + 1;
    }
    if k >= members.len() {
        assert(ms.subrange(k as int, ms.len() as int).len() == 0);
        return empty;
    }
    assert(ms.subrange(k as int, ms.len() as int)[0] == ms[k as int]);
    assert(ms[k as int] == member_view(members@[k as int]));
    let member = members.remove(k);
    match utf8_text(member.data) {
        Some(text) => parse_lua_metadata(text.as_str()),
        None => empty,
    }
}

/// Reads the summary out of a backup blob; a malformed blob yields an empty
/// summary rather than an error.
pub fn summarize_backup(blob: &[u8]) -> (r: SdrSummary)
    ensures
        r.view_pair() == backup_summary(blob@),
{
    let empty = SdrSummary { last_page: None, percent_finished: None };
    let raw = match gunzip(blob) {
        Some(v) => v,
        None => {
            return empty;
        },
    };
    summarize_members(tar_members(raw.as_slice()))
}

} // verus!
