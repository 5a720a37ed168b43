//! Small text and time helpers.
use vstd::prelude::*;
use crate::ast::{format_minutes, human_duration};
use crate::lexer::is_whitespace;
use crate::lexer::is_ws;
use crate::text::{chars_of, push_char, string_of};

verus! {

/// Whether `char::is_alphanumeric` holds of `c`.
pub uninterp spec fn alphanumeric(c: char) -> bool;

pub open spec fn is_ascii_letter_or_digit(c: char) -> bool {
    ('a' <= c && c <= 'z') || ('A' <= c && c <= 'Z') || ('0' <= c && c <= '9')
}

/// Relies on `char::is_alphanumeric`: alphabetic or numeric in Unicode; among
/// ASCII characters exactly the letters and digits.
#[verifier::external_body]
fn is_alphanumeric(c: char) -> (r: bool)
    ensures
        r == alphanumeric(c),
        (c as u32) < 128 ==> (r == is_ascii_letter_or_digit(c)),
{
    c.is_alphanumeric()
}

pub open spec fn ascii_lower(c: char) -> char {
    if 'A' <= c && c <= 'Z' {
        ((c as u32) + 32) as char
    } else {
        c
    }
}

pub fn to_ascii_lowercase(c: char) -> (r: char)
    ensures
        r == ascii_lower(c),
{
    if 'A' <= c && c <= 'Z' {
        ((c as u8) + 32) as char
    } else {
        c
    }
}

/// The slug built so far from `s`, before trimming: alphanumerics in ASCII
/// lower case, and one dash for each run of whitespace, dashes and underscores
/// (other characters are dropped and do not end a run).
pub open spec fn slug_body(s: Seq<char>) -> Seq<char>
    decreases s.len(),
{
    if s.len() == 0 {
        Seq::empty()
    } else {
        let p = slug_body(s.drop_last());
        let c = s.last();
        if alphanumeric(c) {
            p.push(ascii_lower(c))
        } else if is_ws(c) || c == '-' || c == '_' {
            if p.len() > 0 && p.last() == '-' {
                p
            } else {
                p.push('-')
            }
        } else {
            p
        }
    }
}

pub open spec fn trim_dashes_start(s: Seq<char>) -> Seq<char>
    decreases s.len(),
{
    if s.len() > 0 && s[0] == '-' {
        trim_dashes_start(s.drop_first())
    } else {
        s
    }
}

pub open spec fn trim_dashes_end(s: Seq<char>) -> Seq<char>
    decreases s.len(),
{
    if s.len() > 0 && s.last() == '-' {
        trim_dashes_end(s.drop_last())
    } else {
        s
    }
}

/// The slug of `s`, or `unnamed` when nothing is left.
pub open spec fn slug_of(s: Seq<char>) -> Seq<char> {
    let t = trim_dashes_end(trim_dashes_start(slug_body(s)));
    if t.len() == 0 {
        "unnamed"@
    } else {
        t
    }
}

/// A lower-case, dash-separated name for `input`, usable as a file name.
pub fn slugify(input: &str) -> (r: String)
    ensures
        r@ == slug_of(input@),
{
    let cs = chars_of(input);
    let mut body: Vec<char> = Vec::new();
    let mut i: usize = 0;
    while i < cs.len()
        invariant
            i <= cs@.len(),
            body@ == slug_body(cs@.take(i as int)),
        decreases cs@.len() - i,
    {
        let c = cs[i];
        assert(cs@.take(i + 1).drop_last() == cs@.take(i as int));
        assert(cs@.take(i + 1).last() == c);
        if is_alphanumeric(c) {
            body.push(to_ascii_lowercase(c));
        } else if is_whitespace(c) || c == '-' || c == '_' {
            if !(body.len() > 0 && body[body.len() - 1] == '-') {
                body.push('-');
            }
        }
        i = i + 1;
    }
    assert(cs@.take(cs@.len() as int) == cs@);
    let n = body.len();
    let mut a: usize = 0;
    assert(body@.subrange(0, n as int) == body@);
    while a < n && body[a] == '-'
        invariant
            a <= n == body@.len(),
            trim_dashes_start(body@) == trim_dashes_start(body@.subrange(a as int, n as int)),
        decreases n - a,
    {
        assert(body@.subrange(a as int, n as int).drop_first() == body@.subrange(a + 1, n as int));
        a = a + 1;
    }
    let mut b: usize = n;
    while b > a && body[b - 1] == '-'
        invariant
            a <= b <= n == body@.len(),
            trim_dashes_start(body@) == body@.subrange(a as int, n as int),
            trim_dashes_end(trim_dashes_start(body@)) == trim_dashes_end(body@.subrange(a as int, b as int)),
        decreases b,
    {
        assert(body@.subrange(a as int, b as int).drop_last() == body@.subrange(a as int, b - 1));
        b = b - 1;
    }
    if a == b {
        return String::from_str("unnamed");
    }
    let t = vstd::slice::slice_subrange(body.as_slice(), a, b);
    string_of(t)
}

/// Writes a minute count for people: `45m`, `2h` or `1h 30m`.
pub fn format_duration(minutes: u64) -> (r: String)
    ensures
        r@ == human_duration(minutes as nat),
{
    format_minutes(minutes)
}

pub open spec fn ends_with(s: Seq<char>, t: Seq<char>) -> bool {
    t.len() <= s.len() && s.skip(s.len() - t.len()) == t
}

/// The file name for `name`: its slug, with `.extension` added unless the
/// slug already ends with it.
pub open spec fn output_name_of(name: Seq<char>, extension: Seq<char>) -> Seq<char> {
    let slug = slug_of(name);
    let suffix = seq!['.'] + extension;
    if ends_with(slug, suffix) {
        slug
    } else {
        slug + suffix
    }
}

pub fn sanitize_output_name(name: &str, extension: &str) -> (r: String)
    ensures
        r@ == output_name_of(name@, extension@),
{
    let slug = slugify(name);
    let mut suffix: Vec<char> = Vec::new();
    suffix.push('.');
    let ext = chars_of(extension);
    let mut i: usize = 0;
    while i < ext.len()
        invariant
            i <= ext@.len(),
            suffix@ == seq!['.'] + ext@.take(i as int),
        decreases ext@.len() - i,
    {
        suffix.push(ext[i]);
        assert(ext@.take(i + 1) == ext@.take(i as int).push(ext@[i as int]));
        i = i + 1;
    }
    assert(ext@.take(ext@.len() as int) == ext@);
    let s = chars_of(slug.as_str());
    let mut matches = suffix.len() <= s.len();
    if matches {
        let sl = s.len();
        let off = sl - suffix.len();
        let mut k: usize = 0;
        while k < suffix.len()
            invariant
                sl == s@.len(),
                suffix@.len() <= s@.len(),
                off == s@.len() - suffix@.len(),
                k <= suffix@.len(),
                matches == (forall|j: int| 0 <= j < k ==> s@[off + j] == suffix@[j]),
            decreases suffix@.len() - k,
        {
            if s[off + k] != suffix[k] {
                matches = false;
            }
            k = k + 1;
        }
        proof {
            if matches {
                assert(s@.skip(off as int) == suffix@);
            } else {
                let j = choose|j: int| 0 <= j < suffix@.len() && s@[off + j] != suffix@[j];
                assert(s@.skip(off as int)[j] != suffix@[j]);
            }
        }
    }
    if matches {
        slug
    } else {
        let mut out = slug;
        let mut j: usize = 0;
        let ghost base = out@;
        while j < suffix.len()
            invariant
                j <= suffix@.len(),
                out@ == base + suffix@.take(j as int),
            decreases suffix@.len() - j,
        {
            push_char(&mut out, suffix[j]);
            assert(suffix@.take(j + 1) == suffix@.take(j as int).push(suffix@[j as int]));
            j = j + 1;
        }
        assert(suffix@.take(suffix@.len() as int) == suffix@);
        out
    }
}

/// A time of day, in minutes past midnight, rounded to the nearest quarter
/// hour (7 minutes past a quarter round down, 8 round up).
pub open spec fn rounded_quarter(t: nat) -> nat {
    let m = t % 60;
    let r = ((m + 7) / 15) * 15;
    (t - m + r) as nat
}

pub fn round_to_nearest_15_min(time: u64) -> (r: u64)
    requires
        time < 1440,
        rounded_quarter(time as nat) < 1440,
    ensures
        r as nat == rounded_quarter(time as nat),
{
    let m = time % 60;
    let r = ((m + 7) / 15) * 15;
    time - m + r
}

} // verus!
