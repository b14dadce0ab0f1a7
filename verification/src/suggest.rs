//! The verified parts of the recipe advisor: the shape detectors, the score
//! and preview of a candidate output, the ranking, and the report.

use vstd::prelude::*;

use crate::error::{Failure, OperationError};
use crate::strings::{decimal, decimal_spec, find_from, is_hex, is_hex_char, join, join_spec};
use crate::bytes::{hex_lower_spec, to_hex_lower};
use crate::text::{chars_of, string_of};

verus! {

/// An ASCII whitespace character: space, tab, line feed, form feed or
/// carriage return.
pub open spec fn is_ascii_space(c: char) -> bool {
    c == ' ' || c == '\t' || c == '\n' || c == '\u{c}' || c == '\r'
}

fn ascii_space(c: char) -> (r: bool)
    ensures
        r == is_ascii_space(c),
{
    c == ' ' || c == '\t' || c == '\n' || c == '\u{c}' || c == '\r'
}

/// Hex digits, and everything that is neither a digit nor a separator.
pub open spec fn hex_counts(s: Seq<char>) -> (nat, nat)
    decreases s.len(),
{
    if s.len() == 0 {
        (0, 0)
    } else {
        let (d, o) = hex_counts(s.drop_last());
        let c = s.last();
        if is_hex(c) {
            (d + 1, o)
        } else if is_ascii_space(c) || c == ':' || c == ',' || c == '-' || c == 'x' || c == 'X' {
            (d, o)
        } else {
            (d, o + 1)
        }
    }
}

/// At least eight hex digits, an even number of them, and at most one other
/// character for every four digits.
pub open spec fn looks_like_hex_spec(s: Seq<char>) -> bool {
    let (d, o) = hex_counts(s);
    d >= 8 && d % 2 == 0 && o * 4 <= d
}

/// Whether the text looks like hexadecimal.
pub fn looks_like_hex(text: &str) -> (r: bool)
    ensures
        r == looks_like_hex_spec(text@),
{
    let s = chars_of(text);
    let mut digits: usize = 0;
    let mut other: usize = 0;
    let mut i: usize = 0;
    while i < s.len()
        invariant
            i <= s.len(),
            digits + other <= i,
            (digits as nat, other as nat) == hex_counts(s@.take(i as int)),
        decreases s.len() - i,
    {
        let c = s[i];
        if is_hex_char(c) {
            digits = digits + 1;
        } else if ascii_space(c) || c == ':' || c == ',' || c == '-' || c == 'x' || c == 'X' || c == '0' {
        } else {
            other = other + 1;
        }
        proof {
            assert(s@.take(i + 1).drop_last() == s@.take(i as int));
            assert(s@.take(i + 1).last() == c);
        }
        i = i + 1;
    }
    assert(s@.take(s.len() as int) == s@);
    digits >= 8 && digits % 2 == 0 && (other as u128) * 4 <= digits as u128
}

/// The characters that are not ASCII whitespace.
pub open spec fn compact(s: Seq<char>) -> Seq<char>
    decreases s.len(),
{
    if s.len() == 0 {
        seq![]
    } else if is_ascii_space(s.last()) {
        compact(s.drop_last())
    } else {
        compact(s.drop_last()).push(s.last())
    }
}

fn compact_chars(s: &Vec<char>) -> (r: Vec<char>)
    ensures
        r@ == compact(s@),
{
    let mut out: Vec<char> = Vec::new();
    let mut i: usize = 0;
    while i < s.len()
        invariant
            i <= s.len(),
            out@ == compact(s@.take(i as int)),
        decreases s.len() - i,
    {
        if !ascii_space(s[i]) {
            out.push(s[i]);
        }
        proof {
            assert(s@.take(i + 1).drop_last() == s@.take(i as int));
            assert(s@.take(i + 1).last() == s@[i as int]);
        }
        i = i + 1;
    }
    assert(s@.take(s.len() as int) == s@);
    out
}

/// How many `=` end the text.
pub open spec fn trailing_pads(s: Seq<char>) -> nat
    decreases s.len(),
{
    if s.len() == 0 || s.last() != '=' {
        0
    } else {
        1 + trailing_pads(s.drop_last())
    }
}

proof fn lemma_trailing_pads(s: Seq<char>)
    ensures
        trailing_pads(s) <= s.len(),
    decreases s.len(),
{
    if s.len() > 0 && s.last() == '=' {
        lemma_trailing_pads(s.drop_last());
    }
}

fn count_trailing_pads(s: &Vec<char>) -> (r: usize)
    ensures
        r == trailing_pads(s@),
        r <= s.len(),
{
    let mut n = s.len();
    assert(s@.take(s.len() as int) == s@);
    while n > 0 && s[n - 1] == '='
        invariant
            n <= s.len(),
            trailing_pads(s@) == (s.len() - n) + trailing_pads(s@.take(n as int)),
        decreases n,
    {
        assert(s@.take(n as int).drop_last() == s@.take(n - 1));
        n = n - 1;
    }
    assert(s@.take(s.len() as int) == s@);
    s.len() - n
}

/// A character of the base64 alphabet.
pub open spec fn is_base64_char(c: char) -> bool {
    ('A' <= c && c <= 'Z') || ('a' <= c && c <= 'z') || ('0' <= c && c <= '9') || c == '+' || c == '/'
}

/// Eight or more characters once whitespace is gone, all of the base64
/// alphabet before any trailing `=`, and a multiple of four in all. Any
/// character outside ASCII fails the alphabet test, so counting characters
/// agrees with counting bytes.
pub open spec fn looks_like_base64_spec(s: Seq<char>) -> bool {
    let c = compact(s);
    let body = c.take(c.len() - trailing_pads(c));
    c.len() >= 8 && (forall|i: int| 0 <= i < body.len() ==> is_base64_char(#[trigger] body[i])) && c.len() % 4
        == 0
}

/// Whether the text looks like base64.
pub fn looks_like_base64(text: &str) -> (r: bool)
    ensures
        r == looks_like_base64_spec(text@),
{
    let s = chars_of(text);
    let c = compact_chars(&s);
    assert(s@ == text@);
    if c.len() < 8 {
        return false;
    }
    let pads = count_trailing_pads(&c);
    let end = c.len() - pads;
    let mut i: usize = 0;
    while i < end
        invariant
            i <= end <= c.len(),
            c.len() >= 8,
            c@ == compact(text@),
            s@ == text@,
            end == c.len() - trailing_pads(c@),
            forall|k: int| 0 <= k < i ==> is_base64_char(#[trigger] c@[k]),
        decreases end - i,
    {
        let x = c[i];
        if !(('A' <= x && x <= 'Z') || ('a' <= x && x <= 'z') || ('0' <= x && x <= '9') || x == '+' || x == '/') {
            assert(c@.take(end as int)[i as int] == x);
            return false;
        }
        i = i + 1;
    }
    assert forall|k: int| 0 <= k < end implies is_base64_char(#[trigger] c@.take(end as int)[k]) by {
        assert(c@.take(end as int)[k] == c@[k]);
    }
    c.len() % 4 == 0
}

/// ASCII upper case of one character.
pub open spec fn ascii_upper(c: char) -> char {
    if 'a' <= c && c <= 'z' {
        ((c as u32) - 32) as char
    } else {
        c
    }
}

/// ASCII lower case of one character.
pub open spec fn ascii_lower(c: char) -> char {
    if 'A' <= c && c <= 'Z' {
        ((c as u32) + 32) as char
    } else {
        c
    }
}

fn to_ascii_upper(c: char) -> (r: char)
    ensures
        r == ascii_upper(c),
{
    if 'a' <= c && c <= 'z' {
        ((c as u8) - 32) as char
    } else {
        c
    }
}

fn to_ascii_lower(c: char) -> (r: char)
    ensures
        r == ascii_lower(c),
{
    if 'A' <= c && c <= 'Z' {
        ((c as u8) + 32) as char
    } else {
        c
    }
}

/// A character of the base32 alphabet.
pub open spec fn is_base32_char(c: char) -> bool {
    ('A' <= c && c <= 'Z') || ('2' <= c && c <= '7')
}

/// Eight or more characters once whitespace is gone, all of the upper-cased
/// base32 alphabet before any trailing `=`, and at least eight of those.
pub open spec fn looks_like_base32_spec(s: Seq<char>) -> bool {
    let c = compact(s).map_values(|x: char| ascii_upper(x));
    let body = c.take(c.len() - trailing_pads(c));
    c.len() >= 8 && (forall|i: int| 0 <= i < body.len() ==> is_base32_char(#[trigger] body[i])) && body.len()
        * 5 >= 40
}

/// Whether the text looks like base32.
pub fn looks_like_base32(text: &str) -> (r: bool)
    ensures
        r == looks_like_base32_spec(text@),
{
    let s = chars_of(text);
    let raw = compact_chars(&s);
    assert(raw@ == compact(text@));
    let mut c: Vec<char> = Vec::new();
    let mut k: usize = 0;
    while k < raw.len()
        invariant
            k <= raw.len(),
            c@ == raw@.map_values(|x: char| ascii_upper(x)).take(k as int),
        decreases raw.len() - k,
    {
        c.push(to_ascii_upper(raw[k]));
        assert(c@ =~= raw@.map_values(|x: char| ascii_upper(x)).take(k + 1));
        k = k + 1;
    }
    assert(c@ =~= raw@.map_values(|x: char| ascii_upper(x)));
    if c.len() < 8 {
        return false;
    }
    let pads = count_trailing_pads(&c);
    let end = c.len() - pads;
    let mut i: usize = 0;
    while i < end
        invariant
            i <= end <= c.len(),
            c.len() >= 8,
            c@ == compact(text@).map_values(|x: char| ascii_upper(x)),
            end == c.len() - trailing_pads(c@),
            forall|k: int| 0 <= k < i ==> is_base32_char(#[trigger] c@[k]),
        decreases end - i,
    {
        let x = c[i];
        if !(('A' <= x && x <= 'Z') || ('2' <= x && x <= '7')) {
            assert(c@.take(end as int)[i as int] == x);
            return false;
        }
        i = i + 1;
    }
    assert forall|k: int| 0 <= k < end implies is_base32_char(#[trigger] c@.take(end as int)[k]) by {
        assert(c@.take(end as int)[k] == c@[k]);
    }
    end >= 8
}

/// A `%` followed by two hex digits somewhere in the text.
pub open spec fn looks_like_url_encoded_spec(s: Seq<char>) -> bool {
    exists|i: int| 0 <= i && i + 2 < s.len() && #[trigger] s[i] == '%' && is_hex(s[i + 1]) && is_hex(s[i + 2])
}

/// Whether the text holds a percent escape.
pub fn looks_like_url_encoded(text: &str) -> (r: bool)
    ensures
        r == looks_like_url_encoded_spec(text@),
{
    let s = chars_of(text);
    let mut i: usize = 0;
    while s.len() > 2 && i < s.len() - 2
        invariant
            s@ == text@,
            forall|k: int| 0 <= k < i && k + 2 < s.len() ==> !(#[trigger] s@[k] == '%' && is_hex(s@[k + 1]) && is_hex(s@[k + 2])),
        decreases s.len() - i,
    {
        if s[i] == '%' && is_hex_char(s[i + 1]) && is_hex_char(s[i + 2]) {
            return true;
        }
        i = i + 1;
    }
    false
}

/// Whether `t` occurs in `s`.
pub open spec fn contains_text(s: Seq<char>, t: Seq<char>) -> bool {
    find_from(s, t, 0) is Some
}

fn contains_str(s: &Vec<char>, t: &str) -> (r: bool)
    ensures
        r == contains_text(s@, t@),
{
    let tv = chars_of(t);
    let found = crate::strings::find(s, &tv, 0);
    found.is_some()
}

/// An HTML entity somewhere in the text.
pub open spec fn looks_like_html_entities_spec(s: Seq<char>) -> bool {
    contains_text(s, "&lt;"@) || contains_text(s, "&gt;"@) || contains_text(s, "&amp;"@) || contains_text(
        s,
        "&#"@,
    ) || contains_text(s, "&quot;"@)
}

/// Whether the text holds an HTML entity.
pub fn looks_like_html_entities(text: &str) -> (r: bool)
    ensures
        r == looks_like_html_entities_spec(text@),
{
    let s = chars_of(text);
    contains_str(&s, "&lt;") || contains_str(&s, "&gt;") || contains_str(&s, "&amp;") || contains_str(&s, "&#")
        || contains_str(&s, "&quot;")
}

/// The text in ASCII lower case.
pub open spec fn lower_text(s: Seq<char>) -> Seq<char> {
    s.map_values(|c: char| ascii_lower(c))
}

fn lowered(s: &Vec<char>) -> (r: Vec<char>)
    ensures
        r@ == lower_text(s@),
{
    let mut out: Vec<char> = Vec::new();
    let mut k: usize = 0;
    while k < s.len()
        invariant
            k <= s.len(),
            out@ == lower_text(s@).take(k as int),
        decreases s.len() - k,
    {
        out.push(to_ascii_lower(s[k]));
        assert(out@ =~= lower_text(s@).take(k + 1));
        k = k + 1;
    }
    assert(out@ =~= lower_text(s@));
    out
}

/// `hxxp`, `[.]` or `[://]`, in any case.
pub open spec fn looks_defanged_spec(s: Seq<char>) -> bool {
    let l = lower_text(s);
    contains_text(l, "hxxp"@) || contains_text(l, "[.]"@) || contains_text(l, "[://]"@)
}

/// Whether the text looks like a defanged indicator.
pub fn looks_defanged(text: &str) -> (r: bool)
    ensures
        r == looks_defanged_spec(text@),
{
    let s = chars_of(text);
    let l = lowered(&s);
    contains_str(&l, "hxxp") || contains_str(&l, "[.]") || contains_str(&l, "[://]")
}

/// A zlib header: deflate in the low nibble and a check that divides by 31.
pub open spec fn looks_like_zlib_spec(b: Seq<u8>) -> bool {
    b.len() >= 2 && b[0] % 16 == 8 && (b[0] * 256 + b[1]) % 31 == 0
}

/// Whether the bytes start with a zlib header.
pub fn looks_like_zlib(bytes: &[u8]) -> (r: bool)
    ensures
        r == looks_like_zlib_spec(bytes@),
{
    if bytes.len() < 2 {
        return false;
    }
    let cmf = bytes[0];
    let flg = bytes[1];
    assert(cmf & 0x0f == cmf % 16) by (bit_vector);
    cmf & 0x0f == 8 && (cmf as u16 * 256 + flg as u16) % 31 == 0
}

/// An ASCII letter or ASCII whitespace.
pub open spec fn is_alpha_or_space(b: u8) -> bool {
    (0x41 <= b <= 0x5a) || (0x61 <= b <= 0x7a) || b == 0x20 || b == 0x09 || b == 0x0a || b == 0x0c || b == 0x0d
}

/// How many bytes satisfy a class, counted over the whole input.
pub open spec fn count_alpha(b: Seq<u8>) -> nat
    decreases b.len(),
{
    if b.len() == 0 {
        0
    } else {
        count_alpha(b.drop_last()) + if is_alpha_or_space(b.last()) {
            1nat
        } else {
            0nat
        }
    }
}

/// Eight or more bytes, at least four in five of them letters or spaces.
pub open spec fn looks_mostly_alpha_spec(b: Seq<u8>) -> bool {
    b.len() >= 8 && count_alpha(b) * 100 / b.len() >= 80
}

/// Whether the bytes are mostly letters.
pub fn looks_mostly_alpha(bytes: &[u8]) -> (r: bool)
    ensures
        r == looks_mostly_alpha_spec(bytes@),
{
    if bytes.len() < 8 {
        return false;
    }
    let mut alpha: usize = 0;
    let mut i: usize = 0;
    while i < bytes.len()
        invariant
            i <= bytes.len(),
            alpha <= i,
            alpha == count_alpha(bytes@.take(i as int)),
        decreases bytes.len() - i,
    {
        let b = bytes[i];
        if (0x41 <= b && b <= 0x5a) || (0x61 <= b && b <= 0x7a) || b == 0x20 || b == 0x09 || b == 0x0a || b == 0x0c
            || b == 0x0d {
            alpha = alpha + 1;
        }
        proof {
            assert(bytes@.take(i + 1).drop_last() == bytes@.take(i as int));
            assert(bytes@.take(i + 1).last() == b);
        }
        i = i + 1;
    }
    assert(bytes@.take(bytes.len() as int) == bytes@);
    (alpha as u128) * 100 / (bytes.len() as u128) >= 80
}


// ---------------------------------------------------------------------------
// Scoring and previews.

/// The deepest nesting a search may use.
pub const MAX_DEPTH: i128 = 3;

/// The most suggestions a report may hold.
pub const MAX_RESULTS_CAP: i128 = 32;

/// How many characters of text a preview shows.
pub const PREVIEW_CHARS: usize = 64;

/// Search bounds carried through the recursion.
#[derive(Clone, Copy, Debug, PartialEq, Eq, Structural)]
pub struct Options {
    pub depth: usize,
    pub intensive: bool,
}

/// Reads the depth argument, which must lie in 1 to 3.
pub fn parse_options(depth: i128, intensive: bool) -> (r: Result<Options, OperationError>)
    ensures
        1 <= depth <= 3 ==> r == Ok::<Options, OperationError>(Options { depth: depth as usize, intensive }),
        !(1 <= depth <= 3) ==> r == Err::<Options, OperationError>(OperationError::Failed(Failure::SuggestInvalidDepth)),
{
    if depth < 1 || depth > MAX_DEPTH {
        return Err(OperationError::Failed(Failure::SuggestInvalidDepth));
    }
    Ok(Options { depth: depth as usize, intensive })
}

/// Reads the result-count argument, which must lie in 1 to 32.
pub fn parse_max_results(max_results: i128) -> (r: Result<usize, OperationError>)
    ensures
        1 <= max_results <= 32 ==> r == Ok::<usize, OperationError>(max_results as usize),
        !(1 <= max_results <= 32) ==> r == Err::<usize, OperationError>(
            OperationError::Failed(Failure::SuggestInvalidMaxResults),
        ),
{
    if max_results <= 0 || max_results > MAX_RESULTS_CAP {
        return Err(OperationError::Failed(Failure::SuggestInvalidMaxResults));
    }
    Ok(max_results as usize)
}

/// Refuses an output longer than the budget.
pub fn ensure_budget(len: usize, max_output_bytes: u64) -> (r: Result<(), OperationError>)
    ensures
        len <= max_output_bytes ==> r == Ok::<(), OperationError>(()),
        len > max_output_bytes ==> r == Err::<(), OperationError>(OperationError::OutputLimitExceeded),
{
    if len as u64 > max_output_bytes {
        Err(OperationError::OutputLimitExceeded)
    } else {
        Ok(())
    }
}

/// A printable ASCII byte or ASCII whitespace.
pub open spec fn is_printable(b: u8) -> bool {
    (0x21 <= b <= 0x7e) || b == 0x20 || b == 0x09 || b == 0x0a || b == 0x0c || b == 0x0d
}

/// How many bytes are printable.
pub open spec fn count_printable(b: Seq<u8>) -> nat
    decreases b.len(),
{
    if b.len() == 0 {
        0
    } else {
        count_printable(b.drop_last()) + if is_printable(b.last()) {
            1nat
        } else {
            0nat
        }
    }
}

fn printable_count(bytes: &[u8]) -> (r: usize)
    ensures
        r == count_printable(bytes@),
        r <= bytes.len(),
{
    let mut n: usize = 0;
    let mut i: usize = 0;
    while i < bytes.len()
        invariant
            i <= bytes.len(),
            n <= i,
            n == count_printable(bytes@.take(i as int)),
        decreases bytes.len() - i,
    {
        let b = bytes[i];
        if (0x21 <= b && b <= 0x7e) || b == 0x20 || b == 0x09 || b == 0x0a || b == 0x0c || b == 0x0d {
            n = n + 1;
        }
        proof {
            assert(bytes@.take(i + 1).drop_last() == bytes@.take(i as int));
            assert(bytes@.take(i + 1).last() == b);
        }
        i = i + 1;
    }
    assert(bytes@.take(bytes.len() as int) == bytes@);
    n
}

/// The percentage of printable bytes, as the score computes it: the product
/// saturates, and a quotient that does not fit in 16 bits counts as zero.
pub open spec fn ratio_spec(b: Seq<u8>) -> int {
    let p = count_printable(b) * 100;
    let m = if p > usize::MAX {
        usize::MAX as int
    } else {
        p as int
    };
    let r = m / (b.len() as int);
    if r <= 65535 {
        r
    } else {
        0
    }
}

/// A sum that stops at the largest `u16`.
pub open spec fn saturate16(v: int) -> int {
    if v > 65535 {
        65535
    } else {
        v
    }
}

/// Whether the bytes open with a gzip, bzip2 or zlib header.
pub open spec fn compressed_magic(b: Seq<u8>) -> bool {
    (b.len() >= 2 && b[0] == 0x1f && b[1] == 0x8b) || (b.len() >= 3 && b[0] == 0x42 && b[1] == 0x5a && b[2]
        == 0x68) || looks_like_zlib_spec(b)
}

/// How plausible a candidate output is, from 0 to 99.
pub open spec fn score_spec(b: Seq<u8>, has_text: bool) -> u16 {
    if b.len() == 0 {
        0
    } else {
        let r = ratio_spec(b);
        let s1 = if has_text {
            saturate16(r + 15)
        } else {
            r
        };
        let s2 = if compressed_magic(b) && s1 < 70 {
            70
        } else {
            s1
        };
        let s3 = if r >= 85 {
            saturate16(s2 + 10)
        } else {
            s2
        };
        (if s3 > 99 {
            99
        } else {
            s3
        }) as u16
    }
}

/// Scores a candidate output: the share of printable bytes, more for text,
/// a floor for compressed data, a bonus above 85%, at most 99.
pub fn score_output(bytes: &[u8], has_text: bool) -> (r: u16)
    ensures
        r == score_spec(bytes@, has_text),
{
    if bytes.len() == 0 {
        return 0;
    }
    let printable = printable_count(bytes);
    let product: usize = if printable > usize::MAX / 100 {
        usize::MAX
    } else {
        printable * 100
    };
    let quotient = product / bytes.len();
    let ratio: u16 = if quotient <= 65535 {
        quotient as u16
    } else {
        0
    };
    assert(ratio == ratio_spec(bytes@)) by {
        if printable > usize::MAX / 100 {
            assert(printable * 100 > usize::MAX) by (nonlinear_arith)
                requires
                    printable > usize::MAX / 100,
            ;
        }
    }
    let mut score = ratio;
    if has_text {
        score = if score > 65535 - 15 {
            65535
        } else {
            score + 15
        };
    }
    let magic = (bytes.len() >= 2 && bytes[0] == 0x1f && bytes[1] == 0x8b) || (bytes.len() >= 3 && bytes[0]
        == 0x42 && bytes[1] == 0x5a && bytes[2] == 0x68) || looks_like_zlib(bytes);
    if magic && score < 70 {
        score = 70;
    }
    if ratio >= 85 {
        score = if score > 65535 - 10 {
            65535
        } else {
            score + 10
        };
    }
    if score > 99 {
        99
    } else {
        score
    }
}

/// Whether a character is a control code (general category `Cc`).
pub open spec fn is_control(c: char) -> bool {
    (c as u32) <= 0x1f || (0x7f <= (c as u32) && (c as u32) <= 0x9f)
}

/// One character of a preview, with line breaks and tabs spelled out and
/// other control codes shown as dots.
pub open spec fn escape_preview_char(c: char) -> Seq<char> {
    if c == '\n' {
        seq!['\\', 'n']
    } else if c == '\r' {
        seq!['\\', 'r']
    } else if c == '\t' {
        seq!['\\', 't']
    } else if is_control(c) {
        seq!['.']
    } else {
        seq![c]
    }
}

/// A preview escaped character by character.
pub open spec fn escape_preview_spec(s: Seq<char>) -> Seq<char>
    decreases s.len(),
{
    if s.len() == 0 {
        seq![]
    } else {
        escape_preview_spec(s.drop_last()) + escape_preview_char(s.last())
    }
}

/// Escapes a preview for a one-line report.
pub fn escape_preview(value: &Vec<char>) -> (r: Vec<char>)
    ensures
        r@ == escape_preview_spec(value@),
{
    let mut out: Vec<char> = Vec::new();
    let mut i: usize = 0;
    while i < value.len()
        invariant
            i <= value.len(),
            out@ == escape_preview_spec(value@.take(i as int)),
        decreases value.len() - i,
    {
        let c = value[i];
        let ghost before = out@;
        if c == '\n' {
            out.push('\\');
            out.push('n');
        } else if c == '\r' {
            out.push('\\');
            out.push('r');
        } else if c == '\t' {
            out.push('\\');
            out.push('t');
        } else if (c as u32) <= 0x1f || (0x7f <= (c as u32) && (c as u32) <= 0x9f) {
            out.push('.');
        } else {
            out.push(c);
        }
        proof {
            assert(out@ =~= before + escape_preview_char(c));
            assert(value@.take(i + 1).drop_last() == value@.take(i as int));
            assert(value@.take(i + 1).last() == c);
        }
        i = i + 1;
    }
    assert(value@.take(value.len() as int) == value@);
    out
}

/// A preview of a candidate output: up to 64 characters of its text, or
/// `hex:` and up to 24 of its bytes; `...` when there was more.
pub open spec fn preview_spec(b: Seq<u8>, text: Option<Seq<char>>) -> Seq<char> {
    match text {
        Some(t) => escape_preview_spec(
            if t.len() > 64 {
                t.take(64) + "..."@
            } else {
                t
            },
        ),
        None => "hex:"@ + hex_lower_spec(
            if b.len() > 24 {
                b.take(24)
            } else {
                b
            },
        ) + if b.len() > 24 {
            "..."@
        } else {
            seq![]
        },
    }
}

fn append_str(out: &mut Vec<char>, text: &str)
    ensures
        final(out)@ == old(out)@ + text@,
{
    let cs = chars_of(text);
    let mut i: usize = 0;
    while i < cs.len()
        invariant
            i <= cs.len(),
            cs@ == text@,
            out@ == old(out)@ + cs@.take(i as int),
        decreases cs.len() - i,
    {
        out.push(cs[i]);
        i = i + 1;
    }
    assert(cs@.take(cs.len() as int) == cs@);
}

fn append_vec(out: &mut Vec<char>, extra: &Vec<char>)
    ensures
        final(out)@ == old(out)@ + extra@,
{
    let mut i: usize = 0;
    while i < extra.len()
        invariant
            i <= extra.len(),
            out@ == old(out)@ + extra@.take(i as int),
        decreases extra.len() - i,
    {
        out.push(extra[i]);
        i = i + 1;
    }
    assert(extra@.take(extra.len() as int) == extra@);
}

/// A preview of a candidate output.
pub fn preview_of(bytes: &[u8], text: Option<&str>) -> (r: String)
    ensures
        r@ == preview_spec(
            bytes@,
            match text {
                Some(t) => Some(t@),
                None => None,
            },
        ),
{
    match text {
        Some(t) => {
            let cs = chars_of(t);
            let mut shown: Vec<char> = Vec::new();
            let mut i: usize = 0;
            while i < cs.len() && i < PREVIEW_CHARS
                invariant
                    i <= cs.len(),
                    i <= 64,
                    shown@ == cs@.take(i as int),
                decreases cs.len() - i,
            {
                shown.push(cs[i]);
                i = i + 1;
            }
            if cs.len() > PREVIEW_CHARS {
                append_str(&mut shown, "...");
            } else {
                assert(cs@.take(cs.len() as int) == cs@);
            }
            let escaped = escape_preview(&shown);
            string_of(&escaped)
        },
        None => {
            let take: usize = if bytes.len() < 24 {
                bytes.len()
            } else {
                24
            };
            let mut head: Vec<u8> = Vec::new();
            let mut i: usize = 0;
            while i < take
                invariant
                    i <= take <= bytes.len(),
                    head@ == bytes@.take(i as int),
                decreases take - i,
            {
                head.push(bytes[i]);
                i = i + 1;
            }
            assert(bytes.len() <= 24 ==> bytes@.take(take as int) == bytes@);
            let mut out: Vec<char> = Vec::new();
            append_str(&mut out, "hex:");
            let digits = to_hex_lower(head.as_slice());
            append_vec(&mut out, &digits);
            if bytes.len() > take {
                append_str(&mut out, "...");
            } else {
                assert(out@ + Seq::<char>::empty() == out@);
            }
            string_of(&out)
        },
    }
}


// ---------------------------------------------------------------------------
// Ranking and the report.

/// One candidate operation, described well enough to re-run it.
#[derive(Clone, Copy)]
pub struct Step {
    pub id: &'static str,
    pub alias: &'static str,
    pub args_summary: &'static str,
    pub recipe_fragment: &'static str,
}

/// A scored candidate recipe and what it produced.
pub struct Hit {
    pub score: u16,
    pub steps: Vec<Step>,
    pub reason: String,
    pub preview: String,
}

/// Whether every hit names at least one step.
pub open spec fn hits_have_steps(hits: Seq<Hit>) -> bool {
    forall|i: int| 0 <= i < hits.len() ==> (#[trigger] hits[i]).steps@.len() >= 1
}

/// Strict lexicographic order of code points, which is the order of the
/// UTF-8 bytes.
pub open spec fn lex_less(a: Seq<char>, b: Seq<char>) -> bool
    decreases a.len(),
{
    if a.len() == 0 {
        b.len() > 0
    } else if b.len() == 0 {
        false
    } else if (a[0] as u32) < (b[0] as u32) {
        true
    } else if a[0] == b[0] {
        lex_less(a.skip(1), b.skip(1))
    } else {
        false
    }
}

fn lex_less_exec(a: &Vec<char>, b: &Vec<char>) -> (r: bool)
    ensures
        r == lex_less(a@, b@),
{
    let mut i: usize = 0;
    assert(a@.skip(0) == a@);
    assert(b@.skip(0) == b@);
    while i < a.len() && i < b.len() && a[i] == b[i]
        invariant
            i <= a.len(),
            i <= b.len(),
            lex_less(a@, b@) == lex_less(a@.skip(i as int), b@.skip(i as int)),
        decreases a.len() - i,
    {
        assert(a@.skip(i as int).skip(1) == a@.skip(i + 1));
        assert(b@.skip(i as int).skip(1) == b@.skip(i + 1));
        i = i + 1;
    }
    if i == a.len() {
        return i < b.len();
    }
    if i == b.len() {
        return false;
    }
    assert(a@.skip(i as int)[0] == a@[i as int]);
    assert(b@.skip(i as int)[0] == b@[i as int]);
    (a[i] as u32) < (b[i] as u32)
}

/// Whether `a` ranks strictly before `b`: higher score, then the leading
/// operation id, then the preview.
pub open spec fn ranks_before(a: Hit, b: Hit) -> bool {
    a.score > b.score || (a.score == b.score && (lex_less(a.steps@[0].id@, b.steps@[0].id@) || (
    a.steps@[0].id@ == b.steps@[0].id@ && lex_less(a.preview@, b.preview@))))
}

fn ranks_before_exec(a: &Hit, b: &Hit) -> (r: bool)
    requires
        a.steps@.len() >= 1,
        b.steps@.len() >= 1,
    ensures
        r == ranks_before(*a, *b),
{
    if a.score != b.score {
        return a.score > b.score;
    }
    let ia = chars_of(a.steps[0].id);
    let ib = chars_of(b.steps[0].id);
    if lex_less_exec(&ia, &ib) {
        return true;
    }
    if lex_less_exec(&ib, &ia) || !same_chars(&ia, &ib) {
        return false;
    }
    let pa = chars_of(a.preview.as_str());
    let pb = chars_of(b.preview.as_str());
    lex_less_exec(&pa, &pb)
}

fn same_chars(a: &Vec<char>, b: &Vec<char>) -> (r: bool)
    ensures
        r == (a@ == b@),
{
    if a.len() != b.len() {
        return false;
    }
    let mut i: usize = 0;
    while i < a.len()
        invariant
            i <= a.len() == b.len(),
            forall|k: int| 0 <= k < i ==> a@[k] == b@[k],
        decreases a.len() - i,
    {
        if a[i] != b[i] {
            return false;
        }
        i = i + 1;
    }
    assert(a@ == b@);
    true
}

/// Where a later hit goes among sorted ones: after every hit it does not
/// rank before, so equal hits keep their order.
pub open spec fn insert_position(sorted: Seq<Hit>, x: Hit) -> int
    decreases sorted.len(),
{
    if sorted.len() == 0 {
        0
    } else if ranks_before(x, sorted.last()) {
        insert_position(sorted.drop_last(), x)
    } else {
        sorted.len() as int
    }
}

/// The hits in rank order, equal hits in their original order.
pub open spec fn sort_hits(hits: Seq<Hit>) -> Seq<Hit>
    decreases hits.len(),
{
    if hits.len() == 0 {
        seq![]
    } else {
        let sorted = sort_hits(hits.drop_last());
        sorted.insert(insert_position(sorted, hits.last()), hits.last())
    }
}

/// The leading ids of a recipe.
pub open spec fn step_ids(steps: Seq<Step>) -> Seq<Seq<char>> {
    steps.map_values(|s: Step| s.id@)
}

/// Two hits the report would show as one: the same steps and preview.
pub open spec fn same_hit(a: Hit, b: Hit) -> bool {
    step_ids(a.steps@) == step_ids(b.steps@) && a.preview@ == b.preview@
}

/// Runs of the same hit reduced to their first.
pub open spec fn dedup_hits(hits: Seq<Hit>) -> Seq<Hit>
    decreases hits.len(),
{
    if hits.len() == 0 {
        seq![]
    } else {
        let d = dedup_hits(hits.drop_last());
        if d.len() > 0 && same_hit(hits.last(), d.last()) {
            d
        } else {
            d.push(hits.last())
        }
    }
}

/// Whether a hit's preview or reason contains the lower-cased crib.
pub open spec fn crib_matches(hit: Hit, needle: Seq<char>) -> bool {
    contains_text(lower_text(hit.preview@), needle) || contains_text(lower_text(hit.reason@), needle)
}

/// The hits that match the crib, in order.
pub open spec fn filter_hits(hits: Seq<Hit>, needle: Seq<char>) -> Seq<Hit>
    decreases hits.len(),
{
    if hits.len() == 0 {
        seq![]
    } else if crib_matches(hits.last(), needle) {
        filter_hits(hits.drop_last(), needle).push(hits.last())
    } else {
        filter_hits(hits.drop_last(), needle)
    }
}

/// What `rank` leaves: the hits matching a non-empty crib, in rank order,
/// repeats dropped, at most `max_results` of them.
pub open spec fn rank_spec(hits: Seq<Hit>, crib: Seq<char>, max_results: nat) -> Seq<Hit> {
    let kept = if crib.len() > 0 {
        filter_hits(hits, lower_text(crib))
    } else {
        hits
    };
    let d = dedup_hits(sort_hits(kept));
    if d.len() > max_results {
        d.take(max_results as int)
    } else {
        d
    }
}


fn crib_matches_exec(hit: &Hit, needle: &Vec<char>) -> (r: bool)
    ensures
        r == crib_matches(*hit, needle@),
{
    let preview = lowered(&chars_of(hit.preview.as_str()));
    if crate::strings::find(&preview, needle, 0).is_some() {
        return true;
    }
    let reason = lowered(&chars_of(hit.reason.as_str()));
    crate::strings::find(&reason, needle, 0).is_some()
}

fn same_hit_exec(a: &Hit, b: &Hit) -> (r: bool)
    ensures
        r == same_hit(*a, *b),
{
    let ghost ia = step_ids(a.steps@);
    let ghost ib = step_ids(b.steps@);
    if a.steps.len() != b.steps.len() {
        assert(ia.len() != ib.len());
        return false;
    }
    let mut i: usize = 0;
    while i < a.steps.len()
        invariant
            i <= a.steps.len() == b.steps.len(),
            ia == step_ids(a.steps@),
            ib == step_ids(b.steps@),
            forall|k: int| 0 <= k < i ==> ia[k] == ib[k],
        decreases a.steps.len() - i,
    {
        let x = chars_of(a.steps[i].id);
        let y = chars_of(b.steps[i].id);
        if !same_chars(&x, &y) {
            assert(ia[i as int] != ib[i as int]);
            return false;
        }
        i = i + 1;
    }
    assert(ia =~= ib);
    let pa = chars_of(a.preview.as_str());
    let pb = chars_of(b.preview.as_str());
    same_chars(&pa, &pb)
}

proof fn lemma_filter_step(all: Seq<Hit>, needle: Seq<char>, k: int)
    requires
        0 <= k < all.len(),
    ensures
        filter_hits(all.take(k + 1), needle) == if crib_matches(all[k], needle) {
            filter_hits(all.take(k), needle).push(all[k])
        } else {
            filter_hits(all.take(k), needle)
        },
{
    assert(all.take(k + 1).drop_last() == all.take(k));
    assert(all.take(k + 1).last() == all[k]);
}

/// Applies the crib filter, then orders, drops repeats, and truncates.
pub fn rank(hits: &mut Vec<Hit>, crib: &str, max_results: usize)
    requires
        hits_have_steps(old(hits)@),
    ensures
        final(hits)@ == rank_spec(old(hits)@, crib@, max_results as nat),
{
    let ghost all = hits@;
    assert(all.len() == hits.len());
    let mut source: Vec<Hit> = Vec::new();
    std::mem::swap(&mut source, hits);
    let crib_chars = chars_of(crib);
    let mut kept: Vec<Hit> = Vec::new();
    if crib_chars.len() > 0 {
        let needle = lowered(&crib_chars);
        let mut consumed: usize = 0;
        while source.len() > 0
            invariant
                consumed + source.len() == all.len(),
                all.len() <= usize::MAX,
                source@ == all.skip(consumed as int),
                needle@ == lower_text(crib@),
                kept@ == filter_hits(all.take(consumed as int), needle@),
            decreases source.len(),
        {
            let h = source.remove(0);
            proof {
                assert(h == all[consumed as int]);
                lemma_filter_step(all, needle@, consumed as int);
                assert(all.skip(consumed as int).remove(0) == all.skip(consumed + 1));
            }
            if crib_matches_exec(&h, &needle) {
                kept.push(h);
            }
            consumed = consumed + 1;
        }
        assert(all.take(all.len() as int) == all);
    } else {
        kept = source;
    }
    let ghost filtered = kept@;
    assert(filtered.len() == kept.len());
    assert(filtered == if crib@.len() > 0 {
        filter_hits(all, lower_text(crib@))
    } else {
        all
    });
    proof {
        lemma_filter_keeps_steps(all, lower_text(crib@));
    }
    let mut sorted: Vec<Hit> = Vec::new();
    let mut consumed: usize = 0;
    while kept.len() > 0
        invariant
            consumed + kept.len() == filtered.len(),
            filtered.len() <= usize::MAX,
            kept@ == filtered.skip(consumed as int),
            hits_have_steps(filtered),
            sorted@ == sort_hits(filtered.take(consumed as int)),
            hits_have_steps(sorted@),
        decreases kept.len(),
    {
        let h = kept.remove(0);
        assert(h == filtered[consumed as int]);
        assert(filtered.skip(consumed as int).remove(0) == filtered.skip(consumed + 1));
        let mut p = sorted.len();
        assert(sorted@.take(sorted.len() as int) == sorted@);
        while p > 0 && ranks_before_exec(&h, &sorted[p - 1])
            invariant
                p <= sorted.len(),
                hits_have_steps(sorted@),
                h.steps@.len() >= 1,
                insert_position(sorted@, h) == insert_position(sorted@.take(p as int), h),
            decreases p,
        {
            assert(sorted@.take(p as int).drop_last() == sorted@.take(p - 1));
            assert(sorted@.take(p as int).last() == sorted@[p - 1]);
            p = p - 1;
        }
        proof {
            if p > 0 {
                assert(sorted@.take(p as int).last() == sorted@[p - 1]);
            }
            assert(sorted@.take(sorted.len() as int) == sorted@);
            lemma_insert_position_bound(sorted@.take(p as int), h);
            assert(filtered.take(consumed + 1).drop_last() == filtered.take(consumed as int));
            assert(filtered.take(consumed + 1).last() == h);
        }
        sorted.insert(p, h);
        proof {
            assert forall|i: int| 0 <= i < sorted@.len() implies (#[trigger] sorted@[i]).steps@.len() >= 1 by {}
        }
        consumed = consumed + 1;
    }
    assert(filtered.take(filtered.len() as int) == filtered);
    let ghost ordered = sorted@;
    assert(ordered.len() == sorted.len());
    let mut deduped: Vec<Hit> = Vec::new();
    let mut taken: usize = 0;
    while sorted.len() > 0
        invariant
            taken + sorted.len() == ordered.len(),
            ordered.len() <= usize::MAX,
            sorted@ == ordered.skip(taken as int),
            deduped@ == dedup_hits(ordered.take(taken as int)),
        decreases sorted.len(),
    {
        let h = sorted.remove(0);
        assert(h == ordered[taken as int]);
        assert(ordered.skip(taken as int).remove(0) == ordered.skip(taken + 1));
        assert(ordered.take(taken + 1).drop_last() == ordered.take(taken as int));
        assert(ordered.take(taken + 1).last() == h);
        let repeat = deduped.len() > 0 && same_hit_exec(&h, &deduped[deduped.len() - 1]);
        if !repeat {
            deduped.push(h);
        }
        taken = taken + 1;
    }
    assert(ordered.take(ordered.len() as int) == ordered);
    deduped.truncate(max_results);
    *hits = deduped;
}

proof fn lemma_insert_position_bound(sorted: Seq<Hit>, x: Hit)
    ensures
        0 <= insert_position(sorted, x) <= sorted.len(),
    decreases sorted.len(),
{
    if sorted.len() > 0 && ranks_before(x, sorted.last()) {
        lemma_insert_position_bound(sorted.drop_last(), x);
    }
}

proof fn lemma_filter_keeps_steps(hits: Seq<Hit>, needle: Seq<char>)
    requires
        hits_have_steps(hits),
    ensures
        hits_have_steps(filter_hits(hits, needle)),
    decreases hits.len(),
{
    if hits.len() > 0 {
        assert(hits_have_steps(hits.drop_last())) by {
            assert forall|i: int| 0 <= i < hits.drop_last().len() implies (#[trigger] hits.drop_last()[i]).steps@.len()
                >= 1 by {
                assert(hits.drop_last()[i] == hits[i]);
            }
        }
        lemma_filter_keeps_steps(hits.drop_last(), needle);
    }
}


/// The report's first line.
pub open spec fn report_title() -> Seq<char> {
    "FerroSift Suggest recipe\n"@
}

/// The report's note on what it does not do.
pub open spec fn report_note() -> Seq<char> {
    "note: CyberChef Magic remains unsupported; this advisor only ranks portable recipes\n"@
}

/// The share of printable bytes, in whole percent.
pub open spec fn printable_percent(b: Seq<u8>) -> nat {
    if b.len() == 0 {
        0
    } else {
        count_printable(b) * 100 / b.len()
    }
}

/// The aliases of a recipe's steps.
pub open spec fn step_aliases(steps: Seq<Step>) -> Seq<Seq<char>> {
    steps.map_values(|s: Step| s.alias@)
}

/// The recipe fragments of a recipe's steps.
pub open spec fn step_fragments(steps: Seq<Step>) -> Seq<Seq<char>> {
    steps.map_values(|s: Step| s.recipe_fragment@)
}

/// The rank line of a hit.
pub open spec fn hit_head(hit: Hit, index: nat) -> Seq<char> {
    let head = hit.steps@[0];
    decimal_spec(index + 1) + ". score="@ + decimal_spec(hit.score as nat) + " "@ + head.alias@ + " ("@
        + head.id@ + ")\n"@
}

/// The chain line, for a recipe of more than one step.
pub open spec fn hit_chain(hit: Hit) -> Seq<char> {
    if hit.steps@.len() > 1 {
        "   chain: "@ + join_spec(step_aliases(hit.steps@), " -> "@) + "\n"@
    } else {
        seq![]
    }
}

/// The arguments, reason and preview lines.
pub open spec fn hit_details(hit: Hit) -> Seq<char> {
    "   args: "@ + hit.steps@[0].args_summary@ + "\n"@ + "   reason: "@ + hit.reason@ + "\n"@ + "   preview: "@
        + hit.preview@ + "\n"@
}

/// The recipe line.
pub open spec fn hit_recipe(hit: Hit) -> Seq<char> {
    "   recipe: ["@ + join_spec(step_fragments(hit.steps@), ","@) + "]\n"@
}

/// One hit's lines, the `index`-th of `total`, with a blank line after all
/// but the last.
pub open spec fn hit_block(hit: Hit, index: nat, total: nat) -> Seq<char> {
    hit_head(hit, index) + hit_chain(hit) + hit_details(hit) + hit_recipe(hit) + if index + 1 < total {
        "\n"@
    } else {
        seq![]
    }
}

/// The hits' lines, in order.
pub open spec fn hit_blocks(hits: Seq<Hit>, total: nat) -> Seq<char>
    decreases hits.len(),
{
    if hits.len() == 0 {
        seq![]
    } else {
        hit_blocks(hits.drop_last(), total) + hit_block(hits.last(), (hits.len() - 1) as nat, total)
    }
}

/// The advisory report.
pub open spec fn report_spec(b: Seq<u8>, hits: Seq<Hit>) -> Seq<char> {
    report_title() + "input_bytes="@ + decimal_spec(b.len()) + " printable="@ + decimal_spec(printable_percent(b))
        + "%\n"@ + report_note() + if hits.len() == 0 {
        "(no suggestions)\n"@
    } else {
        "\n"@ + hit_blocks(hits, hits.len())
    }
}

fn alias_texts(steps: &Vec<Step>) -> (r: Vec<Vec<char>>)
    ensures
        r@.map_values(|v: Vec<char>| v@) == step_aliases(steps@),
{
    let mut texts: Vec<Vec<char>> = Vec::new();
    let mut k: usize = 0;
    while k < steps.len()
        invariant
            k <= steps.len(),
            texts@.map_values(|v: Vec<char>| v@) == step_aliases(steps@).take(k as int),
        decreases steps.len() - k,
    {
        let a = chars_of(steps[k].alias);
        let ghost before = texts@.map_values(|v: Vec<char>| v@);
        texts.push(a);
        assert(texts@.map_values(|v: Vec<char>| v@) =~= before.push(a@));
        assert(step_aliases(steps@).take(k + 1) =~= step_aliases(steps@).take(k as int).push(steps@[k as int].alias@));
        k = k + 1;
    }
    assert(step_aliases(steps@).take(steps.len() as int) =~= step_aliases(steps@));
    texts
}

fn fragment_texts(steps: &Vec<Step>) -> (r: Vec<Vec<char>>)
    ensures
        r@.map_values(|v: Vec<char>| v@) == step_fragments(steps@),
{
    let mut texts: Vec<Vec<char>> = Vec::new();
    let mut k: usize = 0;
    while k < steps.len()
        invariant
            k <= steps.len(),
            texts@.map_values(|v: Vec<char>| v@) == step_fragments(steps@).take(k as int),
        decreases steps.len() - k,
    {
        let a = chars_of(steps[k].recipe_fragment);
        let ghost before = texts@.map_values(|v: Vec<char>| v@);
        texts.push(a);
        assert(texts@.map_values(|v: Vec<char>| v@) =~= before.push(a@));
        assert(step_fragments(steps@).take(k + 1) =~= step_fragments(steps@).take(k as int).push(
            steps@[k as int].recipe_fragment@,
        ));
        k = k + 1;
    }
    assert(step_fragments(steps@).take(steps.len() as int) =~= step_fragments(steps@));
    texts
}

fn push_hit_head(out: &mut Vec<char>, hit: &Hit, index: usize)
    requires
        hit.steps@.len() >= 1,
        index < usize::MAX,
    ensures
        final(out)@ == old(out)@ + hit_head(*hit, index as nat),
{
    let head = hit.steps[0];
    append_vec(out, &decimal((index + 1) as u128));
    append_str(out, ". score=");
    append_vec(out, &decimal(hit.score as u128));
    append_str(out, " ");
    append_str(out, head.alias);
    append_str(out, " (");
    append_str(out, head.id);
    append_str(out, ")\n");
    assert(out@ =~= old(out)@ + hit_head(*hit, index as nat));
}

fn push_hit_chain(out: &mut Vec<char>, hit: &Hit)
    ensures
        final(out)@ == old(out)@ + hit_chain(*hit),
{
    if hit.steps.len() > 1 {
        let aliases = alias_texts(&hit.steps);
        append_str(out, "   chain: ");
        let arrow = chars_of(" -> ");
        append_vec(out, &join(&aliases, &arrow));
        append_str(out, "\n");
        assert(out@ =~= old(out)@ + hit_chain(*hit));
    } else {
        assert(out@ =~= old(out)@ + hit_chain(*hit));
    }
}

fn push_hit_details(out: &mut Vec<char>, hit: &Hit)
    requires
        hit.steps@.len() >= 1,
    ensures
        final(out)@ == old(out)@ + hit_details(*hit),
{
    append_str(out, "   args: ");
    append_str(out, hit.steps[0].args_summary);
    append_str(out, "\n");
    append_str(out, "   reason: ");
    append_str(out, hit.reason.as_str());
    append_str(out, "\n");
    append_str(out, "   preview: ");
    append_str(out, hit.preview.as_str());
    append_str(out, "\n");
    assert(out@ =~= old(out)@ + hit_details(*hit));
}

fn push_hit_recipe(out: &mut Vec<char>, hit: &Hit)
    ensures
        final(out)@ == old(out)@ + hit_recipe(*hit),
{
    let fragments = fragment_texts(&hit.steps);
    append_str(out, "   recipe: [");
    let comma = chars_of(",");
    append_vec(out, &join(&fragments, &comma));
    append_str(out, "]\n");
    assert(out@ =~= old(out)@ + hit_recipe(*hit));
}

fn push_hit_block(out: &mut Vec<char>, hit: &Hit, index: usize, total: usize)
    requires
        hit.steps@.len() >= 1,
        index < total,
    ensures
        final(out)@ == old(out)@ + hit_block(*hit, index as nat, total as nat),
{
    let ghost start = out@;
    push_hit_head(out, hit, index);
    push_hit_chain(out, hit);
    push_hit_details(out, hit);
    push_hit_recipe(out, hit);
    let ghost body = out@;
    if index + 1 < total {
        append_str(out, "\n");
    }
    assert(out@ =~= start + hit_block(*hit, index as nat, total as nat));
}

/// Renders the advisory report for the input and its ranked hits.
pub fn render_report(bytes: &[u8], hits: &Vec<Hit>) -> (r: String)
    requires
        hits_have_steps(hits@),
    ensures
        r@ == report_spec(bytes@, hits@),
{
    let printable: u128 = if bytes.len() == 0 {
        0
    } else {
        (printable_count(bytes) as u128) * 100 / (bytes.len() as u128)
    };
    let mut out: Vec<char> = Vec::new();
    append_str(&mut out, "FerroSift Suggest recipe\n");
    append_str(&mut out, "input_bytes=");
    append_vec(&mut out, &decimal(bytes.len() as u128));
    append_str(&mut out, " printable=");
    append_vec(&mut out, &decimal(printable));
    append_str(&mut out, "%\n");
    append_str(&mut out, "note: CyberChef Magic remains unsupported; this advisor only ranks portable recipes\n");
    if hits.len() == 0 {
        append_str(&mut out, "(no suggestions)\n");
        return string_of(&out);
    }
    append_str(&mut out, "\n");
    let ghost head = out@;
    let mut index: usize = 0;
    while index < hits.len()
        invariant
            index <= hits.len(),
            hits_have_steps(hits@),
            out@ == head + hit_blocks(hits@.take(index as int), hits.len() as nat),
        decreases hits.len() - index,
    {
        assert(hits@[index as int].steps@.len() >= 1);
        push_hit_block(&mut out, &hits[index], index, hits.len());
        proof {
            assert(hits@.take(index + 1).drop_last() == hits@.take(index as int));
            assert(hits@.take(index + 1).last() == hits@[index as int]);
        }
        index = index + 1;
    }
    assert(hits@.take(hits.len() as int) == hits@);
    string_of(&out)
}


/// What the advisor answers once its candidates are found: the report, or a
/// refusal when it is longer than `max_output_bytes` bytes.
pub open spec fn conclude_spec(bytes: Seq<u8>, hits: Seq<Hit>, crib: Seq<char>, max_results: nat, max_output_bytes: u64)
    -> Result<Seq<char>, OperationError> {
    let report = report_spec(bytes, rank_spec(hits, crib, max_results));
    if vstd::utf8::encode_utf8(report).len() > max_output_bytes {
        Err(OperationError::OutputLimitExceeded)
    } else {
        Ok(report)
    }
}

proof fn lemma_rank_keeps_steps(hits: Seq<Hit>, crib: Seq<char>, max_results: nat)
    requires
        hits_have_steps(hits),
    ensures
        hits_have_steps(rank_spec(hits, crib, max_results)),
{
    lemma_filter_keeps_steps(hits, lower_text(crib));
    let kept = if crib.len() > 0 {
        filter_hits(hits, lower_text(crib))
    } else {
        hits
    };
    lemma_sort_keeps_steps(kept);
    lemma_dedup_keeps_steps(sort_hits(kept));
}

proof fn lemma_sort_keeps_steps(hits: Seq<Hit>)
    requires
        hits_have_steps(hits),
    ensures
        hits_have_steps(sort_hits(hits)),
    decreases hits.len(),
{
    if hits.len() > 0 {
        assert forall|i: int| 0 <= i < hits.drop_last().len() implies (#[trigger] hits.drop_last()[i]).steps@.len()
            >= 1 by {
            assert(hits.drop_last()[i] == hits[i]);
        }
        lemma_sort_keeps_steps(hits.drop_last());
        let sorted = sort_hits(hits.drop_last());
        lemma_insert_position_bound(sorted, hits.last());
    }
}

proof fn lemma_dedup_keeps_steps(hits: Seq<Hit>)
    requires
        hits_have_steps(hits),
    ensures
        hits_have_steps(dedup_hits(hits)),
    decreases hits.len(),
{
    if hits.len() > 0 {
        assert forall|i: int| 0 <= i < hits.drop_last().len() implies (#[trigger] hits.drop_last()[i]).steps@.len()
            >= 1 by {
            assert(hits.drop_last()[i] == hits[i]);
        }
        lemma_dedup_keeps_steps(hits.drop_last());
    }
}

/// Ranks portable decode recipes for the input without applying them.
pub struct SuggestRecipe {}

impl SuggestRecipe {
    /// Creates the Suggest recipe operation.
    pub fn new() -> Self {
        SuggestRecipe {  }
    }

    /// Ranks the candidates found for `bytes` and renders the report.
    pub fn conclude(
        &self,
        bytes: &[u8],
        hits: Vec<Hit>,
        crib: &str,
        max_results: usize,
        max_output_bytes: u64,
    ) -> (r: Result<String, OperationError>)
        requires
            hits_have_steps(hits@),
        ensures
            match conclude_spec(bytes@, hits@, crib@, max_results as nat, max_output_bytes) {
                Ok(t) => r matches Ok(s) && s@ == t,
                Err(e) => r == Err::<String, OperationError>(e),
            },
    {
        let mut ranked = hits;
        rank(&mut ranked, crib, max_results);
        proof {
            lemma_rank_keeps_steps(hits@, crib@, max_results as nat);
        }
        let report = render_report(bytes, &ranked);
        let size = report.as_str().as_bytes().len();
        match ensure_budget(size, max_output_bytes) {
            Ok(()) => Ok(report),
            Err(e) => Err(e),
        }
    }
}


proof fn lemma_lex_irreflexive(a: Seq<char>)
    ensures
        !lex_less(a, a),
    decreases a.len(),
{
    if a.len() > 0 {
        lemma_lex_irreflexive(a.skip(1));
    }
}

proof fn lemma_lex_transitive(a: Seq<char>, b: Seq<char>, c: Seq<char>)
    requires
        lex_less(a, b),
        lex_less(b, c),
    ensures
        lex_less(a, c),
    decreases a.len(),
{
    if a.len() > 0 && b.len() > 0 && c.len() > 0 && a[0] == b[0] && b[0] == c[0] {
        lemma_lex_transitive(a.skip(1), b.skip(1), c.skip(1));
    }
}

proof fn lemma_lex_total(a: Seq<char>, b: Seq<char>)
    requires
        a != b,
    ensures
        lex_less(a, b) || lex_less(b, a),
    decreases a.len(),
{
    if a.len() > 0 && b.len() > 0 && a[0] == b[0] {
        if a.skip(1) == b.skip(1) {
            assert(a =~= seq![a[0]] + a.skip(1));
            assert(b =~= seq![b[0]] + b.skip(1));
        } else {
            lemma_lex_total(a.skip(1), b.skip(1));
        }
    }
    if a.len() == 0 && b.len() == 0 {
        assert(a =~= b);
    }
    if a.len() > 0 && b.len() > 0 && a[0] != b[0] {
        let (x, y) = (a[0], b[0]);
        vstd::utf8::char_u32_cast(x, x as u32);
        vstd::utf8::char_u32_cast(y, y as u32);
        assert((x as u32) != (y as u32));
    }
}

/// Two hits that agree on every key the ranking reads: score, leading
/// operation id and preview.
pub open spec fn ties(a: Hit, b: Hit) -> bool {
    a.score == b.score && a.steps@[0].id@ == b.steps@[0].id@ && a.preview@ == b.preview@
}

/// No two hits tie on the ranking keys unless they are the same hit.
pub open spec fn tie_free(hits: Seq<Hit>) -> bool {
    forall|i: int, j: int|
        0 <= i < hits.len() && 0 <= j < hits.len() && #[trigger] ties(hits[i], hits[j]) ==> hits[i]
            == hits[j]
}

/// Each hit ranks no earlier than the one before it.
pub open spec fn rank_sorted(hits: Seq<Hit>) -> bool {
    forall|i: int, j: int| 0 <= i < j < hits.len() ==> !#[trigger] ranks_before(hits[j], hits[i])
}

proof fn lemma_ranks_order(a: Hit, b: Hit, c: Hit)
    ensures
        !ranks_before(a, a),
        ranks_before(a, b) && ranks_before(b, c) ==> ranks_before(a, c),
        !ranks_before(a, b) && !ranks_before(b, a) ==> ties(a, b),
        ties(a, b) ==> (ranks_before(c, a) == ranks_before(c, b) && ranks_before(a, c) == ranks_before(b, c)),
{
    let (ia, ib, ic) = (a.steps@[0].id@, b.steps@[0].id@, c.steps@[0].id@);
    let (pa, pb, pc) = (a.preview@, b.preview@, c.preview@);
    lemma_lex_irreflexive(ia);
    lemma_lex_irreflexive(pa);
    if lex_less(ia, ib) && lex_less(ib, ic) {
        lemma_lex_transitive(ia, ib, ic);
    }
    if lex_less(pa, pb) && lex_less(pb, pc) {
        lemma_lex_transitive(pa, pb, pc);
    }
    if ia != ib {
        lemma_lex_total(ia, ib);
    }
    if pa != pb {
        lemma_lex_total(pa, pb);
    }
}

proof fn lemma_insert_position(sorted: Seq<Hit>, x: Hit)
    requires
        rank_sorted(sorted),
    ensures
        0 <= insert_position(sorted, x) <= sorted.len(),
        forall|k: int| insert_position(sorted, x) <= k < sorted.len() ==> ranks_before(x, #[trigger] sorted[k]),
        forall|k: int| 0 <= k < insert_position(sorted, x) ==> !ranks_before(x, #[trigger] sorted[k]),
    decreases sorted.len(),
{
    if sorted.len() > 0 {
        let d = sorted.drop_last();
        let last = sorted.last();
        if ranks_before(x, last) {
            assert(rank_sorted(d)) by {
                assert forall|i: int, j: int| 0 <= i < j < d.len() implies !#[trigger] ranks_before(d[j], d[i]) by {
                    assert(d[i] == sorted[i] && d[j] == sorted[j]);
                }
            }
            lemma_insert_position(d, x);
            let p = insert_position(d, x);
            assert(insert_position(sorted, x) == p);
            assert forall|k: int| p <= k < sorted.len() implies ranks_before(x, #[trigger] sorted[k]) by {
                if k < sorted.len() - 1 {
                    assert(sorted[k] == d[k]);
                }
            }
            assert forall|k: int| 0 <= k < p implies !ranks_before(x, #[trigger] sorted[k]) by {
                assert(sorted[k] == d[k]);
            }
        } else {
            assert forall|k: int| 0 <= k < sorted.len() implies !ranks_before(x, #[trigger] sorted[k]) by {
                if k < sorted.len() - 1 {
                    assert(!ranks_before(sorted[sorted.len() - 1], sorted[k]));
                    lemma_ranks_order(sorted[k], last, x);
                    lemma_ranks_order(x, sorted[k], last);
                }
            }
        }
    }
}

proof fn lemma_sort_hits(hits: Seq<Hit>)
    ensures
        rank_sorted(sort_hits(hits)),
        sort_hits(hits).to_multiset() == hits.to_multiset(),
    decreases hits.len(),
{
    broadcast use vstd::seq_lib::group_to_multiset_ensures;
    if hits.len() > 0 {
        let d = hits.drop_last();
        let x = hits.last();
        lemma_sort_hits(d);
        let s = sort_hits(d);
        let p = insert_position(s, x);
        lemma_insert_position(s, x);
        let t = s.insert(p, x);
        assert(t == sort_hits(hits));
        assert forall|i: int, j: int| 0 <= i < j < t.len() implies !#[trigger] ranks_before(t[j], t[i]) by {
            if i == p {
                assert(ranks_before(x, s[j - 1]));
                lemma_ranks_order(x, s[j - 1], x);
            } else if j == p {
                assert(!ranks_before(x, s[i]));
            } else if j < p {
                assert(t[i] == s[i] && t[j] == s[j]);
            } else if i < p {
                assert(t[i] == s[i] && t[j] == s[j - 1]);
            } else {
                assert(t[i] == s[i - 1] && t[j] == s[j - 1]);
            }
        }
        assert(t.remove(p) =~= s);
        assert(t[p] == x);
        assert(t.to_multiset().remove(x) == s.to_multiset());
        assert(t.to_multiset().count(x) > 0) by {
            assert(t.contains(x));
        }
        assert(hits =~= d.push(x));
        assert(t.to_multiset() =~= s.to_multiset().insert(x));
    }
}

proof fn lemma_filter_count(hits: Seq<Hit>, needle: Seq<char>, h: Hit)
    ensures
        filter_hits(hits, needle).to_multiset().count(h) == if crib_matches(h, needle) {
            hits.to_multiset().count(h)
        } else {
            0
        },
    decreases hits.len(),
{
    broadcast use vstd::seq_lib::group_to_multiset_ensures;
    if hits.len() == 0 {
        assert(filter_hits(hits, needle).len() == 0);
    } else {
        let d = hits.drop_last();
        lemma_filter_count(d, needle, h);
        assert(hits =~= d.push(hits.last()));
    }
}

proof fn lemma_sorted_hits_unique(x: Seq<Hit>, y: Seq<Hit>)
    requires
        rank_sorted(x),
        rank_sorted(y),
        tie_free(x),
        x.to_multiset() == y.to_multiset(),
    ensures
        x == y,
    decreases x.len(),
{
    broadcast use vstd::multiset::group_multiset_axioms;
    broadcast use vstd::seq_lib::group_to_multiset_ensures;
    if x.len() == 0 || y.len() == 0 {
        assert(x.len() == y.len());
        assert(x =~= y);
    } else {
        assert(x.to_multiset().contains(x[0]));
        assert(x.to_multiset().contains(y[0]));
        assert(y.contains(x[0]));
        assert(x.contains(y[0]));
        let i = choose|i: int| 0 <= i < x.len() && x[i] == y[0];
        let j = choose|j: int| 0 <= j < y.len() && y[j] == x[0];
        if i > 0 {
            assert(!ranks_before(x[i], x[0]));
        }
        if j > 0 {
            assert(!ranks_before(y[j], y[0]));
        }
        lemma_ranks_order(x[0], y[0], x[0]);
        lemma_ranks_order(x[0], x[0], x[0]);
        assert(ties(x[0], x[i]));
        assert(x[0] == y[0]);
        let (xd, yd) = (x.drop_first(), y.drop_first());
        assert(xd.to_multiset() =~= x.to_multiset().remove(x[0])) by {
            assert(x.remove(0) =~= xd);
        }
        assert(yd.to_multiset() =~= y.to_multiset().remove(y[0])) by {
            assert(y.remove(0) =~= yd);
        }
        assert(rank_sorted(xd)) by {
            assert forall|a: int, b: int| 0 <= a < b < xd.len() implies !#[trigger] ranks_before(xd[b], xd[a]) by {
                assert(xd[a] == x[a + 1] && xd[b] == x[b + 1]);
            }
        }
        assert(rank_sorted(yd)) by {
            assert forall|a: int, b: int| 0 <= a < b < yd.len() implies !#[trigger] ranks_before(yd[b], yd[a]) by {
                assert(yd[a] == y[a + 1] && yd[b] == y[b + 1]);
            }
        }
        assert(tie_free(xd)) by {
            assert forall|a: int, b: int| 0 <= a < xd.len() && 0 <= b < xd.len() && #[trigger] ties(xd[a], xd[b]) implies xd[a] == xd[b] by {
                assert(xd[a] == x[a + 1] && xd[b] == x[b + 1]);
                assert(ties(x[a + 1], x[b + 1]));
            }
        }
        lemma_sorted_hits_unique(xd, yd);
        assert(x =~= seq![x[0]] + xd);
        assert(y =~= seq![y[0]] + yd);
    }
}

/// The ranking does not depend on the order in which the hits were found:
/// any two orders of the same hits rank alike, provided no two different
/// hits tie on score, leading operation id and preview.
pub proof fn lemma_rank_ignores_discovery_order(a: Seq<Hit>, b: Seq<Hit>, crib: Seq<char>, max_results: nat)
    requires
        a.to_multiset() == b.to_multiset(),
        tie_free(a),
    ensures
        rank_spec(a, crib, max_results) == rank_spec(b, crib, max_results),
{
    broadcast use vstd::seq_lib::group_to_multiset_ensures;
    let needle = lower_text(crib);
    let ka = if crib.len() > 0 { filter_hits(a, needle) } else { a };
    let kb = if crib.len() > 0 { filter_hits(b, needle) } else { b };
    if crib.len() > 0 {
        assert forall|h: Hit| ka.to_multiset().count(h) == kb.to_multiset().count(h) by {
            lemma_filter_count(a, needle, h);
            lemma_filter_count(b, needle, h);
        }
        assert(ka.to_multiset() =~= kb.to_multiset());
    }
    lemma_sort_hits(ka);
    lemma_sort_hits(kb);
    let sa = sort_hits(ka);
    let sb = sort_hits(kb);
    assert(tie_free(sa)) by {
        assert forall|i: int, j: int| 0 <= i < sa.len() && 0 <= j < sa.len() && #[trigger] ties(sa[i], sa[j]) implies sa[i] == sa[j] by {
            assert(sa.to_multiset().count(sa[i]) > 0);
            assert(sa.to_multiset().count(sa[j]) > 0);
            if crib.len() > 0 {
                lemma_filter_count(a, needle, sa[i]);
                lemma_filter_count(a, needle, sa[j]);
            }
            assert(a.contains(sa[i]));
            assert(a.contains(sa[j]));
            let p = choose|p: int| 0 <= p < a.len() && a[p] == sa[i];
            let q = choose|q: int| 0 <= q < a.len() && a[q] == sa[j];
            assert(ties(a[p], a[q]));
        }
    }
    lemma_sorted_hits_unique(sa, sb);
}

/// The ranking keeps the hits that match a non-empty crib, in order, puts
/// them in rank order (score down, then leading operation id, then preview),
/// drops each run of repeats, and keeps at most `max_results`: its result is
/// a prefix of the de-duplicated rank order of a rearrangement of exactly
/// the kept hits.
pub proof fn lemma_rank_shape(hits: Seq<Hit>, crib: Seq<char>, max_results: nat)
    ensures
        ({
            let kept = if crib.len() > 0 {
                filter_hits(hits, lower_text(crib))
            } else {
                hits
            };
            &&& rank_sorted(sort_hits(kept))
            &&& sort_hits(kept).to_multiset() == kept.to_multiset()
            &&& rank_spec(hits, crib, max_results) == if dedup_hits(sort_hits(kept)).len() > max_results {
                dedup_hits(sort_hits(kept)).take(max_results as int)
            } else {
                dedup_hits(sort_hits(kept))
            }
        }),
{
    let kept = if crib.len() > 0 {
        filter_hits(hits, lower_text(crib))
    } else {
        hits
    };
    lemma_sort_hits(kept);
}

} // verus!
