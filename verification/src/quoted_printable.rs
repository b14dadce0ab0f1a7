//! Quoted-printable, in both directions.
//!
//! Bytes outside a fixed set of literal ranges become `=XX`, line endings are
//! rewritten as CRLF, blanks at the end of a line are escaped, and lines are
//! broken at 76 characters with a trailing `=` so that no escape and no
//! escaped multi-byte UTF-8 sequence is split across two lines.

use vstd::prelude::*;

use crate::error::{Failure, OperationError};
use crate::text::{chars_of, byte_char, string_of};

verus! {

/// The longest line quoted-printable permits, including the soft-break `=`.
pub const LINE_MAX: usize = 76;

/// How far back the encoder looks for a nicer place to break: a third of a line.
pub const MARGIN: usize = 25;

// ---------------------------------------------------------------------------
// Character classes.

/// Bytes that survive unescaped.
pub open spec fn is_literal(b: u8) -> bool {
    b == 0x09 || b == 0x0A || b == 0x0D || b == 0x20 || b == 0x21 || (0x23 <= b && b <= 0x3C)
        || b == 0x3E || (0x40 <= b && b <= 0x5E) || (0x60 <= b && b <= 0x7E)
}

/// An ASCII hexadecimal digit, in either case.
pub open spec fn is_hex(c: char) -> bool {
    ('0' <= c && c <= '9') || ('a' <= c && c <= 'f') || ('A' <= c && c <= 'F')
}

/// The value of a hexadecimal digit, and zero for anything else.
pub open spec fn hex_value(c: char) -> nat {
    if '0' <= c && c <= '9' {
        (c as int - '0' as int) as nat
    } else if 'a' <= c && c <= 'f' {
        (c as int - 'a' as int + 10) as nat
    } else if 'A' <= c && c <= 'F' {
        (c as int - 'A' as int + 10) as nat
    } else {
        0
    }
}

/// The upper-case digit for a value below sixteen.
pub open spec fn hex_char(v: u8) -> char {
    if v < 10 {
        (v + 48) as char
    } else {
        (v + 55) as char
    }
}

/// The three characters that escape one byte.
pub open spec fn escape_of(b: u8) -> Seq<char> {
    seq!['=', hex_char(b / 16), hex_char(b % 16)]
}

/// One byte, written as itself or as its escape.
pub open spec fn escape_byte(b: u8) -> Seq<char> {
    if is_literal(b) {
        seq![b as char]
    } else {
        escape_of(b)
    }
}

/// Every byte outside the literal ranges replaced with `=XX`.
pub open spec fn escape_spec(s: Seq<u8>) -> Seq<char>
    decreases s.len(),
{
    if s.len() == 0 {
        seq![]
    } else {
        escape_byte(s[0]) + escape_spec(s.skip(1))
    }
}

/// Every line ending, bare or paired, rewritten as CRLF.
pub open spec fn normalise_spec(s: Seq<char>) -> Seq<char>
    decreases s.len(),
{
    if s.len() == 0 {
        seq![]
    } else if s[0] == '\r' {
        if s.len() > 1 && s[1] == '\n' {
            seq!['\r', '\n'] + normalise_spec(s.skip(2))
        } else {
            seq!['\r', '\n'] + normalise_spec(s.skip(1))
        }
    } else if s[0] == '\n' {
        seq!['\r', '\n'] + normalise_spec(s.skip(1))
    } else {
        seq![s[0]] + normalise_spec(s.skip(1))
    }
}

/// A space or a tab.
pub open spec fn is_blank(c: char) -> bool {
    c == ' ' || c == '\t'
}

/// How many blanks the text starts with.
pub open spec fn blank_run(s: Seq<char>) -> nat
    decreases s.len(),
{
    if s.len() > 0 && is_blank(s[0]) {
        1 + blank_run(s.skip(1))
    } else {
        0
    }
}

/// A blank, escaped.
pub open spec fn escaped_blank(c: char) -> Seq<char> {
    if c == ' ' {
        seq!['=', '2', '0']
    } else {
        seq!['=', '0', '9']
    }
}

/// A run of blanks, escaped when it is trailing and kept when it is not.
pub open spec fn escape_run(r: Seq<char>, trailing: bool) -> Seq<char>
    decreases r.len(),
{
    if r.len() == 0 {
        seq![]
    } else {
        (if trailing {
            escaped_blank(r[0])
        } else {
            seq![r[0]]
        }) + escape_run(r.skip(1), trailing)
    }
}

/// Whether the blank run of length `e` at the start of `s` ends a line.
pub open spec fn run_is_trailing(s: Seq<char>, e: nat) -> bool {
    e == s.len() || s[e as int] == '\r' || s[e as int] == '\n'
}

/// Blanks at the end of a line, or of the text, written as escapes.
pub open spec fn trailing_blanks_spec(s: Seq<char>) -> Seq<char>
    decreases s.len(),
{
    if s.len() == 0 {
        seq![]
    } else if is_blank(s[0]) {
        let e = blank_run(s);
        if 0 < e <= s.len() {
            escape_run(s.take(e as int), run_is_trailing(s, e)) + trailing_blanks_spec(
                s.skip(e as int),
            )
        } else {
            seq![]
        }
    } else {
        seq![s[0]] + trailing_blanks_spec(s.skip(1))
    }
}

pub proof fn lemma_blank_run_bounds(s: Seq<char>)
    ensures
        blank_run(s) <= s.len(),
        s.len() > 0 && is_blank(s[0]) ==> blank_run(s) >= 1,
        forall|i: int| 0 <= i < blank_run(s) ==> is_blank(#[trigger] s[i]),
        blank_run(s) < s.len() ==> !is_blank(s[blank_run(s) as int]),
    decreases s.len(),
{
    if s.len() > 0 && is_blank(s[0]) {
        lemma_blank_run_bounds(s.skip(1));
        assert forall|i: int| 0 <= i < blank_run(s) implies is_blank(#[trigger] s[i]) by {
            if i > 0 {
                assert(s[i] == s.skip(1)[i - 1]);
            }
        }
        if blank_run(s) < s.len() {
            assert(s[blank_run(s) as int] == s.skip(1)[blank_run(s.skip(1)) as int]);
        }
    }
}

pub proof fn lemma_blank_run_exact(s: Seq<char>, k: nat)
    requires
        k <= s.len(),
        forall|i: int| 0 <= i < k ==> is_blank(#[trigger] s[i]),
        k == s.len() || !is_blank(s[k as int]),
    ensures
        blank_run(s) == k,
    decreases k,
{
    if k > 0 {
        assert forall|i: int| 0 <= i < k - 1 implies is_blank(#[trigger] s.skip(1)[i]) by {
            assert(s.skip(1)[i] == s[i + 1]);
        }
        if k < s.len() {
            assert(s.skip(1)[k - 1] == s[k as int]);
        }
        lemma_blank_run_exact(s.skip(1), (k - 1) as nat);
    }
}

pub proof fn lemma_escape_run_push(r: Seq<char>, k: int, t: bool)
    requires
        0 <= k < r.len(),
    ensures
        escape_run(r.take(k + 1), t) == escape_run(r.take(k), t) + (if t {
            escaped_blank(r[k])
        } else {
            seq![r[k]]
        }),
    decreases k,
{
    let piece = if t {
        escaped_blank(r[k])
    } else {
        seq![r[k]]
    };
    if k == 0 {
        assert(r.take(1).skip(1) == Seq::<char>::empty());
        assert(r.take(0) == Seq::<char>::empty());
        assert(escape_run(r.take(1), t) == piece + escape_run(r.take(1).skip(1), t));
    } else {
        let first = if t {
            escaped_blank(r[0])
        } else {
            seq![r[0]]
        };
        lemma_escape_run_push(r.skip(1), k - 1, t);
        assert(r.take(k + 1).skip(1) == r.skip(1).take(k));
        assert(r.take(k).skip(1) == r.skip(1).take(k - 1));
        assert(r.take(k + 1)[0] == r[0]);
        assert(r.take(k)[0] == r[0]);
        assert(r.skip(1)[k - 1] == r[k]);
        assert(escape_run(r.take(k + 1), t) == first + escape_run(r.take(k + 1).skip(1), t));
        assert(escape_run(r.take(k), t) == first + escape_run(r.take(k).skip(1), t));
    }
}

// ---------------------------------------------------------------------------
// Encoding, the first three passes.

/// Whether a byte survives unescaped.
fn is_literal_byte(byte: u8) -> (r: bool)
    ensures
        r == is_literal(byte),
{
    byte == 0x09 || byte == 0x0A || byte == 0x0D || byte == 0x20 || byte == 0x21 || (0x23
        <= byte && byte <= 0x3C) || byte == 0x3E || (0x40 <= byte && byte <= 0x5E) || (0x60
        <= byte && byte <= 0x7E)
}

/// Upper-case, as quoted-printable is written.
fn hex_digit(value: u8) -> (c: char)
    requires
        value < 16,
    ensures
        c == hex_char(value),
{
    if value < 10 {
        byte_char(48 + value)
    } else {
        byte_char(55 + value)
    }
}

/// Replaces every byte outside the literal ranges with `=XX`.
fn escape(input: &[u8]) -> (out: Vec<char>)
    ensures
        out@ == escape_spec(input@),
{
    let mut out: Vec<char> = Vec::new();
    let mut i: usize = 0;
    assert(input@.skip(0) == input@);
    while i < input.len()
        invariant
            i <= input.len(),
            escape_spec(input@) == out@ + escape_spec(input@.skip(i as int)),
        decreases input.len() - i,
    {
        let byte = input[i];
        let ghost before = out@;
        if is_literal_byte(byte) {
            out.push(byte_char(byte));
        } else {
            out.push('=');
            out.push(hex_digit(byte / 16));
            out.push(hex_digit(byte % 16));
        }
        proof {
            let rest = input@.skip(i as int);
            assert(rest[0] == byte);
            assert(rest.skip(1) == input@.skip(i + 1));
            assert(out@ == before + escape_byte(byte));
        }
        i = i + 1;
    }
    out
}

/// Rewrites every line ending as CRLF.
fn normalise_endings(input: &Vec<char>) -> (out: Vec<char>)
    ensures
        out@ == normalise_spec(input@),
{
    let mut out: Vec<char> = Vec::new();
    let mut at: usize = 0;
    assert(input@.skip(0) == input@);
    while at < input.len()
        invariant
            at <= input.len(),
            normalise_spec(input@) == out@ + normalise_spec(input@.skip(at as int)),
        decreases input.len() - at,
    {
        let ghost rest = input@.skip(at as int);
        let ghost before = out@;
        let c = input[at];
        assert(rest[0] == c);
        if c == '\r' {
            out.push('\r');
            out.push('\n');
            if at + 1 < input.len() && input[at + 1] == '\n' {
                assert(rest[1] == input@[at + 1]);
                assert(rest.skip(2) == input@.skip(at + 2));
                at = at + 2;
            } else {
                assert(rest.skip(1) == input@.skip(at + 1));
                at = at + 1;
            }
        } else if c == '\n' {
            out.push('\r');
            out.push('\n');
            assert(rest.skip(1) == input@.skip(at + 1));
            at = at + 1;
        } else {
            out.push(c);
            assert(rest.skip(1) == input@.skip(at + 1));
            at = at + 1;
        }
        assert(out@ == before + (out@.skip(before.len() as int)));
    }
    assert(input@.skip(at as int) == Seq::<char>::empty());
    out
}

/// Escapes runs of spaces and tabs that sit at the end of a line.
fn escape_trailing_blanks(input: &Vec<char>) -> (out: Vec<char>)
    ensures
        out@ == trailing_blanks_spec(input@),
{
    let mut out: Vec<char> = Vec::new();
    let mut at: usize = 0;
    assert(input@.skip(0) == input@);
    while at < input.len()
        invariant
            at <= input.len(),
            trailing_blanks_spec(input@) == out@ + trailing_blanks_spec(input@.skip(at as int)),
        decreases input.len() - at,
    {
        let ghost rest = input@.skip(at as int);
        assert(rest[0] == input@[at as int]);
        if input[at] == ' ' || input[at] == '\t' {
            let mut end = at;
            while end < input.len() && (input[end] == ' ' || input[end] == '\t')
                invariant
                    at <= end <= input.len(),
                    forall|i: int| at <= i < end ==> is_blank(#[trigger] input@[i]),
                decreases input.len() - end,
            {
                end = end + 1;
            }
            let trailing = end == input.len() || input[end] == '\r' || input[end] == '\n';
            proof {
                assert forall|i: int| 0 <= i < end - at implies is_blank(#[trigger] rest[i]) by {
                    assert(rest[i] == input@[at + i]);
                }
                if end < input.len() {
                    assert(rest[end - at] == input@[end as int]);
                }
                lemma_blank_run_exact(rest, (end - at) as nat);
                assert(trailing == run_is_trailing(rest, (end - at) as nat));
            }
            let ghost before = out@;
            let ghost run = rest.take(end - at);
            let mut k = at;
            while k < end
                invariant
                    at <= k <= end,
                    end <= input.len(),
                    run == input@.subrange(at as int, end as int),
                    out@ == before + escape_run(run.take(k - at), trailing),
                decreases end - k,
            {
                proof {
                    lemma_escape_run_push(run, k - at, trailing);
                    assert(run[k - at] == input@[k as int]);
                }
                if trailing {
                    if input[k] == ' ' {
                        out.push('=');
                        out.push('2');
                        out.push('0');
                    } else {
                        out.push('=');
                        out.push('0');
                        out.push('9');
                    }
                } else {
                    out.push(input[k]);
                }
                k = k + 1;
            }
            proof {
                assert(run.take(end - at) == run);
                assert(rest.skip(end - at) == input@.skip(end as int));
            }
            at = end;
        } else {
            out.push(input[at]);
            assert(rest.skip(1) == input@.skip(at + 1));
            at = at + 1;
        }
    }
    assert(input@.skip(at as int) == Seq::<char>::empty());
    out
}

// ---------------------------------------------------------------------------
// Soft line breaks.

/// The first `\r\n` at or after `i`.
pub open spec fn crlf_from(l: Seq<char>, i: int) -> Option<int>
    decreases l.len() - i,
{
    if i < 0 || i + 1 >= l.len() {
        None
    } else if l[i] == '\r' && l[i + 1] == '\n' {
        Some(i)
    } else {
        crlf_from(l, i + 1)
    }
}

/// The characters the encoder prefers to break after.
pub open spec fn is_separator(c: char) -> bool {
    c == ' ' || c == '\t' || c == '.' || c == ',' || c == '!' || c == '?'
}

/// What a backward search looks for: a separator, or a line feed.
pub open spec fn wanted(c: char, separators: bool) -> bool {
    if separators {
        is_separator(c)
    } else {
        c == '\n'
    }
}

/// The last position below `n` holding what is wanted.
pub open spec fn last_match(t: Seq<char>, n: int, separators: bool) -> Option<int>
    decreases n,
{
    if n <= 0 {
        None
    } else if wanted(t[n - 1], separators) {
        Some(n - 1)
    } else {
        last_match(t, n - 1, separators)
    }
}

/// Whether the first `n` characters end in a complete `=XX` escape.
pub open spec fn ends_with_escape(l: Seq<char>, n: int) -> bool {
    n >= 3 && l[n - 3] == '=' && is_hex(l[n - 2]) && is_hex(l[n - 1])
}

/// The width of a trailing `=` or `=X` in the first `n` characters.
pub open spec fn partial_width(l: Seq<char>, n: int) -> int {
    if n >= 1 && l[n - 1] == '=' {
        1
    } else if n >= 2 && l[n - 2] == '=' && is_hex(l[n - 1]) {
        2
    } else {
        0
    }
}

/// Whether the first `n` characters are nothing but one to four escapes.
pub open spec fn only_escapes(l: Seq<char>, n: int) -> bool {
    &&& n % 3 == 0
    &&& 0 < n <= 12
    &&& forall|i: int|
        0 <= i < n ==> (if i % 3 == 0 {
            l[i] == '='
        } else {
            is_hex(#[trigger] l[i])
        })
}

/// The byte value of the escape the first `n` characters end with.
pub open spec fn escape_value_at(l: Seq<char>, n: int) -> nat {
    hex_value(l[n - 2]) * 16 + hex_value(l[n - 1])
}

/// Walks back over whole escapes that look like the tail of a multi-byte
/// UTF-8 sequence, so that the sequence moves to the next line as a unit.
pub open spec fn strip_escapes(l: Seq<char>, n: int, remaining: int) -> int
    decreases n,
{
    if n > 3 && n < remaining && !only_escapes(l, n) && ends_with_escape(l, n) {
        let code = escape_value_at(l, n);
        if code < 0x80 {
            n
        } else if code >= 0xC0 {
            n - 3
        } else {
            strip_escapes(l, n - 3, remaining)
        }
    } else {
        n
    }
}

/// How much of a line stays once a partial escape, and a split UTF-8
/// sequence written as escapes, are pulled onto the next line.
pub open spec fn keep_whole(l: Seq<char>, remaining: int) -> int {
    let n = l.len() as int;
    if partial_width(l, n) == 0 && !ends_with_escape(l, n) {
        n
    } else {
        strip_escapes(l, n - partial_width(l, n), remaining)
    }
}

/// One line of output: how many characters of `rest` it takes, and whether
/// it ends with a soft break.
pub open spec fn soft_cut(rest: Seq<char>) -> (int, bool) {
    let len = rest.len() as int;
    let width = if len < 76 {
        len
    } else {
        76
    };
    let line = rest.take(width);
    match crlf_from(line, 0) {
        Some(at) => (at + 2, false),
        None => if width > 0 && line[width - 1] == '\n' {
            (width, false)
        } else {
            let m = if width < 25 {
                width
            } else {
                25
            };
            let tail = line.skip(width - m);
            match last_match(tail, m, false) {
                Some(at) => (width - (m - at - 1), false),
                None => {
                    let separator = if width > 51 {
                        last_match(tail, m, true)
                    } else {
                        None
                    };
                    let n2 = match separator {
                        Some(at) => width - (m - at - 1),
                        None => if width > 0 && line[width - 1] == '\r' {
                            width - 1
                        } else {
                            keep_whole(line, len)
                        },
                    };
                    if n2 < len && !(n2 > 0 && line[n2 - 1] == '\n') {
                        let n3 = if n2 == 76 {
                            if ends_with_escape(line, n2) {
                                n2 - 3
                            } else {
                                n2 - 1
                            }
                        } else {
                            n2
                        };
                        (n3, true)
                    } else {
                        (n2, false)
                    }
                },
            }
        },
    }
}

/// The characters one line emits.
pub open spec fn soft_piece(rest: Seq<char>) -> Seq<char> {
    let (n, soft) = soft_cut(rest);
    rest.take(n) + if soft {
        seq!['=', '\r', '\n']
    } else {
        seq![]
    }
}

/// The text with soft line breaks inserted so no line exceeds the limit.
pub open spec fn soft_break_spec(rest: Seq<char>) -> Seq<char>
    decreases rest.len(),
{
    if rest.len() == 0 {
        seq![]
    } else {
        let n = soft_cut(rest).0;
        if 0 < n <= rest.len() {
            soft_piece(rest) + soft_break_spec(rest.skip(n))
        } else {
            soft_piece(rest)
        }
    }
}

/// Whether the text ends in a way no line could be cut before: a bare
/// carriage return, or an `=` or `=X` that is not yet an escape.
pub open spec fn ends_partial(s: Seq<char>) -> bool {
    &&& s.len() > 0
    &&& (s.last() == '\r' || s.last() == '=' || (s.len() >= 2 && s[s.len() - 2] == '='
        && is_hex(s.last())))
}

pub proof fn lemma_last_match_bounds(t: Seq<char>, n: int, separators: bool)
    ensures
        last_match(t, n, separators) matches Some(at) ==> 0 <= at < n && wanted(t[at], separators),
    decreases n,
{
    if n > 0 && !wanted(t[n - 1], separators) {
        lemma_last_match_bounds(t, n - 1, separators);
    }
}

pub proof fn lemma_crlf_bounds(l: Seq<char>, i: int)
    ensures
        crlf_from(l, i) matches Some(at) ==> i <= at && at + 1 < l.len() && l[at] == '\r' && l[at + 1] == '\n',
    decreases l.len() - i,
{
    if !(i < 0 || i + 1 >= l.len()) && !(l[i] == '\r' && l[i + 1] == '\n') {
        lemma_crlf_bounds(l, i + 1);
    }
}

pub proof fn lemma_strip_bounds(l: Seq<char>, n: int, remaining: int)
    requires
        0 <= n <= l.len(),
    ensures
        n >= 1 ==> 1 <= strip_escapes(l, n, remaining),
        strip_escapes(l, n, remaining) <= n,
        0 <= strip_escapes(l, n, remaining),
    decreases n,
{
    if n > 3 && n < remaining && !only_escapes(l, n) && ends_with_escape(l, n) {
        lemma_strip_bounds(l, n - 3, remaining);
    }
}

/// Every line takes at least one character, as long as the text does not end
/// in a partial escape or a bare carriage return.
pub proof fn lemma_soft_cut_progress(rest: Seq<char>)
    requires
        rest.len() > 0,
        !ends_partial(rest),
    ensures
        0 < soft_cut(rest).0 <= rest.len(),
{
    let len = rest.len() as int;
    let width = if len < 76 {
        len
    } else {
        76
    };
    let line = rest.take(width);
    lemma_crlf_bounds(line, 0);
    let m = if width < 25 {
        width
    } else {
        25
    };
    let tail = line.skip(width - m);
    lemma_last_match_bounds(tail, m, false);
    lemma_last_match_bounds(tail, m, true);
    let n = line.len() as int;
    let pw = partial_width(line, n);
    lemma_strip_bounds(line, n - pw, len);
    if width < 76 {
        assert(line == rest);
    }
}

// ---------------------------------------------------------------------------
// Encoding, the line-breaking pass.

/// The first `\r\n` in the line.
fn find_crlf(l: &Vec<char>) -> (r: Option<usize>)
    ensures
        match r {
            Some(at) => crlf_from(l@, 0) == Some(at as int),
            None => crlf_from(l@, 0) is None,
        },
{
    let mut i: usize = 0;
    while l.len() > 0 && i < l.len() - 1
        invariant
            crlf_from(l@, 0) == crlf_from(l@, i as int),
        decreases l.len() - i,
    {
        if l[i] == '\r' && l[i + 1] == '\n' {
            return Some(i);
        }
        i = i + 1;
    }
    None
}

/// Whether a character is wanted by a backward search.
fn is_wanted(c: char, separators: bool) -> (r: bool)
    ensures
        r == wanted(c, separators),
{
    if separators {
        c == ' ' || c == '\t' || c == '.' || c == ',' || c == '!' || c == '?'
    } else {
        c == '\n'
    }
}

/// The last wanted position in `l[lo..]`, relative to `lo`.
fn find_last(l: &Vec<char>, lo: usize, separators: bool) -> (r: Option<usize>)
    requires
        lo <= l.len(),
    ensures
        match r {
            Some(at) => last_match(l@.skip(lo as int), l.len() - lo, separators) == Some(at as int),
            None => last_match(l@.skip(lo as int), l.len() - lo, separators) is None,
        },
{
    let ghost t = l@.skip(lo as int);
    let mut k: usize = l.len();
    while k > lo
        invariant
            lo <= k <= l.len(),
            t == l@.skip(lo as int),
            last_match(t, l.len() - lo, separators) == last_match(t, k - lo, separators),
        decreases k,
    {
        assert(t[k - lo - 1] == l@[k - 1]);
        if is_wanted(l[k - 1], separators) {
            return Some(k - 1 - lo);
        }
        k = k - 1;
    }
    None
}

/// Whether the first `n` characters end in a complete escape.
fn ends_with_escape_at(l: &Vec<char>, n: usize) -> (r: bool)
    requires
        n <= l.len(),
    ensures
        r == ends_with_escape(l@, n as int),
{
    n >= 3 && l[n - 3] == '=' && is_hex_char(l[n - 2]) && is_hex_char(l[n - 1])
}

/// The width of a trailing `=` or `=X` in the first `n` characters.
fn partial_escape_width(l: &Vec<char>, n: usize) -> (r: usize)
    requires
        n <= l.len(),
    ensures
        r == partial_width(l@, n as int),
{
    if n >= 1 && l[n - 1] == '=' {
        1
    } else if n >= 2 && l[n - 2] == '=' && is_hex_char(l[n - 1]) {
        2
    } else {
        0
    }
}

/// Whether the first `n` characters are nothing but one to four escapes.
fn is_only_escapes(l: &Vec<char>, n: usize) -> (r: bool)
    requires
        n <= l.len(),
    ensures
        r == only_escapes(l@, n as int),
{
    if n % 3 != 0 || n == 0 || n > 12 {
        return false;
    }
    let mut i: usize = 0;
    while i < n
        invariant
            i <= n <= l.len(),
            forall|j: int|
                0 <= j < i ==> (if j % 3 == 0 {
                    l@[j] == '='
                } else {
                    is_hex(#[trigger] l@[j])
                }),
        decreases n - i,
    {
        if i % 3 == 0 {
            if l[i] != '=' {
                return false;
            }
        } else if !is_hex_char(l[i]) {
            return false;
        }
        i = i + 1;
    }
    true
}

/// How much of the line stays; see `keep_whole`.
fn keep_escapes_whole(l: &Vec<char>, remaining: usize) -> (r: usize)
    ensures
        r as int == keep_whole(l@, remaining as int),
{
    let mut n = l.len();
    let width = partial_escape_width(l, n);
    if width == 0 && !ends_with_escape_at(l, n) {
        return n;
    }
    n = n - width;
    while n > 3 && n < remaining && !is_only_escapes(l, n) && ends_with_escape_at(l, n)
        invariant
            n <= l.len(),
            keep_whole(l@, remaining as int) == strip_escapes(l@, n as int, remaining as int),
        decreases n,
    {
        let code = hex_char_value(l[n - 2]) * 16 + hex_char_value(l[n - 1]);
        if code < 0x80 {
            return n;
        }
        if code >= 0xC0 {
            return n - 3;
        }
        n = n - 3;
    }
    n
}

/// The line cut for the text starting at `pos`; see `soft_cut`.
fn cut_line(s: &Vec<char>, pos: usize) -> (r: (usize, bool))
    requires
        pos < s.len(),
    ensures
        (r.0 as int, r.1) == soft_cut(s@.skip(pos as int)),
{
    let ghost rest = s@.skip(pos as int);
    let len = s.len() - pos;
    let width = if len < LINE_MAX {
        len
    } else {
        LINE_MAX
    };
    let mut line: Vec<char> = Vec::new();
    let mut i: usize = 0;
    while i < width
        invariant
            i <= width <= len,
            len == s.len() - pos,
            line@ == s@.subrange(pos as int, pos + i),
        decreases width - i,
    {
        line.push(s[pos + i]);
        i = i + 1;
    }
    assert(line@ == rest.take(width as int));
    if let Some(at) = find_crlf(&line) {
        proof {
            lemma_crlf_bounds(line@, 0);
        }
        return (at + 2, false);
    }
    if width > 0 && line[width - 1] == '\n' {
        return (width, false);
    }
    let m = if width < MARGIN {
        width
    } else {
        MARGIN
    };
    proof {
        lemma_last_match_bounds(line@.skip(width - m), m as int, false);
        lemma_last_match_bounds(line@.skip(width - m), m as int, true);
    }
    if let Some(at) = find_last(&line, width - m, false) {
        return (width - (m - at - 1), false);
    }
    let separator = if width > LINE_MAX - MARGIN {
        find_last(&line, width - m, true)
    } else {
        None
    };
    let n2 = match separator {
        Some(at) => width - (m - at - 1),
        None => if width > 0 && line[width - 1] == '\r' {
            width - 1
        } else {
            proof {
                let n = line.len() as int;
                lemma_strip_bounds(line@, n - partial_width(line@, n), len as int);
            }
            keep_escapes_whole(&line, len)
        },
    };
    if n2 < len && !(n2 > 0 && line[n2 - 1] == '\n') {
        let n3 = if n2 == LINE_MAX {
            if ends_with_escape_at(&line, n2) {
                n2 - 3
            } else {
                n2 - 1
            }
        } else {
            n2
        };
        (n3, true)
    } else {
        (n2, false)
    }
}

/// Inserts soft line breaks so no line exceeds the limit.
///
/// It prefers to break after an existing line ending, then at a word boundary
/// within the last third of the line, and only then mechanically, taking
/// care never to split an `=XX` escape nor a multi-byte UTF-8 sequence that
/// is written as consecutive escapes.
fn soft_break(s: &Vec<char>) -> (out: Vec<char>)
    requires
        !ends_partial(s@),
    ensures
        out@ == soft_break_spec(s@),
{
    let mut out: Vec<char> = Vec::new();
    let mut pos: usize = 0;
    assert(s@.skip(0) == s@);
    while pos < s.len()
        invariant
            pos <= s.len(),
            !ends_partial(s@),
            soft_break_spec(s@) == out@ + soft_break_spec(s@.skip(pos as int)),
        decreases s.len() - pos,
    {
        let ghost rest = s@.skip(pos as int);
        let ghost before = out@;
        proof {
            assert(rest.last() == s@.last());
            if rest.len() >= 2 {
                assert(rest[rest.len() - 2] == s@[s.len() - 2]);
            }
            lemma_soft_cut_progress(rest);
        }
        let (n, soft) = cut_line(s, pos);
        let mut i: usize = 0;
        while i < n
            invariant
                i <= n,
                pos + n <= s.len(),
                out@ == before + s@.subrange(pos as int, pos + i),
            decreases n - i,
        {
            out.push(s[pos + i]);
            i = i + 1;
        }
        if soft {
            out.push('=');
            out.push('\r');
            out.push('\n');
        }
        proof {
            assert(s@.subrange(pos as int, pos + n) == rest.take(n as int));
            assert(out@ == before + soft_piece(rest));
            assert(rest.skip(n as int) == s@.skip(pos + n));
        }
        pos = pos + n;
    }
    assert(s@.skip(pos as int) == Seq::<char>::empty());
    out
}

// ---------------------------------------------------------------------------
// Decoding.

/// The input with every soft line break removed: `=` before a line ending,
/// and an `=` at the very end of the input.
pub open spec fn remove_soft_breaks(s: Seq<char>) -> Seq<char>
    decreases s.len(),
{
    if s.len() == 0 {
        seq![]
    } else if s[0] == '=' && s.len() == 1 {
        seq![]
    } else if s[0] == '=' && s[1] == '\n' {
        remove_soft_breaks(s.skip(2))
    } else if s[0] == '=' && s[1] == '\r' && s.len() > 2 && s[2] == '\n' {
        remove_soft_breaks(s.skip(3))
    } else {
        seq![s[0]] + remove_soft_breaks(s.skip(1))
    }
}

/// Prepends known bytes to a decoding that may have failed.
pub open spec fn prepend(p: Seq<u8>, o: Option<Seq<u8>>) -> Option<Seq<u8>> {
    match o {
        Some(r) => Some(p + r),
        None => None,
    }
}

pub proof fn lemma_prepend_empty(o: Option<Seq<u8>>)
    ensures
        prepend(Seq::<u8>::empty(), o) == o,
{
    if let Some(r) = o {
        assert(Seq::<u8>::empty() + r == r);
    }
}

pub proof fn lemma_prepend_push(p: Seq<u8>, b: u8, o: Option<Seq<u8>>)
    ensures
        prepend(p, prepend(seq![b], o)) == prepend(p.push(b), o),
{
    if let Some(r) = o {
        assert(p + (seq![b] + r) == p.push(b) + r);
    }
}

/// Reads joined quoted-printable text: `=` and two hex digits is one byte, and
/// any other character is its own code, which must fit in a byte.
pub open spec fn decode_symbols(s: Seq<char>) -> Option<Seq<u8>>
    decreases s.len(),
{
    if s.len() == 0 {
        Some(seq![])
    } else if s[0] == '=' && s.len() > 2 && is_hex(s[1]) && is_hex(s[2]) {
        prepend(seq![(hex_value(s[1]) * 16 + hex_value(s[2])) as u8], decode_symbols(s.skip(3)))
    } else if s[0] as u32 > 255 {
        None
    } else {
        prepend(seq![(s[0] as u32) as u8], decode_symbols(s.skip(1)))
    }
}

/// What `decode` answers for the given text.
pub open spec fn decode_spec(s: Seq<char>) -> Result<Seq<u8>, OperationError> {
    match decode_symbols(remove_soft_breaks(s)) {
        Some(b) => Ok(b),
        None => Err(OperationError::Failed(Failure::QuotedPrintableNotAByte)),
    }
}

/// Whether a character is an ASCII hexadecimal digit.
pub fn is_hex_char(c: char) -> (r: bool)
    ensures
        r == is_hex(c),
{
    ('0' <= c && c <= '9') || ('a' <= c && c <= 'f') || ('A' <= c && c <= 'F')
}

/// The value of a hexadecimal digit, and zero for anything else.
pub fn hex_char_value(c: char) -> (v: u32)
    ensures
        v == hex_value(c),
        v < 16,
{
    if '0' <= c && c <= '9' {
        (c as u32) - 48
    } else if 'a' <= c && c <= 'f' {
        (c as u32) - 87
    } else if 'A' <= c && c <= 'F' {
        (c as u32) - 55
    } else {
        0
    }
}

/// Decodes quoted-printable text into bytes.
///
/// Soft line breaks are removed first; after that an `=` followed by two hex
/// digits is one byte, and anything else is its own code unit, which must be
/// at most `U+00FF`.
pub fn decode(input: &str) -> (r: Result<Vec<u8>, OperationError>)
    ensures
        match r {
            Ok(v) => decode_spec(input@) == Ok::<Seq<u8>, OperationError>(v@),
            Err(e) => decode_spec(input@) == Err::<Seq<u8>, OperationError>(e),
        },
{
    let characters = chars_of(input);
    let mut joined: Vec<char> = Vec::new();
    let mut index: usize = 0;
    assert(characters@.skip(0) == characters@);
    while index < characters.len()
        invariant
            index <= characters.len(),
            characters@ == input@,
            remove_soft_breaks(characters@) == joined@ + remove_soft_breaks(
                characters@.skip(index as int),
            ),
        decreases characters.len() - index,
    {
        let ghost rest = characters@.skip(index as int);
        assert(rest[0] == characters@[index as int]);
        if characters[index] == '=' {
            if index + 1 >= characters.len() {
                assert(rest.len() == 1);
                assert(characters@.skip(index + 1) == Seq::<char>::empty());
                index = index + 1;
                continue;
            }
            assert(rest[1] == characters@[index + 1]);
            if characters[index + 1] == '\n' {
                assert(rest.skip(2) == characters@.skip(index + 2));
                index = index + 2;
                continue;
            }
            if characters[index + 1] == '\r' && index + 2 < characters.len() && characters[index
                + 2] == '\n' {
                assert(rest[2] == characters@[index + 2]);
                assert(rest.skip(3) == characters@.skip(index + 3));
                index = index + 3;
                continue;
            }
        }
        joined.push(characters[index]);
        assert(rest.skip(1) == characters@.skip(index + 1));
        index = index + 1;
    }
    assert(characters@.skip(index as int) == Seq::<char>::empty());
    assert(joined@ == remove_soft_breaks(input@));

    let mut output: Vec<u8> = Vec::new();
    let mut cursor: usize = 0;
    assert(joined@.skip(0) == joined@);
    proof {
        lemma_prepend_empty(decode_symbols(joined@));
    }
    while cursor < joined.len()
        invariant
            cursor <= joined.len(),
            joined@ == remove_soft_breaks(input@),
            decode_symbols(joined@) == prepend(output@, decode_symbols(joined@.skip(cursor as int))),
        decreases joined.len() - cursor,
    {
        let ghost rest = joined@.skip(cursor as int);
        assert(rest[0] == joined@[cursor as int]);
        if joined[cursor] == '=' && joined.len() - cursor > 2 {
            let high = joined[cursor + 1];
            let low = joined[cursor + 2];
            assert(rest[1] == high && rest[2] == low);
            if is_hex_char(high) && is_hex_char(low) {
                let value = hex_char_value(high) * 16 + hex_char_value(low);
                proof {
                    assert(decode_symbols(rest) == prepend(seq![(value as u8)], decode_symbols(rest.skip(3))));
                    lemma_prepend_push(output@, (value as u8), decode_symbols(rest.skip(3)));
                }
                output.push(value as u8);
                assert(rest.skip(3) == joined@.skip(cursor + 3));
                cursor = cursor + 3;
                continue;
            }
        }
        let code = joined[cursor] as u32;
        if code > 255 {
            return Err(OperationError::Failed(Failure::QuotedPrintableNotAByte));
        }
        proof {
            lemma_prepend_push(output@, (code as u8), decode_symbols(rest.skip(1)));
        }
        output.push(code as u8);
        assert(rest.skip(1) == joined@.skip(cursor + 1));
        cursor = cursor + 1;
    }
    assert(joined@.skip(cursor as int) == Seq::<char>::empty());
    Ok(output)
}

} // verus!

verus! {

/// Every character of the text fits in a byte.
pub open spec fn byte_text(s: Seq<char>) -> bool {
    forall|i: int| 0 <= i < s.len() ==> (#[trigger] s[i] as u32) <= 255
}

proof fn lemma_byte_text_skip(s: Seq<char>, k: int)
    requires
        0 <= k <= s.len(),
        forall|i: int| 0 <= i < k ==> (#[trigger] s[i] as u32) <= 255,
    ensures
        byte_text(s) <==> byte_text(s.skip(k)),
{
    if byte_text(s.skip(k)) {
        assert forall|i: int| 0 <= i < s.len() implies (#[trigger] s[i] as u32) <= 255 by {
            if i >= k {
                assert(s[i] == s.skip(k)[i - k]);
            }
        }
    }
    if byte_text(s) {
        assert forall|i: int| 0 <= i < s.skip(k).len() implies (#[trigger] s.skip(k)[i] as u32) <= 255 by {
            assert(s.skip(k)[i] == s[i + k]);
        }
    }
}

proof fn lemma_decode_symbols_refusal(t: Seq<char>)
    ensures
        decode_symbols(t) is Some <==> byte_text(t),
        decode_symbols(t) matches Some(v) ==> v.len() <= t.len(),
    decreases t.len(),
{
    if t.len() > 0 {
        if t[0] == '=' && t.len() > 2 && is_hex(t[1]) && is_hex(t[2]) {
            lemma_decode_symbols_refusal(t.skip(3));
            assert forall|i: int| 0 <= i < 3 implies (#[trigger] t[i] as u32) <= 255 by {
                if i > 0 {
                    assert(is_hex(t[i]));
                }
            }
            lemma_byte_text_skip(t, 3);
        } else if t[0] as u32 > 255 {
            assert(!byte_text(t));
        } else {
            lemma_decode_symbols_refusal(t.skip(1));
            lemma_byte_text_skip(t, 1);
        }
    }
}

proof fn lemma_remove_soft_refusal(s: Seq<char>)
    ensures
        byte_text(remove_soft_breaks(s)) <==> byte_text(s),
        remove_soft_breaks(s).len() <= s.len(),
    decreases s.len(),
{
    if s.len() > 0 {
        let r = remove_soft_breaks(s);
        if s[0] == '=' && s.len() == 1 {
            assert(byte_text(s));
        } else if s[0] == '=' && s[1] == '\n' {
            lemma_remove_soft_refusal(s.skip(2));
            lemma_byte_text_skip(s, 2);
        } else if s[0] == '=' && s[1] == '\r' && s.len() > 2 && s[2] == '\n' {
            lemma_remove_soft_refusal(s.skip(3));
            lemma_byte_text_skip(s, 3);
        } else {
            lemma_remove_soft_refusal(s.skip(1));
            let t = remove_soft_breaks(s.skip(1));
            assert(r == seq![s[0]] + t);
            assert(r.skip(1) =~= t);
            assert(r[0] == s[0]);
            if (s[0] as u32) > 255 {
                assert(!byte_text(r));
                assert(!byte_text(s));
            } else {
                lemma_byte_text_skip(s, 1);
                lemma_byte_text_skip(r, 1);
            }
        }
    }
}

/// Decoding refuses exactly the text that holds a character above `U+00FF`,
/// and what it gives back is never longer than the text.
pub proof fn lemma_decode_refusal(s: Seq<char>)
    ensures
        decode_spec(s) is Err <==> exists|i: int| 0 <= i < s.len() && (#[trigger] s[i] as u32) > 255,
        decode_spec(s) matches Ok(v) ==> v.len() <= s.len(),
{
    lemma_remove_soft_refusal(s);
    lemma_decode_symbols_refusal(remove_soft_breaks(s));
    if !byte_text(s) {
        let i = choose|i: int| 0 <= i < s.len() && !((#[trigger] s[i] as u32) <= 255);
        assert((s[i] as u32) > 255);
    }
}

// ---------------------------------------------------------------------------
// Encoding, all four passes.

/// What `encode` answers for the given bytes.
pub open spec fn encode_spec(b: Seq<u8>) -> Seq<char> {
    soft_break_spec(trailing_blanks_spec(normalise_spec(escape_spec(b))))
}

/// Text made of escapes and of single characters below `U+0100` other than
/// `=`, where a line break is always the pair `\r\n`.
pub open spec fn qp_tokens(s: Seq<char>) -> bool
    decreases s.len(),
{
    if s.len() == 0 {
        true
    } else if s[0] == '=' {
        s.len() >= 3 && is_hex(s[1]) && is_hex(s[2]) && qp_tokens(s.skip(3))
    } else if s[0] == '\r' {
        s.len() >= 2 && s[1] == '\n' && qp_tokens(s.skip(2))
    } else {
        s[0] != '\n' && (s[0] as u32) < 256 && qp_tokens(s.skip(1))
    }
}

/// Like `qp_tokens`, but line breaks may be bare.
pub open spec fn raw_tokens(s: Seq<char>) -> bool
    decreases s.len(),
{
    if s.len() == 0 {
        true
    } else if s[0] == '=' {
        s.len() >= 3 && is_hex(s[1]) && is_hex(s[2]) && raw_tokens(s.skip(3))
    } else {
        (s[0] as u32) < 256 && raw_tokens(s.skip(1))
    }
}

/// Text with no carriage return and no line feed.
pub open spec fn no_line_break(s: Seq<char>) -> bool {
    forall|i: int| 0 <= i < s.len() ==> #[trigger] s[i] != '\r' && s[i] != '\n'
}

pub proof fn lemma_hex_char(v: u8)
    requires
        v < 16,
    ensures
        is_hex(hex_char(v)),
        hex_value(hex_char(v)) == v,
        hex_char(v) != '\r' && hex_char(v) != '\n' && hex_char(v) != '=',
        !is_blank(hex_char(v)),
{
}

pub proof fn lemma_escape_raw(b: Seq<u8>)
    ensures
        raw_tokens(escape_spec(b)),
        decode_symbols(escape_spec(b)) == Some(b),
        (forall|i: int| 0 <= i < b.len() ==> #[trigger] b[i] != 10 && b[i] != 13) ==> no_line_break(
            escape_spec(b),
        ),
    decreases b.len(),
{
    if b.len() > 0 {
        let e = escape_spec(b.skip(1));
        lemma_escape_raw(b.skip(1));
        let x = escape_spec(b);
        assert(x == escape_byte(b[0]) + e);
        if is_literal(b[0]) {
            assert(x.skip(1) == e);
            assert(x[0] == b[0] as char);
        } else {
            lemma_hex_char(b[0] / 16);
            lemma_hex_char(b[0] % 16);
            assert(x.skip(3) == e);
            assert(x[0] == '=');
            assert(x[1] == hex_char(b[0] / 16));
            assert(x[2] == hex_char(b[0] % 16));
            assert((hex_value(x[1]) * 16 + hex_value(x[2])) as u8 == b[0]);
        }
        assert(b == seq![b[0]] + b.skip(1));
        if forall|i: int| 0 <= i < b.len() ==> #[trigger] b[i] != 10 && b[i] != 13 {
            assert forall|i: int| 0 <= i < b.skip(1).len() implies #[trigger] b.skip(1)[i] != 10
                && b.skip(1)[i] != 13 by {
                assert(b.skip(1)[i] == b[i + 1]);
            }
            assert forall|i: int| 0 <= i < x.len() implies #[trigger] x[i] != '\r' && x[i]
                != '\n' by {
                if i >= escape_byte(b[0]).len() {
                    assert(x[i] == e[i - escape_byte(b[0]).len()]);
                }
            }
        }
    }
}


pub proof fn lemma_normalise_tokens(x: Seq<char>)
    requires
        raw_tokens(x),
    ensures
        qp_tokens(normalise_spec(x)),
        no_line_break(x) ==> normalise_spec(x) == x,
    decreases x.len(),
{
    if x.len() > 0 {
        let y = normalise_spec(x);
        if x[0] == '=' {
            lemma_normalise_tokens(x.skip(3));
            let r = normalise_spec(x.skip(3));
            assert(x.skip(1)[0] == x[1]);
            assert(x.skip(1).skip(1) == x.skip(2));
            assert(x.skip(2)[0] == x[2]);
            assert(x.skip(2).skip(1) == x.skip(3));
            assert(normalise_spec(x.skip(2)) == seq![x[2]] + r);
            assert(normalise_spec(x.skip(1)) == seq![x[1]] + normalise_spec(x.skip(2)));
            assert(y == seq!['=', x[1], x[2]] + r);
            assert(y.skip(3) == r);
            if no_line_break(x) {
                assert forall|i: int| 0 <= i < x.skip(3).len() implies #[trigger] x.skip(3)[i]
                    != '\r' && x.skip(3)[i] != '\n' by {
                    assert(x.skip(3)[i] == x[i + 3]);
                }
                assert(y == x);
            }
        } else {
            assert(raw_tokens(x.skip(1)));
            lemma_normalise_tokens(x.skip(1));
            if x[0] == '\r' {
                if x.len() > 1 && x[1] == '\n' {
                    assert(x.skip(1)[0] == '\n');
                    assert(x.skip(1).skip(1) == x.skip(2));
                    assert(raw_tokens(x.skip(2)));
                    lemma_normalise_tokens(x.skip(2));
                    assert(y.skip(2) == normalise_spec(x.skip(2)));
                } else {
                    assert(y.skip(2) == normalise_spec(x.skip(1)));
                }
            } else if x[0] == '\n' {
                assert(y.skip(2) == normalise_spec(x.skip(1)));
            } else {
                assert(y.skip(1) == normalise_spec(x.skip(1)));
                if no_line_break(x) {
                    assert forall|i: int| 0 <= i < x.skip(1).len() implies #[trigger] x.skip(1)[i]
                        != '\r' && x.skip(1)[i] != '\n' by {
                        assert(x.skip(1)[i] == x[i + 1]);
                    }
                    assert(y == x);
                }
            }
        }
    }
}

pub proof fn lemma_tokens_end(s: Seq<char>)
    requires
        qp_tokens(s),
    ensures
        !ends_partial(s),
    decreases s.len(),
{
    if s.len() > 0 {
        let k: int = if s[0] == '=' {
            3
        } else if s[0] == '\r' {
            2
        } else {
            1
        };
        let t = s.skip(k);
        lemma_tokens_end(t);
        if t.len() > 0 {
            assert(t.last() == s.last());
            if t.len() >= 2 {
                assert(t[t.len() - 2] == s[s.len() - 2]);
            } else {
                assert(s[s.len() - 2] == s[k - 1]);
            }
        }
    }
}

/// The bytes a run of characters stands for, one each.
pub open spec fn latin1(r: Seq<char>) -> Seq<u8> {
    r.map_values(|c: char| (c as u32) as u8)
}

pub proof fn lemma_skip_literals(x: Seq<char>, k: int)
    requires
        qp_tokens(x),
        0 <= k <= x.len(),
        forall|i: int| 0 <= i < k ==> is_blank(#[trigger] x[i]),
    ensures
        qp_tokens(x.skip(k)),
        decode_symbols(x) == prepend(latin1(x.take(k)), decode_symbols(x.skip(k))),
    decreases k,
{
    if k == 0 {
        assert(x.skip(0) == x);
        assert(latin1(x.take(0)) == Seq::<u8>::empty());
        lemma_prepend_empty(decode_symbols(x));
    } else {
        assert(is_blank(x[0]));
        let y = x.skip(1);
        assert forall|i: int| 0 <= i < k - 1 implies is_blank(#[trigger] y[i]) by {
            assert(y[i] == x[i + 1]);
        }
        lemma_skip_literals(y, k - 1);
        assert(y.skip(k - 1) == x.skip(k));
        assert(latin1(x.take(k)) == seq![(x[0] as u32) as u8] + latin1(y.take(k - 1)));
        if let Some(r) = decode_symbols(x.skip(k)) {
            assert(seq![(x[0] as u32) as u8] + (latin1(y.take(k - 1)) + r) == latin1(x.take(k))
                + r);
        }
    }
}

pub proof fn lemma_escape_run_tokens(r: Seq<char>, t: bool, w: Seq<char>)
    requires
        qp_tokens(w),
        forall|i: int| 0 <= i < r.len() ==> is_blank(#[trigger] r[i]),
    ensures
        qp_tokens(escape_run(r, t) + w),
        decode_symbols(escape_run(r, t) + w) == prepend(latin1(r), decode_symbols(w)),
        !t ==> escape_run(r, t) == r,
        no_line_break(w) ==> no_line_break(escape_run(r, t) + w),
    decreases r.len(),
{
    if r.len() == 0 {
        assert(escape_run(r, t) + w == w);
        assert(latin1(r) == Seq::<u8>::empty());
        lemma_prepend_empty(decode_symbols(w));
    } else {
        let tail = r.skip(1);
        assert forall|i: int| 0 <= i < tail.len() implies is_blank(#[trigger] tail[i]) by {
            assert(tail[i] == r[i + 1]);
        }
        lemma_escape_run_tokens(tail, t, w);
        let y = escape_run(tail, t) + w;
        let piece = if t {
            escaped_blank(r[0])
        } else {
            seq![r[0]]
        };
        let z = escape_run(r, t) + w;
        assert(z == piece + y);
        assert(z.skip(piece.len() as int) == y);
        assert(latin1(r) == seq![(r[0] as u32) as u8] + latin1(tail));
        if t {
            assert(z[0] == '=');
            assert(z[1] == piece[1] && z[2] == piece[2]);
            assert(decode_symbols(z) == prepend(seq![(r[0] as u32) as u8], decode_symbols(y)));
        } else {
            assert(z[0] == r[0]);
            assert(decode_symbols(z) == prepend(seq![(r[0] as u32) as u8], decode_symbols(y)));
        }
        if let Some(q) = decode_symbols(w) {
            assert(seq![(r[0] as u32) as u8] + (latin1(tail) + q) == latin1(r) + q);
        }
        if no_line_break(w) {
            assert forall|i: int| 0 <= i < z.len() implies #[trigger] z[i] != '\r' && z[i]
                != '\n' by {
                if i >= piece.len() {
                    assert(z[i] == y[i - piece.len()]);
                }
            }
        }
    }
}

pub proof fn lemma_trailing_blanks_tokens(x: Seq<char>)
    requires
        qp_tokens(x),
    ensures
        qp_tokens(trailing_blanks_spec(x)),
        decode_symbols(trailing_blanks_spec(x)) == decode_symbols(x),
        no_line_break(x) ==> no_line_break(trailing_blanks_spec(x)),
    decreases x.len(),
{
    if x.len() > 0 {
        let y = trailing_blanks_spec(x);
        if x[0] == '=' {
            lemma_trailing_blanks_tokens(x.skip(3));
            let r = trailing_blanks_spec(x.skip(3));
            lemma_hex_char(0);
            assert(!is_blank(x[1]) && !is_blank(x[2]));
            assert(x.skip(1)[0] == x[1]);
            assert(x.skip(1).skip(1) == x.skip(2));
            assert(x.skip(2)[0] == x[2]);
            assert(x.skip(2).skip(1) == x.skip(3));
            assert(trailing_blanks_spec(x.skip(2)) == seq![x[2]] + r);
            assert(trailing_blanks_spec(x.skip(1)) == seq![x[1]] + trailing_blanks_spec(
                x.skip(2),
            ));
            assert(y == seq!['=', x[1], x[2]] + r);
            assert(y.skip(3) == r);
            if no_line_break(x) {
                assert forall|i: int| 0 <= i < x.skip(3).len() implies #[trigger] x.skip(3)[i]
                    != '\r' && x.skip(3)[i] != '\n' by {
                    assert(x.skip(3)[i] == x[i + 3]);
                }
                assert forall|i: int| 0 <= i < y.len() implies #[trigger] y[i] != '\r' && y[i]
                    != '\n' by {
                    if i >= 3 {
                        assert(y[i] == r[i - 3]);
                    }
                }
            }
        } else if x[0] == '\r' {
            lemma_trailing_blanks_tokens(x.skip(2));
            let r = trailing_blanks_spec(x.skip(2));
            assert(x.skip(1)[0] == '\n');
            assert(x.skip(1).skip(1) == x.skip(2));
            assert(trailing_blanks_spec(x.skip(1)) == seq!['\n'] + r);
            assert(y == seq!['\r', '\n'] + r);
            assert(y.skip(2) == r);
            assert(y.skip(1)[0] == '\n');
            assert(y.skip(1).skip(1) == r);
            assert(x.skip(1)[0] == '\n');
            assert(decode_symbols(x.skip(1)) == prepend(seq![10u8], decode_symbols(x.skip(2))));
            assert(decode_symbols(y.skip(1)) == prepend(seq![10u8], decode_symbols(r)));
            lemma_prepend_push(seq![13u8], 10u8, decode_symbols(r));
            lemma_prepend_push(seq![13u8], 10u8, decode_symbols(x.skip(2)));
            lemma_prepend_push(Seq::<u8>::empty(), 13u8, prepend(seq![10u8], decode_symbols(r)));
            lemma_prepend_push(
                Seq::<u8>::empty(),
                13u8,
                prepend(seq![10u8], decode_symbols(x.skip(2))),
            );
            lemma_prepend_empty(decode_symbols(y));
            lemma_prepend_empty(decode_symbols(x));
            assert(seq![13u8].push(10u8) == Seq::<u8>::empty().push(13u8).push(10u8));
        } else if is_blank(x[0]) {
            let e = blank_run(x);
            lemma_blank_run_bounds(x);
            lemma_skip_literals(x, e as int);
            lemma_trailing_blanks_tokens(x.skip(e as int));
            let r = trailing_blanks_spec(x.skip(e as int));
            let run = x.take(e as int);
            assert forall|i: int| 0 <= i < run.len() implies is_blank(#[trigger] run[i]) by {
                assert(run[i] == x[i]);
            }
            lemma_escape_run_tokens(run, run_is_trailing(x, e), r);
            assert(y == escape_run(run, run_is_trailing(x, e)) + r);
            if no_line_break(x) {
                assert forall|i: int| 0 <= i < x.skip(e as int).len() implies #[trigger] x.skip(
                    e as int,
                )[i] != '\r' && x.skip(e as int)[i] != '\n' by {
                    assert(x.skip(e as int)[i] == x[i + e]);
                }
            }
        } else {
            lemma_trailing_blanks_tokens(x.skip(1));
            let r = trailing_blanks_spec(x.skip(1));
            assert(y == seq![x[0]] + r);
            assert(y.skip(1) == r);
            assert(y[0] == x[0]);
            if no_line_break(x) {
                assert forall|i: int| 0 <= i < x.skip(1).len() implies #[trigger] x.skip(1)[i]
                    != '\r' && x.skip(1)[i] != '\n' by {
                    assert(x.skip(1)[i] == x[i + 1]);
                }
                assert forall|i: int| 0 <= i < y.len() implies #[trigger] y[i] != '\r' && y[i]
                    != '\n' by {
                    if i >= 1 {
                        assert(y[i] == r[i - 1]);
                    }
                }
            }
        }
    }
}


/// Every `=` of the text is followed by a character, and not by a line
/// break: an `=` starts an escape, never a soft break.
pub open spec fn escapes_whole(s: Seq<char>) -> bool {
    forall|i: int|
        0 <= i < s.len() && #[trigger] s[i] == '=' ==> i + 1 < s.len() && s[i + 1] != '\r' && s[i + 1]
            != '\n'
}

/// Quoted-printable tokens never hold an `=` that is not an escape.
pub proof fn lemma_tokens_whole(s: Seq<char>)
    requires
        qp_tokens(s),
    ensures
        escapes_whole(s),
    decreases s.len(),
{
    if s.len() > 0 {
        let k: int = if s[0] == '=' {
            3
        } else if s[0] == '\r' {
            2
        } else {
            1
        };
        let t = s.skip(k);
        lemma_tokens_whole(t);
        if s[0] == '=' {
            lemma_hex_char(0);
        }
        assert forall|i: int| 0 <= i < s.len() && #[trigger] s[i] == '=' implies i + 1 < s.len() && s[i
            + 1] != '\r' && s[i + 1] != '\n' by {
            if i >= k {
                assert(s[i] == t[i - k]);
                assert(t[i - k] == '=');
                assert(s[i + 1] == t[i - k + 1]);
            } else if s[0] == '=' {
                assert(is_hex(s[1]) && is_hex(s[2]));
            }
        }
    }
}

/// Removing soft breaks passes over a prefix none of whose `=` meets a line
/// break.
pub proof fn lemma_remove_soft_prefix(a: Seq<char>, w: Seq<char>)
    requires
        forall|i: int|
            0 <= i < a.len() && #[trigger] (a + w)[i] == '=' ==> i + 1 < (a + w).len() && (a + w)[i + 1]
                != '\r' && (a + w)[i + 1] != '\n',
    ensures
        remove_soft_breaks(a + w) == a + remove_soft_breaks(w),
    decreases a.len(),
{
    let z = a + w;
    if a.len() > 0 {
        let b = a.skip(1);
        assert(z.skip(1) =~= b + w);
        assert forall|i: int|
            0 <= i < b.len() && #[trigger] (b + w)[i] == '=' implies i + 1 < (b + w).len() && (b + w)[i
            + 1] != '\r' && (b + w)[i + 1] != '\n' by {
            assert((b + w)[i] == z[i + 1]);
            assert(z[i + 1] == '=');
            assert((b + w)[i + 1] == z[i + 2]);
        }
        lemma_remove_soft_prefix(b, w);
        assert(z[0] == a[0]);
        if a[0] == '=' {
            assert(z[0] == '=');
        }
        assert(remove_soft_breaks(z) == seq![a[0]] + remove_soft_breaks(b + w));
        assert(seq![a[0]] + (b + remove_soft_breaks(w)) =~= a + remove_soft_breaks(w));
    } else {
        assert(a + w =~= w);
    }
}

/// A line takes at least one character, so the broken text starts as the
/// text does.
proof fn lemma_soft_break_first(y: Seq<char>)
    requires
        y.len() > 0,
        !ends_partial(y),
    ensures
        soft_break_spec(y).len() > 0,
        soft_break_spec(y)[0] == y[0],
{
    lemma_soft_cut_progress(y);
    let n = soft_cut(y).0;
    assert(soft_piece(y)[0] == y.take(n)[0]);
}

/// Soft breaking only inserts `=` CR LF: removing the soft breaks gives back
/// the text, line breaks included, whenever every `=` in it starts an escape
/// and it does not end part-way through one or on a bare carriage return.
pub proof fn lemma_remove_soft_all(y: Seq<char>)
    requires
        escapes_whole(y),
        !ends_partial(y),
    ensures
        remove_soft_breaks(soft_break_spec(y)) == y,
    decreases y.len(),
{
    if y.len() == 0 {
        assert(soft_break_spec(y) == Seq::<char>::empty());
    } else {
        lemma_soft_cut_progress(y);
        let (n, soft) = soft_cut(y);
        let rest = y.skip(n);
        let head = y.take(n);
        assert forall|i: int| 0 <= i < rest.len() && #[trigger] rest[i] == '=' implies i + 1 < rest.len()
            && rest[i + 1] != '\r' && rest[i + 1] != '\n' by {
            assert(rest[i] == y[i + n]);
            assert(y[i + n] == '=');
            assert(rest[i + 1] == y[i + n + 1]);
        }
        if rest.len() > 0 {
            assert(rest.last() == y.last());
            if rest.len() >= 2 {
                assert(rest[rest.len() - 2] == y[y.len() - 2]);
            }
        }
        lemma_remove_soft_all(rest);
        let t = soft_break_spec(rest);
        assert(soft_break_spec(y) == soft_piece(y) + t);
        assert(head + rest =~= y);
        if soft {
            let w = seq!['=', '\r', '\n'] + t;
            assert(soft_break_spec(y) =~= head + w);
            assert forall|i: int|
                0 <= i < head.len() && #[trigger] (head + w)[i] == '=' implies i + 1 < (head + w).len() && (
                head + w)[i + 1] != '\r' && (head + w)[i + 1] != '\n' by {
                assert((head + w)[i] == y[i]);
                if i + 1 < head.len() {
                    assert((head + w)[i + 1] == y[i + 1]);
                } else {
                    assert((head + w)[i + 1] == '=');
                }
            }
            lemma_remove_soft_prefix(head, w);
            assert(w[0] == '=' && w[1] == '\r' && w[2] == '\n');
            assert(w.skip(3) =~= t);
            assert(remove_soft_breaks(w) == remove_soft_breaks(t));
        } else {
            assert(soft_break_spec(y) =~= head + t);
            if rest.len() > 0 {
                lemma_soft_break_first(rest);
            }
            assert forall|i: int|
                0 <= i < head.len() && #[trigger] (head + t)[i] == '=' implies i + 1 < (head + t).len() && (
                head + t)[i + 1] != '\r' && (head + t)[i + 1] != '\n' by {
                assert((head + t)[i] == y[i]);
                assert(y[i] == '=');
                if i + 1 < head.len() {
                    assert((head + t)[i + 1] == y[i + 1]);
                } else {
                    assert(rest[0] == y[i + 1]);
                    assert((head + t)[i + 1] == t[0]);
                }
            }
            lemma_remove_soft_prefix(head, t);
        }
    }
}

/// Soft breaking the escaped, normalised text of any bytes only inserts
/// soft line breaks: removing them gives back exactly that text.
pub proof fn lemma_soft_break_only_inserts(b: Seq<u8>)
    ensures
        remove_soft_breaks(soft_break_spec(trailing_blanks_spec(normalise_spec(escape_spec(b)))))
            == trailing_blanks_spec(normalise_spec(escape_spec(b))),
{
    let x = escape_spec(b);
    lemma_escape_raw(b);
    lemma_normalise_tokens(x);
    let y = trailing_blanks_spec(normalise_spec(x));
    lemma_trailing_blanks_tokens(normalise_spec(x));
    lemma_tokens_end(y);
    lemma_tokens_whole(y);
    lemma_remove_soft_all(y);
}

/// The bytes with every line ending, bare or paired, written as CR LF.
pub open spec fn crlf_bytes(b: Seq<u8>) -> Seq<u8>
    decreases b.len(),
{
    if b.len() == 0 {
        seq![]
    } else if b[0] == 13 {
        if b.len() > 1 && b[1] == 10 {
            seq![13u8, 10u8] + crlf_bytes(b.skip(2))
        } else {
            seq![13u8, 10u8] + crlf_bytes(b.skip(1))
        }
    } else if b[0] == 10 {
        seq![13u8, 10u8] + crlf_bytes(b.skip(1))
    } else {
        seq![b[0]] + crlf_bytes(b.skip(1))
    }
}

proof fn lemma_escape_first(b: Seq<u8>)
    requires
        b.len() > 0,
    ensures
        escape_spec(b) == escape_byte(b[0]) + escape_spec(b.skip(1)),
        escape_spec(b)[0] == '\n' <==> b[0] == 10,
        escape_spec(b)[0] == '\r' <==> b[0] == 13,
{
    if !is_literal(b[0]) {
        assert(escape_spec(b)[0] == '=');
    } else {
        assert(escape_spec(b)[0] == b[0] as char);
    }
}

proof fn lemma_normalise_plain_prefix(p: Seq<char>, e: Seq<char>)
    requires
        no_line_break(p),
    ensures
        normalise_spec(p + e) == p + normalise_spec(e),
    decreases p.len(),
{
    if p.len() > 0 {
        let q = p.skip(1);
        assert((p + e).skip(1) =~= q + e);
        assert((p + e)[0] == p[0]);
        assert(p[0] != '\r' && p[0] != '\n');
        lemma_normalise_plain_prefix(q, e);
        assert(seq![p[0]] + (q + normalise_spec(e)) =~= p + normalise_spec(e));
    } else {
        assert(p + e =~= e);
    }
}

/// Normalising the line endings of escaped bytes is escaping the bytes with
/// their line endings normalised.
pub proof fn lemma_normalise_escape(b: Seq<u8>)
    ensures
        normalise_spec(escape_spec(b)) == escape_spec(crlf_bytes(b)),
    decreases b.len(),
{
    if b.len() > 0 {
        lemma_escape_first(b);
        let x = escape_spec(b);
        let e1 = escape_spec(b.skip(1));
        if b[0] == 13 || b[0] == 10 {
            assert(escape_byte(b[0]) == seq![b[0] as char]);
            assert(x.skip(1) =~= e1);
            let c = crlf_bytes(b);
            let pair = seq![13u8, 10u8];
            if b[0] == 13 && b.len() > 1 && b[1] == 10 {
                lemma_escape_first(b.skip(1));
                assert(x[1] == '\n');
                assert(x.skip(2) =~= escape_spec(b.skip(2))) by {
                    assert(b.skip(1).skip(1) =~= b.skip(2));
                    assert(escape_byte(b[1]) == seq!['\n']);
                }
                lemma_normalise_escape(b.skip(2));
                lemma_escape_first(c);
                assert(c.skip(1) =~= seq![10u8] + crlf_bytes(b.skip(2)));
                lemma_escape_first(c.skip(1));
                assert(c.skip(1).skip(1) =~= crlf_bytes(b.skip(2)));
                assert(escape_spec(c) =~= seq!['\r', '\n'] + escape_spec(crlf_bytes(b.skip(2))));
            } else {
                if b.len() > 1 {
                    lemma_escape_first(b.skip(1));
                    assert(x[1] == e1[0]);
                }
                lemma_normalise_escape(b.skip(1));
                lemma_escape_first(c);
                assert(c.skip(1) =~= seq![10u8] + crlf_bytes(b.skip(1)));
                lemma_escape_first(c.skip(1));
                assert(c.skip(1).skip(1) =~= crlf_bytes(b.skip(1)));
                assert(escape_spec(c) =~= seq!['\r', '\n'] + escape_spec(crlf_bytes(b.skip(1))));
            }
        } else {
            let p = escape_byte(b[0]);
            if !is_literal(b[0]) {
                lemma_hex_char(b[0] / 16);
                lemma_hex_char(b[0] % 16);
            }
            assert(no_line_break(p));
            lemma_normalise_plain_prefix(p, e1);
            lemma_normalise_escape(b.skip(1));
            let c = crlf_bytes(b);
            assert(c == seq![b[0]] + crlf_bytes(b.skip(1)));
            lemma_escape_first(c);
            assert(c.skip(1) =~= crlf_bytes(b.skip(1)));
        }
    }
}

/// Encodes bytes as quoted-printable text.
pub fn encode(input: &[u8]) -> (s: String)
    ensures
        s@ == encode_spec(input@),
{
    let escaped = escape(input);
    let normal = normalise_endings(&escaped);
    let blanks = escape_trailing_blanks(&normal);
    proof {
        lemma_escape_raw(input@);
        lemma_normalise_tokens(escaped@);
        lemma_trailing_blanks_tokens(normal@);
        lemma_tokens_end(blanks@);
    }
    let broken = soft_break(&blanks);
    string_of(&broken)
}

/// Decoding undoes encoding: the bytes come back with every line ending,
/// bare or paired, written as CR LF, which is how the encoder writes them.
pub proof fn lemma_decode_inverts_encode(b: Seq<u8>)
    ensures
        decode_spec(encode_spec(b)) == Ok::<Seq<u8>, OperationError>(crlf_bytes(b)),
{
    let x = escape_spec(b);
    lemma_escape_raw(b);
    lemma_normalise_tokens(x);
    lemma_normalise_escape(b);
    lemma_escape_raw(crlf_bytes(b));
    let n = normalise_spec(x);
    let y = trailing_blanks_spec(n);
    lemma_trailing_blanks_tokens(n);
    lemma_soft_break_only_inserts(b);
}

/// Every character is ASCII.
pub open spec fn ascii_text(s: Seq<char>) -> bool {
    forall|i: int| 0 <= i < s.len() ==> (#[trigger] s[i] as u32) < 0x80
}

proof fn lemma_ascii_concat(a: Seq<char>, b: Seq<char>)
    requires
        ascii_text(a),
        ascii_text(b),
    ensures
        ascii_text(a + b),
{
    assert forall|i: int| 0 <= i < (a + b).len() implies (#[trigger] (a + b)[i] as u32) < 0x80 by {
        if i < a.len() {
            assert((a + b)[i] == a[i]);
        } else {
            assert((a + b)[i] == b[i - a.len()]);
        }
    }
}

proof fn lemma_ascii_skip(a: Seq<char>, k: int)
    requires
        ascii_text(a),
        0 <= k <= a.len(),
    ensures
        ascii_text(a.skip(k)),
        ascii_text(a.take(k)),
{
    assert forall|i: int| 0 <= i < a.skip(k).len() implies (#[trigger] a.skip(k)[i] as u32) < 0x80 by {
        assert(a.skip(k)[i] == a[i + k]);
    }
    assert forall|i: int| 0 <= i < a.take(k).len() implies (#[trigger] a.take(k)[i] as u32) < 0x80 by {
        assert(a.take(k)[i] == a[i]);
    }
}

proof fn lemma_escape_ascii(b: Seq<u8>)
    ensures
        ascii_text(escape_spec(b)),
    decreases b.len(),
{
    if b.len() > 0 {
        lemma_escape_ascii(b.skip(1));
        let p = escape_byte(b[0]);
        if !is_literal(b[0]) {
            lemma_hex_char(b[0] / 16);
            lemma_hex_char(b[0] % 16);
        }
        assert(ascii_text(p));
        lemma_ascii_concat(p, escape_spec(b.skip(1)));
    }
}

proof fn lemma_normalise_ascii(s: Seq<char>)
    requires
        ascii_text(s),
    ensures
        ascii_text(normalise_spec(s)),
    decreases s.len(),
{
    if s.len() > 0 {
        lemma_ascii_skip(s, 1);
        lemma_normalise_ascii(s.skip(1));
        if s.len() > 1 {
            lemma_ascii_skip(s, 2);
            lemma_normalise_ascii(s.skip(2));
        }
        let crlf = seq!['\r', '\n'];
        assert(ascii_text(crlf));
        assert(ascii_text(seq![s[0]]));
        lemma_ascii_concat(crlf, normalise_spec(s.skip(1)));
        lemma_ascii_concat(seq![s[0]], normalise_spec(s.skip(1)));
        if s.len() > 1 {
            lemma_ascii_concat(crlf, normalise_spec(s.skip(2)));
        }
    }
}

proof fn lemma_escape_run_ascii(r: Seq<char>, t: bool)
    requires
        ascii_text(r),
    ensures
        ascii_text(escape_run(r, t)),
    decreases r.len(),
{
    if r.len() > 0 {
        lemma_ascii_skip(r, 1);
        lemma_escape_run_ascii(r.skip(1), t);
        let piece = if t {
            escaped_blank(r[0])
        } else {
            seq![r[0]]
        };
        assert(ascii_text(piece));
        lemma_ascii_concat(piece, escape_run(r.skip(1), t));
    }
}

proof fn lemma_trailing_ascii(s: Seq<char>)
    requires
        ascii_text(s),
    ensures
        ascii_text(trailing_blanks_spec(s)),
    decreases s.len(),
{
    if s.len() > 0 {
        if is_blank(s[0]) {
            let e = blank_run(s);
            lemma_blank_run_bounds(s);
            if 0 < e <= s.len() {
                lemma_ascii_skip(s, e as int);
                lemma_trailing_ascii(s.skip(e as int));
                lemma_escape_run_ascii(s.take(e as int), run_is_trailing(s, e));
                lemma_ascii_concat(
                    escape_run(s.take(e as int), run_is_trailing(s, e)),
                    trailing_blanks_spec(s.skip(e as int)),
                );
            }
        } else {
            lemma_ascii_skip(s, 1);
            lemma_trailing_ascii(s.skip(1));
            assert(ascii_text(seq![s[0]]));
            lemma_ascii_concat(seq![s[0]], trailing_blanks_spec(s.skip(1)));
        }
    }
}

/// A line never takes more than the text holds.
proof fn lemma_soft_cut_bounds(rest: Seq<char>)
    ensures
        0 <= soft_cut(rest).0 <= rest.len(),
{
    let len = rest.len() as int;
    let width = if len < 76 {
        len
    } else {
        76
    };
    let line = rest.take(width);
    lemma_crlf_bounds(line, 0);
    let m = if width < 25 {
        width
    } else {
        25
    };
    let tail = line.skip(width - m);
    lemma_last_match_bounds(tail, m, false);
    lemma_last_match_bounds(tail, m, true);
    let n = line.len() as int;
    let pw = partial_width(line, n);
    lemma_strip_bounds(line, n - pw, len);
}

proof fn lemma_soft_break_ascii(s: Seq<char>)
    requires
        ascii_text(s),
    ensures
        ascii_text(soft_break_spec(s)),
    decreases s.len(),
{
    if s.len() > 0 {
        let n = soft_cut(s).0;
        let soft = soft_cut(s).1;
        let mark = if soft {
            seq!['=', '\r', '\n']
        } else {
            seq![]
        };
        assert(ascii_text(mark));
        if 0 < n <= s.len() {
            lemma_ascii_skip(s, n);
            lemma_soft_break_ascii(s.skip(n));
            lemma_ascii_concat(s.take(n), mark);
            lemma_ascii_concat(soft_piece(s), soft_break_spec(s.skip(n)));
        } else {
            lemma_soft_cut_bounds(s);
            assert(s.take(n) =~= Seq::<char>::empty());
            lemma_ascii_concat(s.take(n), mark);
        }
    }
}

/// Quoted-printable text is ASCII, whatever the bytes.
pub proof fn lemma_encode_ascii(b: Seq<u8>)
    ensures
        ascii_text(encode_spec(b)),
{
    lemma_escape_ascii(b);
    lemma_normalise_ascii(escape_spec(b));
    lemma_trailing_ascii(normalise_spec(escape_spec(b)));
    lemma_soft_break_ascii(trailing_blanks_spec(normalise_spec(escape_spec(b))));
}

/// No line of the text ends in a blank: no blank stands before a carriage
/// return, and the text does not end with one.
pub open spec fn no_trailing_blank(s: Seq<char>) -> bool {
    &&& forall|i: int| 0 < i < s.len() && #[trigger] s[i] == '\r' ==> !is_blank(s[i - 1])
    &&& s.len() > 0 ==> !is_blank(s.last())
}

proof fn lemma_trailing_first(s: Seq<char>)
    requires
        s.len() > 0,
        !is_blank(s[0]),
    ensures
        trailing_blanks_spec(s).len() > 0,
        trailing_blanks_spec(s)[0] == s[0],
{
}

proof fn lemma_escape_run_shape(r: Seq<char>, t: bool)
    requires
        forall|i: int| 0 <= i < r.len() ==> is_blank(#[trigger] r[i]),
    ensures
        forall|i: int| 0 <= i < escape_run(r, t).len() ==> #[trigger] escape_run(r, t)[i] != '\r',
        t && r.len() > 0 ==> !is_blank(escape_run(r, t).last()),
        !t ==> escape_run(r, t) == r,
    decreases r.len(),
{
    if r.len() > 0 {
        let tail = r.skip(1);
        assert forall|i: int| 0 <= i < tail.len() implies is_blank(#[trigger] tail[i]) by {
            assert(tail[i] == r[i + 1]);
        }
        lemma_escape_run_shape(tail, t);
        let piece = if t {
            escaped_blank(r[0])
        } else {
            seq![r[0]]
        };
        let e = escape_run(r, t);
        assert(e == piece + escape_run(tail, t));
        assert forall|i: int| 0 <= i < e.len() implies #[trigger] e[i] != '\r' by {
            if i >= piece.len() {
                assert(e[i] == escape_run(tail, t)[i - piece.len()]);
            }
        }
        if !t {
            assert(e =~= r);
        }
    }
}

proof fn lemma_blank_run_stop(s: Seq<char>)
    ensures
        blank_run(s) < s.len() ==> !is_blank(s[blank_run(s) as int]),
    decreases s.len(),
{
    if s.len() > 0 && is_blank(s[0]) {
        lemma_blank_run_stop(s.skip(1));
        lemma_blank_run_bounds(s.skip(1));
        if blank_run(s) < s.len() {
            assert(s[blank_run(s) as int] == s.skip(1)[blank_run(s.skip(1)) as int]);
        }
    }
}

proof fn lemma_trailing_prefix(x: Seq<char>, k: int)
    requires
        0 <= k <= x.len(),
        forall|i: int| 0 <= i < k ==> !is_blank(#[trigger] x[i]),
    ensures
        trailing_blanks_spec(x) == x.take(k) + trailing_blanks_spec(x.skip(k)),
    decreases k,
{
    if k == 0 {
        assert(x.skip(0) =~= x);
        assert(x.take(0) =~= Seq::<char>::empty());
        assert(x.take(0) + trailing_blanks_spec(x.skip(0)) =~= trailing_blanks_spec(x));
    } else {
        let t = x.skip(1);
        assert forall|i: int| 0 <= i < k - 1 implies !is_blank(#[trigger] t[i]) by {
            assert(t[i] == x[i + 1]);
        }
        lemma_trailing_prefix(t, k - 1);
        assert(t.skip(k - 1) =~= x.skip(k));
        assert(seq![x[0]] + (t.take(k - 1) + trailing_blanks_spec(x.skip(k))) =~= x.take(k)
            + trailing_blanks_spec(x.skip(k)));
    }
}

proof fn lemma_trailing_no_blank(x: Seq<char>)
    requires
        qp_tokens(x),
    ensures
        no_trailing_blank(trailing_blanks_spec(x)),
    decreases x.len(),
{
    let y = trailing_blanks_spec(x);
    if x.len() > 0 {
        if is_blank(x[0]) {
            let e = blank_run(x);
            lemma_blank_run_bounds(x);
            lemma_skip_literals(x, e as int);
            let rest = x.skip(e as int);
            lemma_trailing_no_blank(rest);
            let run = x.take(e as int);
            assert forall|i: int| 0 <= i < run.len() implies is_blank(#[trigger] run[i]) by {
                assert(run[i] == x[i]);
            }
            let t = run_is_trailing(x, e);
            lemma_escape_run_shape(run, t);
            let er = escape_run(run, t);
            let r = trailing_blanks_spec(rest);
            assert(y == er + r);
            if rest.len() > 0 {
                assert(rest[0] == x[e as int]);
                lemma_blank_run_stop(x);
                lemma_trailing_first(rest);
            }
            assert forall|i: int| 0 < i < y.len() && #[trigger] y[i] == '\r' implies !is_blank(y[i - 1]) by {
                if i < er.len() {
                    assert(y[i] == er[i]);
                } else if i == er.len() {
                    assert(y[i] == r[0]);
                    assert(r[0] == rest[0]);
                    assert(rest[0] == '\r');
                    assert(t);
                    assert(y[i - 1] == er.last());
                } else {
                    assert(y[i] == r[i - er.len()]);
                    assert(y[i - 1] == r[i - 1 - er.len()]);
                }
            }
            if y.len() > 0 {
                if r.len() > 0 {
                    assert(y.last() == r.last());
                } else {
                    assert(rest.len() == 0);
                    assert(t);
                    assert(y.last() == er.last());
                }
            }
        } else {
            let k: int = if x[0] == '=' {
                3
            } else if x[0] == '\r' {
                2
            } else {
                1
            };
            let rest = x.skip(k);
            lemma_trailing_no_blank(rest);
            let head = x.take(k);
            lemma_hex_char(0);
            assert forall|i: int| 0 <= i < k implies !is_blank(#[trigger] head[i]) && (i > 0 ==> head[i]
                != '\r') by {
                assert(head[i] == x[i]);
                if x[0] == '=' {
                    assert(is_hex(x[1]) && is_hex(x[2]));
                }
            }
            assert forall|i: int| 0 <= i < k implies !is_blank(#[trigger] x[i]) by {
                assert(head[i] == x[i]);
            }
            lemma_trailing_prefix(x, k);
            let r = trailing_blanks_spec(rest);
            assert(y == head + r);
            if rest.len() > 0 {
                assert(rest[0] == x[k]);
            }
            assert forall|i: int| 0 < i < y.len() && #[trigger] y[i] == '\r' implies !is_blank(y[i - 1]) by {
                if i < k {
                    assert(y[i] == head[i]);
                } else if i == k {
                    assert(y[i - 1] == head[k - 1]);
                } else {
                    assert(y[i] == r[i - k]);
                    assert(y[i - 1] == r[i - 1 - k]);
                }
            }
            if y.len() > 0 {
                if r.len() > 0 {
                    assert(y.last() == r.last());
                } else {
                    assert(y.last() == head[k - 1]);
                }
            }
        }
    }
}

proof fn lemma_soft_break_no_blank(y: Seq<char>)
    requires
        no_trailing_blank(y),
        !ends_partial(y),
    ensures
        no_trailing_blank(soft_break_spec(y)),
    decreases y.len(),
{
    if y.len() > 0 {
        lemma_soft_cut_progress(y);
        let (n, soft) = soft_cut(y);
        let rest = y.skip(n);
        let head = y.take(n);
        if rest.len() > 0 {
            assert(rest.last() == y.last());
            if rest.len() >= 2 {
                assert(rest[rest.len() - 2] == y[y.len() - 2]);
            }
        }
        assert forall|i: int| 0 < i < rest.len() && #[trigger] rest[i] == '\r' implies !is_blank(rest[i - 1]) by {
            assert(rest[i] == y[i + n]);
            assert(rest[i - 1] == y[i + n - 1]);
        }
        lemma_soft_break_no_blank(rest);
        let t = soft_break_spec(rest);
        let mark = if soft {
            seq!['=', '\r', '\n']
        } else {
            seq![]
        };
        let piece = head + mark;
        let out = soft_break_spec(y);
        assert(out == piece + t);
        if rest.len() > 0 {
            lemma_soft_break_first(rest);
        }
        assert forall|i: int| 0 < i < out.len() && #[trigger] out[i] == '\r' implies !is_blank(out[i - 1]) by {
            if i < head.len() {
                assert(out[i] == y[i]);
                assert(out[i - 1] == y[i - 1]);
            } else if i < piece.len() {
                assert(soft);
                assert(out[i] == mark[i - head.len()]);
                assert(out[i - 1] == piece[i - 1]);
            } else if i == piece.len() {
                assert(out[i] == t[0]);
                assert(t[0] == y[n]);
                assert(out[i - 1] == piece.last());
                if !soft {
                    assert(piece.last() == y[n - 1]);
                }
            } else {
                assert(out[i] == t[i - piece.len()]);
                assert(out[i - 1] == t[i - 1 - piece.len()]);
            }
        }
        if t.len() > 0 {
            assert(out.last() == t.last());
        } else if !soft {
            assert(n == y.len());
            assert(out.last() == y.last());
        }
    }
}

/// No line of quoted-printable text ends in a blank: a blank before a line
/// break, or at the end, is always written as an escape.
pub proof fn lemma_encode_no_trailing_blank(b: Seq<u8>)
    ensures
        no_trailing_blank(encode_spec(b)),
{
    let x = escape_spec(b);
    lemma_escape_raw(b);
    lemma_normalise_tokens(x);
    let n = normalise_spec(x);
    lemma_trailing_blanks_tokens(n);
    let y = trailing_blanks_spec(n);
    lemma_tokens_end(y);
    lemma_trailing_no_blank(n);
    lemma_soft_break_no_blank(y);
}

/// Every `=` is followed by two hexadecimal digits, and every carriage
/// return by a line feed.
pub open spec fn escape_shaped(s: Seq<char>) -> bool {
    &&& forall|i: int|
        0 <= i < s.len() && #[trigger] s[i] == '=' ==> i + 2 < s.len() && is_hex(s[i + 1]) && is_hex(s[i + 2])
    &&& forall|i: int| 0 <= i < s.len() && #[trigger] s[i] == '\r' ==> i + 1 < s.len() && s[i + 1] == '\n'
}

/// Cutting before position `k` splits neither an escape nor a CR LF pair.
pub open spec fn cut_ok(s: Seq<char>, k: int) -> bool {
    0 < k < s.len() ==> s[k - 1] != '=' && s[k - 1] != '\r' && !(k >= 2 && s[k - 2] == '=')
}

/// Every `=` starts an escape or a soft line break.
pub open spec fn marks_whole(s: Seq<char>) -> bool {
    forall|i: int|
        0 <= i < s.len() && #[trigger] s[i] == '=' ==> i + 2 < s.len() && ((is_hex(s[i + 1]) && is_hex(
            s[i + 2],
        )) || (s[i + 1] == '\r' && s[i + 2] == '\n'))
}

proof fn lemma_tokens_shaped(s: Seq<char>)
    requires
        qp_tokens(s),
    ensures
        escape_shaped(s),
    decreases s.len(),
{
    if s.len() > 0 {
        let k: int = if s[0] == '=' {
            3
        } else if s[0] == '\r' {
            2
        } else {
            1
        };
        let t = s.skip(k);
        lemma_tokens_shaped(t);
        lemma_hex_char(0);
        assert forall|i: int| 0 <= i < s.len() && #[trigger] s[i] == '=' implies i + 2 < s.len() && is_hex(
            s[i + 1],
        ) && is_hex(s[i + 2]) by {
            if i >= k {
                assert(s[i] == t[i - k]);
                assert(t[i - k] == '=');
                assert(s[i + 1] == t[i - k + 1]);
                assert(s[i + 2] == t[i - k + 2]);
            } else if s[0] == '=' {
                assert(is_hex(s[1]) && is_hex(s[2]));
            }
        }
        assert forall|i: int| 0 <= i < s.len() && #[trigger] s[i] == '\r' implies i + 1 < s.len() && s[i + 1]
            == '\n' by {
            if i >= k {
                assert(s[i] == t[i - k]);
                assert(t[i - k] == '\r');
                assert(s[i + 1] == t[i - k + 1]);
            } else if s[0] == '=' {
                assert(is_hex(s[1]) && is_hex(s[2]));
            }
        }
    }
}

proof fn lemma_crlf_none(l: Seq<char>, i: int)
    requires
        0 <= i,
        crlf_from(l, i) is None,
    ensures
        forall|j: int| i <= j && j + 1 < l.len() ==> !(#[trigger] l[j] == '\r' && l[j + 1] == '\n'),
    decreases l.len() - i,
{
    if i + 1 < l.len() {
        lemma_crlf_none(l, i + 1);
    }
}

proof fn lemma_strip_cut(y: Seq<char>, w: int, n: int, remaining: int)
    requires
        escape_shaped(y),
        0 <= n <= w <= y.len(),
        cut_ok(y, n),
    ensures
        cut_ok(y, strip_escapes(y.take(w), n, remaining)),
    decreases n,
{
    let l = y.take(w);
    if n > 3 && n < remaining && !only_escapes(l, n) && ends_with_escape(l, n) {
        assert(l[n - 3] == y[n - 3]);
        assert(y[n - 3] == '=');
        assert(cut_ok(y, n - 3));
        let code = escape_value_at(l, n);
        if code >= 0x80 && code < 0xC0 {
            lemma_strip_cut(y, w, n - 3, remaining);
        }
    }
}

/// Every line `soft_cut` takes ends between escapes and line breaks.
proof fn lemma_soft_cut_ok(y: Seq<char>)
    requires
        escape_shaped(y),
    ensures
        cut_ok(y, soft_cut(y).0),
{
    lemma_soft_cut_bounds(y);
    let len = y.len() as int;
    let width = if len < 76 {
        len
    } else {
        76
    };
    let line = y.take(width);
    lemma_crlf_bounds(line, 0);
    let m = if width < 25 {
        width
    } else {
        25
    };
    let tail = line.skip(width - m);
    lemma_last_match_bounds(tail, m, false);
    lemma_last_match_bounds(tail, m, true);
    let n = soft_cut(y).0;
    if 0 < n < len {
        match crlf_from(line, 0) {
            Some(at) => {
                assert(y[n - 1] == line[at + 1]);
                assert(y[n - 2] == line[at]);
            },
            None => {
                lemma_crlf_none(line, 0);
                if width > 0 && line[width - 1] == '\n' {
                    assert(y[n - 1] == '\n');
                } else {
                    match last_match(tail, m, false) {
                        Some(at) => {
                            assert(y[n - 1] == tail[at]);
                        },
                        None => {
                            let separator = if width > 51 {
                                last_match(tail, m, true)
                            } else {
                                None
                            };
                            let pw = partial_width(line, width);
                            let n2 = match separator {
                                Some(at) => width - (m - at - 1),
                                None => if width > 0 && line[width - 1] == '\r' {
                                    width - 1
                                } else {
                                    keep_whole(line, len)
                                },
                            };
                            match separator {
                                Some(at) => {
                                    assert(y[n2 - 1] == tail[at]);
                                    assert(is_separator(y[n2 - 1]));
                                },
                                None => if width > 0 && line[width - 1] == '\r' {
                                    assert(y[width - 1] == '\r');
                                } else {
                                    if pw == 0 && !ends_with_escape(line, width) {
                                        assert(line[width - 1] == y[width - 1]);
                                        if width >= 2 {
                                            assert(line[width - 2] == y[width - 2]);
                                        }
                                    } else {
                                        let n0 = width - pw;
                                        assert(line[width - 1] == y[width - 1]);
                                        if width >= 2 {
                                            assert(line[width - 2] == y[width - 2]);
                                        }
                                        if width >= 3 {
                                            assert(line[width - 3] == y[width - 3]);
                                        }
                                        assert(cut_ok(y, n0));
                                        lemma_strip_cut(y, width, n0, len);
                                    }
                                },
                            }
                            assert(cut_ok(y, n2));
                            if n2 < len && !(n2 > 0 && line[n2 - 1] == '\n') && n2 == 76 {
                                if ends_with_escape(line, n2) {
                                    assert(y[73] == line[73]);
                                } else {
                                    assert(y[74] == line[74]);
                                    assert(y[75] == line[75]);
                                    assert(y[73] == line[73]);
                                }
                            }
                        },
                    }
                }
            },
        }
    }
}

proof fn lemma_marks_concat(a: Seq<char>, b: Seq<char>)
    requires
        marks_whole(a),
        marks_whole(b),
    ensures
        marks_whole(a + b),
{
    let z = a + b;
    assert forall|i: int| 0 <= i < z.len() && #[trigger] z[i] == '=' implies i + 2 < z.len() && ((is_hex(z[i + 1])
        && is_hex(z[i + 2])) || (z[i + 1] == '\r' && z[i + 2] == '\n')) by {
        if i < a.len() {
            assert(z[i] == a[i]);
            assert(z[i + 1] == a[i + 1]);
            assert(z[i + 2] == a[i + 2]);
        } else {
            assert(z[i] == b[i - a.len()]);
            assert(z[i + 1] == b[i + 1 - a.len()]);
            assert(z[i + 2] == b[i + 2 - a.len()]);
        }
    }
}

proof fn lemma_soft_break_marks(y: Seq<char>)
    requires
        escape_shaped(y),
        !ends_partial(y),
    ensures
        marks_whole(soft_break_spec(y)),
    decreases y.len(),
{
    if y.len() > 0 {
        lemma_soft_cut_progress(y);
        lemma_soft_cut_ok(y);
        let (n, soft) = soft_cut(y);
        let rest = y.skip(n);
        let head = y.take(n);
        if rest.len() > 0 {
            assert(rest.last() == y.last());
            if rest.len() >= 2 {
                assert(rest[rest.len() - 2] == y[y.len() - 2]);
            }
        }
        assert forall|i: int| 0 <= i < rest.len() && #[trigger] rest[i] == '=' implies i + 2 < rest.len() && is_hex(
            rest[i + 1],
        ) && is_hex(rest[i + 2]) by {
            assert(rest[i] == y[i + n]);
            assert(y[i + n] == '=');
            assert(rest[i + 1] == y[i + n + 1]);
            assert(rest[i + 2] == y[i + n + 2]);
        }
        assert forall|i: int| 0 <= i < rest.len() && #[trigger] rest[i] == '\r' implies i + 1 < rest.len() && rest[i
            + 1] == '\n' by {
            assert(rest[i] == y[i + n]);
            assert(y[i + n] == '\r');
            assert(rest[i + 1] == y[i + n + 1]);
        }
        lemma_soft_break_marks(rest);
        assert forall|i: int| 0 <= i < head.len() && #[trigger] head[i] == '=' implies i + 2 < head.len() && ((
        is_hex(head[i + 1]) && is_hex(head[i + 2])) || (head[i + 1] == '\r' && head[i + 2] == '\n')) by {
            assert(y[i] == '=');
            assert(head[i + 1] == y[i + 1]);
            assert(head[i + 2] == y[i + 2]);
        }
        let mark = if soft {
            seq!['=', '\r', '\n']
        } else {
            seq![]
        };
        assert(marks_whole(mark));
        lemma_marks_concat(head, mark);
        lemma_marks_concat(head + mark, soft_break_spec(rest));
        assert(soft_break_spec(y) == (head + mark) + soft_break_spec(rest));
    }
}

/// Every `=` in quoted-printable text starts an escape of two hexadecimal
/// digits or a soft line break: no escape is ever split across lines.
pub proof fn lemma_encode_marks_whole(b: Seq<u8>)
    ensures
        marks_whole(encode_spec(b)),
{
    let x = escape_spec(b);
    lemma_escape_raw(b);
    lemma_normalise_tokens(x);
    let n = normalise_spec(x);
    lemma_trailing_blanks_tokens(n);
    let y = trailing_blanks_spec(n);
    lemma_tokens_end(y);
    lemma_tokens_shaped(y);
    lemma_soft_break_marks(y);
}

/// The text with every `=` CR LF deleted, left to right.
pub open spec fn delete_soft_breaks(s: Seq<char>) -> Seq<char>
    decreases s.len(),
{
    if s.len() == 0 {
        seq![]
    } else if s.len() >= 3 && s[0] == '=' && s[1] == '\r' && s[2] == '\n' {
        delete_soft_breaks(s.skip(3))
    } else {
        seq![s[0]] + delete_soft_breaks(s.skip(1))
    }
}

proof fn lemma_delete_is_remove(s: Seq<char>)
    requires
        marks_whole(s),
    ensures
        delete_soft_breaks(s) == remove_soft_breaks(s),
    decreases s.len(),
{
    if s.len() > 0 {
        let k: int = if s.len() >= 3 && s[0] == '=' && s[1] == '\r' && s[2] == '\n' {
            3
        } else {
            1
        };
        let t = s.skip(k);
        assert forall|i: int| 0 <= i < t.len() && #[trigger] t[i] == '=' implies i + 2 < t.len() && ((is_hex(t[i + 1])
            && is_hex(t[i + 2])) || (t[i + 1] == '\r' && t[i + 2] == '\n')) by {
            assert(t[i] == s[i + k]);
            assert(s[i + k] == '=');
            assert(t[i + 1] == s[i + k + 1]);
            assert(t[i + 2] == s[i + k + 2]);
        }
        lemma_delete_is_remove(t);
        if s[0] == '=' {
            assert(s.len() >= 3);
            lemma_hex_char(0);
        }
    }
}

/// Soft breaking the escaped, normalised text of any bytes only inserts
/// soft line breaks: deleting every `=` CR LF from what it writes gives back
/// exactly that text, no character dropped, moved or changed.
pub proof fn lemma_soft_break_deletes_back(b: Seq<u8>)
    ensures
        delete_soft_breaks(soft_break_spec(trailing_blanks_spec(normalise_spec(escape_spec(b)))))
            == trailing_blanks_spec(normalise_spec(escape_spec(b))),
{
    let x = escape_spec(b);
    lemma_escape_raw(b);
    lemma_normalise_tokens(x);
    let n = normalise_spec(x);
    lemma_trailing_blanks_tokens(n);
    let y = trailing_blanks_spec(n);
    lemma_tokens_end(y);
    lemma_tokens_shaped(y);
    lemma_soft_break_marks(y);
    lemma_delete_is_remove(soft_break_spec(y));
    lemma_soft_break_only_inserts(b);
}

/// Quoted-printable text, whatever the bytes: ASCII; lines separated by
/// CR LF alone, each at most seventy-six characters and none ending in a
/// blank; and every `=` the start of a two-digit escape or a soft break.
pub proof fn lemma_encode_shape(b: Seq<u8>)
    ensures
        ascii_text(encode_spec(b)),
        crlf_only(encode_spec(b)),
        forall|j: int|
            0 <= j <= encode_spec(b).len() && (j == encode_spec(b).len() || encode_spec(b)[j] == '\r')
                ==> #[trigger] run_before(encode_spec(b), j) <= 76,
        no_trailing_blank(encode_spec(b)),
        marks_whole(encode_spec(b)),
{
    lemma_encode_ascii(b);
    lemma_encode_lines(b);
    lemma_encode_no_trailing_blank(b);
    lemma_encode_marks_whole(b);
}

/// Bytes whose line endings are all CR LF already decode back unchanged.
pub proof fn lemma_crlf_bytes_fixed(b: Seq<u8>)
    requires
        forall|i: int| 0 <= i < b.len() && #[trigger] b[i] == 13 ==> i + 1 < b.len() && b[i + 1] == 10,
        forall|i: int| 0 <= i < b.len() && #[trigger] b[i] == 10 ==> i > 0 && b[i - 1] == 13,
    ensures
        crlf_bytes(b) == b,
    decreases b.len(),
{
    if b.len() > 0 {
        let k: int = if b[0] == 13 {
            2
        } else {
            1
        };
        let t = b.skip(k);
        assert forall|i: int| 0 <= i < t.len() && #[trigger] t[i] == 13 implies i + 1 < t.len() && t[i + 1]
            == 10 by {
            assert(t[i] == b[i + k]);
            assert(b[i + k] == 13);
            assert(t[i + 1] == b[i + k + 1]);
        }
        assert forall|i: int| 0 <= i < t.len() && #[trigger] t[i] == 10 implies i > 0 && t[i - 1] == 13 by {
            assert(t[i] == b[i + k]);
            assert(b[i + k] == 10);
            if i == 0 && k == 2 {
                // b[1] is the 10 after the leading 13, so b[2] cannot be a 10
                // that follows a 13.
                assert(b[1] == 10 && b[2] == 10);
            } else if i > 0 {
                assert(t[i - 1] == b[i + k - 1]);
            }
        }
        lemma_crlf_bytes_fixed(t);
        assert(b =~= b.take(k) + t);
    }
}

/// How many characters other than a line feed run up to position `j`: the
/// length of the line `j` is in, so far.
pub open spec fn run_before(s: Seq<char>, j: int) -> nat
    decreases j,
{
    if j <= 0 || s[j - 1] == '\n' {
        0
    } else {
        1 + run_before(s, j - 1)
    }
}

proof fn lemma_run_bound(s: Seq<char>, j: int)
    requires
        0 <= j,
    ensures
        run_before(s, j) <= j,
    decreases j,
{
    if j > 0 && s[j - 1] != '\n' {
        lemma_run_bound(s, j - 1);
    }
}

/// Runs in a prefix are the prefix's own; past a prefix that ends in a line
/// feed, they are the rest's.
proof fn lemma_run_concat(a: Seq<char>, b: Seq<char>, j: int)
    requires
        0 <= j <= a.len() + b.len(),
    ensures
        j <= a.len() ==> run_before(a + b, j) == run_before(a, j),
        j > a.len() && a.len() > 0 && a.last() == '\n' ==> run_before(a + b, j) == run_before(b, j - a.len()),
    decreases j,
{
    if j > 0 {
        lemma_run_concat(a, b, j - 1);
        if j <= a.len() {
            assert((a + b)[j - 1] == a[j - 1]);
        } else if a.len() > 0 && a.last() == '\n' {
            assert((a + b)[j - 1] == b[j - a.len() - 1]);
            if j == a.len() + 1 {
                assert(run_before(a, a.len() as int) == 0);
                assert(run_before(b, 0) == 0);
            }
        }
    }
}

/// One line of output is at most seventy-eight characters and ends in a line
/// feed, unless it is the end of the text and at most seventy-six.
proof fn lemma_piece_shape(rest: Seq<char>)
    requires
        rest.len() > 0,
    ensures
        soft_piece(rest).len() <= 78,
        (soft_piece(rest).len() > 0 && soft_piece(rest).last() == '\n') || (soft_cut(rest).0 >= rest.len()
            && soft_piece(rest).len() <= 76),
        soft_cut(rest).1 ==> soft_cut(rest).0 <= 75,
        !soft_cut(rest).1 ==> soft_piece(rest).len() <= 76,
{
    let len = rest.len() as int;
    let width = if len < 76 {
        len
    } else {
        76
    };
    let line = rest.take(width);
    lemma_crlf_bounds(line, 0);
    let m = if width < 25 {
        width
    } else {
        25
    };
    let tail = line.skip(width - m);
    lemma_last_match_bounds(tail, m, false);
    lemma_last_match_bounds(tail, m, true);
    let n = line.len() as int;
    let pw = partial_width(line, n);
    lemma_strip_bounds(line, n - pw, len);
    let (cut, soft) = soft_cut(rest);
    let piece = soft_piece(rest);
    match crlf_from(line, 0) {
        Some(at) => {
            assert(cut == at + 2 && !soft);
            assert(piece == rest.take(cut));
            assert(piece.last() == line[at + 1]);
            assert(piece.len() > 0 && piece.last() == '\n');
        },
        None => {
            if width > 0 && line[width - 1] == '\n' {
                assert(cut == width && !soft);
                assert(piece == rest.take(cut));
                assert(piece.last() == line[width - 1]);
                assert(piece.len() > 0 && piece.last() == '\n');
            } else {
                match last_match(tail, m, false) {
                    Some(at) => {
                        assert(cut == width - (m - at - 1) && !soft);
                        assert(piece == rest.take(cut));
                        assert(piece.last() == tail[at]);
                        assert(piece.len() > 0 && piece.last() == '\n');
                    },
                    None => {
                        assert(0 <= cut <= width);
                        if soft {
                            assert(piece == rest.take(cut) + seq!['=', '\r', '\n']);
                            assert(cut <= 75);
                            assert(piece.last() == '\n');
                        } else {
                            assert(piece == rest.take(cut));
                            if cut < len {
                                assert(cut > 0 && line[cut - 1] == '\n');
                                assert(piece.last() == line[cut - 1]);
                                assert(piece.len() > 0 && piece.last() == '\n');
                            } else {
                                assert(piece.len() <= 76);
                            }
                        }
                    },
                }
            }
        },
    }
}

/// Where a line of soft-broken text ends, before a carriage return or at
/// the end, it holds at most seventy-six characters.
proof fn lemma_soft_break_line_ends(rest: Seq<char>, j: int)
    requires
        0 <= j <= soft_break_spec(rest).len(),
        j == soft_break_spec(rest).len() || soft_break_spec(rest)[j] == '\r',
    ensures
        run_before(soft_break_spec(rest), j) <= 76,
    decreases rest.len(),
{
    let out = soft_break_spec(rest);
    if rest.len() > 0 {
        lemma_piece_shape(rest);
        lemma_soft_cut_bounds(rest);
        let piece = soft_piece(rest);
        let (n, soft) = soft_cut(rest);
        let more = if 0 < n <= rest.len() {
            soft_break_spec(rest.skip(n))
        } else {
            Seq::<char>::empty()
        };
        assert(out == piece + more);
        lemma_run_concat(piece, more, j);
        if j <= piece.len() {
            if soft {
                assert(piece == rest.take(n) + seq!['=', '\r', '\n']);
                assert(rest.take(n).len() == n);
                assert(piece.len() == n + 3);
                assert(piece[n + 2] == '\n');
                if j <= n + 1 {
                    lemma_run_bound(piece, j);
                } else if j == n + 2 {
                    assert(out[j] == piece[j]);
                    assert(piece[j] == '\n');
                } else {
                    assert(run_before(piece, j) == 0);
                }
            } else {
                lemma_run_bound(piece, j);
            }
        } else {
            if !(piece.len() > 0 && piece.last() == '\n') {
                assert(rest.skip(n).len() == 0);
                assert(more.len() == 0);
            }
            if j < out.len() {
                assert(out[j] == more[j - piece.len()]);
            }
            lemma_soft_break_line_ends(rest.skip(n), j - piece.len());
        }
    }
}

/// Every line feed follows a carriage return, and every carriage return is
/// followed by a line feed: the text's lines are separated by CR LF alone.
pub open spec fn crlf_only(s: Seq<char>) -> bool {
    &&& forall|i: int| 0 <= i < s.len() && #[trigger] s[i] == '\n' ==> i > 0 && s[i - 1] == '\r'
    &&& forall|i: int| 0 <= i < s.len() && #[trigger] s[i] == '\r' ==> i + 1 < s.len() && s[i + 1] == '\n'
}

proof fn lemma_tokens_crlf(s: Seq<char>)
    requires
        qp_tokens(s),
    ensures
        crlf_only(s),
    decreases s.len(),
{
    lemma_tokens_shaped(s);
    if s.len() > 0 {
        let k: int = if s[0] == '=' {
            3
        } else if s[0] == '\r' {
            2
        } else {
            1
        };
        let t = s.skip(k);
        lemma_tokens_crlf(t);
        lemma_hex_char(0);
        assert forall|i: int| 0 <= i < s.len() && #[trigger] s[i] == '\n' implies i > 0 && s[i - 1] == '\r' by {
            if i >= k {
                assert(s[i] == t[i - k]);
                assert(t[i - k] == '\n');
                if i > k {
                    assert(s[i - 1] == t[i - k - 1]);
                } else {
                    assert(t[0] == '\n');
                    assert(false);
                }
            } else if s[0] == '=' {
                assert(is_hex(s[1]) && is_hex(s[2]));
            }
        }
    }
}

proof fn lemma_soft_break_crlf(y: Seq<char>)
    requires
        crlf_only(y),
        escape_shaped(y),
        !ends_partial(y),
    ensures
        crlf_only(soft_break_spec(y)),
    decreases y.len(),
{
    if y.len() > 0 {
        lemma_soft_cut_progress(y);
        lemma_soft_cut_ok(y);
        let (n, soft) = soft_cut(y);
        let rest = y.skip(n);
        let head = y.take(n);
        if rest.len() > 0 {
            assert(rest.last() == y.last());
            if rest.len() >= 2 {
                assert(rest[rest.len() - 2] == y[y.len() - 2]);
            }
            assert(rest[0] == y[n]);
        }
        assert forall|i: int| 0 <= i < rest.len() && #[trigger] rest[i] == '=' implies i + 2 < rest.len() && is_hex(
            rest[i + 1],
        ) && is_hex(rest[i + 2]) by {
            assert(rest[i] == y[i + n]);
            assert(y[i + n] == '=');
            assert(rest[i + 1] == y[i + n + 1]);
            assert(rest[i + 2] == y[i + n + 2]);
        }
        assert forall|i: int| 0 <= i < rest.len() && #[trigger] rest[i] == '\r' implies i + 1 < rest.len() && rest[i
            + 1] == '\n' by {
            assert(rest[i] == y[i + n]);
            assert(y[i + n] == '\r');
            assert(rest[i + 1] == y[i + n + 1]);
        }
        assert forall|i: int| 0 <= i < rest.len() && #[trigger] rest[i] == '\n' implies i > 0 && rest[i - 1] == '\r' by {
            assert(rest[i] == y[i + n]);
            assert(y[i + n] == '\n');
            if i == 0 {
                assert(y[n - 1] == '\r');
            } else {
                assert(rest[i - 1] == y[i + n - 1]);
            }
        }
        lemma_soft_break_crlf(rest);
        let t = soft_break_spec(rest);
        let mark = if soft {
            seq!['=', '\r', '\n']
        } else {
            seq![]
        };
        let piece = head + mark;
        let out = soft_break_spec(y);
        assert(out == piece + t);
        if rest.len() > 0 {
            lemma_soft_break_first(rest);
        }
        assert forall|i: int| 0 <= i < out.len() && #[trigger] out[i] == '\n' implies i > 0 && out[i - 1] == '\r' by {
            if i < head.len() {
                assert(out[i] == y[i]);
                assert(out[i - 1] == y[i - 1]);
            } else if i < piece.len() {
                assert(out[i] == mark[i - head.len()]);
                assert(out[i - 1] == piece[i - 1]);
            } else if i == piece.len() {
                assert(out[i] == t[0]);
                assert(t[0] == y[n]);
                assert(y[n - 1] == '\r');
                assert(false);
            } else {
                assert(out[i] == t[i - piece.len()]);
                assert(out[i - 1] == t[i - 1 - piece.len()]);
            }
        }
        assert forall|i: int| 0 <= i < out.len() && #[trigger] out[i] == '\r' implies i + 1 < out.len() && out[i
            + 1] == '\n' by {
            if i < head.len() {
                assert(out[i] == y[i]);
                if i + 1 < head.len() {
                    assert(out[i + 1] == y[i + 1]);
                } else {
                    assert(y[i + 1] == '\n');
                    assert(false);
                }
            } else if i < piece.len() {
                assert(out[i] == mark[i - head.len()]);
                assert(out[i + 1] == piece[i + 1]);
            } else {
                assert(out[i] == t[i - piece.len()]);
                assert(out[i + 1] == t[i + 1 - piece.len()]);
            }
        }
    }
}

/// The encoder's lines hold at most seventy-six characters each: lines are
/// separated by CR LF alone, and where one ends, before its carriage return
/// or at the end of the text, it has at most seventy-six characters since
/// the line feed before it.
pub proof fn lemma_encode_lines(b: Seq<u8>)
    ensures
        crlf_only(encode_spec(b)),
        forall|j: int|
            0 <= j <= encode_spec(b).len() && (j == encode_spec(b).len() || encode_spec(b)[j] == '\r')
                ==> #[trigger] run_before(encode_spec(b), j) <= 76,
{
    let x = escape_spec(b);
    lemma_escape_raw(b);
    lemma_normalise_tokens(x);
    let n = normalise_spec(x);
    lemma_trailing_blanks_tokens(n);
    let y = trailing_blanks_spec(n);
    lemma_tokens_end(y);
    lemma_tokens_shaped(y);
    lemma_tokens_crlf(y);
    lemma_soft_break_crlf(y);
    assert forall|j: int|
        0 <= j <= encode_spec(b).len() && (j == encode_spec(b).len() || encode_spec(b)[j] == '\r')
            implies #[trigger] run_before(encode_spec(b), j) <= 76 by {
        lemma_soft_break_line_ends(y, j);
    }
}

/// Encodes bytes as quoted-printable text.
pub struct ToQuotedPrintable {}

impl ToQuotedPrintable {
    /// Creates the quoted-printable encoding operation.
    pub fn new() -> Self {
        ToQuotedPrintable {  }
    }

    /// Encodes `input`, breaking lines at 76 characters.
    pub fn execute(&self, input: &[u8]) -> (s: String)
        ensures
            s@ == encode_spec(input@),
    {
        encode(input)
    }
}

/// Decodes quoted-printable text.
pub struct FromQuotedPrintable {}

impl FromQuotedPrintable {
    /// Creates the quoted-printable decoding operation.
    pub fn new() -> Self {
        FromQuotedPrintable {  }
    }

    /// Decodes `input` into the bytes it represents.
    pub fn execute(&self, input: &str) -> (r: Result<Vec<u8>, OperationError>)
        ensures
            match r {
                Ok(v) => decode_spec(input@) == Ok::<Seq<u8>, OperationError>(v@),
                Err(e) => decode_spec(input@) == Err::<Seq<u8>, OperationError>(e),
            },
    {
        decode(input)
    }
}

} // verus!
