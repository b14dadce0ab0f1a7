//! Reshaping text: ANSI sequences, HTTP framing and line wrapping.

use vstd::prelude::*;

use crate::error::OperationError;
use crate::strings::{
    find_from, hex_char_value, hex_number, hex_run, is_hex, is_hex_char, join, join_spec, lemma_find_bounds,
    lemma_hex_run, lemma_hex_run_len, split, split_nonempty, split_spec,
};
use vstd::utf8::{decode_utf8, encode_utf8, is_char_boundary, valid_utf8};
use crate::text::{chars_of, is_whitespace, string_of, utf8_text, whitespace};

verus! {

/// A parameter byte of a control sequence, `0`-`?`.
pub open spec fn is_parameter(c: char) -> bool {
    '\u{30}' <= c && c <= '\u{3f}'
}

/// An intermediate byte of a control sequence, space to `/`.
pub open spec fn is_intermediate(c: char) -> bool {
    '\u{20}' <= c && c <= '\u{2f}'
}

/// The final byte of a control sequence, `@`-`~`.
pub open spec fn is_final(c: char) -> bool {
    '\u{40}' <= c && c <= '\u{7e}'
}

/// The first index at or after `i` that is not a parameter byte.
pub open spec fn skip_parameters(s: Seq<char>, i: int) -> int
    decreases s.len() - i,
{
    if i < 0 || i >= s.len() || !is_parameter(s[i]) {
        i
    } else {
        skip_parameters(s, i + 1)
    }
}

/// The first index at or after `i` that is not an intermediate byte.
pub open spec fn skip_intermediates(s: Seq<char>, i: int) -> int
    decreases s.len() - i,
{
    if i < 0 || i >= s.len() || !is_intermediate(s[i]) {
        i
    } else {
        skip_intermediates(s, i + 1)
    }
}

pub proof fn lemma_skips(s: Seq<char>, i: int)
    requires
        0 <= i,
    ensures
        i <= skip_parameters(s, i),
        i <= skip_intermediates(s, i),
        i <= s.len() ==> skip_parameters(s, i) <= s.len(),
        i <= s.len() ==> skip_intermediates(s, i) <= s.len(),
    decreases s.len() - i,
{
    if i < s.len() {
        lemma_skips(s, i + 1);
    }
}

/// The text from `i` on with every complete `ESC [ parameters intermediates
/// final` sequence removed; an incomplete one stays.
pub open spec fn remove_ansi_from(s: Seq<char>, i: int) -> Seq<char>
    decreases s.len() - i,
{
    if i < 0 || i >= s.len() {
        seq![]
    } else if s[i] != '\u{1b}' || i + 1 >= s.len() || s[i + 1] != '[' {
        seq![s[i]] + remove_ansi_from(s, i + 1)
    } else {
        let c = skip_intermediates(s, skip_parameters(s, i + 2));
        proof {
            lemma_skips(s, i + 2);
            lemma_skips(s, skip_parameters(s, i + 2));
        }
        if c < s.len() && is_final(s[c]) {
            remove_ansi_from(s, c + 1)
        } else {
            seq![s[i]] + remove_ansi_from(s, i + 1)
        }
    }
}

/// Removes ANSI control sequences.
pub fn remove_ansi(input: &str) -> (r: String)
    ensures
        r@ == remove_ansi_from(input@, 0),
{
    let characters = chars_of(input);
    let mut output: Vec<char> = Vec::new();
    let mut index: usize = 0;
    while index < characters.len()
        invariant
            index <= characters.len(),
            characters@ == input@,
            remove_ansi_from(input@, 0) == output@ + remove_ansi_from(input@, index as int),
        decreases characters.len() - index,
    {
        if characters[index] != '\u{1b}' || index + 1 >= characters.len() || characters[index + 1] != '[' {
            let ghost before = output@;
            output.push(characters[index]);
            assert(before + (seq![characters@[index as int]] + remove_ansi_from(input@, index + 1)) == output@
                + remove_ansi_from(input@, index + 1));
            index = index + 1;
            continue;
        }
        let mut cursor = index + 2;
        while cursor < characters.len() && '\u{30}' <= characters[cursor] && characters[cursor] <= '\u{3f}'
            invariant
                index + 2 <= cursor <= characters.len(),
                characters@ == input@,
                skip_parameters(input@, index + 2) == skip_parameters(input@, cursor as int),
            decreases characters.len() - cursor,
        {
            cursor = cursor + 1;
        }
        let ghost after_parameters = cursor as int;
        while cursor < characters.len() && '\u{20}' <= characters[cursor] && characters[cursor] <= '\u{2f}'
            invariant
                after_parameters <= cursor <= characters.len(),
                characters@ == input@,
                skip_intermediates(input@, after_parameters) == skip_intermediates(input@, cursor as int),
            decreases characters.len() - cursor,
        {
            cursor = cursor + 1;
        }
        if cursor < characters.len() && '\u{40}' <= characters[cursor] && characters[cursor] <= '\u{7e}' {
            index = cursor + 1;
        } else {
            let ghost before = output@;
            output.push(characters[index]);
            assert(before + (seq![characters@[index as int]] + remove_ansi_from(input@, index + 1)) == output@
                + remove_ansi_from(input@, index + 1));
            index = index + 1;
        }
    }
    assert(output@ + Seq::<char>::empty() == output@);
    string_of(&output)
}

/// Everything after the first blank line: a CRLF pair is looked for first,
/// then a bare LF pair; with neither, the input is kept whole.
pub open spec fn strip_headers_spec(s: Seq<char>) -> Seq<char> {
    match find_from(s, seq!['\r', '\n', '\r', '\n'], 0) {
        Some(k) => s.skip(k + 4),
        None => match find_from(s, seq!['\n', '\n'], 0) {
            Some(k) => s.skip(k + 2),
            None => s,
        },
    }
}

/// Drops everything up to and including the first blank line.
pub fn strip_http_headers(input: &str) -> (r: String)
    ensures
        r@ == strip_headers_spec(input@),
{
    let s = chars_of(input);
    let crlf: Vec<char> = vec!['\r', '\n', '\r', '\n'];
    let lf: Vec<char> = vec!['\n', '\n'];
    proof {
        lemma_find_bounds(s@, crlf@, 0);
        lemma_find_bounds(s@, lf@, 0);
    }
    let start: usize = match crate::strings::find(&s, &crlf, 0) {
        Some(k) => k + 4,
        None => match crate::strings::find(&s, &lf, 0) {
            Some(k) => k + 2,
            None => 0,
        },
    };
    let mut out: Vec<char> = Vec::new();
    let mut i = start;
    while i < s.len()
        invariant
            start <= i <= s.len(),
            out@ == s@.subrange(start as int, i as int),
        decreases s.len() - i,
    {
        out.push(s[i]);
        i = i + 1;
    }
    assert(s@.subrange(start as int, s.len() as int) == s@.skip(start as int));
    assert(s@.skip(0) == s@);
    string_of(&out)
}

/// A line cut into pieces of at most `width` characters; an empty line gives
/// no piece.
pub open spec fn chunks_of(line: Seq<char>, width: nat) -> Seq<Seq<char>>
    decreases line.len(),
{
    if line.len() == 0 || width == 0 {
        seq![]
    } else if line.len() <= width {
        seq![line]
    } else {
        seq![line.take(width as int)] + chunks_of(line.skip(width as int), width)
    }
}

/// The pieces of every line, in order.
pub open spec fn wrap_pieces(lines: Seq<Seq<char>>, width: nat) -> Seq<Seq<char>>
    decreases lines.len(),
{
    if lines.len() == 0 {
        seq![]
    } else {
        wrap_pieces(lines.drop_last(), width) + chunks_of(lines.last(), width)
    }
}

/// What `wrap` answers: the lines broken into pieces of at most `width`
/// characters, empty lines dropped, joined with line feeds.
pub open spec fn wrap_spec(input: Seq<char>, width: nat) -> Seq<char> {
    if input.len() == 0 {
        seq![]
    } else {
        join_spec(wrap_pieces(split_spec(input, seq!['\n']), width), seq!['\n'])
    }
}

/// The pieces of one line.
fn chunk_line(pieces: &mut Vec<Vec<char>>, line: &Vec<char>, width: usize)
    requires
        width >= 1,
    ensures
        final(pieces)@.map_values(|v: Vec<char>| v@) == old(pieces)@.map_values(|v: Vec<char>| v@) + chunks_of(
            line@,
            width as nat,
        ),
{
    let ghost start_view = pieces@.map_values(|v: Vec<char>| v@);
    let mut start: usize = 0;
    assert(line@.skip(0) == line@);
    while start < line.len()
        invariant
            width >= 1,
            start <= line.len(),
            start_view + chunks_of(line@, width as nat) == pieces@.map_values(|v: Vec<char>| v@) + chunks_of(
                line@.skip(start as int),
                width as nat,
            ),
        decreases line.len() - start,
    {
        let ghost rest = line@.skip(start as int);
        let end: usize = if line.len() - start <= width {
            line.len()
        } else {
            start + width
        };
        let mut piece: Vec<char> = Vec::new();
        let mut i = start;
        while i < end
            invariant
                start <= i <= end <= line.len(),
                piece@ == line@.subrange(start as int, i as int),
            decreases end - i,
        {
            piece.push(line[i]);
            i = i + 1;
        }
        let ghost before = pieces@.map_values(|v: Vec<char>| v@);
        pieces.push(piece);
        proof {
            assert(pieces@.map_values(|v: Vec<char>| v@) == before.push(line@.subrange(start as int, end as int)));
            let p = line@.subrange(start as int, end as int);
            if line.len() - start <= width {
                assert(rest == p);
                assert(line@.skip(end as int) == Seq::<char>::empty());
                assert(chunks_of(rest, width as nat) == seq![p]);
                assert(before + seq![p] == before.push(p) + Seq::<Seq<char>>::empty());
            } else {
                assert(rest.take(width as int) == p);
                assert(rest.skip(width as int) == line@.skip(end as int));
                assert(before + (seq![p] + chunks_of(line@.skip(end as int), width as nat)) == before.push(p)
                    + chunks_of(line@.skip(end as int), width as nat));
            }
        }
        start = end;
    }
    assert(line@.skip(start as int) == Seq::<char>::empty());
    assert(pieces@.map_values(|v: Vec<char>| v@) + Seq::<Seq<char>>::empty() == pieces@.map_values(
        |v: Vec<char>| v@,
    ));
}

/// Breaks the input into lines of at most `width` characters. Line feeds in
/// the input only separate lines: empty lines vanish.
pub fn wrap(input: &str, width: usize) -> (r: String)
    requires
        width >= 1,
    ensures
        r@ == wrap_spec(input@, width as nat),
{
    let text = chars_of(input);
    if text.len() == 0 {
        return string_of(&text);
    }
    let nl: Vec<char> = vec!['\n'];
    assert(nl@ == seq!['\n']);
    let lines = split(&text, &nl);
    let ghost lv = split_spec(text@, nl@);
    let mut pieces: Vec<Vec<char>> = Vec::new();
    let mut k: usize = 0;
    while k < lines.len()
        invariant
            width >= 1,
            k <= lines.len(),
            lines@.len() == lv.len(),
            forall|x: int| 0 <= x < lines@.len() ==> #[trigger] lines@[x]@ == lv[x],
            pieces@.map_values(|v: Vec<char>| v@) == wrap_pieces(lv.take(k as int), width as nat),
        decreases lines.len() - k,
    {
        chunk_line(&mut pieces, &lines[k], width);
        proof {
            assert(lv.take(k + 1).drop_last() == lv.take(k as int));
            assert(lv.take(k + 1).last() == lines@[k as int]@);
        }
        k = k + 1;
    }
    assert(lv.take(lines.len() as int) == lv);
    let joined = join(&pieces, &nl);
    string_of(&joined)
}


// ---------------------------------------------------------------------------
// Chunked transfer encoding.

/// How many whitespace characters start the text.
pub open spec fn leading_whitespace(s: Seq<char>) -> nat
    decreases s.len(),
{
    if s.len() == 0 || !is_whitespace(s[0]) {
        0
    } else {
        1 + leading_whitespace(s.skip(1))
    }
}

/// A chunk size line read as `parseInt(line, 16)`: leading whitespace
/// skipped, then the longest run of hex digits; nothing without a digit or
/// when the value does not fit in a `usize`.
pub open spec fn chunk_size_spec(line: Seq<char>) -> Option<usize> {
    let t = line.skip(leading_whitespace(line) as int);
    let n = hex_run(t, t.len());
    if n == 0 || hex_number(t, n) > usize::MAX {
        None
    } else {
        Some(hex_number(t, n) as usize)
    }
}

proof fn lemma_leading_whitespace(s: Seq<char>)
    ensures
        leading_whitespace(s) <= s.len(),
    decreases s.len(),
{
    if s.len() > 0 && is_whitespace(s[0]) {
        lemma_leading_whitespace(s.skip(1));
    }
}

proof fn lemma_hex_number_grows(s: Seq<char>, j: nat, n: nat)
    requires
        j <= n,
    ensures
        hex_number(s, j) <= hex_number(s, n),
    decreases n - j,
{
    if j < n {
        lemma_hex_number_grows(s, j, (n - 1) as nat);
    }
}

/// A chunk size, or `None` where `parseInt` would give `NaN`.
pub fn chunk_size(line: &Vec<char>) -> (r: Option<usize>)
    ensures
        r == chunk_size_spec(line@),
{
    let mut i: usize = 0;
    assert(line@.skip(0) == line@);
    while i < line.len() && whitespace(line[i])
        invariant
            i <= line.len(),
            leading_whitespace(line@) == i + leading_whitespace(line@.skip(i as int)),
        decreases line.len() - i,
    {
        assert(line@.skip(i as int).skip(1) == line@.skip(i + 1));
        i = i + 1;
    }
    let ghost t = line@.skip(i as int);
    assert(leading_whitespace(t) == 0);
    let ghost n = hex_run(t, t.len());
    let mut value: usize = 0;
    let mut j = i;
    while j < line.len() && is_hex_char(line[j])
        invariant
            i <= j <= line.len(),
            t == line@.skip(i as int),
            n == hex_run(t, t.len()),
            leading_whitespace(line@) == i,
            forall|k: int| 0 <= k < j - i ==> is_hex(#[trigger] t[k]),
            value == hex_number(t, (j - i) as nat),
        decreases line.len() - j,
    {
        assert(t[j - i] == line@[j as int]);
        let d = hex_char_value(line[j]);
        if value > (usize::MAX - d as usize) / 16 {
            proof {
                let m = (j - i + 1) as nat;
                assert(hex_number(t, m) == value * 16 + d);
                assert(value * 16 + d > usize::MAX) by (nonlinear_arith)
                    requires
                        value > (usize::MAX - d) / 16,
                        d < 16,
                ;
                lemma_hex_run_prefix(t, m);
                lemma_hex_number_grows(t, m, n);
            }
            return None;
        }
        value = value * 16 + d as usize;
        j = j + 1;
    }
    proof {
        if j < line.len() {
            assert(t[j - i] == line@[j as int]);
        }
        lemma_hex_run(t, t.len(), (j - i) as nat);
    }
    if j == i {
        return None;
    }
    Some(value)
}

proof fn lemma_hex_run_prefix(s: Seq<char>, m: nat)
    requires
        m <= s.len(),
        forall|k: int| 0 <= k < m ==> is_hex(#[trigger] s[k]),
    ensures
        m <= hex_run(s, s.len()),
    decreases m,
{
    if m > 0 {
        assert forall|k: int| 0 <= k < m - 1 implies is_hex(#[trigger] s.skip(1)[k]) by {
            assert(s.skip(1)[k] == s[k + 1]);
        }
        lemma_hex_run_prefix(s.skip(1), (m - 1) as nat);
        assert(s.skip(1).len() == s.len() - 1);
    }
}


/// The first position at or after `i` where `pat` occurs in `b`.
pub open spec fn find_bytes(b: Seq<u8>, pat: Seq<u8>, i: int) -> Option<int>
    decreases b.len() + 1 - i,
{
    if i < 0 || i + pat.len() > b.len() {
        None
    } else if b.subrange(i, i + pat.len()) == pat {
        Some(i)
    } else {
        find_bytes(b, pat, i + 1)
    }
}

proof fn lemma_find_bytes(b: Seq<u8>, pat: Seq<u8>, i: int)
    ensures
        find_bytes(b, pat, i) matches Some(k) ==> i <= k && k + pat.len() <= b.len() && b.subrange(
            k,
            k + pat.len(),
        ) == pat,
    decreases b.len() + 1 - i,
{
    if !(i < 0 || i + pat.len() > b.len()) && b.subrange(i, i + pat.len()) != pat {
        lemma_find_bytes(b, pat, i + 1);
    }
}

/// Just past the first occurrence of `pat`, or zero.
pub open spec fn line_end(b: Seq<u8>, pat: Seq<u8>) -> int {
    match find_bytes(b, pat, 0) {
        Some(i) => i + pat.len(),
        None => 0,
    }
}

/// The smaller of two numbers.
pub open spec fn min(a: int, b: int) -> int {
    if a <= b {
        a
    } else {
        b
    }
}

/// The chunks from the absolute offset `base` on, appended to `out`. The
/// size line is `size_end` bytes long; a missing, unreadable or zero size
/// ends the body, and a size past the end is cut to what is left. Nothing
/// when a cut would fall inside a character.
pub open spec fn dechunk_from(b: Seq<u8>, base: int, size_end: int, ending: Seq<u8>, out: Seq<u8>) -> Option<
    Seq<u8>,
>
    decreases b.len() - base,
{
    if base < 0 || base > b.len() || size_end < 0 || size_end > b.len() - base {
        Some(out)
    } else {
        let rem = b.skip(base);
        match chunk_size_spec(decode_utf8(rem.take(size_end))) {
            None => Some(out),
            Some(size) => if size == 0 {
                Some(out)
            } else {
                let end = min(size_end + size, rem.len() as int);
                let adv = min(size_end + size + ending.len(), rem.len() as int);
                if !is_char_boundary(b, base + end) || !is_char_boundary(b, base + adv) {
                    None
                } else if adv <= 0 {
                    Some(out + rem.subrange(size_end, end))
                } else {
                    dechunk_from(
                        b,
                        base + adv,
                        line_end(b.skip(base + adv), ending),
                        ending,
                        out + rem.subrange(size_end, end),
                    )
                }
            },
        }
    }
}

/// The line ending of the first size line: CRLF if it ends so, else LF.
pub open spec fn ending_of(b: Seq<u8>) -> Seq<u8> {
    let first = line_end(b, seq![0x0au8]);
    if first >= 2 && b[first - 2] == 0x0d && b[first - 1] == 0x0a {
        seq![0x0du8, 0x0a]
    } else {
        seq![0x0au8]
    }
}

/// What `dechunk` answers, over the UTF-8 of the text; nothing when a chunk
/// boundary would fall inside a character.
pub open spec fn dechunk_spec(input: Seq<char>) -> Option<Seq<char>> {
    let b = encode_utf8(input);
    match dechunk_from(b, 0, line_end(b, seq![0x0au8]), ending_of(b), seq![]) {
        None => None,
        Some(out) => Some(decode_utf8(out)),
    }
}

proof fn lemma_ascii_boundary(b: Seq<u8>, q: int)
    requires
        valid_utf8(b),
        0 <= q < b.len(),
        b[q] < 0x80,
    ensures
        is_char_boundary(b, q + 1),
{
    vstd::utf8::is_char_boundary_start_end_of_seq(b);
    if q + 1 < b.len() {
        vstd::utf8::is_char_boundary_iff_not_is_continuation_byte(b, q);
        vstd::utf8::valid_utf8_split(b, q);
        let t = b.subrange(q, b.len() as int);
        assert(t[0] == b[q]);
        assert(vstd::utf8::pop_first_scalar(t) == b.subrange(q + 1, b.len() as int));
        let u = b.subrange(q + 1, b.len() as int);
        assert(valid_utf8(u));
        assert(u[0] == b[q + 1]);
        vstd::utf8::is_char_boundary_iff_not_is_continuation_byte(b, q + 1);
    }
}

proof fn lemma_sub_valid(b: Seq<u8>, p: int, q: int)
    requires
        valid_utf8(b),
        0 <= p <= q <= b.len(),
        is_char_boundary(b, p),
        is_char_boundary(b, q),
    ensures
        valid_utf8(b.subrange(p, q)),
{
    vstd::utf8::valid_utf8_split(b, q);
    let c = b.subrange(0, q);
    if p == q {
        assert(b.subrange(p, q) == Seq::<u8>::empty());
    } else {
        vstd::utf8::is_char_boundary_iff_not_is_continuation_byte(b, p);
        assert(c[p] == b[p]);
        vstd::utf8::is_char_boundary_iff_not_is_continuation_byte(c, p);
        vstd::utf8::valid_utf8_split(c, p);
        assert(c.subrange(p, c.len() as int) == b.subrange(p, q));
    }
}

/// The first occurrence of `pat` in `b[from..]`, as an offset from `from`.
fn find_in(b: &[u8], from: usize, pat: &Vec<u8>) -> (r: Option<usize>)
    requires
        from <= b.len(),
    ensures
        match r {
            Some(k) => find_bytes(b@.skip(from as int), pat@, 0) == Some(k as int),
            None => find_bytes(b@.skip(from as int), pat@, 0) is None,
        },
{
    let ghost t = b@.skip(from as int);
    let mut i: usize = 0;
    while pat.len() <= b.len() - from - i
        invariant
            from <= b.len(),
            t.len() == b.len() - from,
            t == b@.skip(from as int),
            i <= t.len(),
            find_bytes(t, pat@, 0) == find_bytes(t, pat@, i as int),
        decreases t.len() - i,
    {
        let mut j: usize = 0;
        let mut same = true;
        while j < pat.len()
            invariant
                j <= pat.len(),
                i + pat.len() <= t.len(),
                t.len() == b.len() - from,
                t == b@.skip(from as int),
                same == (forall|k: int| 0 <= k < j ==> t[i + k] == pat@[k]),
            decreases pat.len() - j,
        {
            if b[from + i + j] != pat[j] {
                same = false;
            }
            j = j + 1;
        }
        if same {
            assert(t.subrange(i as int, i + pat.len()) =~= pat@);
            return Some(i);
        }
        assert(t.subrange(i as int, i + pat.len()) != pat@) by {
            let k = choose|k: int| 0 <= k < pat.len() && t[i + k] != pat@[k];
            assert(t.subrange(i as int, i + pat.len())[k] != pat@[k]);
        }
        i = i + 1;
    }
    None
}

/// The text of `b[lo..hi]`, a stretch of valid UTF-8.
fn text_of_bytes(b: &[u8], lo: usize, hi: usize) -> (r: Vec<char>)
    requires
        lo <= hi <= b.len(),
        valid_utf8(b@.subrange(lo as int, hi as int)),
    ensures
        r@ == decode_utf8(b@.subrange(lo as int, hi as int)),
{
    let mut v: Vec<u8> = Vec::new();
    let mut i = lo;
    while i < hi
        invariant
            lo <= i <= hi <= b.len(),
            v@ == b@.subrange(lo as int, i as int),
        decreases hi - i,
    {
        v.push(b[i]);
        i = i + 1;
    }
    match utf8_text(v) {
        Some(s) => chars_of(s.as_str()),
        None => Vec::new(),
    }
}

/// Reassembles a chunked body from its UTF-8 bytes; nothing when a chunk
/// boundary falls inside a character.
fn dechunk_bytes(b: &[u8]) -> (r: Option<Vec<u8>>)
    requires
        valid_utf8(b@),
    ensures
        match dechunk_from(b@, 0, line_end(b@, seq![0x0au8]), ending_of(b@), seq![]) {
            Some(out) => r matches Some(v) && v@ == out && valid_utf8(out),
            None => r is None,
        },
{
    let lf: Vec<u8> = vec![0x0au8];
    let crlf: Vec<u8> = vec![0x0du8, 0x0a];
    assert(lf@ == seq![0x0au8]);
    assert(crlf@ == seq![0x0du8, 0x0a]);
    assert(b@.skip(0) == b@);
    let first_found = find_in(b, 0, &lf);
    proof {
        lemma_find_bytes(b@, lf@, 0);
        vstd::utf8::is_char_boundary_start_end_of_seq(b@);
    }
    let first: usize = match first_found {
        Some(k) => k + 1,
        None => 0,
    };
    let ending: &Vec<u8> = if first >= 2 && b[first - 2] == 0x0d && b[first - 1] == 0x0a {
        &crlf
    } else {
        &lf
    };
    assert(ending@ == ending_of(b@));
    proof {
        if first > 0 {
            assert(b@.subrange(first - 1, first as int) == lf@);
            assert(b@[first - 1] == 0x0a);
            lemma_ascii_boundary(b@, first - 1);
        }
    }
    let ghost whole = dechunk_from(b@, 0, first as int, ending@, seq![]);
    let mut output: Vec<u8> = Vec::new();
    let mut base: usize = 0;
    let mut size_end: usize = first;
    loop
        invariant
            valid_utf8(b@),
            base <= b.len(),
            size_end <= b.len() - base,
            is_char_boundary(b@, base as int),
            is_char_boundary(b@, (base + size_end) as int),
            valid_utf8(output@),
            ending@ == ending_of(b@),
            ending@.len() >= 1,
            ending@.last() == 0x0a,
            whole == dechunk_from(b@, 0, line_end(b@, seq![0x0au8]), ending_of(b@), seq![]),
            whole == dechunk_from(b@, base as int, size_end as int, ending@, output@),
        decreases b.len() - base,
    {
        let ghost rem = b@.skip(base as int);
        proof {
            lemma_sub_valid(b@, base as int, (base + size_end) as int);
            assert(rem.take(size_end as int) == b@.subrange(base as int, (base + size_end) as int));
        }
        let line = text_of_bytes(b, base, base + size_end);
        let size = match chunk_size(&line) {
            Some(size) => size,
            None => {
                return Some(output);
            },
        };
        if size == 0 {
            return Some(output);
        }
        let rem_len = b.len() - base;
        let end: usize = if size <= rem_len - size_end {
            size_end + size
        } else {
            rem_len
        };
        let adv: usize = if size <= rem_len - size_end && ending.len() <= rem_len - size_end - size {
            size_end + size + ending.len()
        } else {
            rem_len
        };
        if !is_boundary(b, base + end) || !is_boundary(b, base + adv) {
            return None;
        }
        proof {
            lemma_sub_valid(b@, (base + size_end) as int, (base + end) as int);
            assert(rem.subrange(size_end as int, end as int) == b@.subrange(
                (base + size_end) as int,
                (base + end) as int,
            ));
            vstd::utf8::valid_utf8_concat(output@, rem.subrange(size_end as int, end as int));
            if rem_len == 0 {
                assert(size_end == 0);
                assert(line@ == Seq::<char>::empty());
            }
        }
        let mut k = base + size_end;
        let ghost before = output@;
        while k < base + end
            invariant
                base + size_end <= k <= base + end <= b.len(),
                output@ == before + b@.subrange((base + size_end) as int, k as int),
            decreases base + end - k,
        {
            output.push(b[k]);
            assert(b@.subrange((base + size_end) as int, k + 1) == b@.subrange(
                (base + size_end) as int,
                k as int,
            ).push(b@[k as int]));
            k = k + 1;
        }
        base = base + adv;
        let found = find_in(b, base, ending);
        proof {
            lemma_find_bytes(b@.skip(base as int), ending@, 0);
        }
        size_end = match found {
            Some(i) => i + ending.len(),
            None => 0,
        };
        proof {
            if size_end > 0 {
                let i = size_end - ending.len();
                assert(b@.skip(base as int).subrange(i as int, size_end as int) == ending@);
                assert(b@[base + size_end - 1] == b@.skip(base as int)[size_end - 1]);
                lemma_ascii_boundary(b@, base + size_end - 1);
            }
        }
    }
}

/// Whether `i` is a character boundary of the bytes.
fn is_boundary(b: &[u8], i: usize) -> (r: bool)
    requires
        valid_utf8(b@),
    ensures
        r == is_char_boundary(b@, i as int),
{
    proof {
        vstd::utf8::is_char_boundary_start_end_of_seq(b@);
    }
    if i == 0 || i == b.len() {
        return true;
    }
    if i > b.len() {
        proof {
            lemma_boundary_in_range(b@, i as int);
        }
        return false;
    }
    proof {
        vstd::utf8::is_char_boundary_iff_not_is_continuation_byte(b@, i as int);
    }
    !(0x80 <= b[i] && b[i] <= 0xbf)
}

proof fn lemma_boundary_in_range(b: Seq<u8>, i: int)
    requires
        valid_utf8(b),
        i > b.len(),
    ensures
        !is_char_boundary(b, i),
    decreases b.len(),
{
    if b.len() > 0 {
        assert(vstd::utf8::pop_first_scalar(b).len() < b.len());
        lemma_boundary_in_range(vstd::utf8::pop_first_scalar(b), i - vstd::utf8::length_of_first_scalar(b));
    }
}

/// Whether dechunking the text would cut a character in two.
pub fn dechunk_splits_character(input: &str) -> (r: bool)
    ensures
        r == (dechunk_spec(input@) is None),
{
    let b = input.as_bytes();
    proof {
        vstd::utf8::encode_utf8_valid_utf8(input@);
    }
    dechunk_bytes(b).is_none()
}

/// Reassembles a chunked HTTP body. Sizes are hex, the line ending is taken
/// from the first size line, and a size past the end takes what is left.
pub fn dechunk(input: &str) -> (r: String)
    requires
        dechunk_spec(input@) is Some,
    ensures
        dechunk_spec(input@) == Some(r@),
{
    let b = input.as_bytes();
    proof {
        vstd::utf8::encode_utf8_valid_utf8(input@);
    }
    match dechunk_bytes(b) {
        Some(v) => match utf8_text(v) {
            Some(s) => s,
            None => String::new(),
        },
        None => String::new(),
    }
}


/// Removes ANSI control sequences.
pub struct RemoveAnsiEscapeCodes {}

impl RemoveAnsiEscapeCodes {
    /// Creates the ANSI-stripping operation.
    pub fn new() -> Self {
        RemoveAnsiEscapeCodes {  }
    }

    /// Strips every complete control sequence from `input`.
    pub fn execute(&self, input: &str) -> (r: String)
        ensures
            r@ == remove_ansi_from(input@, 0),
    {
        remove_ansi(input)
    }
}

/// Drops HTTP headers, keeping the body.
pub struct StripHttpHeaders {}

impl StripHttpHeaders {
    /// Creates the header-stripping operation.
    pub fn new() -> Self {
        StripHttpHeaders {  }
    }

    /// Keeps what follows the first blank line.
    pub fn execute(&self, input: &str) -> (r: String)
        ensures
            r@ == strip_headers_spec(input@),
    {
        strip_http_headers(input)
    }
}

/// Reassembles a chunked HTTP body.
pub struct DechunkHttpResponse {}

impl DechunkHttpResponse {
    /// Creates the dechunking operation.
    pub fn new() -> Self {
        DechunkHttpResponse {  }
    }

    /// Joins the chunks of `input`.
    pub fn execute(&self, input: &str) -> (r: String)
        requires
            dechunk_spec(input@) is Some,
        ensures
            dechunk_spec(input@) == Some(r@),
    {
        dechunk(input)
    }
}

/// Breaks the input into fixed-width lines.
pub struct Wrap {}

impl Wrap {
    /// Creates the wrapping operation.
    pub fn new() -> Self {
        Wrap {  }
    }

    /// Wraps at `line_width` characters, which must lie in 1 to 65536.
    pub fn execute(&self, input: &str, line_width: i128) -> (r: Result<String, OperationError>)
        ensures
            1 <= line_width <= 65536 ==> (r matches Ok(s) && s@ == wrap_spec(input@, line_width as nat)),
            !(1 <= line_width <= 65536) ==> r == Err::<String, OperationError>(OperationError::InvalidArguments),
    {
        if line_width < 1 || line_width > 65536 {
            return Err(OperationError::InvalidArguments);
        }
        Ok(wrap(input, line_width as usize))
    }
}


/// A line of output: between one and `width` characters, none a line feed.
pub open spec fn fits_line(piece: Seq<char>, width: nat) -> bool {
    1 <= piece.len() <= width && forall|x: int| 0 <= x < piece.len() ==> piece[x] != '\n'
}

/// No line feed at or after `i` before the one found.
proof fn lemma_find_newline(s: Seq<char>, i: int)
    requires
        0 <= i,
    ensures
        match find_from(s, seq!['\n'], i) {
            Some(k) => forall|x: int| i <= x < k ==> s[x] != '\n',
            None => forall|x: int| i <= x < s.len() ==> s[x] != '\n',
        },
    decreases s.len() + 1 - i,
{
    if i + 1 <= s.len() {
        if s.subrange(i, i + 1) != seq!['\n'] {
            assert(s[i] != '\n') by {
                if s[i] == '\n' {
                    assert(s.subrange(i, i + 1) =~= seq!['\n']);
                }
            }
            lemma_find_newline(s, i + 1);
        }
    }
}

/// The pieces of a split on line feeds hold no line feed.
proof fn lemma_split_lines(s: Seq<char>)
    ensures
        forall|p: int, x: int|
            0 <= p < split_nonempty(s, seq!['\n']).len() && 0 <= x < split_nonempty(s, seq!['\n'])[p].len()
                ==> #[trigger] split_nonempty(s, seq!['\n'])[p][x] != '\n',
    decreases s.len(),
{
    let d = seq!['\n'];
    lemma_find_newline(s, 0);
    lemma_find_bounds(s, d, 0);
    match find_from(s, d, 0) {
        Some(i) => {
            let rest = s.skip(i + 1);
            lemma_split_lines(rest);
            let all = split_nonempty(s, d);
            assert(all == seq![s.take(i)] + split_nonempty(rest, d));
            assert forall|p: int, x: int| 0 <= p < all.len() && 0 <= x < all[p].len() implies #[trigger] all[p][x]
                != '\n' by {
                if p > 0 {
                    assert(all[p] == split_nonempty(rest, d)[p - 1]);
                }
            }
        },
        None => {},
    }
}

/// The pieces of one line each fit, when the line holds no line feed.
proof fn lemma_chunks_fit(line: Seq<char>, width: nat)
    requires
        width >= 1,
        forall|x: int| 0 <= x < line.len() ==> line[x] != '\n',
    ensures
        forall|p: int| 0 <= p < chunks_of(line, width).len() ==> fits_line(#[trigger] chunks_of(line, width)[p], width),
    decreases line.len(),
{
    if line.len() > width {
        let rest = line.skip(width as int);
        lemma_chunks_fit(rest, width);
        let all = chunks_of(line, width);
        assert forall|p: int| 0 <= p < all.len() implies fits_line(#[trigger] all[p], width) by {
            if p > 0 {
                assert(all[p] == chunks_of(rest, width)[p - 1]);
            }
        }
    }
}

/// The pieces of every line each fit.
proof fn lemma_pieces_fit(lines: Seq<Seq<char>>, width: nat)
    requires
        width >= 1,
        forall|p: int, x: int| 0 <= p < lines.len() && 0 <= x < lines[p].len() ==> #[trigger] lines[p][x] != '\n',
    ensures
        forall|p: int| 0 <= p < wrap_pieces(lines, width).len() ==> fits_line(#[trigger] wrap_pieces(lines, width)[p], width),
    decreases lines.len(),
{
    if lines.len() > 0 {
        lemma_pieces_fit(lines.drop_last(), width);
        let last = lines.last();
        assert forall|x: int| 0 <= x < last.len() implies last[x] != '\n' by {
            assert(lines[lines.len() - 1][x] != '\n');
        }
        lemma_chunks_fit(last, width);
        let front = wrap_pieces(lines.drop_last(), width);
        let all = wrap_pieces(lines, width);
        assert forall|p: int| 0 <= p < all.len() implies fits_line(#[trigger] all[p], width) by {
            if p < front.len() {
                assert(all[p] == front[p]);
            } else {
                assert(all[p] == chunks_of(last, width)[p - front.len()]);
            }
        }
    }
}

/// What `Wrap` writes is lines of between one and `width` characters, none
/// holding a line feed, joined with line feeds.
pub proof fn lemma_wrap_lines(input: Seq<char>, width: nat)
    requires
        width >= 1,
    ensures
        wrap_spec(input, width) == if input.len() == 0 {
            Seq::<char>::empty()
        } else {
            join_spec(wrap_pieces(split_spec(input, seq!['\n']), width), seq!['\n'])
        },
        forall|p: int|
            0 <= p < wrap_pieces(split_spec(input, seq!['\n']), width).len() ==> fits_line(
                #[trigger] wrap_pieces(split_spec(input, seq!['\n']), width)[p],
                width,
            ),
{
    lemma_split_lines(input);
    lemma_pieces_fit(split_spec(input, seq!['\n']), width);
}

} // verus!
