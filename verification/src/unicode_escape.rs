//! Unicode escapes, and NetBIOS names.

use vstd::prelude::*;

use crate::error::{Failure, OperationError};
use crate::strings::{
    hex_char_value, hex_number, hex_run, hex_value, is_hex, is_hex_char, is_high, is_low, lemma_hex_run,
    lemma_hex_run_len, utf16_of, utf16_spec, utf16_units,
};
use crate::text::{char_from_scalar, chars_of, str_equals, string_of};

verus! {

/// The three escape prefixes on offer.
#[derive(Clone, Copy, Debug, PartialEq, Eq, Structural)]
pub enum Prefix {
    Backslash,
    Percent,
    UPlus,
}

/// The prefix a name selects.
pub open spec fn prefix_of(name: Seq<char>) -> Option<Prefix> {
    if name == "\\u"@ {
        Some(Prefix::Backslash)
    } else if name == "%u"@ {
        Some(Prefix::Percent)
    } else if name == "U+"@ {
        Some(Prefix::UPlus)
    } else {
        None
    }
}

/// The characters of a prefix.
pub open spec fn prefix_text(p: Prefix) -> Seq<char> {
    match p {
        Prefix::Backslash => seq!['\\', 'u'],
        Prefix::Percent => seq!['%', 'u'],
        Prefix::UPlus => seq!['U', '+'],
    }
}

/// How many hex digits the decoder accepts: four, or up to six after `U+`.
pub open spec fn max_digits_of(p: Prefix) -> nat {
    match p {
        Prefix::UPlus => 6,
        _ => 4,
    }
}

/// Reads the prefix argument.
pub fn prefix(value: &str) -> (r: Result<Prefix, OperationError>)
    ensures
        match prefix_of(value@) {
            Some(p) => r == Ok::<Prefix, OperationError>(p),
            None => r == Err::<Prefix, OperationError>(OperationError::Failed(Failure::UnicodeInvalidPrefix)),
        },
{
    if str_equals(value, "\\u") {
        Ok(Prefix::Backslash)
    } else if str_equals(value, "%u") {
        Ok(Prefix::Percent)
    } else if str_equals(value, "U+") {
        Ok(Prefix::UPlus)
    } else {
        Err(OperationError::Failed(Failure::UnicodeInvalidPrefix))
    }
}

impl Prefix {
    /// The characters of the prefix.
    pub fn text(self) -> (r: Vec<char>)
        ensures
            r@ == prefix_text(self),
    {
        let mut r: Vec<char> = Vec::new();
        match self {
            Prefix::Backslash => {
                r.push('\\');
                r.push('u');
            },
            Prefix::Percent => {
                r.push('%');
                r.push('u');
            },
            Prefix::UPlus => {
                r.push('U');
                r.push('+');
            },
        }
        r
    }

    /// How many hex digits the decoder accepts.
    pub fn max_digits(self) -> (r: usize)
        ensures
            r == max_digits_of(self),
    {
        match self {
            Prefix::UPlus => 6,
            _ => 4,
        }
    }
}

/// A hex digit in the chosen case.
pub open spec fn digit_char(v: nat, upper: bool) -> char {
    if v < 10 {
        (v + 48) as char
    } else if upper {
        (v + 55) as char
    } else {
        (v + 87) as char
    }
}

/// Hex without a leading zero, as `Number.prototype.toString(16)` writes it.
pub open spec fn hex_spec(v: nat, upper: bool) -> Seq<char>
    decreases v,
{
    if v < 16 {
        seq![digit_char(v, upper)]
    } else {
        hex_spec(v / 16, upper) + seq![digit_char(v % 16, upper)]
    }
}

/// One code unit, escaped or kept.
pub open spec fn escape_unit(u: u16, p: Prefix, encode_all: bool, padding: nat, upper: bool) -> Seq<char> {
    if !encode_all && 0x20 <= u <= 0x7e {
        seq![(u as u32) as char]
    } else {
        let digits = hex_spec(u as nat, upper);
        prefix_text(p) + Seq::new(
            if padding > digits.len() {
                (padding - digits.len()) as nat
            } else {
                0
            },
            |i: int| '0',
        ) + digits
    }
}

/// Code units escaped one by one.
pub open spec fn escape_units(units: Seq<u16>, p: Prefix, encode_all: bool, padding: nat, upper: bool) -> Seq<char>
    decreases units.len(),
{
    if units.len() == 0 {
        seq![]
    } else {
        escape_units(units.drop_last(), p, encode_all, padding, upper) + escape_unit(
            units.last(),
            p,
            encode_all,
            padding,
            upper,
        )
    }
}

/// What `escape` answers.
pub open spec fn escape_spec(input: Seq<char>, p: Prefix, encode_all: bool, padding: nat, upper: bool) -> Seq<char> {
    escape_units(utf16_spec(input), p, encode_all, padding, upper)
}

fn hex_digit_char(v: u32, upper: bool) -> (c: char)
    requires
        v < 16,
    ensures
        c == digit_char(v as nat, upper),
{
    if v < 10 {
        ((v as u8) + 48) as char
    } else if upper {
        ((v as u8) + 55) as char
    } else {
        ((v as u8) + 87) as char
    }
}

/// Hex without a leading zero.
fn hex_with(value: u32, upper: bool) -> (r: Vec<char>)
    ensures
        r@ == hex_spec(value as nat, upper),
    decreases value,
{
    if value < 16 {
        let mut r: Vec<char> = Vec::new();
        r.push(hex_digit_char(value, upper));
        r
    } else {
        let mut r = hex_with(value / 16, upper);
        r.push(hex_digit_char(value % 16, upper));
        r
    }
}

/// Escapes characters as `prefix` plus padded hex, one escape per UTF-16
/// code unit, so a character outside the basic plane becomes two escapes.
/// Printable ASCII is kept unless `encode_all`.
pub fn escape(input: &str, prefix: Prefix, encode_all: bool, padding: usize, upper: bool) -> (r: String)
    ensures
        r@ == escape_spec(input@, prefix, encode_all, padding as nat, upper),
{
    let text = chars_of(input);
    let units = utf16_units(&text);
    let marker = prefix.text();
    let mut out = String::new();
    let mut i: usize = 0;
    while i < units.len()
        invariant
            i <= units.len(),
            marker@ == prefix_text(prefix),
            out@ == escape_units(units@.take(i as int), prefix, encode_all, padding as nat, upper),
        decreases units.len() - i,
    {
        let unit = units[i];
        let ghost before = out@;
        if !encode_all && 0x20 <= unit && unit <= 0x7e {
            out.push((unit as u8) as char);
        } else {
            let mut j: usize = 0;
            while j < marker.len()
                invariant
                    j <= marker.len(),
                    out@ == before + marker@.take(j as int),
                decreases marker.len() - j,
            {
                out.push(marker[j]);
                j = j + 1;
            }
            assert(marker@.take(marker.len() as int) == marker@);
            let digits = hex_with(unit as u32, upper);
            let ghost mid = out@;
            let mut k = digits.len();
            while k < padding
                invariant
                    digits.len() <= k <= padding || (k == digits.len() && padding < digits.len()),
                    out@ == mid + Seq::new((k - digits.len()) as nat, |x: int| '0'),
                decreases padding - k,
            {
                out.push('0');
                k = k + 1;
                assert(out@ =~= mid + Seq::new((k - digits.len()) as nat, |x: int| '0'));
            }
            let ghost padded = out@;
            let mut m: usize = 0;
            while m < digits.len()
                invariant
                    m <= digits.len(),
                    out@ == padded + digits@.take(m as int),
                decreases digits.len() - m,
            {
                out.push(digits[m]);
                m = m + 1;
            }
            proof {
                assert(digits@.take(digits.len() as int) == digits@);
                let zeros = Seq::new(
                    if padding > digits.len() {
                        (padding - digits.len()) as nat
                    } else {
                        0
                    },
                    |x: int| '0',
                );
                assert(Seq::new((k - digits.len()) as nat, |x: int| '0') =~= zeros);
                assert(out@ =~= before + (prefix_text(prefix) + zeros + digits@));
            }
        }
        proof {
            assert(units@.take(i + 1).drop_last() == units@.take(i as int));
            assert(units@.take(i + 1).last() == unit);
            assert(out@ =~= before + escape_unit(unit, prefix, encode_all, padding as nat, upper));
        }
        i = i + 1;
    }
    assert(units@.take(units.len() as int) == units@);
    out
}

// ---------------------------------------------------------------------------
// Unescaping.





/// A code point as UTF-16 units: a surrogate pair
/// above the basic plane, one unit otherwise.
pub open spec fn code_point_units(v: nat) -> Seq<u16> {
    if v > 0xffff {
        let a = (v - 0x10000) as nat;
        seq![(0xd800 + (a / 1024) % 1024) as u16, (0xdc00 + a % 1024) as u16]
    } else {
        seq![v as u16]
    }
}

/// The code units an escaped text stands for.
pub open spec fn unescape_units(s: Seq<char>, marker: Seq<char>, max: nat) -> Seq<u16>
    decreases s.len(),
{
    if s.len() == 0 {
        seq![]
    } else if s.len() >= marker.len() && s.take(marker.len() as int) == marker && marker.len() > 0 {
        let rest = s.skip(marker.len() as int);
        let n = hex_run(rest, max);
        proof {
            lemma_hex_run_len(rest, max);
        }
        if n < 4 {
            utf16_of(s[0]) + unescape_units(s.skip(1), marker, max)
        } else {
            code_point_units(hex_number(rest, n)) + unescape_units(
                rest.skip(n as int),
                marker,
                max,
            )
        }
    } else {
        utf16_of(s[0]) + unescape_units(s.skip(1), marker, max)
    }
}

/// UTF-16 decoded, an unpaired surrogate becoming U+FFFD.
pub open spec fn decode_utf16_spec(u: Seq<u16>) -> Seq<char>
    decreases u.len(),
{
    if u.len() == 0 {
        seq![]
    } else if is_high(u[0]) && u.len() > 1 && is_low(u[1]) {
        seq![(0x10000 + (u[0] - 0xd800) * 1024 + (u[1] - 0xdc00)) as char] + decode_utf16_spec(
            u.skip(2),
        )
    } else if is_high(u[0]) || is_low(u[0]) {
        seq!['\u{fffd}'] + decode_utf16_spec(u.skip(1))
    } else {
        seq![(u[0] as u32) as char] + decode_utf16_spec(u.skip(1))
    }
}

/// What `unescape` answers.
pub open spec fn unescape_spec(input: Seq<char>, p: Prefix) -> Seq<char> {
    decode_utf16_spec(unescape_units(input, prefix_text(p), max_digits_of(p)))
}



/// Appends the UTF-16 units of one character.
fn push_char_units(units: &mut Vec<u16>, c: char)
    ensures
        final(units)@ == old(units)@ + utf16_of(c),
{
    let code = c as u32;
    if code < 0x10000 {
        units.push(code as u16);
    } else {
        let v = code - 0x10000;
        units.push((0xD800 + v / 1024) as u16);
        units.push((0xDC00 + v % 1024) as u16);
    }
}

/// Appends a code point as UTF-16 units.
fn push_code_point(units: &mut Vec<u16>, value: u32)
    ensures
        final(units)@ == old(units)@ + code_point_units(value as nat),
{
    if value > 0xffff {
        let adjusted = value - 0x1_0000;
        units.push((0xd800 + (adjusted / 1024) % 1024) as u16);
        units.push((0xdc00 + adjusted % 1024) as u16);
    } else {
        units.push(value as u16);
    }
}



proof fn lemma_hex_number_bound(s: Seq<char>, n: nat)
    requires
        n <= s.len(),
        n <= 6,
        forall|i: int| 0 <= i < n ==> is_hex(#[trigger] s[i]),
    ensures
        hex_number(s, n) < pow16(n),
    decreases n,
{
    if n > 0 {
        lemma_hex_number_bound(s, (n - 1) as nat);
    }
}

/// Sixteen to the power `n`.
pub open spec fn pow16(n: nat) -> nat
    decreases n,
{
    if n == 0 {
        1
    } else {
        16 * pow16((n - 1) as nat)
    }
}

/// Whether `s[i..]` starts with the marker.
fn starts_with_at(s: &Vec<char>, i: usize, marker: &Vec<char>) -> (r: bool)
    requires
        i <= s.len(),
    ensures
        r == (s@.skip(i as int).len() >= marker@.len() && s@.skip(i as int).take(marker@.len() as int) == marker@),
{
    if s.len() - i < marker.len() {
        return false;
    }
    let mut j: usize = 0;
    while j < marker.len()
        invariant
            j <= marker.len(),
            i + marker.len() <= s.len(),
            forall|k: int| 0 <= k < j ==> s@[i + k] == marker@[k],
        decreases marker.len() - j,
    {
        if s[i + j] != marker[j] {
            assert(s@.skip(i as int).take(marker@.len() as int)[j as int] != marker@[j as int]);
            return false;
        }
        j = j + 1;
    }
    assert(s@.skip(i as int).take(marker@.len() as int) =~= marker@);
    true
}

/// UTF-16 decoded, an unpaired surrogate becoming U+FFFD.
fn decode_utf16(u: &Vec<u16>) -> (r: Vec<char>)
    ensures
        r@ == decode_utf16_spec(u@),
{
    let mut r: Vec<char> = Vec::new();
    let mut i: usize = 0;
    assert(u@.skip(0) == u@);
    while i < u.len()
        invariant
            i <= u.len(),
            decode_utf16_spec(u@) == r@ + decode_utf16_spec(u@.skip(i as int)),
        decreases u.len() - i,
    {
        let ghost rest = u@.skip(i as int);
        let a = u[i];
        assert(rest[0] == a);
        let ghost before = r@;
        if 0xd800 <= a && a <= 0xdbff && i + 1 < u.len() && 0xdc00 <= u[i + 1] && u[i + 1] <= 0xdfff {
            let b = u[i + 1];
            assert(rest[1] == b);
            let v: u32 = 0x10000 + ((a - 0xd800) as u32) * 1024 + ((b - 0xdc00) as u32);
            assert(0x10000 <= v <= 0x10FFFF);
            r.push(char_from_scalar(v));
            assert(rest.skip(2) == u@.skip(i + 2));
            i = i + 2;
        } else if (0xd800 <= a && a <= 0xdbff) || (0xdc00 <= a && a <= 0xdfff) {
            r.push('\u{fffd}');
            assert(rest.skip(1) == u@.skip(i + 1));
            i = i + 1;
        } else {
            r.push(char_from_scalar(a as u32));
            assert(rest.skip(1) == u@.skip(i + 1));
            i = i + 1;
        }
        assert(r@ == before + (r@.skip(before.len() as int)));
    }
    assert(u@.skip(i as int) == Seq::<u16>::empty());
    r
}

/// Replaces escapes with the characters they name.
///
/// Greedy, like a regular expression: as many hex digits as
/// the prefix allows, at least four. Anything that is not a complete escape
/// is copied through, and an adjacent pair of surrogate escapes rejoins.
pub fn unescape(input: &str, prefix: Prefix) -> (r: String)
    ensures
        r@ == unescape_spec(input@, prefix),
{
    let characters = chars_of(input);
    let marker = prefix.text();
    let max_digits = prefix.max_digits();
    let mut units: Vec<u16> = Vec::new();
    let mut index: usize = 0;
    let ghost all = unescape_units(input@, prefix_text(prefix), max_digits_of(prefix));
    assert(characters@.skip(0) == characters@);
    while index < characters.len()
        invariant
            index <= characters.len(),
            characters@ == input@,
            marker@ == prefix_text(prefix),
            marker@.len() == 2,
            max_digits == max_digits_of(prefix),
            max_digits <= 6,
            all == units@ + unescape_units(characters@.skip(index as int), marker@, max_digits as nat),
        decreases characters.len() - index,
    {
        let ghost s = characters@.skip(index as int);
        let ghost before = units@;
        assert(s[0] == characters@[index as int]);
        if !starts_with_at(&characters, index, &marker) {
            push_char_units(&mut units, characters[index]);
            assert(s.skip(1) == characters@.skip(index + 1));
            index = index + 1;
            continue;
        }
        let start = index + marker.len();
        let mut cursor = start;
        while cursor < characters.len() && cursor - start < max_digits && is_hex_char(characters[cursor])
            invariant
                start <= cursor <= characters.len(),
                cursor - start <= max_digits,
                forall|k: int| start <= k < cursor ==> is_hex(#[trigger] characters@[k]),
            decreases characters.len() - cursor,
        {
            cursor = cursor + 1;
        }
        let ghost rest = s.skip(2);
        proof {
            assert(rest == characters@.skip(start as int));
            assert forall|k: int| 0 <= k < cursor - start implies is_hex(#[trigger] rest[k]) by {
                assert(rest[k] == characters@[start + k]);
            }
            if cursor < characters.len() && cursor - start < max_digits {
                assert(rest[cursor - start] == characters@[cursor as int]);
            }
            lemma_hex_run(rest, max_digits as nat, (cursor - start) as nat);
        }
        if cursor - start < 4 {
            push_char_units(&mut units, characters[index]);
            assert(s.skip(1) == characters@.skip(index + 1));
            index = index + 1;
            continue;
        }
        let mut value: u32 = 0;
        let mut k = start;
        while k < cursor
            invariant
                start <= k <= cursor <= characters.len(),
                cursor - start <= 6,
                rest == characters@.skip(start as int),
                forall|j: int| 0 <= j < cursor - start ==> is_hex(#[trigger] rest[j]),
                value == hex_number(rest, (k - start) as nat),
                value < pow16((k - start) as nat),
            decreases cursor - k,
        {
            proof {
                assert(rest[k - start] == characters@[k as int]);
                lemma_pow16_bound((k - start + 1) as nat);
            }
            value = value * 16 + hex_char_value(characters[k]);
            k = k + 1;
        }
        push_code_point(&mut units, value);
        assert(rest.skip((cursor - start) as int) == characters@.skip(cursor as int));
        index = cursor;
    }
    assert(characters@.skip(index as int) == Seq::<char>::empty());
    assert(units@ + Seq::<u16>::empty() == units@);
    let decoded = decode_utf16(&units);
    string_of(&decoded)
}

proof fn lemma_pow16_bound(n: nat)
    requires
        n <= 6,
    ensures
        pow16(n) <= 16777216,
{
    reveal_with_fuel(pow16, 7);
}

// ---------------------------------------------------------------------------
// NetBIOS names.

/// A name padded with spaces to sixteen bytes, each nibble written as a byte
/// offset from a base; a name longer than sixteen bytes gives nothing.
pub open spec fn netbios_encode_spec(input: Seq<u8>, offset: u8) -> Seq<u8> {
    if input.len() > 16 {
        seq![]
    } else {
        Seq::new(
            32,
            |i: int|
                {
                    let b = if i / 2 < input.len() {
                        input[i / 2]
                    } else {
                        0x20u8
                    };
                    if i % 2 == 0 {
                        ((b / 16 + offset) % 256) as u8
                    } else {
                        ((b % 16 + offset) % 256) as u8
                    }
                },
        )
    }
}

/// Encodes a NetBIOS name.
pub fn netbios_encode(input: &[u8], offset: u8) -> (r: Vec<u8>)
    ensures
        r@ == netbios_encode_spec(input@, offset),
{
    let mut out: Vec<u8> = Vec::new();
    if input.len() > 16 {
        return out;
    }
    let mut j: usize = 0;
    while j < 16
        invariant
            j <= 16,
            input.len() <= 16,
            out@ == netbios_encode_spec(input@, offset).take(2 * j),
        decreases 16 - j,
    {
        let b: u8 = if j < input.len() {
            input[j]
        } else {
            0x20u8
        };
        out.push((b / 16).wrapping_add(offset));
        out.push((b % 16).wrapping_add(offset));
        assert(out@ =~= netbios_encode_spec(input@, offset).take(2 * j + 2));
        j = j + 1;
    }
    assert(out@ =~= netbios_encode_spec(input@, offset));
    out
}

/// The pairs decoded, or nothing when a high nibble is out of range.
pub open spec fn netbios_pairs(input: Seq<u8>, offset: u8, n: nat) -> Option<Seq<u8>>
    decreases n,
{
    if n == 0 {
        Some(seq![])
    } else {
        match netbios_pairs(input, offset, (n - 1) as nat) {
            None => None,
            Some(prev) => {
                let a = input[2 * (n - 1)];
                let b = input[2 * (n - 1) + 1];
                if a < offset || a - offset > 15 {
                    None
                } else {
                    let low = ((b - offset + 256) % 256) as u8;
                    Some(prev.push(((a - offset) * 16 + low % 16) as u8))
                }
            },
        }
    }
}

/// The trailing-space trim: walking back from `index`, remove
/// `index` elements at `index` while the byte there is a space.
pub open spec fn netbios_trim(out: Seq<u8>, index: int) -> Seq<u8>
    decreases index,
{
    if index <= 0 || index >= out.len() || out[index] != 0x20 {
        out
    } else {
        let end = if 2 * index < out.len() {
            2 * index
        } else {
            out.len() as int
        };
        netbios_trim(out.take(index) + out.skip(end), index - 1)
    }
}

/// What `netbios_decode` answers.
pub open spec fn netbios_decode_spec(input: Seq<u8>, offset: u8) -> Result<Seq<u8>, OperationError> {
    if input.len() > 32 || input.len() % 2 != 0 {
        Ok(seq![])
    } else {
        match netbios_pairs(input, offset, input.len() / 2) {
            None => Err(OperationError::Failed(Failure::NetbiosOutOfRange)),
            Some(out) => Ok(
                netbios_trim(
                    out,
                    if out.len() > 0 {
                        out.len() - 1
                    } else {
                        0
                    },
                ),
            ),
        }
    }
}

/// Decodes a NetBIOS name.
///
/// A first byte of a pair more than fifteen above the offset is refused. The
/// trailing-space trim is JavaScript's `splice(i, i)`, which removes `i`
/// elements rather than one.
pub fn netbios_decode(input: &[u8], offset: u8) -> (r: Result<Vec<u8>, OperationError>)
    ensures
        match r {
            Ok(v) => netbios_decode_spec(input@, offset) == Ok::<Seq<u8>, OperationError>(v@),
            Err(e) => netbios_decode_spec(input@, offset) == Err::<Seq<u8>, OperationError>(e),
        },
{
    if input.len() > 32 || input.len() % 2 != 0 {
        return Ok(Vec::new());
    }
    let mut output: Vec<u8> = Vec::new();
    let mut n: usize = 0;
    while n < input.len() / 2
        invariant
            n <= input.len() / 2,
            input.len() <= 32,
            input.len() % 2 == 0,
            output.len() == n,
            netbios_pairs(input@, offset, n as nat) == Some(output@),
        decreases input.len() / 2 - n,
    {
        let a = input[2 * n];
        let b = input[2 * n + 1];
        if a < offset || a - offset > 15 {
            proof {
                lemma_pairs_none(input@, offset, (n + 1) as nat, (input.len() / 2) as nat);
            }
            return Err(OperationError::Failed(Failure::NetbiosOutOfRange));
        }
        let high = a - offset;
        let low = b.wrapping_sub(offset);
        output.push(high * 16 + low % 16);
        n = n + 1;
    }
    let mut index: usize = if output.len() > 0 {
        output.len() - 1
    } else {
        0
    };
    let ghost whole = output@;
    let ghost first = index as int;
    while index > 0 && output[index] == 0x20u8
        invariant
            output.len() <= 16,
            index < output.len() || index == 0,
            netbios_trim(whole, first) == netbios_trim(output@, index as int),
        decreases index,
    {
        let end = if 2 * index < output.len() {
            2 * index
        } else {
            output.len()
        };
        let ghost before = output@;
        output = drain_range(output, index, end);
        assert(output@ == before.take(index as int) + before.skip(end as int));
        index = index - 1;
    }
    Ok(output)
}

proof fn lemma_pairs_none(input: Seq<u8>, offset: u8, k: nat, n: nat)
    requires
        1 <= k <= n,
        netbios_pairs(input, offset, k) is None,
    ensures
        netbios_pairs(input, offset, n) is None,
    decreases n - k,
{
    if k < n {
        lemma_pairs_none(input, offset, k + 1, n);
    }
}

/// The vector with `v[lo..hi]` removed.
fn drain_range(v: Vec<u8>, lo: usize, hi: usize) -> (r: Vec<u8>)
    requires
        lo <= hi <= v.len(),
    ensures
        r@ == v@.take(lo as int) + v@.skip(hi as int),
{
    let mut r: Vec<u8> = Vec::new();
    let mut i: usize = 0;
    while i < v.len()
        invariant
            i <= v.len(),
            lo <= hi <= v.len(),
            r@ == if i <= lo {
                v@.take(i as int)
            } else if i <= hi {
                v@.take(lo as int)
            } else {
                v@.take(lo as int) + v@.subrange(hi as int, i as int)
            },
        decreases v.len() - i,
    {
        if i < lo || i >= hi {
            r.push(v[i]);
        }
        i = i + 1;
    }
    assert(r@ =~= v@.take(lo as int) + v@.skip(hi as int));
    r
}

/// The name padded with spaces to sixteen bytes.
pub open spec fn netbios_padded(input: Seq<u8>) -> Seq<u8> {
    input + Seq::new((16 - input.len()) as nat, |i: int| 0x20u8)
}

proof fn lemma_nibble_pair(b: u8, offset: u8)
    requires
        offset <= 240,
    ensures
        ({
            let a = ((b / 16 + offset) % 256) as u8;
            let c = ((b % 16 + offset) % 256) as u8;
            &&& offset <= a
            &&& a - offset <= 15
            &&& (((a - offset) * 16 + (((c - offset + 256) % 256) as u8) % 16) as u8) == b
        }),
{
}

proof fn lemma_pairs_of_encoding(input: Seq<u8>, offset: u8, n: nat)
    requires
        input.len() <= 16,
        offset <= 240,
        n <= 16,
    ensures
        netbios_pairs(netbios_encode_spec(input, offset), offset, n) == Some(netbios_padded(input).take(n as int)),
    decreases n,
{
    if n > 0 {
        lemma_pairs_of_encoding(input, offset, (n - 1) as nat);
        let enc = netbios_encode_spec(input, offset);
        let padded = netbios_padded(input);
        let j = n - 1;
        let b = padded[j];
        assert(b == if j < input.len() { input[j] } else { 0x20u8 });
        assert(enc[2 * j] == ((b / 16 + offset) % 256) as u8);
        assert(enc[2 * j + 1] == ((b % 16 + offset) % 256) as u8);
        lemma_nibble_pair(b, offset);
        assert(padded.take(n as int) == padded.take(j).push(b));
    }
}

proof fn lemma_trim_spaces(x: Seq<u8>, k: nat)
    requires
        x.len() >= 1,
        x.last() != 0x20,
    ensures
        netbios_trim(x + Seq::new(k, |i: int| 0x20u8), x.len() + k - 1) == x,
    decreases k,
{
    let out = x + Seq::new(k, |i: int| 0x20u8);
    if k == 0 {
        assert(out == x);
    } else {
        let index = x.len() + k - 1;
        assert(out[index] == 0x20u8);
        assert(out.take(index) + out.skip(out.len() as int) == x + Seq::new((k - 1) as nat, |i: int| 0x20u8));
        lemma_trim_spaces(x, (k - 1) as nat);
    }
}

/// A NetBIOS name decodes back to itself, given a base that leaves room for
/// every nibble and a last byte that is not the space the padding uses.
pub proof fn lemma_netbios_roundtrip(input: Seq<u8>, offset: u8)
    requires
        1 <= input.len() <= 16,
        input.last() != 0x20,
        offset <= 240,
    ensures
        netbios_decode_spec(netbios_encode_spec(input, offset), offset) == Ok::<Seq<u8>, OperationError>(input),
{
    lemma_pairs_of_encoding(input, offset, 16);
    let padded = netbios_padded(input);
    assert(padded.take(16) == padded);
    let k = (16 - input.len()) as nat;
    lemma_trim_spaces(input, k);
}

// ---------------------------------------------------------------------------
// Escaping everything with four digits and unescaping gives the text back.

proof fn lemma_digit_char(v: nat, upper: bool)
    requires
        v < 16,
    ensures
        is_hex(digit_char(v, upper)),
        hex_value(digit_char(v, upper)) == v,
{
}

proof fn lemma_hex_spec(v: nat, upper: bool)
    ensures
        1 <= hex_spec(v, upper).len(),
        v < 16 ==> hex_spec(v, upper).len() == 1,
        v < 256 ==> hex_spec(v, upper).len() <= 2,
        v < 4096 ==> hex_spec(v, upper).len() <= 3,
        v < 65536 ==> hex_spec(v, upper).len() <= 4,
        forall|i: int| 0 <= i < hex_spec(v, upper).len() ==> is_hex(#[trigger] hex_spec(v, upper)[i]),
        hex_number(hex_spec(v, upper), hex_spec(v, upper).len()) == v,
    decreases v,
{
    lemma_digit_char(v % 16, upper);
    if v >= 16 {
        let front = hex_spec(v / 16, upper);
        let whole = hex_spec(v, upper);
        lemma_hex_spec(v / 16, upper);
        assert(whole.take(front.len() as int) == front);
        assert(front.take(front.len() as int) == front);
        lemma_hex_number_prefix(whole, front, front.len());
        assert(whole[front.len() as int] == digit_char(v % 16, upper));
        assert(whole.len() == front.len() + 1);
        assert(hex_number(whole, whole.len()) == hex_number(whole, front.len()) * 16 + hex_value(
            whole[front.len() as int],
        ));
        assert((v / 16) * 16 + v % 16 == v);
    } else {
        let whole = hex_spec(v, upper);
        assert(whole[0] == digit_char(v, upper));
        assert(hex_number(whole, 0) == 0);
        assert(hex_number(whole, 1) == hex_number(whole, 0) * 16 + hex_value(whole[0]));
    }
}

proof fn lemma_hex_number_prefix(s: Seq<char>, t: Seq<char>, n: nat)
    requires
        n <= s.len(),
        n <= t.len(),
        s.take(n as int) == t.take(n as int),
    ensures
        hex_number(s, n) == hex_number(t, n),
    decreases n,
{
    if n > 0 {
        assert(s[n - 1] == s.take(n as int)[n - 1]);
        assert(t[n - 1] == t.take(n as int)[n - 1]);
        assert(s.take(n - 1) == s.take(n as int).take(n - 1));
        assert(t.take(n - 1) == t.take(n as int).take(n - 1));
        lemma_hex_number_prefix(s, t, (n - 1) as nat);
    }
}

proof fn lemma_hex_number_zeros(z: nat, h: Seq<char>, k: nat)
    requires
        k <= h.len(),
    ensures
        hex_number(Seq::new(z, |i: int| '0') + h, z + k) == hex_number(h, k),
    decreases k,
{
    let s = Seq::new(z, |i: int| '0') + h;
    if k == 0 {
        lemma_hex_number_leading_zeros(s, z, z);
    } else {
        lemma_hex_number_zeros(z, h, (k - 1) as nat);
        assert(s[z + k - 1] == h[k - 1]);
    }
}

proof fn lemma_hex_number_leading_zeros(s: Seq<char>, z: nat, j: nat)
    requires
        j <= z <= s.len(),
        forall|i: int| 0 <= i < z ==> s[i] == '0',
    ensures
        hex_number(s, j) == 0,
    decreases j,
{
    if j > 0 {
        lemma_hex_number_leading_zeros(s, z, (j - 1) as nat);
        assert(s[j - 1] == '0');
    }
}

#[verifier::spinoff_prover]
#[verifier::rlimit(40)]
proof fn lemma_escape_units_cons(a: u16, r: Seq<u16>, p: Prefix, encode_all: bool, padding: nat, upper: bool)
    ensures
        escape_units(seq![a] + r, p, encode_all, padding, upper) == escape_unit(a, p, encode_all, padding, upper)
            + escape_units(r, p, encode_all, padding, upper),
    decreases r.len(),
{
    let e = escape_unit(a, p, encode_all, padding, upper);
    if r.len() == 0 {
        assert(seq![a] + r == seq![a]);
        assert(seq![a].drop_last() == Seq::<u16>::empty());
        assert(escape_units(Seq::<u16>::empty(), p, encode_all, padding, upper) == Seq::<char>::empty());
        assert(escape_units(seq![a], p, encode_all, padding, upper) == Seq::<char>::empty() + e);
        assert(Seq::<char>::empty() + e == e + Seq::<char>::empty());
    } else {
        lemma_escape_units_cons(a, r.drop_last(), p, encode_all, padding, upper);
        assert((seq![a] + r).drop_last() == seq![a] + r.drop_last());
        assert((seq![a] + r).last() == r.last());
        let tail = escape_unit(r.last(), p, encode_all, padding, upper);
        let mid = escape_units(r.drop_last(), p, encode_all, padding, upper);
        assert(escape_units(r, p, encode_all, padding, upper) == mid + tail);
        assert((e + mid) + tail == e + (mid + tail));
    }
}

proof fn lemma_unescape_one(a: u16, t: Seq<char>, p: Prefix, upper: bool)
    requires
        p != Prefix::UPlus || t.len() == 0 || !is_hex(t[0]),
    ensures
        unescape_units(escape_unit(a, p, true, 4, upper) + t, prefix_text(p), max_digits_of(p)) == seq![a]
            + unescape_units(t, prefix_text(p), max_digits_of(p)),
{
    let m = prefix_text(p);
    let h = hex_spec(a as nat, upper);
    lemma_hex_spec(a as nat, upper);
    let z = (4 - h.len()) as nat;
    let zeros = Seq::new(z, |i: int| '0');
    let e = escape_unit(a, p, true, 4, upper);
    assert(e == m + zeros + h);
    let s = e + t;
    assert(s.take(2) == m);
    let rest = s.skip(2);
    assert(rest == zeros + h + t);
    assert forall|i: int| 0 <= i < 4 implies is_hex(#[trigger] rest[i]) by {
        if i < z {
            assert(rest[i] == '0');
        } else {
            assert(rest[i] == h[i - z]);
        }
    }
    if p == Prefix::UPlus && t.len() > 0 {
        assert(rest[4] == t[0]);
    }
    lemma_hex_run(rest, max_digits_of(p), 4);
    assert(rest.take(4) == (zeros + h).take(4));
    lemma_hex_number_prefix(rest, zeros + h, 4);
    lemma_hex_number_zeros(z, h, h.len());
    assert(rest.skip(4) == t);
    assert(s[0] == m[0]);
}

/// Escaped text starts with the prefix's first character, which is never a
/// hex digit.
proof fn lemma_escape_units_start(u: Seq<u16>, p: Prefix, upper: bool)
    requires
        u.len() > 0,
    ensures
        escape_units(u, p, true, 4, upper).len() > 0,
        !is_hex(escape_units(u, p, true, 4, upper)[0]),
{
    let r = u.skip(1);
    assert(u == seq![u[0]] + r);
    lemma_escape_units_cons(u[0], r, p, true, 4, upper);
    let m = prefix_text(p);
    let h = hex_spec(u[0] as nat, upper);
    lemma_hex_spec(u[0] as nat, upper);
    let z = (4 - h.len()) as nat;
    let e = escape_unit(u[0], p, true, 4, upper);
    assert(e == m + Seq::new(z, |i: int| '0') + h);
    assert(escape_units(u, p, true, 4, upper)[0] == e[0]);
    assert(e[0] == m[0]);
}

proof fn lemma_unescape_escape_units(u: Seq<u16>, p: Prefix, upper: bool)
    ensures
        unescape_units(escape_units(u, p, true, 4, upper), prefix_text(p), max_digits_of(p)) == u,
    decreases u.len(),
{
    if u.len() > 0 {
        let r = u.skip(1);
        assert(u == seq![u[0]] + r);
        lemma_escape_units_cons(u[0], r, p, true, 4, upper);
        if r.len() > 0 {
            lemma_escape_units_start(r, p, upper);
        } else {
            assert(escape_units(r, p, true, 4, upper) == Seq::<char>::empty());
        }
        lemma_unescape_one(u[0], escape_units(r, p, true, 4, upper), p, upper);
        lemma_unescape_escape_units(r, p, upper);
    } else {
        assert(escape_units(u, p, true, 4, upper) == Seq::<char>::empty());
    }
}

proof fn lemma_utf16_cons(c: char, r: Seq<char>)
    ensures
        utf16_spec(seq![c] + r) == utf16_of(c) + utf16_spec(r),
    decreases r.len(),
{
    let e = utf16_of(c);
    if r.len() == 0 {
        assert(seq![c] + r == seq![c]);
        assert(seq![c].drop_last() == Seq::<char>::empty());
        assert(utf16_spec(Seq::<char>::empty()) == Seq::<u16>::empty());
        assert(utf16_spec(seq![c]) == Seq::<u16>::empty() + e);
        assert(Seq::<u16>::empty() + e == e + Seq::<u16>::empty());
    } else {
        lemma_utf16_cons(c, r.drop_last());
        assert((seq![c] + r).drop_last() == seq![c] + r.drop_last());
        assert((seq![c] + r).last() == r.last());
        let tail = utf16_of(r.last());
        let mid = utf16_spec(r.drop_last());
        assert(utf16_spec(r) == mid + tail);
        assert((e + mid) + tail == e + (mid + tail));
    }
}

proof fn lemma_decode_one(c: char, t: Seq<u16>)
    ensures
        decode_utf16_spec(utf16_of(c) + t) == seq![c] + decode_utf16_spec(t),
{
    let w = c as u32;
    vstd::utf8::char_is_scalar(c);
    vstd::utf8::char_u32_cast(c, w);
    let u = utf16_of(c) + t;
    if w < 0x10000 {
        assert(u[0] == w as u16);
        assert(u.skip(1) == t);
    } else {
        let v = w - 0x10000;
        assert(u[0] == (0xD800 + v / 1024) as u16);
        assert(u[1] == (0xDC00 + v % 1024) as u16);
        assert(u.skip(2) == t);
        assert(0x10000 + (u[0] - 0xd800) * 1024 + (u[1] - 0xdc00) == w);
    }
}

proof fn lemma_decode_utf16(s: Seq<char>)
    ensures
        decode_utf16_spec(utf16_spec(s)) == s,
    decreases s.len(),
{
    if s.len() > 0 {
        let r = s.skip(1);
        assert(s == seq![s[0]] + r);
        lemma_utf16_cons(s[0], r);
        lemma_decode_one(s[0], utf16_spec(r));
        lemma_decode_utf16(r);
    } else {
        assert(utf16_spec(s) == Seq::<u16>::empty());
    }
}

/// Escaping every character with four digits and then unescaping gives back
/// the text, whichever the prefix, characters outside the basic plane
/// included: their two surrogate escapes rejoin.
pub proof fn lemma_unescape_inverts_escape(input: Seq<char>, p: Prefix, upper: bool)
    ensures
        unescape_spec(escape_spec(input, p, true, 4, upper), p) == input,
{
    lemma_unescape_escape_units(utf16_spec(input), p, upper);
    lemma_decode_utf16(input);
}

// ---------------------------------------------------------------------------
// Operations.

/// The padding a signed argument asks for: a negative value, or one too large
/// for the machine, pads nothing.
pub open spec fn padding_of(padding: i128) -> nat {
    if 0 <= padding <= usize::MAX {
        padding as nat
    } else {
        0
    }
}

/// The nibble base a signed argument names, taken modulo 256.
pub open spec fn offset_of(offset: i128) -> u8 {
    (offset % 256) as u8
}

fn padding_argument(padding: i128) -> (r: usize)
    ensures
        r == padding_of(padding),
{
    if 0 <= padding && padding <= usize::MAX as i128 {
        padding as usize
    } else {
        0
    }
}

fn offset_argument(offset: i128) -> (r: u8)
    ensures
        r == offset_of(offset),
{
    let m = offset % 256;
    let e: i128 = if m < 0 {
        m + 256
    } else {
        m
    };
    assert(e == offset % 256) by {
        assert(offset == 256 * (offset / 256) + offset % 256);
    }
    e as u8
}

/// Escapes characters as Unicode escapes.
pub struct EscapeUnicodeCharacters {}

impl EscapeUnicodeCharacters {
    /// Creates the escaping operation.
    pub fn new() -> Self {
        EscapeUnicodeCharacters {  }
    }

    /// Escapes `input` with the named prefix; an unknown prefix is refused.
    pub fn execute(
        &self,
        input: &str,
        prefix_name: &str,
        encode_all: bool,
        padding: i128,
        upper: bool,
    ) -> (r: Result<String, OperationError>)
        ensures
            match prefix_of(prefix_name@) {
                Some(p) => r matches Ok(s) && s@ == escape_spec(input@, p, encode_all, padding_of(padding), upper),
                None => r == Err::<String, OperationError>(OperationError::Failed(Failure::UnicodeInvalidPrefix)),
            },
    {
        let p = prefix(prefix_name)?;
        Ok(escape(input, p, encode_all, padding_argument(padding), upper))
    }
}

/// Replaces Unicode escapes with the characters they name.
pub struct UnescapeUnicodeCharacters {}

impl UnescapeUnicodeCharacters {
    /// Creates the unescaping operation.
    pub fn new() -> Self {
        UnescapeUnicodeCharacters {  }
    }

    /// Unescapes `input` with the named prefix; an unknown prefix is refused.
    pub fn execute(&self, input: &str, prefix_name: &str) -> (r: Result<String, OperationError>)
        ensures
            match prefix_of(prefix_name@) {
                Some(p) => r matches Ok(s) && s@ == unescape_spec(input@, p),
                None => r == Err::<String, OperationError>(OperationError::Failed(Failure::UnicodeInvalidPrefix)),
            },
    {
        let p = prefix(prefix_name)?;
        Ok(unescape(input, p))
    }
}

/// Encodes a NetBIOS name.
pub struct EncodeNetbiosName {}

impl EncodeNetbiosName {
    /// Creates the NetBIOS encoding operation.
    pub fn new() -> Self {
        EncodeNetbiosName {  }
    }

    /// Encodes `input` with the nibble base `offset` taken modulo 256.
    pub fn execute(&self, input: &[u8], offset: i128) -> (r: Vec<u8>)
        ensures
            r@ == netbios_encode_spec(input@, offset_of(offset)),
    {
        netbios_encode(input, offset_argument(offset))
    }
}

/// Decodes a NetBIOS name.
pub struct DecodeNetbiosName {}

impl DecodeNetbiosName {
    /// Creates the NetBIOS decoding operation.
    pub fn new() -> Self {
        DecodeNetbiosName {  }
    }

    /// Decodes `input` with the nibble base `offset` taken modulo 256.
    pub fn execute(&self, input: &[u8], offset: i128) -> (r: Result<Vec<u8>, OperationError>)
        ensures
            match r {
                Ok(v) => netbios_decode_spec(input@, offset_of(offset)) == Ok::<Seq<u8>, OperationError>(v@),
                Err(e) => netbios_decode_spec(input@, offset_of(offset)) == Err::<Seq<u8>, OperationError>(e),
            },
    {
        netbios_decode(input, offset_argument(offset))
    }
}


/// Every character is printable ASCII, space through `~`.
pub open spec fn printable_ascii(s: Seq<char>) -> bool {
    forall|i: int| 0 <= i < s.len() ==> 0x20 <= (#[trigger] s[i] as u32) <= 0x7e
}

/// Escaping without `encode_all` keeps printable ASCII: text made only of
/// space through `~` comes back unchanged, whatever the prefix, padding and
/// case.
pub proof fn lemma_escape_keeps_printable(s: Seq<char>, p: Prefix, padding: nat, upper: bool)
    requires
        printable_ascii(s),
    ensures
        escape_spec(s, p, false, padding, upper) == s,
    decreases s.len(),
{
    if s.len() > 0 {
        let d = s.drop_last();
        let c = s.last();
        assert(printable_ascii(d)) by {
            assert forall|i: int| 0 <= i < d.len() implies 0x20 <= (#[trigger] d[i] as u32) <= 0x7e by {
                assert(d[i] == s[i]);
            }
        }
        lemma_escape_keeps_printable(d, p, padding, upper);
        assert(0x20 <= (s[s.len() - 1] as u32) <= 0x7e);
        let u = (c as u32) as u16;
        assert(utf16_of(c) == seq![u]);
        assert(utf16_spec(s) == utf16_spec(d) + seq![u]);
        assert((utf16_spec(d) + seq![u]).drop_last() =~= utf16_spec(d));
        assert((utf16_spec(d) + seq![u]).last() == u);
        vstd::utf8::char_u32_cast(c, c as u32);
        assert((u as u32) as char == c);
        assert(escape_unit(u, p, false, padding, upper) == seq![c]);
        assert(s =~= d + seq![c]);
    }
}
} // verus!
