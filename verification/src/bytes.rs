//! Reading text as bytes, and writing bytes as hexadecimal.

use vstd::prelude::*;
use vstd::utf8::encode_utf8;

use crate::strings::{utf16_spec, utf16_units};
use crate::text::string_of;

verus! {

/// A hexadecimal digit, in either case.
pub open spec fn is_hex_digit(c: char) -> bool {
    ('0' <= c && c <= '9') || ('a' <= c && c <= 'f') || ('A' <= c && c <= 'F')
}

/// The value of a hexadecimal digit.
pub open spec fn digit_value(c: char) -> nat {
    if '0' <= c && c <= '9' {
        (c as int - 48) as nat
    } else if 'a' <= c && c <= 'f' {
        (c as int - 87) as nat
    } else {
        (c as int - 55) as nat
    }
}

/// Whether a separator of the automatic hex delimiter starts at `i`: any
/// character that is not a hex digit, or `0x` in either case.
pub open spec fn separator_width(s: Seq<char>, i: int) -> int {
    if !is_hex_digit(s[i]) {
        1
    } else if s[i] == '0' && i + 1 < s.len() && (s[i + 1] == 'x' || s[i + 1] == 'X') {
        2
    } else {
        0
    }
}

/// The bytes of hex text, split on the automatic delimiter, each piece read
/// two digits at a time from its start. `run` is the number of digits of the
/// current piece read so far and `pending` the value of an unfinished pair.
pub open spec fn hex_auto_from(s: Seq<char>, i: int, run: nat, pending: nat) -> Seq<u8>
    decreases s.len() - i,
{
    if i < 0 || i >= s.len() {
        if run % 2 == 1 {
            seq![pending as u8]
        } else {
            seq![]
        }
    } else {
        let w = separator_width(s, i);
        if w > 0 {
            (if run % 2 == 1 {
                seq![pending as u8]
            } else {
                seq![]
            }) + hex_auto_from(s, i + w, 0, 0)
        } else if run % 2 == 1 {
            seq![(pending * 16 + digit_value(s[i])) as u8] + hex_auto_from(s, i + 1, run + 1, 0)
        } else {
            hex_auto_from(s, i + 1, run + 1, digit_value(s[i]))
        }
    }
}

/// Hex text read with the automatic delimiter.
pub open spec fn hex_auto_spec(s: Seq<char>) -> Seq<u8> {
    hex_auto_from(s, 0, 0, 0)
}

/// Text as bytes: its UTF-16 code units when every one fits in a byte, and
/// its UTF-8 encoding otherwise.
pub open spec fn byte_array_spec(s: Seq<char>) -> Seq<u8> {
    let units = utf16_spec(s);
    if forall|i: int| 0 <= i < units.len() ==> #[trigger] units[i] <= 255 {
        units.map_values(|u: u16| u as u8)
    } else {
        encode_utf8(s)
    }
}

/// Lower-case hexadecimal, two digits per byte.
pub open spec fn hex_lower_spec(b: Seq<u8>) -> Seq<char>
    decreases b.len(),
{
    if b.len() == 0 {
        seq![]
    } else {
        hex_lower_spec(b.drop_last()) + seq![lower_digit(b.last() / 16), lower_digit(b.last() % 16)]
    }
}

/// A lower-case hexadecimal digit.
pub open spec fn lower_digit(v: u8) -> char {
    if v < 10 {
        (v + 48) as char
    } else {
        (v + 87) as char
    }
}

fn hex_digit_check(c: char) -> (r: bool)
    ensures
        r == is_hex_digit(c),
{
    ('0' <= c && c <= '9') || ('a' <= c && c <= 'f') || ('A' <= c && c <= 'F')
}

fn hex_digit_value(c: char) -> (v: u32)
    requires
        is_hex_digit(c),
    ensures
        v == digit_value(c),
        v < 16,
{
    if '0' <= c && c <= '9' {
        (c as u32) - 48
    } else if 'a' <= c && c <= 'f' {
        (c as u32) - 87
    } else {
        (c as u32) - 55
    }
}

/// Reads hex text with the automatic delimiter: anything that is not a hex
/// digit, and `0x`, separates pieces, and each piece is read two digits at a
/// time, a trailing single digit standing alone.
pub fn from_hex_auto(s: &Vec<char>) -> (r: Vec<u8>)
    ensures
        r@ == hex_auto_spec(s@),
{
    let mut r: Vec<u8> = Vec::new();
    let mut i: usize = 0;
    let mut run: usize = 0;
    let mut pending: u32 = 0;
    while i < s.len()
        invariant
            i <= s.len(),
            run <= i,
            pending < 16,
            run % 2 == 0 ==> pending == 0,
            hex_auto_spec(s@) == r@ + hex_auto_from(s@, i as int, run as nat, pending as nat),
        decreases s.len() - i,
    {
        let ghost before = r@;
        let c = s[i];
        let w: usize = if !hex_digit_check(c) {
            1
        } else if c == '0' && i + 1 < s.len() && (s[i + 1] == 'x' || s[i + 1] == 'X') {
            2
        } else {
            0
        };
        if w > 0 {
            if run % 2 == 1 {
                r.push(pending as u8);
            }
            assert(r@ == before + (if run % 2 == 1 {
                seq![pending as u8]
            } else {
                seq![]
            }));
            run = 0;
            pending = 0;
            i = i + w;
        } else if run % 2 == 1 {
            let v = hex_digit_value(c);
            r.push((pending * 16 + v) as u8);
            run = run + 1;
            pending = 0;
            i = i + 1;
        } else {
            pending = hex_digit_value(c);
            run = run + 1;
            i = i + 1;
        }
    }
    let ghost before = r@;
    if run % 2 == 1 {
        r.push(pending as u8);
    }
    assert(r@ == before + hex_auto_from(s@, i as int, run as nat, pending as nat));
    r
}

/// Text as bytes; see `byte_array_spec`.
pub fn byte_array(s: &Vec<char>) -> (r: Vec<u8>)
    ensures
        r@ == byte_array_spec(s@),
{
    let units = utf16_units(s);
    let mut all_small = true;
    let mut i: usize = 0;
    while i < units.len()
        invariant
            i <= units.len(),
            all_small == forall|j: int| 0 <= j < i ==> #[trigger] units@[j] <= 255,
        decreases units.len() - i,
    {
        if units[i] > 255 {
            all_small = false;
        }
        i = i + 1;
    }
    let mut r: Vec<u8> = Vec::new();
    if all_small {
        let mut j: usize = 0;
        while j < units.len()
            invariant
                j <= units.len(),
                forall|k: int| 0 <= k < units@.len() ==> #[trigger] units@[k] <= 255,
                r@ == units@.take(j as int).map_values(|u: u16| u as u8),
            decreases units.len() - j,
        {
            r.push(units[j] as u8);
            assert(units@.take(j + 1).map_values(|u: u16| u as u8) =~= units@.take(j as int).map_values(
                |u: u16| u as u8,
            ).push(units@[j as int] as u8));
            j = j + 1;
        }
        assert(units@.take(units.len() as int) == units@);
    } else {
        let text = string_of(s.as_slice());
        let b = text.as_str().as_bytes();
        let mut j: usize = 0;
        while j < b.len()
            invariant
                j <= b.len(),
                r@ == b@.take(j as int),
            decreases b.len() - j,
        {
            r.push(b[j]);
            j = j + 1;
        }
        assert(b@.take(b.len() as int) == b@);
    }
    r
}

fn lower_hex_digit(v: u8) -> (c: char)
    requires
        v < 16,
    ensures
        c == lower_digit(v),
{
    if v < 10 {
        (v + 48) as char
    } else {
        (v + 87) as char
    }
}

/// Lower-case hexadecimal, two digits per byte.
pub fn to_hex_lower(b: &[u8]) -> (r: Vec<char>)
    ensures
        r@ == hex_lower_spec(b@),
{
    let mut r: Vec<char> = Vec::new();
    let mut i: usize = 0;
    while i < b.len()
        invariant
            i <= b.len(),
            r@ == hex_lower_spec(b@.take(i as int)),
        decreases b.len() - i,
    {
        r.push(lower_hex_digit(b[i] / 16));
        r.push(lower_hex_digit(b[i] % 16));
        proof {
            assert(b@.take(i + 1).drop_last() == b@.take(i as int));
            assert(b@.take(i + 1).last() == b@[i as int]);
        }
        i = i + 1;
    }
    assert(b@.take(b.len() as int) == b@);
    r
}

} // verus!
