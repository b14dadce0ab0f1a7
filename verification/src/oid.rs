//! ASN.1 object identifiers as hexadecimal.

use vstd::prelude::*;

use num_bigint::BigUint;
use num_traits::{ToPrimitive, Zero};

use crate::bytes::{hex_lower_spec, lower_digit, to_hex_lower};
use crate::error::{Failure, OperationError};
use crate::strings::{decimal, decimal_spec, hex_char_value, hex_number, hex_run, is_hex, is_hex_char,
    hex_value, lemma_hex_run, lemma_hex_run_len};
use crate::strings::{join_spec, split, split_spec};
use crate::text::{chars_of, is_whitespace, string_of, whitespace};
use crate::textint::{radix_digit, radix_digits};
use crate::unixperms::{is_js_space, js_space};

verus! {

/// `num_bigint::BigUint`, a natural number of any size.
#[verifier::external_type_specification]
#[verifier::external_body]
pub struct ExBigUint(num_bigint::BigUint);

/// The number a `BigUint` holds.
pub uninterp spec fn natural_of(v: BigUint) -> nat;

/// `BigUint::ZERO`.
#[verifier::external_body]
fn biguint_zero() -> (r: BigUint)
    ensures
        natural_of(r) == 0,
{
    BigUint::ZERO
}

/// `BigUint`'s `*` by a small factor.
#[verifier::external_body]
fn biguint_mul_u8(a: BigUint, m: u8) -> (r: BigUint)
    ensures
        natural_of(r) == natural_of(a) * m,
{
    a * BigUint::from(m)
}

/// `BigUint`'s `+` of a small term.
#[verifier::external_body]
fn biguint_add_u8(a: BigUint, x: u8) -> (r: BigUint)
    ensures
        natural_of(r) == natural_of(a) + x,
{
    a + BigUint::from(x)
}

/// `BigUint`'s `%` by a small modulus, as a byte.
#[verifier::external_body]
fn biguint_rem_u8(a: &BigUint, m: u8) -> (r: u8)
    requires
        m > 0,
    ensures
        r == natural_of(*a) % (m as nat),
{
    (a % BigUint::from(m)).to_u8().unwrap_or_default()
}

/// `BigUint`'s `/` by a small divisor.
#[verifier::external_body]
fn biguint_div_u8(a: &BigUint, m: u8) -> (r: BigUint)
    requires
        m > 0,
    ensures
        natural_of(r) == natural_of(*a) / (m as nat),
{
    a / BigUint::from(m)
}

/// `Zero::is_zero` for `BigUint`.
#[verifier::external_body]
fn biguint_is_zero(a: &BigUint) -> (r: bool)
    ensures
        r == (natural_of(*a) == 0),
{
    a.is_zero()
}

/// The value of decimal digits.
pub open spec fn decimal_value(s: Seq<char>) -> nat
    decreases s.len(),
{
    if s.len() == 0 {
        0
    } else {
        decimal_value(s.drop_last()) * 10 + ((s.last() as u32) - 48) as nat
    }
}

/// One or more decimal digits.
pub open spec fn is_digits(s: Seq<char>) -> bool {
    s.len() >= 1 && forall|i: int| 0 <= i < s.len() ==> '0' <= #[trigger] s[i] && s[i] <= '9'
}

/// `str::parse::<BigUint>`: decimal digits give their value.
#[verifier::external_body]
fn biguint_parse(s: &str) -> (r: Option<BigUint>)
    requires
        is_digits(s@),
    ensures
        r is Some,
        natural_of(r.unwrap()) == decimal_value(s@),
{
    s.parse::<BigUint>().ok()
}

/// `BigUint::to_str_radix` in base 10 or 16: digits without leading zeros,
/// lower case.
#[verifier::external_body]
fn biguint_to_radix(a: &BigUint, radix: u32) -> (r: String)
    requires
        radix == 10 || radix == 16,
    ensures
        r@ == radix_digits(natural_of(*a), radix as nat),
{
    a.to_str_radix(radix)
}


// ---------------------------------------------------------------------------
// Hexadecimal to an identifier.

/// How many JavaScript whitespace characters start the text.
pub open spec fn js_leading(s: Seq<char>) -> nat
    decreases s.len(),
{
    if s.len() > 0 && is_js_space(s[0]) {
        1 + js_leading(s.skip(1))
    } else {
        0
    }
}

/// `parseInt(s, 16)`: leading whitespace skipped, an optional sign, an
/// optional `0x`, then the longest run of hex digits; nothing without one.
pub open spec fn parse_int16(s: Seq<char>) -> Option<int> {
    let a = s.skip(js_leading(s) as int);
    let negative = a.len() > 0 && a[0] == '-';
    let b = if a.len() > 0 && (a[0] == '-' || a[0] == '+') {
        a.skip(1)
    } else {
        a
    };
    let c = if b.len() >= 2 && b[0] == '0' && (b[1] == 'x' || b[1] == 'X') {
        b.skip(2)
    } else {
        b
    };
    let n = hex_run(c, c.len());
    if n == 0 {
        None
    } else if negative {
        Some(-(hex_number(c, n) as int))
    } else {
        Some(hex_number(c, n) as int)
    }
}

/// The byte the two characters at `at` spell, or the single last one.
pub open spec fn group_spec(digits: Seq<char>, at: int) -> Option<u8> {
    let end = if at + 2 <= digits.len() {
        at + 2
    } else {
        digits.len() as int
    };
    if at >= digits.len() {
        None
    } else {
        match parse_int16(digits.subrange(at, end)) {
            Some(v) => if 0 <= v <= 255 {
                Some(v as u8)
            } else {
                None
            },
            None => None,
        }
    }
}

/// Whether `char::is_whitespace` holds of a character, spelled out for ASCII:
/// space, tab, line feed, vertical tab, form feed and carriage return.
pub open spec fn is_space(c: char) -> bool {
    if (c as u32) < 0x80 {
        c == ' ' || ('\u{9}' <= c && c <= '\u{d}')
    } else {
        is_whitespace(c)
    }
}

/// The characters that are not whitespace.
pub open spec fn without_whitespace(s: Seq<char>) -> Seq<char>
    decreases s.len(),
{
    if s.len() == 0 {
        seq![]
    } else if is_space(s.last()) {
        without_whitespace(s.drop_last())
    } else {
        without_whitespace(s.drop_last()).push(s.last())
    }
}

/// The arcs after the first byte: seven bits a byte, the high bit marking
/// that more follow; an arc left open at the end is dropped.
pub open spec fn arcs_from(digits: Seq<char>, at: int, pending: nat, out: Seq<char>) -> Result<Seq<char>, Failure>
    decreases digits.len() + 1 - at,
{
    if at < 0 || at >= digits.len() {
        Ok(out)
    } else {
        match group_spec(digits, at) {
            None => Err(Failure::OidNotHex),
            Some(b) => {
                let p = pending * 128 + (b % 128) as nat;
                if b < 128 {
                    arcs_from(digits, at + 2, 0, out + seq!['.'] + decimal_spec(p))
                } else {
                    arcs_from(digits, at + 2, p, out)
                }
            },
        }
    }
}

/// What `from_hex` answers.
pub open spec fn from_hex_spec(input: Seq<char>) -> Result<Seq<char>, Failure> {
    let d = without_whitespace(input);
    match group_spec(d, 0) {
        None => Err(Failure::OidNotHex),
        Some(f) => arcs_from(d, 2, 0, decimal_spec((f / 40) as nat) + seq!['.'] + decimal_spec((f % 40) as nat)),
    }
}

/// Reads the two characters at `at`, or the single trailing one.
fn group(digits: &Vec<char>, at: usize) -> (r: Result<u8, OperationError>)
    requires
        at <= digits.len(),
    ensures
        match group_spec(digits@, at as int) {
            Some(b) => r == Ok::<u8, OperationError>(b),
            None => r == Err::<u8, OperationError>(OperationError::Failed(Failure::OidNotHex)),
        },
{
    if at >= digits.len() {
        return Err(OperationError::Failed(Failure::OidNotHex));
    }
    let end: usize = if digits.len() - at >= 2 {
        at + 2
    } else {
        digits.len()
    };
    let ghost chunk = digits@.subrange(at as int, end as int);
    let mut i = at;
    assert(chunk.skip(0) == chunk);
    while i < end && js_space(digits[i])
        invariant
            at <= i <= end <= digits.len(),
            end - at <= 2,
            chunk == digits@.subrange(at as int, end as int),
            js_leading(chunk) == (i - at) + js_leading(chunk.skip(i - at)),
        decreases end - i,
    {
        assert(chunk.skip(i - at)[0] == digits@[i as int]);
        assert(chunk.skip(i - at).skip(1) == chunk.skip(i - at + 1));
        i = i + 1;
    }
    let ghost a = chunk.skip(i - at);
    proof {
        if i < end {
            assert(a[0] == digits@[i as int]);
        }
        assert(js_leading(a) == 0);
        assert(a == chunk.skip(js_leading(chunk) as int));
        assert(a == digits@.subrange(i as int, end as int));
    }
    let negative = i < end && digits[i] == '-';
    assert(negative == (a.len() > 0 && a[0] == '-'));
    if i < end && (digits[i] == '-' || digits[i] == '+') {
        i = i + 1;
    }
    let ghost b = digits@.subrange(i as int, end as int);
    assert(b == if a.len() > 0 && (a[0] == '-' || a[0] == '+') {
        a.skip(1)
    } else {
        a
    });
    if end - i >= 2 && digits[i] == '0' && (digits[i + 1] == 'x' || digits[i + 1] == 'X') {
        i = i + 2;
    }
    let ghost c = digits@.subrange(i as int, end as int);
    assert(c == if b.len() >= 2 && b[0] == '0' && (b[1] == 'x' || b[1] == 'X') {
        b.skip(2)
    } else {
        b
    });
    let mut j = i;
    let mut value: u32 = 0;
    while j < end && is_hex_char(digits[j])
        invariant
            i <= j <= end <= digits.len(),
            end - i <= 2,
            c == digits@.subrange(i as int, end as int),
            forall|k: int| 0 <= k < j - i ==> is_hex(#[trigger] c[k]),
            value == hex_number(c, (j - i) as nat),
            j - i == 0 ==> value == 0,
            j - i == 1 ==> value < 16,
            value < 256,
        decreases end - j,
    {
        assert(c[j - i] == digits@[j as int]);
        let d = hex_char_value(digits[j]);
        assert(hex_number(c, (j - i + 1) as nat) == hex_number(c, (j - i) as nat) * 16 + crate::strings::hex_value(
            c[j - i],
        ));
        value = value * 16 + d;
        j = j + 1;
    }
    proof {
        if j < end {
            assert(c[j - i] == digits@[j as int]);
        }
        lemma_hex_run(c, c.len(), (j - i) as nat);
    }
    if j == i {
        return Err(OperationError::Failed(Failure::OidNotHex));
    }
    if negative && value != 0 {
        return Err(OperationError::Failed(Failure::OidNotHex));
    }
    Ok(value as u8)
}

/// The characters that are not whitespace.
fn strip_whitespace(s: &Vec<char>) -> (r: Vec<char>)
    ensures
        r@ == without_whitespace(s@),
{
    let mut out: Vec<char> = Vec::new();
    let mut i: usize = 0;
    while i < s.len()
        invariant
            i <= s.len(),
            out@ == without_whitespace(s@.take(i as int)),
        decreases s.len() - i,
    {
        if !whitespace(s[i]) {
            out.push(s[i]);
        }
        proof {
            assert(s@.take(i + 1).drop_last() == s@.take(i as int));
            assert(s@.take(i + 1).last() == s@[i as int]);
        }
        i = i + 1;
    }
    assert(s@.take(s.len() as int) == s@);
    out
}

/// Decodes hexadecimal into a dotted object identifier. The first byte is
/// split as `b / 40` and `b % 40`; a trailing group that never ends is
/// dropped.
pub fn from_hex(input: &str) -> (r: Result<String, OperationError>)
    ensures
        match from_hex_spec(input@) {
            Ok(t) => r matches Ok(s) && s@ == t,
            Err(f) => r == Err::<String, OperationError>(OperationError::Failed(f)),
        },
{
    let text = chars_of(input);
    let digits = strip_whitespace(&text);
    let first = group(&digits, 0)?;
    let mut output: Vec<char> = decimal((first / 40) as u128);
    output.push('.');
    let tail = decimal((first % 40) as u128);
    let mut k: usize = 0;
    let ghost head = output@;
    while k < tail.len()
        invariant
            k <= tail.len(),
            output@ == head + tail@.take(k as int),
        decreases tail.len() - k,
    {
        output.push(tail[k]);
        k = k + 1;
    }
    assert(tail@.take(tail.len() as int) == tail@);
    let ghost whole = from_hex_spec(input@);
    assert(output@ == decimal_spec((first / 40) as nat) + seq!['.'] + decimal_spec((first % 40) as nat));
    assert(digits@ == without_whitespace(input@));
    assert(group_spec(digits@, 0) == Some(first));
    let mut pending = biguint_zero();
    let mut at: usize = 2;
    while at < digits.len()
        invariant
            digits@ == without_whitespace(input@),
            whole == from_hex_spec(input@),
            whole == arcs_from(digits@, at as int, natural_of(pending), output@),
        decreases digits.len() - at,
    {
        let byte = group(&digits, at)?;
        let ghost before = output@;
        let ghost held = natural_of(pending);
        let low = byte & 0x7f;
        assert(byte & 0x7f == byte % 128) by (bit_vector);
        pending = biguint_mul_u8(pending, 128);
        pending = biguint_add_u8(pending, low);
        if byte & 0x80 == 0 {
            assert(byte < 128) by (bit_vector)
                requires
                    byte & 0x80 == 0,
            ;
            let text = biguint_to_radix(&pending, 10);
            let cs = chars_of(text.as_str());
            output.push('.');
            let ghost mid = output@;
            let mut m: usize = 0;
            while m < cs.len()
                invariant
                    m <= cs.len(),
                    output@ == mid + cs@.take(m as int),
                decreases cs.len() - m,
            {
                output.push(cs[m]);
                m = m + 1;
            }
            proof {
                assert(cs@.take(cs.len() as int) == cs@);
                lemma_radix_ten(natural_of(pending));
            }
            pending = biguint_zero();
            assert(output@ == before + seq!['.'] + decimal_spec(held * 128 + (byte % 128) as nat));
        } else {
            assert(byte >= 128) by (bit_vector)
                requires
                    byte & 0x80 != 0,
            ;
        }
        if digits.len() - at < 2 {
            assert(arcs_from(digits@, at + 2, natural_of(pending), output@) == Ok::<Seq<char>, Failure>(output@));
            at = digits.len();
        } else {
            at = at + 2;
        }
    }
    Ok(string_of(&output))
}

/// Decimal digits in base ten are `decimal_spec`.
pub proof fn lemma_radix_ten(n: nat)
    ensures
        radix_digits(n, 10) == decimal_spec(n),
    decreases n,
{
    if n >= 10 {
        lemma_radix_ten(n / 10);
    }
}


/// Decodes hexadecimal into a dotted object identifier.
pub struct HexToObjectIdentifier {}

impl HexToObjectIdentifier {
    /// Creates the decoder.
    pub fn new() -> Self {
        HexToObjectIdentifier {  }
    }

    /// Decodes `input`.
    pub fn execute(&self, input: &str) -> (r: Result<String, OperationError>)
        ensures
            match from_hex_spec(input@) {
                Ok(t) => r matches Ok(s) && s@ == t,
                Err(f) => r == Err::<String, OperationError>(OperationError::Failed(f)),
            },
    {
        from_hex(input)
    }
}

// ---------------------------------------------------------------------------
// An identifier to hexadecimal.

/// The arcs of a dotted identifier: only digits and dots, and two leading
/// arcs that are not empty.
pub open spec fn oid_arcs_spec(input: Seq<char>) -> Result<Seq<Seq<char>>, Failure> {
    if input.len() == 0 || !(forall|i: int| 0 <= i < input.len() ==> ('0' <= #[trigger] input[i] && input[i] <= '9')
        || input[i] == '.') {
        Err(Failure::OidMalformed)
    } else {
        let arcs = split_spec(input, seq!['.']);
        if arcs.len() < 2 || arcs[0].len() == 0 || arcs[1].len() == 0 {
            Err(Failure::OidTooFewArcs)
        } else {
            Ok(arcs)
        }
    }
}

/// Checks a dotted identifier and splits it into arcs.
pub fn oid_arcs(input: &str) -> (r: Result<Vec<Vec<char>>, OperationError>)
    ensures
        match oid_arcs_spec(input@) {
            Ok(arcs) => r matches Ok(v) && v@.map_values(|a: Vec<char>| a@) == arcs,
            Err(f) => r == Err::<Vec<Vec<char>>, OperationError>(OperationError::Failed(f)),
        },
{
    let text = chars_of(input);
    if text.len() == 0 {
        return Err(OperationError::Failed(Failure::OidMalformed));
    }
    let mut i: usize = 0;
    while i < text.len()
        invariant
            i <= text.len(),
            text@ == input@,
            forall|k: int| 0 <= k < i ==> ('0' <= #[trigger] text@[k] && text@[k] <= '9') || text@[k] == '.',
        decreases text.len() - i,
    {
        let c = text[i];
        if !(('0' <= c && c <= '9') || c == '.') {
            return Err(OperationError::Failed(Failure::OidMalformed));
        }
        i = i + 1;
    }
    let dot: Vec<char> = vec!['.'];
    assert(dot@ == seq!['.']);
    let arcs = split(&text, &dot);
    assert(arcs@.map_values(|a: Vec<char>| a@) =~= split_spec(input@, seq!['.']));
    if arcs.len() < 2 || arcs[0].len() == 0 || arcs[1].len() == 0 {
        return Err(OperationError::Failed(Failure::OidTooFewArcs));
    }
    Ok(arcs)
}

/// A value in hexadecimal, padded to two digits only when it has one.
pub open spec fn format_byte_spec(n: nat) -> Seq<char> {
    let hex = radix_digits(n, 16);
    if hex.len() == 1 {
        seq!['0'] + hex
    } else {
        hex
    }
}

/// Renders a value as hex, padded to two digits only when it needs one.
pub fn format_byte(value: &BigUint) -> (r: String)
    ensures
        r@ == format_byte_spec(natural_of(*value)),
{
    let hex = biguint_to_radix(value, 16);
    let cs = chars_of(hex.as_str());
    if cs.len() == 1 {
        let mut out: Vec<char> = Vec::new();
        out.push('0');
        out.push(cs[0]);
        assert(out@ =~= seq!['0'] + cs@);
        return string_of(&out);
    }
    hex
}

/// Base-128 groups of `m`, most significant first, each with its high bit set.
pub open spec fn continued_groups(m: nat) -> Seq<u8>
    decreases m,
{
    if m < 128 {
        seq![(m + 128) as u8]
    } else {
        continued_groups(m / 128).push((m % 128 + 128) as u8)
    }
}

/// `n` base 128, most significant group first, the high bit set on all but
/// the last.
pub open spec fn base128_bytes(n: nat) -> Seq<u8> {
    if n < 128 {
        seq![n as u8]
    } else {
        continued_groups(n / 128).push((n % 128) as u8)
    }
}

fn push_continued(out: &mut Vec<u8>, m: &BigUint)
    ensures
        final(out)@ == old(out)@ + continued_groups(natural_of(*m)),
    decreases natural_of(*m),
{
    let low = biguint_rem_u8(m, 128);
    let high = biguint_div_u8(m, 128);
    if !biguint_is_zero(&high) {
        push_continued(out, &high);
    }
    assert(low | 0x80 == low + 128) by (bit_vector)
        requires
            low < 128,
    ;
    out.push(low | 0x80);
    assert(out@ =~= old(out)@ + continued_groups(natural_of(*m)));
}

/// Renders a value base-128, continuation bit set on all but the last byte.
pub fn base128(value: &BigUint) -> (r: String)
    ensures
        r@ == hex_lower_spec(base128_bytes(natural_of(*value))),
{
    let mut groups: Vec<u8> = Vec::new();
    let low = biguint_rem_u8(value, 128);
    let high = biguint_div_u8(value, 128);
    if !biguint_is_zero(&high) {
        push_continued(&mut groups, &high);
    }
    groups.push(low);
    assert(groups@ =~= base128_bytes(natural_of(*value)));
    let hex = to_hex_lower(groups.as_slice());
    string_of(&hex)
}

/// Only decimal digits, perhaps none.
pub open spec fn digit_text(s: Seq<char>) -> bool {
    forall|k: int| 0 <= k < s.len() ==> '0' <= #[trigger] s[k] <= '9'
}

/// The value of an arc; an empty arc is zero.
pub open spec fn arc_value(arc: Seq<char>) -> nat {
    decimal_value(arc)
}

/// The later arcs, base 128 each, one after another.
pub open spec fn tail_hex_spec(arcs: Seq<Seq<char>>) -> Seq<char>
    decreases arcs.len(),
{
    if arcs.len() <= 2 {
        seq![]
    } else {
        tail_hex_spec(arcs.drop_last()) + hex_lower_spec(base128_bytes(arc_value(arcs.last())))
    }
}

/// Writes every arc after the first two, each base 128.
pub fn tail_hex(arcs: &Vec<Vec<char>>) -> (r: String)
    requires
        forall|i: int| 0 <= i < arcs@.len() ==> digit_text(#[trigger] arcs@[i]@),
    ensures
        r@ == tail_hex_spec(arcs@.map_values(|a: Vec<char>| a@)),
{
    let ghost all = arcs@.map_values(|a: Vec<char>| a@);
    let mut out: Vec<char> = Vec::new();
    let mut i: usize = 2;
    if arcs.len() < 2 {
        assert(tail_hex_spec(all) == Seq::<char>::empty());
        return string_of(&out);
    }
    while i < arcs.len()
        invariant
            2 <= i <= arcs.len(),
            all == arcs@.map_values(|a: Vec<char>| a@),
            forall|x: int| 0 <= x < arcs@.len() ==> digit_text(#[trigger] arcs@[x]@),
            out@ == tail_hex_spec(all.take(i as int)),
        decreases arcs.len() - i,
    {
        let arc = &arcs[i];
        assert(digit_text(arc@));
        assert(all[i as int] == arc@);
        let value = if arc.len() == 0 {
            proof {
                assert(decimal_value(arc@) == 0);
            }
            biguint_zero()
        } else {
            let text = string_of(arc);
            match biguint_parse(text.as_str()) {
                Some(v) => v,
                None => biguint_zero(),
            }
        };
        assert(natural_of(value) == arc_value(all[i as int]));
        let piece = base128(&value);
        let cs = chars_of(piece.as_str());
        let ghost before = out@;
        let mut k: usize = 0;
        while k < cs.len()
            invariant
                k <= cs.len(),
                out@ == before + cs@.take(k as int),
            decreases cs.len() - k,
        {
            out.push(cs[k]);
            k = k + 1;
        }
        proof {
            assert(cs@.take(cs.len() as int) == cs@);
            assert(all.take(i + 1).drop_last() == all.take(i as int));
            assert(all.take(i + 1).last() == all[i as int]);
        }
        i = i + 1;
    }
    assert(all.take(arcs.len() as int) == all);
    string_of(&out)
}


// ---------------------------------------------------------------------------
// Reading back what was written.

/// A lower-case hex digit is a hex digit of its value, and no whitespace,
/// sign or `x`.
proof fn lemma_lower_digit(v: u8)
    requires
        v < 16,
    ensures
        is_hex(lower_digit(v)),
        hex_value(lower_digit(v)) == v,
        !is_js_space(lower_digit(v)),
        !is_space(lower_digit(v)),
        lower_digit(v) != 'x' && lower_digit(v) != 'X' && lower_digit(v) != '-' && lower_digit(v) != '+',
{
    if v < 10 {
        assert(((v + 48) as char) as u32 == v + 48);
    } else {
        assert(((v + 87) as char) as u32 == v + 87);
    }
}

/// The hex of bytes one after another is their hex one after another.
proof fn lemma_hex_concat(a: Seq<u8>, b: Seq<u8>)
    ensures
        hex_lower_spec(a + b) == hex_lower_spec(a) + hex_lower_spec(b),
        hex_lower_spec(a).len() == 2 * a.len(),
    decreases b.len() + a.len(),
{
    if b.len() > 0 {
        lemma_hex_concat(a, b.drop_last());
        assert((a + b).drop_last() =~= a + b.drop_last());
        assert((a + b).last() == b.last());
    } else {
        assert(a + b =~= a);
        if a.len() > 0 {
            lemma_hex_concat(a.drop_last(), b);
        }
    }
}

/// Two hex digits of a byte, read as a group, give the byte.
proof fn lemma_group_at(d: Seq<char>, at: int, x: u8)
    requires
        0 <= at,
        at + 2 <= d.len(),
        d.subrange(at, at + 2) == hex_lower_spec(seq![x]),
    ensures
        group_spec(d, at) == Some(x),
{
    let hi = lower_digit(x / 16);
    let lo = lower_digit(x % 16);
    lemma_lower_digit(x / 16);
    lemma_lower_digit(x % 16);
    assert(seq![x].drop_last() =~= Seq::<u8>::empty());
    assert(hex_lower_spec(seq![x]) =~= seq![hi, lo]);
    let s = d.subrange(at, at + 2);
    assert(js_leading(s) == 0);
    assert(s.skip(0) =~= s);
    assert(s.skip(1) =~= seq![lo]);
    assert(seq![lo].skip(1) =~= Seq::<char>::empty());
    assert(hex_run(s, 2) == 2) by {
        assert(hex_run(seq![lo].skip(1), 0) == 0);
        assert(hex_run(seq![lo], 1) == 1);
    }
    assert(hex_number(s, 2) == hex_value(hi) * 16 + hex_value(lo)) by {
        assert(hex_number(s, 0) == 0);
        assert(hex_number(s, 1) == hex_value(hi));
    }
    assert(hex_value(hi) * 16 + hex_value(lo) == x);
}

/// Hex digits hold no whitespace to strip.
proof fn lemma_no_whitespace(b: Seq<u8>)
    ensures
        without_whitespace(hex_lower_spec(b)) == hex_lower_spec(b),
    decreases b.len(),
{
    if b.len() > 0 {
        let front = b.drop_last();
        lemma_no_whitespace(front);
        let x = b.last();
        lemma_lower_digit(x / 16);
        lemma_lower_digit(x % 16);
        let h = hex_lower_spec(b);
        let pair = seq![lower_digit(x / 16), lower_digit(x % 16)];
        assert(h == hex_lower_spec(front) + pair);
        assert(h.drop_last() =~= hex_lower_spec(front) + seq![lower_digit(x / 16)]);
        assert((hex_lower_spec(front) + seq![lower_digit(x / 16)]).drop_last() =~= hex_lower_spec(front));
        assert(without_whitespace(hex_lower_spec(front) + seq![lower_digit(x / 16)]) =~= hex_lower_spec(front)
            + seq![lower_digit(x / 16)]);
    }
}

/// A value below 256 written by `format_byte` is the hex of its byte.
proof fn lemma_format_small(f: nat)
    requires
        f <= 255,
    ensures
        format_byte_spec(f) == hex_lower_spec(seq![f as u8]),
{
    assert(seq![f as u8].drop_last() =~= Seq::<u8>::empty());
    let x = f as u8;
    assert(x as nat == f);
    assert((x / 16) as nat == f / 16 && (x % 16) as nat == f % 16);
    let hi = lower_digit(x / 16);
    let lo = lower_digit(x % 16);
    assert(seq![x].drop_last() =~= Seq::<u8>::empty());
    assert(seq![x].last() == x);
    assert(hex_lower_spec(Seq::<u8>::empty()) == Seq::<char>::empty());
    assert(hex_lower_spec(seq![x]) =~= seq![hi, lo]);
    assert(radix_digit(f / 16) == hi);
    assert(radix_digit(f % 16) == lo);
    if f < 16 {
        assert(radix_digits(f, 16) == seq![radix_digit(f)]);
        assert(format_byte_spec(f) =~= seq!['0', radix_digit(f)]);
        assert(radix_digit(0) == '0');
    } else {
        assert(radix_digits(f, 16) == radix_digits(f / 16, 16).push(radix_digit(f % 16)));
        assert(radix_digits(f / 16, 16) == seq![radix_digit(f / 16)]);
        assert(format_byte_spec(f) =~= seq![radix_digit(f / 16), radix_digit(f % 16)]);
    }
}

/// Reading the continued groups of `m` from the start of an arc leaves `m`
/// pending.
proof fn lemma_read_continued(d: Seq<char>, at: int, m: nat, out: Seq<char>)
    requires
        0 <= at,
        at + 2 * continued_groups(m).len() <= d.len(),
        d.subrange(at, at + 2 * continued_groups(m).len()) == hex_lower_spec(continued_groups(m)),
    ensures
        arcs_from(d, at, 0, out) == arcs_from(d, at + 2 * continued_groups(m).len(), m, out),
    decreases m,
{
    let g = continued_groups(m);
    lemma_hex_concat(g, Seq::<u8>::empty());
    if m < 128 {
        let x = (m + 128) as u8;
        assert(g == seq![x]);
        lemma_group_at(d, at, x);
        assert(x % 128 == m);
    } else {
        let front = continued_groups(m / 128);
        let x = (m % 128 + 128) as u8;
        assert(g == front.push(x));
        lemma_hex_concat(front, seq![x]);
        assert(front.push(x) == front + seq![x]);
        let e = at + 2 * front.len();
        assert(d.subrange(at, e) =~= hex_lower_spec(front)) by {
            assert forall|i: int| 0 <= i < e - at implies d.subrange(at, e)[i] == hex_lower_spec(front)[i] by {
                assert(d.subrange(at, at + 2 * g.len())[i] == hex_lower_spec(g)[i]);
            }
        }
        assert(d.subrange(e, e + 2) =~= hex_lower_spec(seq![x])) by {
            assert forall|i: int| 0 <= i < 2 implies d.subrange(e, e + 2)[i] == hex_lower_spec(seq![x])[i] by {
                assert(d.subrange(at, at + 2 * g.len())[2 * front.len() + i] == hex_lower_spec(g)[2 * front.len()
                    + i]);
            }
        }
        lemma_read_continued(d, at, m / 128, out);
        lemma_group_at(d, e, x);
        assert((m / 128) * 128 + (x % 128) as nat == m);
    }
}

/// Reading one arc written base 128 appends its decimal.
proof fn lemma_read_arc(d: Seq<char>, at: int, n: nat, out: Seq<char>)
    requires
        0 <= at,
        at + 2 * base128_bytes(n).len() <= d.len(),
        d.subrange(at, at + 2 * base128_bytes(n).len()) == hex_lower_spec(base128_bytes(n)),
    ensures
        arcs_from(d, at, 0, out) == arcs_from(d, at + 2 * base128_bytes(n).len(), 0, out + seq!['.'] + decimal_spec(n)),
{
    let bytes = base128_bytes(n);
    lemma_hex_concat(bytes, Seq::<u8>::empty());
    if n < 128 {
        assert(bytes == seq![n as u8]);
        lemma_group_at(d, at, n as u8);
    } else {
        let front = continued_groups(n / 128);
        let x = (n % 128) as u8;
        assert(bytes == front.push(x));
        lemma_hex_concat(front, seq![x]);
        assert(front.push(x) == front + seq![x]);
        let e = at + 2 * front.len();
        assert(d.subrange(at, e) =~= hex_lower_spec(front)) by {
            assert forall|i: int| 0 <= i < e - at implies d.subrange(at, e)[i] == hex_lower_spec(front)[i] by {
                assert(d.subrange(at, at + 2 * bytes.len())[i] == hex_lower_spec(bytes)[i]);
            }
        }
        assert(d.subrange(e, e + 2) =~= hex_lower_spec(seq![x])) by {
            assert forall|i: int| 0 <= i < 2 implies d.subrange(e, e + 2)[i] == hex_lower_spec(seq![x])[i] by {
                assert(d.subrange(at, at + 2 * bytes.len())[2 * front.len() + i] == hex_lower_spec(bytes)[2
                    * front.len() + i]);
            }
        }
        lemma_read_continued(d, at, n / 128, out);
        lemma_group_at(d, e, x);
        assert((n / 128) * 128 + (x % 128) as nat == n);
    }
}

/// The later arcs of the first `k` written one after another.
proof fn lemma_tail_prefix(arcs: Seq<Seq<char>>, k: int, c: int)
    requires
        0 <= k <= c <= arcs.len(),
    ensures
        tail_hex_spec(arcs.take(c)).len() >= tail_hex_spec(arcs.take(k)).len(),
        tail_hex_spec(arcs.take(c)).take(tail_hex_spec(arcs.take(k)).len() as int) == tail_hex_spec(arcs.take(k)),
    decreases c - k,
{
    if k == c {
        assert(tail_hex_spec(arcs.take(c)).take(tail_hex_spec(arcs.take(c)).len() as int) =~= tail_hex_spec(
            arcs.take(c),
        ));
    } else {
        lemma_tail_prefix(arcs, k, c - 1);
        assert(arcs.take(c).drop_last() =~= arcs.take(c - 1));
        if c > 2 {
            let a = tail_hex_spec(arcs.take(c - 1));
            let b = tail_hex_spec(arcs.take(c));
            assert(b == a + hex_lower_spec(base128_bytes(arc_value(arcs.take(c).last()))));
            assert(b.take(tail_hex_spec(arcs.take(k)).len() as int) =~= a.take(tail_hex_spec(arcs.take(k)).len() as int));
        } else {
            assert(tail_hex_spec(arcs.take(c)) == Seq::<char>::empty());
            assert(tail_hex_spec(arcs.take(k)) == Seq::<char>::empty());
        }
    }
}

/// An arc written in decimal without leading zeros.
pub open spec fn canonical_arc(arc: Seq<char>) -> bool {
    digit_text(arc) && arc == decimal_spec(decimal_value(arc))
}

/// Reading back from the end of the first `k` arcs gives every arc.
proof fn lemma_read_tail(arcs: Seq<Seq<char>>, first: Seq<char>, k: int)
    requires
        2 <= k <= arcs.len(),
        first.len() == 2,
        forall|i: int| 0 <= i < arcs.len() ==> canonical_arc(#[trigger] arcs[i]),
    ensures
        arcs_from(
            first + tail_hex_spec(arcs),
            (2 + tail_hex_spec(arcs.take(k)).len()) as int,
            0,
            join_spec(arcs.take(k), seq!['.']),
        ) == Ok::<Seq<char>, Failure>(join_spec(arcs, seq!['.'])),
    decreases arcs.len() - k,
{
    let d = first + tail_hex_spec(arcs);
    assert(arcs.take(arcs.len() as int) =~= arcs);
    lemma_tail_prefix(arcs, k, arcs.len() as int);
    if k == arcs.len() {
        assert(d.len() == 2 + tail_hex_spec(arcs.take(k)).len());
    } else {
        let n = arc_value(arcs[k]);
        let t = tail_hex_spec(arcs.take(k));
        let t1 = tail_hex_spec(arcs.take(k + 1));
        assert(arcs.take(k + 1).drop_last() =~= arcs.take(k));
        assert(arcs.take(k + 1).last() == arcs[k]);
        assert(t1 == t + hex_lower_spec(base128_bytes(n)));
        lemma_hex_concat(base128_bytes(n), Seq::<u8>::empty());
        lemma_tail_prefix(arcs, k + 1, arcs.len() as int);
        let at: int = (2 + t.len()) as int;
        let w: int = (2 * base128_bytes(n).len()) as int;
        assert(d.subrange(at, at + w) =~= hex_lower_spec(base128_bytes(n))) by {
            assert forall|i: int| 0 <= i < w implies d.subrange(at, at + w)[i] == hex_lower_spec(base128_bytes(n))[i] by {
                assert(tail_hex_spec(arcs).take(t1.len() as int)[t.len() + i] == t1[t.len() + i]);
                assert(d[at + i] == tail_hex_spec(arcs)[t.len() + i]);
            }
        }
        lemma_read_arc(d, at, n, join_spec(arcs.take(k), seq!['.']));
        assert(canonical_arc(arcs[k]));
        assert(join_spec(arcs.take(k + 1), seq!['.']) == join_spec(arcs.take(k), seq!['.']) + seq!['.'] + arcs[k]);
        lemma_read_tail(arcs, first, k + 1);
    }
}

/// Hex to Object Identifier reads back what Object Identifier to Hex writes,
/// while the first pair fits in one byte with a second arc below forty, and
/// every arc is written without leading zeros.
pub proof fn lemma_oid_roundtrip(arcs: Seq<Seq<char>>)
    requires
        arcs.len() >= 2,
        forall|i: int| 0 <= i < arcs.len() ==> canonical_arc(#[trigger] arcs[i]),
        arc_value(arcs[1]) < 40,
        40 * arc_value(arcs[0]) + arc_value(arcs[1]) <= 255,
    ensures
        from_hex_spec(format_byte_spec(40 * arc_value(arcs[0]) + arc_value(arcs[1])) + tail_hex_spec(arcs)) == Ok::<
            Seq<char>,
            Failure,
        >(join_spec(arcs, seq!['.'])),
{
    let f: nat = 40 * arc_value(arcs[0]) + arc_value(arcs[1]);
    lemma_format_small(f);
    let first = hex_lower_spec(seq![f as u8]);
    lemma_hex_concat(seq![f as u8], Seq::<u8>::empty());
    let d = first + tail_hex_spec(arcs);
    assert(d == format_byte_spec(f) + tail_hex_spec(arcs));
    assert(without_whitespace(d) == d) by {
        lemma_no_whitespace_text(first, tail_hex_spec(arcs), arcs);
    }
    assert(d.subrange(0, 2) =~= first);
    lemma_group_at(d, 0, f as u8);
    assert(f / 40 == arc_value(arcs[0]) && f % 40 == arc_value(arcs[1]));
    assert(arcs.take(2).drop_last() =~= seq![arcs[0]]);
    assert(join_spec(seq![arcs[0]], seq!['.']) == arcs[0]);
    assert(join_spec(arcs.take(2), seq!['.']) == arcs[0] + seq!['.'] + arcs[1]);
    assert(canonical_arc(arcs[0]) && canonical_arc(arcs[1]));
    assert(tail_hex_spec(arcs.take(2)) == Seq::<char>::empty());
    lemma_read_tail(arcs, first, 2);
}

/// The written form holds no whitespace to strip.
proof fn lemma_no_whitespace_text(first: Seq<char>, tail: Seq<char>, arcs: Seq<Seq<char>>)
    requires
        tail == tail_hex_spec(arcs),
        exists|b: u8| first == hex_lower_spec(seq![b]),
    ensures
        without_whitespace(first + tail) == first + tail,
{
    let b = choose|b: u8| first == hex_lower_spec(seq![b]);
    let bytes = seq![b] + tail_bytes(arcs);
    lemma_tail_bytes(arcs);
    lemma_hex_concat(seq![b], tail_bytes(arcs));
    lemma_no_whitespace(bytes);
}

/// The bytes the later arcs are written as.
pub open spec fn tail_bytes(arcs: Seq<Seq<char>>) -> Seq<u8>
    decreases arcs.len(),
{
    if arcs.len() <= 2 {
        seq![]
    } else {
        tail_bytes(arcs.drop_last()) + base128_bytes(arc_value(arcs.last()))
    }
}

proof fn lemma_tail_bytes(arcs: Seq<Seq<char>>)
    ensures
        tail_hex_spec(arcs) == hex_lower_spec(tail_bytes(arcs)),
    decreases arcs.len(),
{
    if arcs.len() > 2 {
        lemma_tail_bytes(arcs.drop_last());
        lemma_hex_concat(tail_bytes(arcs.drop_last()), base128_bytes(arc_value(arcs.last())));
    }
}

} // verus!
