//! Text as one large integer, and back.

use vstd::prelude::*;

use num_bigint::BigInt;
use num_traits::{Signed, Zero};

use crate::error::{Failure, OperationError};
use crate::strings::{decimal_spec, hex_value, is_hex, is_hex_char};
use crate::text::{byte_char, chars_of, str_equals, string_of};
use crate::unixperms::{is_js_space, js_space};

verus! {

/// `num_bigint::BigInt`, an integer of any size.
#[verifier::external_type_specification]
#[verifier::external_body]
pub struct ExBigInt(num_bigint::BigInt);

/// The integer a `BigInt` holds.
pub uninterp spec fn integer_of(v: BigInt) -> int;

/// The value of big-endian bytes.
pub open spec fn be_value(b: Seq<u8>) -> nat
    decreases b.len(),
{
    if b.len() == 0 {
        0
    } else {
        be_value(b.drop_last()) * 256 + (b.last() as nat)
    }
}

/// The fewest big-endian bytes that hold `n`; zero is one zero byte.
pub open spec fn magnitude_bytes(n: nat) -> Seq<u8>
    decreases n,
{
    if n < 256 {
        seq![n as u8]
    } else {
        magnitude_bytes(n / 256).push((n % 256) as u8)
    }
}

/// A digit in lower case.
pub open spec fn radix_digit(d: nat) -> char {
    if d < 10 {
        (48 + d) as char
    } else {
        (87 + d) as char
    }
}

/// The digits of `n` in `radix`, without leading zeros.
pub open spec fn radix_digits(n: nat, radix: nat) -> Seq<char>
    decreases n,
{
    if radix < 2 || n < radix {
        seq![radix_digit(n)]
    } else {
        proof {
            assert(n / radix < n) by (nonlinear_arith)
                requires
                    radix >= 2,
                    n >= radix,
            ;
        }
        radix_digits(n / radix, radix).push(radix_digit(n % radix))
    }
}

/// An integer written in `radix`, a minus sign before a negative one.
pub open spec fn signed_digits(v: int, radix: nat) -> Seq<char> {
    if v < 0 {
        seq!['-'] + radix_digits((-v) as nat, radix)
    } else {
        radix_digits(v as nat, radix)
    }
}

/// An ASCII decimal digit byte.
pub open spec fn is_digit_byte(b: u8) -> bool {
    0x30 <= b <= 0x39
}

/// An ASCII hexadecimal digit byte.
pub open spec fn is_hex_byte(b: u8) -> bool {
    (0x30 <= b <= 0x39) || (0x41 <= b <= 0x46) || (0x61 <= b <= 0x66)
}

/// The value of one digit byte.
pub open spec fn digit_byte_value(b: u8) -> nat {
    if b <= 0x39 {
        (b - 0x30) as nat
    } else if b <= 0x46 {
        (b - 0x37) as nat
    } else {
        (b - 0x57) as nat
    }
}

/// The value of digit bytes in `radix`, most significant first.
pub open spec fn digits_value(b: Seq<u8>, radix: nat) -> nat
    decreases b.len(),
{
    if b.len() == 0 {
        0
    } else {
        digits_value(b.drop_last(), radix) * radix + digit_byte_value(b.last())
    }
}

/// One or more hex digit bytes.
pub open spec fn is_hex_digits(b: Seq<u8>) -> bool {
    b.len() >= 1 && forall|i: int| 0 <= i < b.len() ==> is_hex_byte(#[trigger] b[i])
}

/// An optional sign and one or more decimal digit bytes.
pub open spec fn is_signed_decimal(b: Seq<u8>) -> bool {
    let body = if b.len() > 0 && (b[0] == 0x2b || b[0] == 0x2d) {
        b.skip(1)
    } else {
        b
    };
    body.len() >= 1 && forall|i: int| 0 <= i < body.len() ==> is_digit_byte(#[trigger] body[i])
}

/// The integer a signed decimal spells.
pub open spec fn signed_decimal_value(b: Seq<u8>) -> int {
    if b[0] == 0x2d {
        -(digits_value(b.skip(1), 10) as int)
    } else if b[0] == 0x2b {
        digits_value(b.skip(1), 10) as int
    } else {
        digits_value(b, 10) as int
    }
}

/// `BigInt::zero`.
#[verifier::external_body]
fn big_zero() -> (r: BigInt)
    ensures
        integer_of(r) == 0,
{
    BigInt::zero()
}

/// `BigInt::parse_bytes`: hex digits in base 16, or a signed decimal in base
/// 10, give the integer they spell.
#[verifier::external_body]
fn parse_integer(digits: &[u8], radix: u32) -> (r: Option<BigInt>)
    requires
        (radix == 16 && is_hex_digits(digits@)) || (radix == 10 && is_signed_decimal(digits@)),
    ensures
        r is Some,
        radix == 16 ==> integer_of(r.unwrap()) == digits_value(digits@, 16),
        radix == 10 ==> integer_of(r.unwrap()) == signed_decimal_value(digits@),
{
    BigInt::parse_bytes(digits, radix)
}

/// `BigInt::from_bytes_be` with a positive sign: the big-endian value.
#[verifier::external_body]
fn big_from_bytes(bytes: &[u8]) -> (r: BigInt)
    ensures
        integer_of(r) == be_value(bytes@),
{
    BigInt::from_bytes_be(num_bigint::Sign::Plus, bytes)
}

/// `BigInt::to_bytes_be`, the magnitude: the fewest big-endian bytes.
#[verifier::external_body]
fn big_bytes(v: &BigInt) -> (r: Vec<u8>)
    ensures
        r@ == magnitude_bytes(if integer_of(*v) < 0 {
            (-integer_of(*v)) as nat
        } else {
            integer_of(*v) as nat
        }),
{
    v.to_bytes_be().1
}

/// `Signed::is_positive` for `BigInt`: above zero.
#[verifier::external_body]
fn big_is_positive(v: &BigInt) -> (r: bool)
    ensures
        r == (integer_of(*v) > 0),
{
    v.is_positive()
}

/// `BigInt`'s `Display`, through `to_string`: decimal, minus sign first.
#[verifier::external_body]
fn big_to_decimal(v: &BigInt) -> (r: String)
    ensures
        r@ == signed_digits(integer_of(*v), 10),
{
    v.to_string()
}

/// `BigInt::to_str_radix(16)`: lower-case hex, minus sign first.
#[verifier::external_body]
fn big_to_hex(v: &BigInt) -> (r: String)
    ensures
        r@ == signed_digits(integer_of(*v), 16),
{
    v.to_str_radix(16)
}


/// The characters' code points as bytes; meant for ASCII text.
pub open spec fn ascii_bytes(t: Seq<char>) -> Seq<u8> {
    Seq::new(t.len(), |i: int| (t[i] as u32) as u8)
}

/// An ASCII decimal digit.
pub open spec fn is_decimal_char(c: char) -> bool {
    '0' <= c && c <= '9'
}

/// `0x` or `0X` and at least one hexadecimal digit.
pub open spec fn hex_literal(t: Seq<char>) -> bool {
    t.len() >= 3 && t[0] == '0' && (t[1] == 'x' || t[1] == 'X') && forall|i: int|
        2 <= i < t.len() ==> is_hex(#[trigger] t[i])
}

/// The text after an optional leading sign.
pub open spec fn unsigned_part(t: Seq<char>) -> Seq<char> {
    if t.len() > 0 && (t[0] == '+' || t[0] == '-') {
        t.skip(1)
    } else {
        t
    }
}

/// Decimal digits, with an optional leading sign.
pub open spec fn decimal_literal(t: Seq<char>) -> bool {
    unsigned_part(t).len() >= 1 && forall|i: int|
        0 <= i < unsigned_part(t).len() ==> is_decimal_char(#[trigger] unsigned_part(t)[i])
}

/// The number trimmed text spells, if it spells one: nothing at all is zero,
/// then a hex literal, then a decimal one.
pub open spec fn number_of(t: Seq<char>) -> Option<int> {
    if t.len() == 0 {
        Some(0)
    } else if hex_literal(t) {
        Some(digits_value(ascii_bytes(t.skip(2)), 16) as int)
    } else if decimal_literal(t) {
        Some(signed_decimal_value(ascii_bytes(t)))
    } else {
        None
    }
}

/// A quote mark.
pub open spec fn is_quote(c: char) -> bool {
    c == '"' || c == '\''
}

/// The text without its first and last characters when both are quote
/// marks, not necessarily the same one.
pub open spec fn unquote_spec(t: Seq<char>) -> Seq<char> {
    if t.len() >= 2 && is_quote(t[0]) && is_quote(t.last()) {
        t.subrange(1, t.len() - 1)
    } else {
        t
    }
}

/// Every character at most `U+00FF`.
pub open spec fn is_latin1(t: Seq<char>) -> bool {
    forall|i: int| 0 <= i < t.len() ==> (#[trigger] t[i] as u32) <= 255
}

/// Text read as the digits of a base-256 number, or nothing when a character
/// does not fit in a byte.
pub open spec fn text_number(t: Seq<char>) -> Option<int> {
    if is_latin1(t) {
        Some(be_value(ascii_bytes(t)) as int)
    } else {
        None
    }
}

/// Bytes as the characters they stand for.
pub open spec fn latin1_text(b: Seq<u8>) -> Seq<char> {
    Seq::new(b.len(), |i: int| (b[i] as u32) as char)
}

/// A number written back as text: its bytes as characters, or nothing when
/// it is not above zero.
pub open spec fn number_text(v: int) -> Seq<char> {
    if v > 0 {
        latin1_text(magnitude_bytes(v as nat))
    } else {
        seq![]
    }
}

/// What the input reads as.
pub enum Reading {
    /// A number, in whichever base it was written.
    Number(BigInt),
    /// Text, whose characters become the digits of a number.
    Text,
}

fn all_hex_from(t: &Vec<char>, from: usize) -> (r: bool)
    requires
        from <= t.len(),
    ensures
        r == forall|i: int| from <= i < t.len() ==> is_hex(#[trigger] t@[i]),
{
    let mut i = from;
    while i < t.len()
        invariant
            from <= i <= t.len(),
            forall|k: int| from <= k < i ==> is_hex(#[trigger] t@[k]),
        decreases t.len() - i,
    {
        if !is_hex_char(t[i]) {
            return false;
        }
        i = i + 1;
    }
    true
}

fn ascii_bytes_from(t: &Vec<char>, from: usize) -> (r: Vec<u8>)
    requires
        from <= t.len(),
    ensures
        r@ == ascii_bytes(t@.skip(from as int)),
{
    let mut out: Vec<u8> = Vec::new();
    let mut i = from;
    while i < t.len()
        invariant
            from <= i <= t.len(),
            out@ == ascii_bytes(t@.skip(from as int)).take(i - from),
        decreases t.len() - i,
    {
        out.push((t[i] as u32) as u8);
        assert(out@ =~= ascii_bytes(t@.skip(from as int)).take(i + 1 - from));
        i = i + 1;
    }
    assert(ascii_bytes(t@.skip(from as int)).take(t.len() - from) == ascii_bytes(t@.skip(from as int)));
    out
}

/// Decides what trimmed input is: nothing is zero; `0x` and hex digits, or
/// digits with an optional sign, are numbers; anything else is text.
pub fn classify(trimmed: &Vec<char>) -> (r: Reading)
    ensures
        match number_of(trimmed@) {
            Some(v) => r matches Reading::Number(n) && integer_of(n) == v,
            None => r is Text,
        },
{
    if trimmed.len() == 0 {
        return Reading::Number(big_zero());
    }
    if trimmed.len() >= 3 && trimmed[0] == '0' && (trimmed[1] == 'x' || trimmed[1] == 'X') && all_hex_from(
        trimmed,
        2,
    ) {
        let bytes = ascii_bytes_from(trimmed, 2);
        assert(is_hex_digits(bytes@)) by {
            assert forall|i: int| 0 <= i < bytes@.len() implies is_hex_byte(#[trigger] bytes@[i]) by {
                assert(is_hex(trimmed@[i + 2]));
            }
        }
        match parse_integer(bytes.as_slice(), 16) {
            Some(n) => {
                return Reading::Number(n);
            },
            None => {
                return Reading::Text;
            },
        }
    }
    let start: usize = if trimmed[0] == '+' || trimmed[0] == '-' {
        1
    } else {
        0
    };
    let mut ok = trimmed.len() > start;
    let mut i = start;
    while i < trimmed.len()
        invariant
            start <= i <= trimmed.len(),
            ok == (trimmed.len() > start && forall|k: int| start <= k < i ==> is_decimal_char(#[trigger] trimmed@[k])),
        decreases trimmed.len() - i,
    {
        if !('0' <= trimmed[i] && trimmed[i] <= '9') {
            ok = false;
        }
        i = i + 1;
    }
    proof {
        let body = trimmed@.skip(start as int);
        assert(body == unsigned_part(trimmed@));
        if ok {
            assert forall|k: int| 0 <= k < body.len() implies is_decimal_char(#[trigger] body[k]) by {
                assert(body[k] == trimmed@[k + start]);
            }
            assert(decimal_literal(trimmed@));
        } else if trimmed.len() > start {
            assert(exists|k: int| start <= k < trimmed.len() && !is_decimal_char(#[trigger] trimmed@[k]));
            let k = choose|k: int| start <= k < trimmed.len() && !is_decimal_char(#[trigger] trimmed@[k]);
            assert(body[k - start] == trimmed@[k]);
            assert(!is_decimal_char(body[k - start]));
            assert(0 <= k - start < body.len());
            assert(!is_decimal_char(unsigned_part(trimmed@)[k - start]));
            assert(!decimal_literal(trimmed@));
        } else {
            assert(body.len() == 0);
            assert(!decimal_literal(trimmed@));
        }
    }
    if !ok {
        return Reading::Text;
    }
    let bytes = ascii_bytes_from(trimmed, 0);
    assert(trimmed@.skip(0) == trimmed@);
    assert(is_signed_decimal(bytes@)) by {
        let body = if bytes@.len() > 0 && (bytes@[0] == 0x2b || bytes@[0] == 0x2d) {
            bytes@.skip(1)
        } else {
            bytes@
        };
        assert(start == 1 <==> (bytes@[0] == 0x2b || bytes@[0] == 0x2d));
        assert forall|k: int| 0 <= k < body.len() implies is_digit_byte(#[trigger] body[k]) by {
            assert(is_decimal_char(trimmed@[k + start]));
        }
    }
    match parse_integer(bytes.as_slice(), 10) {
        Some(n) => Reading::Number(n),
        None => Reading::Text,
    }
}

/// Strips a pair of quote marks, if the text is wrapped in one.
pub fn unquote(text: &Vec<char>) -> (r: Vec<char>)
    ensures
        r@ == unquote_spec(text@),
{
    let n = text.len();
    let quoted = n >= 2 && (text[0] == '"' || text[0] == '\'') && (text[n - 1] == '"' || text[n - 1] == '\'');
    let (lo, hi): (usize, usize) = if quoted {
        (1, n - 1)
    } else {
        (0, n)
    };
    let mut out: Vec<char> = Vec::new();
    let mut i = lo;
    while i < hi
        invariant
            lo <= i <= hi <= n == text.len(),
            out@ == text@.subrange(lo as int, i as int),
        decreases hi - i,
    {
        out.push(text[i]);
        i = i + 1;
    }
    assert(!quoted ==> text@.subrange(0, n as int) == text@);
    out
}

/// Reads text as the digits of a base-256 number, or refuses a character
/// above `U+00FF`.
pub fn text_to_number(text: &Vec<char>) -> (r: Option<BigInt>)
    ensures
        match text_number(text@) {
            Some(v) => r matches Some(n) && integer_of(n) == v,
            None => r is None,
        },
{
    let mut bytes: Vec<u8> = Vec::new();
    let mut i: usize = 0;
    while i < text.len()
        invariant
            i <= text.len(),
            is_latin1(text@.take(i as int)),
            bytes@ == ascii_bytes(text@.take(i as int)),
        decreases text.len() - i,
    {
        let code = text[i] as u32;
        if code > 255 {
            assert(!is_latin1(text@));
            return None;
        }
        bytes.push(code as u8);
        assert(bytes@ =~= ascii_bytes(text@.take(i + 1)));
        assert(is_latin1(text@.take(i + 1))) by {
            assert forall|k: int| 0 <= k < i + 1 implies (#[trigger] text@.take(i + 1)[k] as u32) <= 255 by {
                if k < i {
                    assert(text@.take(i + 1)[k] == text@.take(i as int)[k]);
                }
            }
        }
        i = i + 1;
    }
    assert(text@.take(text.len() as int) == text@);
    if bytes.len() == 0 {
        return Some(big_zero());
    }
    Some(big_from_bytes(bytes.as_slice()))
}

/// Writes a number back as the characters its bytes stand for; nothing
/// when it is not above zero.
pub fn number_to_text(value: &BigInt) -> (r: String)
    ensures
        r@ == number_text(integer_of(*value)),
{
    if !big_is_positive(value) {
        return String::new();
    }
    let bytes = big_bytes(value);
    let mut out: Vec<char> = Vec::new();
    let mut i: usize = 0;
    while i < bytes.len()
        invariant
            i <= bytes.len(),
            out@ == latin1_text(bytes@).take(i as int),
        decreases bytes.len() - i,
    {
        let c = byte_char(bytes[i]);
        proof {
            vstd::utf8::char_u32_cast(c, bytes@[i as int] as u32);
        }
        out.push(c);
        assert(out@ =~= latin1_text(bytes@).take(i + 1));
        i = i + 1;
    }
    assert(latin1_text(bytes@).take(bytes.len() as int) == latin1_text(bytes@));
    string_of(&out)
}

/// Writes a number as `0x` and hexadecimal; a negative one keeps its sign
/// after the prefix.
pub fn to_hexadecimal(value: &BigInt) -> (r: String)
    ensures
        r@ == "0x"@ + signed_digits(integer_of(*value), 16),
{
    let mut out: Vec<char> = chars_of("0x");
    let digits = big_to_hex(value);
    let cs = chars_of(digits.as_str());
    let mut i: usize = 0;
    let ghost start = out@;
    while i < cs.len()
        invariant
            i <= cs.len(),
            out@ == start + cs@.take(i as int),
        decreases cs.len() - i,
    {
        out.push(cs[i]);
        i = i + 1;
    }
    assert(cs@.take(cs.len() as int) == cs@);
    string_of(&out)
}

/// JavaScript whitespace trimmed from both ends.
pub open spec fn trim_js(s: Seq<char>) -> Seq<char> {
    let lead = leading_js(s);
    let rest = s.skip(lead as int);
    rest.take(rest.len() - trailing_js(rest))
}

/// How many JavaScript whitespace characters start the text.
pub open spec fn leading_js(s: Seq<char>) -> nat
    decreases s.len(),
{
    if s.len() > 0 && is_js_space(s[0]) {
        1 + leading_js(s.skip(1))
    } else {
        0
    }
}

/// How many JavaScript whitespace characters end the text.
pub open spec fn trailing_js(s: Seq<char>) -> nat
    decreases s.len(),
{
    if s.len() > 0 && is_js_space(s.last()) {
        1 + trailing_js(s.drop_last())
    } else {
        0
    }
}

proof fn lemma_trim_bounds(s: Seq<char>)
    ensures
        leading_js(s) <= s.len(),
        trailing_js(s) <= s.len(),
    decreases s.len(),
{
    if s.len() > 0 {
        lemma_trim_bounds(s.skip(1));
        lemma_trim_bounds(s.drop_last());
    }
}

fn trim_text(s: &Vec<char>) -> (r: Vec<char>)
    ensures
        r@ == trim_js(s@),
{
    let mut lo: usize = 0;
    assert(s@.skip(0) == s@);
    while lo < s.len() && js_space(s[lo])
        invariant
            lo <= s.len(),
            leading_js(s@) == lo + leading_js(s@.skip(lo as int)),
        decreases s.len() - lo,
    {
        assert(s@.skip(lo as int).skip(1) == s@.skip(lo + 1));
        lo = lo + 1;
    }
    let ghost rest = s@.skip(lo as int);
    let mut hi = s.len();
    assert(rest.take(rest.len() as int) == rest);
    while hi > lo && js_space(s[hi - 1])
        invariant
            lo <= hi <= s.len(),
            rest == s@.skip(lo as int),
            trailing_js(rest) == (s.len() - hi) + trailing_js(rest.take(hi - lo)),
        decreases hi,
    {
        assert(rest.take(hi - lo).drop_last() == rest.take(hi - lo - 1));
        assert(rest.take(hi - lo).last() == s@[hi - 1]);
        hi = hi - 1;
    }
    let mut out: Vec<char> = Vec::new();
    let mut i = lo;
    while i < hi
        invariant
            lo <= i <= hi <= s.len(),
            out@ == s@.subrange(lo as int, i as int),
        decreases hi - i,
    {
        out.push(s[i]);
        i = i + 1;
    }
    assert(s@.subrange(lo as int, hi as int) == rest.take(rest.len() - trailing_js(rest)));
    out
}

/// What the conversion answers for an output format.
pub open spec fn conversion_spec(input: Seq<char>, format: Seq<char>) -> Result<Seq<char>, Failure> {
    let t = trim_js(input);
    let value = match number_of(t) {
        Some(v) => Some(v),
        None => text_number(unquote_spec(t)),
    };
    match value {
        None => Err(Failure::TextIntegerBeyondLatin1),
        Some(v) => Ok(
            if format == "Decimal"@ {
                signed_digits(v, 10)
            } else if format == "Hexadecimal"@ {
                "0x"@ + signed_digits(v, 16)
            } else {
                number_text(v)
            },
        ),
    }
}

/// The decimal digits of `n` are decimal characters, and they spell `n`.
proof fn lemma_decimal_digits(n: nat)
    ensures
        radix_digits(n, 10).len() >= 1,
        forall|i: int| 0 <= i < radix_digits(n, 10).len() ==> is_decimal_char(#[trigger] radix_digits(n, 10)[i]),
        digits_value(ascii_bytes(radix_digits(n, 10)), 10) == n,
    decreases n,
{
    let d = radix_digits(n, 10);
    assert(((48 + n % 10) as char) as u32 == 48 + n % 10);
    if n < 10 {
        assert(ascii_bytes(d) =~= seq![(48 + n) as u8]);
        assert(ascii_bytes(d).drop_last() =~= Seq::<u8>::empty());
        assert(digit_byte_value(ascii_bytes(d).last()) == n);
        assert(digits_value(ascii_bytes(d).drop_last(), 10) == 0);
        assert(digits_value(ascii_bytes(d), 10) == n);
    } else {
        lemma_decimal_digits(n / 10);
        let p = radix_digits(n / 10, 10);
        assert(d == p.push(radix_digit(n % 10)));
        assert(ascii_bytes(d).drop_last() =~= ascii_bytes(p));
        assert(ascii_bytes(d).last() == (48 + n % 10) as u8);
        assert(digit_byte_value(ascii_bytes(d).last()) == n % 10);
        assert(digits_value(ascii_bytes(d), 10) == digits_value(ascii_bytes(p), 10) * 10 + n % 10);
        assert(n == (n / 10) * 10 + n % 10);
        assert(digits_value(ascii_bytes(p), 10) == n / 10);
        assert(digits_value(ascii_bytes(d), 10) == n);
        assert forall|i: int| 0 <= i < d.len() implies is_decimal_char(#[trigger] d[i]) by {
            if i < p.len() {
                assert(d[i] == p[i]);
            }
        }
    }
}

/// Text with no JavaScript whitespace at either end is its own trimming.
proof fn lemma_trim_untouched(s: Seq<char>)
    requires
        s.len() >= 1,
        !is_js_space(s[0]),
        !is_js_space(s.last()),
    ensures
        trim_js(s) == s,
{
    assert(leading_js(s) == 0);
    assert(s.skip(0) =~= s);
    assert(trailing_js(s) == 0);
    assert(s.take(s.len() as int) =~= s);
}

/// What `Decimal` writes reads back as the same number.
pub proof fn lemma_decimal_reads_back(v: int)
    ensures
        number_of(trim_js(signed_digits(v, 10))) == Some(v),
{
    let n: nat = if v < 0 {
        (-v) as nat
    } else {
        v as nat
    };
    lemma_decimal_digits(n);
    let d = radix_digits(n, 10);
    let w = signed_digits(v, 10);
    assert(is_decimal_char(d[0]));
    assert(is_decimal_char(d.last()));
    if v < 0 {
        assert(w == seq!['-'] + d);
        assert(w.last() == d.last());
        lemma_trim_untouched(w);
        assert(unsigned_part(w) =~= d);
        assert(!hex_literal(w));
        assert(ascii_bytes(w).skip(1) =~= ascii_bytes(d));
        assert(ascii_bytes(w)[0] == 0x2d);
    } else {
        assert(w == d);
        lemma_trim_untouched(w);
        assert(unsigned_part(w) =~= d);
        assert(!hex_literal(w)) by {
            if w.len() >= 2 {
                assert(is_decimal_char(w[1]));
            }
        }
        assert(ascii_bytes(w)[0] != 0x2d && ascii_bytes(w)[0] != 0x2b);
    }
}

/// Big-endian bytes that do not start with zero have a value of at least one.
proof fn lemma_be_value_positive(b: Seq<u8>)
    requires
        b.len() >= 1,
        b[0] != 0,
    ensures
        be_value(b) >= 1,
    decreases b.len(),
{
    if b.len() > 1 {
        assert(b.drop_last()[0] == b[0]);
        lemma_be_value_positive(b.drop_last());
    }
}

/// The fewest bytes holding the value of bytes that do not start with zero
/// are those bytes.
proof fn lemma_magnitude_of_value(b: Seq<u8>)
    requires
        b.len() >= 1,
        b[0] != 0,
    ensures
        magnitude_bytes(be_value(b)) == b,
    decreases b.len(),
{
    if b.len() == 1 {
        assert(b.drop_last() =~= Seq::<u8>::empty());
        assert(be_value(b.drop_last()) == 0);
        assert(be_value(b) == b[0] as nat);
        assert(magnitude_bytes(be_value(b)) =~= b);
    } else {
        let p = b.drop_last();
        assert(p[0] == b[0]);
        lemma_be_value_positive(p);
        lemma_magnitude_of_value(p);
        let n = be_value(b);
        assert(n == be_value(p) * 256 + (b.last() as nat));
        assert(n / 256 == be_value(p) && n % 256 == b.last() as nat) by (nonlinear_arith)
            requires
                n == be_value(p) * 256 + (b.last() as nat),
                b.last() < 256,
        ;
        assert(n >= 256);
        assert(magnitude_bytes(n) == magnitude_bytes(n / 256).push((n % 256) as u8));
        assert(b =~= p.push(b.last()));
    }
}

/// Reading text as a number and writing the number back as text gives the
/// text back, for non-empty text of characters at most `U+00FF` that does
/// not start with a NUL (which would be a leading zero of the number).
pub proof fn lemma_text_number_reads_back(t: Seq<char>)
    requires
        t.len() >= 1,
        t[0] != '\0',
        is_latin1(t),
    ensures
        text_number(t) is Some,
        text_number(t)->Some_0 > 0,
        number_text(text_number(t)->Some_0) == t,
{
    let b = ascii_bytes(t);
    assert(b[0] != 0) by {
        assert(t[0] as u32 <= 255);
        if b[0] == 0 {
            assert((t[0] as u32) == 0);
            vstd::utf8::char_u32_cast(t[0], 0);
            assert(t[0] == '\0');
        }
    }
    lemma_be_value_positive(b);
    lemma_magnitude_of_value(b);
    assert(latin1_text(b) =~= t) by {
        assert forall|i: int| 0 <= i < t.len() implies latin1_text(b)[i] == t[i] by {
            vstd::utf8::char_u32_cast(t[i], t[i] as u32);
            assert(t[i] as u32 <= 255);
        }
    }
}

/// Text read as a number and that number written back as text is the text,
/// for text that is read as text at all: Latin-1, not itself a number, not
/// quoted, not padded with whitespace, and not starting with a NUL, which
/// would be a leading zero of the number.
pub proof fn lemma_text_roundtrip(t: Seq<char>)
    requires
        t.len() >= 1,
        t[0] != '\0',
        is_latin1(t),
        trim_js(t) == t,
        number_of(t) is None,
        unquote_spec(t) == t,
    ensures
        conversion_spec(t, "Decimal"@) is Ok,
        conversion_spec(conversion_spec(t, "Decimal"@)->Ok_0, "String"@) == Ok::<Seq<char>, Failure>(t),
{
    reveal_strlit("Decimal");
    reveal_strlit("Hexadecimal");
    reveal_strlit("String");
    let b = ascii_bytes(t);
    let v = be_value(b) as int;
    assert(b[0] != 0) by {
        assert(t[0] as u32 <= 255);
        if b[0] == 0 {
            assert((t[0] as u32) == 0);
            vstd::utf8::char_u32_cast(t[0], 0);
            assert(t[0] == '\0');
        }
    }
    lemma_be_value_positive(b);
    assert(conversion_spec(t, "Decimal"@) == Ok::<Seq<char>, Failure>(signed_digits(v, 10)));
    lemma_decimal_reads_back(v);
    lemma_magnitude_of_value(b);
    assert(latin1_text(b) =~= t) by {
        assert forall|i: int| 0 <= i < t.len() implies latin1_text(b)[i] == t[i] by {
            vstd::utf8::char_u32_cast(t[i], t[i] as u32);
            assert(t[i] as u32 <= 255);
        }
    }
    assert(number_text(v) == t);
    assert("String"@ != "Decimal"@) by {
        assert("String"@.len() != "Decimal"@.len());
    }
    assert("String"@ != "Hexadecimal"@) by {
        assert("String"@.len() != "Hexadecimal"@.len());
    }
}

/// Text as one large integer, and back.
pub struct TextIntegerConversion {}

impl TextIntegerConversion {
    /// Creates the text-integer conversion.
    pub fn new() -> Self {
        TextIntegerConversion {  }
    }

    /// Reads the trimmed input as a number, or as text whose characters are
    /// the digits of one, and writes it as `Decimal`, `Hexadecimal`, or,
    /// for anything else, as text.
    pub fn execute(&self, input: &str, output_format: &str) -> (r: Result<String, OperationError>)
        ensures
            match conversion_spec(input@, output_format@) {
                Ok(t) => r matches Ok(s) && s@ == t,
                Err(f) => r == Err::<String, OperationError>(OperationError::Failed(f)),
            },
    {
        let text = chars_of(input);
        let trimmed = trim_text(&text);
        let value = match classify(&trimmed) {
            Reading::Number(n) => n,
            Reading::Text => {
                let unquoted = unquote(&trimmed);
                match text_to_number(&unquoted) {
                    Some(n) => n,
                    None => {
                        return Err(OperationError::Failed(Failure::TextIntegerBeyondLatin1));
                    },
                }
            },
        };
        if str_equals(output_format, "Decimal") {
            Ok(big_to_decimal(&value))
        } else if str_equals(output_format, "Hexadecimal") {
            Ok(to_hexadecimal(&value))
        } else {
            Ok(number_to_text(&value))
        }
    }
}

} // verus!
