//! Punycode (RFC 3492) for single labels, and the domain-name form that
//! prefixes each non-ASCII label with `xn--`.

use vstd::prelude::*;

use crate::error::{Failure, OperationError};
use crate::strings::{split, split_spec, join_spec, append_chars};
use crate::text::{char_from_scalar, chars_of, lowercase_chars, lowercase_text, string_of};

verus! {

/// The number of digit values.
pub const BASE: u32 = 36;

/// The smallest digit threshold.
pub const TMIN: u32 = 1;

/// The largest digit threshold.
pub const TMAX: u32 = 26;

/// The bias skew.
pub const SKEW: u32 = 38;

/// The damping applied to the first delta.
pub const DAMP: u32 = 700;

/// The bias before the first code point.
pub const INITIAL_BIAS: u32 = 72;

/// The first code point that is not basic.
pub const INITIAL_N: u32 = 128;

/// The threshold of one digit position, clamped to `TMIN..=TMAX`.
pub open spec fn threshold_spec(k: int, bias: int) -> int {
    if k <= bias {
        1
    } else if k >= bias + 26 {
        26
    } else {
        k - bias
    }
}

/// The digit threshold for one round, clamped to `TMIN..=TMAX`.
pub fn threshold(k: u32, bias: u32) -> (t: u32)
    ensures
        t == threshold_spec(k as int, bias as int),
        1 <= t <= 26,
{
    if k <= bias {
        TMIN
    } else if k as u64 >= bias as u64 + TMAX as u64 {
        TMAX
    } else {
        k - bias
    }
}

/// The scaling steps of the bias adaptation: divide by 35 while above 455,
/// counting 36 per step.
pub open spec fn adapt_steps(delta: int, k: int) -> int
    decreases delta,
{
    if delta > 455 {
        adapt_steps(delta / 35, k + 36)
    } else {
        k + (36 * delta) / (delta + 38)
    }
}

/// The bias after a code point (RFC 3492, section 6.1).
pub open spec fn adapt_spec(delta: int, points: int, first: bool) -> int {
    let d = if first {
        delta / 700
    } else {
        delta / 2
    };
    adapt_steps(d + d / points, 0)
}

/// Thirty-five to the power `j`.
pub open spec fn pow35(j: nat) -> nat
    decreases j,
{
    if j == 0 {
        1
    } else {
        35 * pow35((j - 1) as nat)
    }
}

proof fn lemma_adapt_steps_bound(delta: int, k: int, j: nat)
    requires
        0 <= delta <= 455 * pow35(j),
    ensures
        adapt_steps(delta, k) <= k + 36 * j + 35,
        adapt_steps(delta, k) >= k,
    decreases j,
{
    if delta > 455 {
        if j == 0 {
            assert(false);
        }
        let p = pow35((j - 1) as nat);
        assert(delta / 35 <= 455 * p) by (nonlinear_arith)
            requires
                delta <= 455 * (35 * p),
                0 <= delta,
        ;
        lemma_adapt_steps_bound(delta / 35, k + 36, (j - 1) as nat);
    } else {
        assert((36 * delta) / (delta + 38) <= 35) by (nonlinear_arith)
            requires
                0 <= delta,
        ;
        assert((36 * delta) / (delta + 38) >= 0) by (nonlinear_arith)
            requires
                0 <= delta,
        ;
    }
}

/// Retunes the bias after a code point, so later deltas encode compactly.
pub fn adapt(delta: u32, points: u32, first: bool) -> (r: u32)
    requires
        points >= 1,
    ensures
        r == adapt_spec(delta as int, points as int, first),
        r <= 215,
{
    let mut d: u32 = if first {
        delta / DAMP
    } else {
        delta / 2
    };
    assert(d / points <= d) by (nonlinear_arith)
        requires
            points >= 1,
    ;
    d = d + d / points;
    let ghost whole = adapt_steps(d as int, 0);
    let mut k: u32 = 0;
    let ghost mut j: nat = 5;
    proof {
        reveal_with_fuel(pow35, 6);
        lemma_adapt_steps_bound(d as int, 0, 5);
    }
    while d > 455
        invariant
            whole == adapt_steps(d as int, k as int),
            d <= 455 * pow35(j),
            k + 36 * j == 180,
        decreases d,
    {
        assert(j > 0) by {
            if j == 0 {
                assert(pow35(0) == 1);
            }
        }
        let ghost p = pow35((j - 1) as nat);
        assert(d / 35 <= 455 * p) by (nonlinear_arith)
            requires
                d <= 455 * (35 * p),
        ;
        d = d / 35;
        k = k + 36;
        proof {
            j = (j - 1) as nat;
        }
    }
    assert((36 * d) / (d + 38) <= 35) by (nonlinear_arith)
        requires
            d <= 455,
    ;
    k + (36 * d) / (d + 38)
}

/// The basic character of a digit value: `a`-`z`, then `0`-`9`.
pub open spec fn digit_char_spec(d: int) -> char {
    if d < 26 {
        (97 + d) as char
    } else {
        (48 + d - 26) as char
    }
}

/// Maps 0-25 to `a`-`z` and 26-35 to `0`-`9`.
pub fn digit_to_basic(digit: u32) -> (c: char)
    requires
        digit < 36,
    ensures
        c == digit_char_spec(digit as int),
{
    if digit < 26 {
        ((97u8 + digit as u8) as char)
    } else {
        ((48u8 + (digit - 26) as u8) as char)
    }
}

/// The digit value of a basic character, letters in either case.
pub open spec fn digit_value_spec(c: char) -> Option<int> {
    if 'a' <= c && c <= 'z' {
        Some(c as int - 97)
    } else if 'A' <= c && c <= 'Z' {
        Some(c as int - 65)
    } else if '0' <= c && c <= '9' {
        Some(c as int - 48 + 26)
    } else {
        None
    }
}

/// The inverse of `digit_to_basic`, case-insensitive on letters.
pub fn basic_to_digit(c: char) -> (r: Option<u32>)
    ensures
        match digit_value_spec(c) {
            Some(d) => r == Some(d as u32) && d < 36,
            None => r is None,
        },
{
    if 'a' <= c && c <= 'z' {
        Some((c as u32) - 97)
    } else if 'A' <= c && c <= 'Z' {
        Some((c as u32) - 65)
    } else if '0' <= c && c <= '9' {
        Some((c as u32) - 48 + 26)
    } else {
        None
    }
}

/// The digits of one generalized variable-length integer (RFC 3492, 3.3).
pub open spec fn encode_number(q: int, k: int, bias: int) -> Seq<char>
    decreases q,
{
    let t = threshold_spec(k, bias);
    if q < t || q < 0 || t < 1 || t > 26 {
        seq![digit_char_spec(q)]
    } else {
        proof {
            lemma_step_smaller(q, t);
        }
        seq![digit_char_spec(t + (q - t) % (36 - t))] + encode_number((q - t) / (36 - t), k + 36, bias)
    }
}

pub proof fn lemma_step_smaller(q: int, t: int)
    requires
        1 <= t <= 26,
        q >= t,
    ensures
        0 <= (q - t) / (36 - t) < q,
        (q - t) / (36 - t) <= q / 10,
{
    assert(0 <= (q - t) / (36 - t) <= q / 10) by (nonlinear_arith)
        requires
            1 <= t <= 26,
            q >= t,
    ;
}

/// Ten to the power `j`.
pub open spec fn pow10(j: nat) -> nat
    decreases j,
{
    if j == 0 {
        1
    } else {
        10 * pow10((j - 1) as nat)
    }
}

/// Appends the digits of one variable-length integer.
fn push_number(out: &mut Vec<char>, q: u32, bias: u32)
    ensures
        final(out)@ == old(out)@ + encode_number(q as int, 36, bias as int),
{
    let ghost start = out@;
    let ghost whole = encode_number(q as int, 36, bias as int);
    let mut q = q;
    let mut k: u32 = BASE;
    let ghost mut j: nat = 10;
    proof {
        reveal_with_fuel(pow10, 11);
    }
    while q >= threshold(k, bias)
        invariant
            q < pow10(j),
            k + 36 * j == 396,
            start + whole == out@ + encode_number(q as int, k as int, bias as int),
        decreases q,
    {
        let t = threshold(k, bias);
        assert(j > 0) by {
            if j == 0 {
                assert(pow10(0) == 1);
            }
        }
        let ghost p = pow10((j - 1) as nat);
        proof {
            lemma_step_smaller(q as int, t as int);
            assert(q / 10 < p) by (nonlinear_arith)
                requires
                    q < 10 * p,
            ;
        }
        let digit = t + (q - t) % (BASE - t);
        let ghost before = out@;
        out.push(digit_to_basic(digit));
        let ghost rest = encode_number(((q - t) / (BASE - t)) as int, (k + BASE) as int, bias as int);
        assert(encode_number(q as int, k as int, bias as int) == seq![digit_char_spec(digit as int)] + rest);
        assert(before + (seq![digit_char_spec(digit as int)] + rest) == out@ + rest);
        q = (q - t) / (BASE - t);
        k = k + BASE;
        proof {
            j = (j - 1) as nat;
        }
    }
    let t = threshold(k, bias);
    assert(encode_number(q as int, k as int, bias as int) == seq![digit_char_spec(q as int)]);
    out.push(digit_to_basic(q));
}


// ---------------------------------------------------------------------------
// Encoding.

/// The code points of a text.
pub open spec fn points_of(input: Seq<char>) -> Seq<u32> {
    Seq::new(input.len(), |i: int| input[i] as u32)
}

/// The basic (ASCII) characters of a text, in order.
pub open spec fn basic_of(input: Seq<char>) -> Seq<char>
    decreases input.len(),
{
    if input.len() == 0 {
        seq![]
    } else if (input.last() as u32) < 0x80 {
        basic_of(input.drop_last()).push(input.last())
    } else {
        basic_of(input.drop_last())
    }
}

/// The least code point at or above `n`.
pub open spec fn least_at_least(points: Seq<u32>, n: int) -> Option<u32>
    decreases points.len(),
{
    if points.len() == 0 {
        None
    } else {
        let rest = least_at_least(points.drop_last(), n);
        let p = points.last();
        if p < n {
            rest
        } else {
            match rest {
                None => Some(p),
                Some(m) => Some(
                    if p < m {
                        p
                    } else {
                        m
                    },
                ),
            }
        }
    }
}

pub proof fn lemma_least_at_least(points: Seq<u32>, n: int)
    ensures
        least_at_least(points, n) matches Some(m) ==> m >= n,
    decreases points.len(),
{
    if points.len() > 0 {
        lemma_least_at_least(points.drop_last(), n);
    }
}

/// One pass over the code points for the code point `n`: every smaller one
/// adds one to the delta, and each occurrence of `n` writes the delta and
/// retunes the bias. The state is (delta, bias, handled, output); nothing
/// means a delta or count past 32 bits.
pub open spec fn encode_scan(
    points: Seq<u32>,
    j: int,
    n: int,
    basic: int,
    st: (int, int, int, Seq<char>),
) -> Option<(int, int, int, Seq<char>)>
    decreases points.len() - j,
{
    if j >= points.len() || j < 0 {
        Some(st)
    } else {
        let (delta, bias, handled, out) = st;
        let p = points[j];
        let delta1 = if p < n {
            delta + 1
        } else {
            delta
        };
        if delta1 > u32::MAX {
            None
        } else if p != n {
            encode_scan(points, j + 1, n, basic, (delta1, bias, handled, out))
        } else if handled + 1 > u32::MAX {
            None
        } else {
            encode_scan(
                points,
                j + 1,
                n,
                basic,
                (
                    0,
                    adapt_spec(delta1, handled + 1, handled == basic),
                    handled + 1,
                    out + encode_number(delta1, 36, bias),
                ),
            )
        }
    }
}

/// The rounds of the encoder, from code point `n` upwards.
pub open spec fn encode_rounds(points: Seq<u32>, basic: int, n: int, st: (int, int, int, Seq<char>)) -> Option<
    Seq<char>,
>
    decreases 0x1_0000_0000 - n,
{
    let (delta, bias, handled, out) = st;
    if handled >= points.len() {
        Some(out)
    } else if n < 0 || n > u32::MAX {
        None
    } else {
        match least_at_least(points, n) {
            None => None,
            Some(m) => {
                proof {
                    lemma_least_at_least(points, n);
                }
                let advance = (m - n) * (handled + 1);
                if handled + 1 > u32::MAX || advance > u32::MAX || delta + advance > u32::MAX {
                    None
                } else {
                    match encode_scan(points, 0, m as int, basic, (delta + advance, bias, handled, out)) {
                        None => None,
                        Some(st2) => if st2.0 + 1 > u32::MAX || m + 1 > u32::MAX {
                            None
                        } else {
                            encode_rounds(points, basic, m + 1, (st2.0 + 1, st2.1, st2.2, st2.3))
                        },
                    }
                }
            },
        }
    }
}

/// What `encode` answers: the Punycode of one label, or nothing when a number
/// does not fit in 32 bits.
pub open spec fn encode_spec(input: Seq<char>) -> Option<Seq<char>> {
    let basic = basic_of(input);
    let start = if basic.len() > 0 {
        basic.push('-')
    } else {
        basic
    };
    encode_rounds(points_of(input), basic.len() as int, 128, (0, 72, basic.len() as int, start))
}

fn least_point(points: &Vec<u32>, n: u32) -> (r: Option<u32>)
    ensures
        r == least_at_least(points@, n as int),
{
    let mut best: Option<u32> = None;
    let mut i: usize = 0;
    while i < points.len()
        invariant
            i <= points.len(),
            best == least_at_least(points@.take(i as int), n as int),
        decreases points.len() - i,
    {
        let p = points[i];
        proof {
            assert(points@.take(i + 1).drop_last() == points@.take(i as int));
            assert(points@.take(i + 1).last() == p);
        }
        if p >= n {
            best = match best {
                None => Some(p),
                Some(m) => Some(
                    if p < m {
                        p
                    } else {
                        m
                    },
                ),
            };
        }
        i = i + 1;
    }
    assert(points@.take(points.len() as int) == points@);
    best
}

/// Encodes one label: the bare RFC 3492 transform, with no `xn--` prefix.
pub fn encode(input: &str) -> (r: Result<String, OperationError>)
    ensures
        match encode_spec(input@) {
            Some(s) => r matches Ok(out) && out@ == s,
            None => r == Err::<String, OperationError>(OperationError::Failed(Failure::PunycodeOverflow)),
        },
{
    let text = chars_of(input);
    let mut points: Vec<u32> = Vec::new();
    let mut output: Vec<char> = Vec::new();
    let mut i: usize = 0;
    while i < text.len()
        invariant
            i <= text.len(),
            text@ == input@,
            points@ == points_of(text@.take(i as int)),
            output@ == basic_of(text@.take(i as int)),
        decreases text.len() - i,
    {
        let c = text[i];
        proof {
            assert(text@.take(i + 1).drop_last() == text@.take(i as int));
            assert(text@.take(i + 1).last() == c);
        }
        points.push(c as u32);
        if (c as u32) < 0x80 {
            output.push(c);
        }
        assert(points@ == points_of(text@.take(i + 1)));
        i = i + 1;
    }
    assert(text@.take(text.len() as int) == text@);
    let basic_length = output.len();
    let mut handled: usize = basic_length;
    if basic_length > 0 {
        output.push('-');
    }
    let ghost whole = encode_spec(input@);
    let mut n: u32 = INITIAL_N;
    let mut delta: u32 = 0;
    let mut bias: u32 = INITIAL_BIAS;
    proof {
        lemma_basic_len(input@);
    }
    while handled < points.len()
        invariant
            points@ == points_of(input@),
            bias <= 215,
            whole == encode_spec(input@),
            whole == encode_rounds(
                points@,
                basic_length as int,
                n as int,
                (delta as int, bias as int, handled as int, output@),
            ),
        decreases u32::MAX - n,
    {
        let ghost n0 = n as int;
        let ghost d0 = delta as int;
        let least = least_point(&points, n);
        let m = match least {
            Some(m) => m,
            None => {
                return Err(OperationError::Failed(Failure::PunycodeOverflow));
            },
        };
        proof {
            lemma_least_at_least(points@, n as int);
        }
        if handled >= u32::MAX as usize {
            return Err(OperationError::Failed(Failure::PunycodeOverflow));
        }
        let h1 = (handled + 1) as u32;
        assert(((m - n) as u64) * (h1 as u64) <= 0xffff_ffff * 0xffff_ffff) by (nonlinear_arith)
            requires
                (m - n) as u64 <= 0xffff_ffff,
                h1 as u64 <= 0xffff_ffff,
        ;
        let advance: u64 = ((m - n) as u64) * (h1 as u64);
        if advance > u32::MAX as u64 || delta as u64 + advance > u32::MAX as u64 {
            return Err(OperationError::Failed(Failure::PunycodeOverflow));
        }
        delta = delta + advance as u32;
        n = m;
        let ghost scan_whole = encode_scan(
            points@,
            0,
            m as int,
            basic_length as int,
            (delta as int, bias as int, handled as int, output@),
        );
        assert(whole == match scan_whole {
            None => None,
            Some(st2) => if st2.0 + 1 > u32::MAX || m + 1 > u32::MAX {
                None
            } else {
                encode_rounds(points@, basic_length as int, m + 1, (st2.0 + 1, st2.1, st2.2, st2.3))
            },
        });
        let mut j: usize = 0;
        while j < points.len()
            invariant
                j <= points.len(),
                points@ == points_of(input@),
                n == m,
                bias <= 215,
                whole == encode_spec(input@),
                whole == match scan_whole {
                    None => None,
                    Some(st2) => if st2.0 + 1 > u32::MAX || m + 1 > u32::MAX {
                        None
                    } else {
                        encode_rounds(points@, basic_length as int, m + 1, (st2.0 + 1, st2.1, st2.2, st2.3))
                    },
                },
                scan_whole == encode_scan(
                    points@,
                    j as int,
                    m as int,
                    basic_length as int,
                    (delta as int, bias as int, handled as int, output@),
                ),
            decreases points.len() - j,
        {
            let point = points[j];
            if point < n {
                if delta == u32::MAX {
                    assert(scan_whole is None);
                    return Err(OperationError::Failed(Failure::PunycodeOverflow));
                }
                delta = delta + 1;
            }
            if point == n {
                if handled >= u32::MAX as usize {
                    assert(scan_whole is None);
                    return Err(OperationError::Failed(Failure::PunycodeOverflow));
                }
                push_number(&mut output, delta, bias);
                bias = adapt(delta, (handled + 1) as u32, handled == basic_length);
                delta = 0;
                handled = handled + 1;
            }
            j = j + 1;
        }
        assert(scan_whole == Some((delta as int, bias as int, handled as int, output@)));
        if delta == u32::MAX || n == u32::MAX {
            return Err(OperationError::Failed(Failure::PunycodeOverflow));
        }
        delta = delta + 1;
        n = n + 1;
    }
    Ok(string_of(&output))
}

proof fn lemma_basic_len(input: Seq<char>)
    ensures
        basic_of(input).len() <= input.len(),
    decreases input.len(),
{
    if input.len() > 0 {
        lemma_basic_len(input.drop_last());
    }
}

// ---------------------------------------------------------------------------
// Decoding.

/// The index of the last hyphen, or zero when there is none.
pub open spec fn last_hyphen(chars: Seq<char>) -> int
    decreases chars.len(),
{
    if chars.len() == 0 {
        0
    } else if chars.last() == '-' {
        chars.len() - 1
    } else {
        last_hyphen(chars.drop_last())
    }
}

proof fn lemma_last_hyphen(chars: Seq<char>)
    ensures
        0 <= last_hyphen(chars),
        chars.len() > 0 ==> last_hyphen(chars) < chars.len(),
    decreases chars.len(),
{
    if chars.len() > 0 {
        lemma_last_hyphen(chars.drop_last());
    }
}

/// Whether every character is ASCII.
pub open spec fn all_basic(chars: Seq<char>) -> bool {
    forall|j: int| 0 <= j < chars.len() ==> (#[trigger] chars[j] as u32) < 0x80
}

/// One variable-length integer read from `cursor` and added to `i`, with the
/// cursor after it.
pub open spec fn decode_digits(chars: Seq<char>, cursor: int, i: int, weight: int, k: int, bias: int) -> Result<
    (int, int),
    Failure,
>
    decreases chars.len() - cursor,
{
    if cursor < 0 || cursor >= chars.len() {
        Err(Failure::PunycodeTruncated)
    } else {
        match digit_value_spec(chars[cursor]) {
            None => Err(Failure::PunycodeInvalidDigit),
            Some(d) => {
                let t = threshold_spec(k, bias);
                if d * weight > u32::MAX || i + d * weight > u32::MAX {
                    Err(Failure::PunycodeOverflow)
                } else if d < t {
                    Ok((i + d * weight, cursor + 1))
                } else if weight * (36 - t) > u32::MAX {
                    Err(Failure::PunycodeOverflow)
                } else {
                    decode_digits(chars, cursor + 1, i + d * weight, weight * (36 - t), k + 36, bias)
                }
            },
        }
    }
}

pub proof fn lemma_decode_digits(chars: Seq<char>, cursor: int, i: int, weight: int, k: int, bias: int)
    requires
        0 <= i,
        0 <= weight,
    ensures
        decode_digits(chars, cursor, i, weight, k, bias) matches Ok((i2, c2)) ==> cursor < c2 <= chars.len() && i
            <= i2,
    decreases chars.len() - cursor,
{
    if 0 <= cursor < chars.len() {
        match digit_value_spec(chars[cursor]) {
            None => {},
            Some(d) => {
                let t = threshold_spec(k, bias);
                if d >= 0 && t <= 36 {
                    assert(d * weight >= 0) by (nonlinear_arith)
                        requires
                            d >= 0,
                            weight >= 0,
                    ;
                    assert(weight * (36 - t) >= 0) by (nonlinear_arith)
                        requires
                            t <= 36,
                            weight >= 0,
                    ;
                    lemma_decode_digits(chars, cursor + 1, i + d * weight, weight * (36 - t), k + 36, bias);
                }
            },
        }
    }
}

/// The rounds of the decoder: each integer moves the insertion point and code
/// point on, and the code point goes in.
pub open spec fn decode_rounds(chars: Seq<char>, cursor: int, output: Seq<u32>, n: int, i: int, bias: int) -> Result<
    Seq<u32>,
    Failure,
>
    decreases chars.len() - cursor,
{
    if cursor < 0 || cursor >= chars.len() || i < 0 {
        Ok(output)
    } else {
        match decode_digits(chars, cursor, i, 1, 36, bias) {
            Err(e) => Err(e),
            Ok((i2, c2)) => {
                proof {
                    lemma_decode_digits(chars, cursor, i, 1, 36, bias);
                }
                let length = output.len() as int + 1;
                if length > u32::MAX || n + i2 / length > u32::MAX {
                    Err(Failure::PunycodeOverflow)
                } else {
                    decode_rounds(
                        chars,
                        c2,
                        output.insert(i2 % length, (n + i2 / length) as u32),
                        n + i2 / length,
                        i2 % length + 1,
                        adapt_spec(i2 - i, length, i == 0),
                    )
                }
            },
        }
    }
}

/// Whether a number is a Unicode scalar value.
pub open spec fn is_scalar_value(p: u32) -> bool {
    p <= 0x10FFFF && !(0xD800 <= p <= 0xDFFF)
}

/// The characters of the code points, or a refusal if one is not a character.
pub open spec fn chars_of_points(points: Seq<u32>) -> Result<Seq<char>, Failure> {
    if forall|j: int| 0 <= j < points.len() ==> is_scalar_value(#[trigger] points[j]) {
        Ok(Seq::new(points.len(), |j: int| points[j] as char))
    } else {
        Err(Failure::PunycodeNotACharacter)
    }
}

/// What `decode` answers for one label.
pub open spec fn decode_spec(input: Seq<char>) -> Result<Seq<char>, Failure> {
    let split = last_hyphen(input);
    if !all_basic(input.take(split)) {
        Err(Failure::PunycodeNotBasic)
    } else {
        match decode_rounds(
            input,
            if split > 0 {
                split + 1
            } else {
                0
            },
            points_of(input.take(split)),
            128,
            0,
            72,
        ) {
            Err(e) => Err(e),
            Ok(points) => chars_of_points(points),
        }
    }
}

proof fn lemma_pow10_large(j: nat)
    requires
        j >= 10,
    ensures
        pow10(j) >= 10_000_000_000,
    decreases j,
{
    if j == 10 {
        reveal_with_fuel(pow10, 11);
    } else {
        lemma_pow10_large((j - 1) as nat);
    }
}

/// Decodes one label: the bare RFC 3492 transform, with no `xn--` handling.
///
/// Everything before the last hyphen is literal; a hyphen at the very start
/// counts as no hyphen.
pub fn decode(input: &str) -> (r: Result<String, OperationError>)
    ensures
        match decode_spec(input@) {
            Ok(s) => r matches Ok(out) && out@ == s,
            Err(f) => r == Err::<String, OperationError>(OperationError::Failed(f)),
        },
{
    let chars = chars_of(input);
    let mut split: usize = 0;
    let mut idx: usize = 0;
    while idx < chars.len()
        invariant
            idx <= chars.len(),
            split == last_hyphen(chars@.take(idx as int)),
        decreases chars.len() - idx,
    {
        proof {
            assert(chars@.take(idx + 1).drop_last() == chars@.take(idx as int));
            assert(chars@.take(idx + 1).last() == chars@[idx as int]);
        }
        if chars[idx] == '-' {
            split = idx;
        }
        idx = idx + 1;
    }
    assert(chars@.take(chars.len() as int) == chars@);
    proof {
        lemma_last_hyphen(chars@);
    }
    let mut output: Vec<u32> = Vec::new();
    let mut b: usize = 0;
    while b < split
        invariant
            b <= split,
            split <= chars.len(),
            split == last_hyphen(chars@),
            chars@ == input@,
            output@ == points_of(chars@.take(b as int)),
            all_basic(chars@.take(b as int)),
        decreases split - b,
    {
        let c = chars[b];
        if (c as u32) >= 0x80 {
            assert(chars@.take(split as int)[b as int] == c);
            return Err(OperationError::Failed(Failure::PunycodeNotBasic));
        }
        output.push(c as u32);
        assert(output@ == points_of(chars@.take(b + 1)));
        assert(all_basic(chars@.take(b + 1))) by {
            assert forall|j: int| 0 <= j < b + 1 implies (#[trigger] chars@.take(b + 1)[j] as u32) < 0x80 by {
                if j < b {
                    assert(chars@.take(b + 1)[j] == chars@.take(b as int)[j]);
                }
            }
        }
        b = b + 1;
    }
    let mut cursor: usize = if split > 0 {
        split + 1
    } else {
        0
    };
    let ghost whole = decode_rounds(chars@, cursor as int, output@, 128, 0, 72);
    assert(chars@.take(b as int) == chars@.take(split as int));
    assert(decode_spec(input@) == match whole {
        Err(e) => Err(e),
        Ok(points) => chars_of_points(points),
    });
    let mut n: u32 = INITIAL_N;
    let mut i: u32 = 0;
    let mut bias: u32 = INITIAL_BIAS;
    while cursor < chars.len()
        invariant
            chars@ == input@,
            bias <= 215,
            decode_spec(input@) == match whole {
                Err(e) => Err(e),
                Ok(points) => chars_of_points(points),
            },
            whole == decode_rounds(chars@, cursor as int, output@, n as int, i as int, bias as int),
        decreases chars.len() - cursor,
    {
        let previous = i;
        let ghost c0 = cursor as int;
        let ghost digits_whole = decode_digits(chars@, cursor as int, i as int, 1, 36, bias as int);
        let mut weight: u32 = 1;
        let mut k: u32 = BASE;
        let ghost mut j: nat = 0;
        loop
            invariant_except_break
                digits_whole == decode_digits(chars@, cursor as int, i as int, weight as int, k as int, bias as int),
                k == 36 + 36 * j,
                pow10(j) <= weight,
            invariant
                chars@ == input@,
                bias <= 215,
                previous <= i,
                0 <= c0 <= cursor <= chars.len(),
                c0 < chars.len(),
                decode_spec(input@) == match whole {
                    Err(e) => Err(e),
                    Ok(points) => chars_of_points(points),
                },
                whole == decode_rounds(chars@, c0, output@, n as int, previous as int, bias as int),
                digits_whole == decode_digits(chars@, c0, previous as int, 1, 36, bias as int),
            ensures
                digits_whole == Ok::<(int, int), Failure>((i as int, cursor as int)),
            decreases chars.len() - cursor,
        {
            if cursor >= chars.len() {
                assert(digits_whole == Err::<(int, int), Failure>(Failure::PunycodeTruncated));
                return Err(OperationError::Failed(Failure::PunycodeTruncated));
            }
            let c = chars[cursor];
            let digit = match basic_to_digit(c) {
                Some(d) => d,
                None => {
                    return Err(OperationError::Failed(Failure::PunycodeInvalidDigit));
                },
            };
            assert((digit as u64) * (weight as u64) <= 36 * 0xffff_ffff) by (nonlinear_arith)
                requires
                    digit < 36,
                    weight <= 0xffff_ffff,
            ;
            let step: u64 = (digit as u64) * (weight as u64);
            if step > u32::MAX as u64 || i as u64 + step > u32::MAX as u64 {
                return Err(OperationError::Failed(Failure::PunycodeOverflow));
            }
            cursor = cursor + 1;
            i = i + step as u32;
            let t = threshold(k, bias);
            if digit < t {
                break;
            }
            let span: u32 = BASE - t;
            assert((weight as u64) * (span as u64) <= 36 * 0xffff_ffff) by (nonlinear_arith)
                requires
                    span <= 36,
                    weight <= 0xffff_ffff,
            ;
            let grown: u64 = (weight as u64) * (span as u64);
            if grown > u32::MAX as u64 {
                return Err(OperationError::Failed(Failure::PunycodeOverflow));
            }
            proof {
                assert(pow10(j + 1) <= grown) by (nonlinear_arith)
                    requires
                        pow10(j) <= weight,
                        span >= 10,
                        grown == weight * span,
                        pow10(j + 1) == 10 * pow10(j),
                ;
                if j + 1 >= 10 {
                    lemma_pow10_large(j + 1);
                }
            }
            weight = grown as u32;
            k = k + BASE;
            proof {
                j = j + 1;
            }
        }
        proof {
            lemma_decode_digits(chars@, c0, previous as int, 1, 36, bias as int);
        }
        if output.len() >= u32::MAX as usize {
            return Err(OperationError::Failed(Failure::PunycodeOverflow));
        }
        let length = (output.len() + 1) as u32;
        let new_bias = adapt(i - previous, length, previous == 0);
        let q = i / length;
        if n as u64 + q as u64 > u32::MAX as u64 {
            return Err(OperationError::Failed(Failure::PunycodeOverflow));
        }
        n = n + q;
        bias = new_bias;
        let position = i % length;
        output.insert(position as usize, n);
        i = position + 1;
    }
    let ghost points = output@;
    assert(whole == Ok::<Seq<u32>, Failure>(points));
    let mut result: Vec<char> = Vec::new();
    let mut p: usize = 0;
    while p < output.len()
        invariant
            p <= output.len(),
            points == output@,
            decode_spec(input@) == chars_of_points(points),
            forall|x: int| 0 <= x < p ==> is_scalar_value(#[trigger] output@[x]),
            result@ == Seq::new(p as nat, |x: int| output@[x] as char),
        decreases output.len() - p,
    {
        let v = output[p];
        if !(v <= 0x10FFFF && !(0xD800 <= v && v <= 0xDFFF)) {
            return Err(OperationError::Failed(Failure::PunycodeNotACharacter));
        }
        result.push(char_from_scalar(v));
        assert(result@ == Seq::new((p + 1) as nat, |x: int| output@[x] as char));
        p = p + 1;
    }
    Ok(string_of(&result))
}

// ---------------------------------------------------------------------------
// Domain names.

/// The four characters that separate labels.
pub open spec fn is_separator(c: char) -> bool {
    c == '.' || c == '\u{3002}' || c == '\u{ff0e}' || c == '\u{ff61}'
}

/// Every separator written as `.`.
pub open spec fn normalise_separators(d: Seq<char>) -> Seq<char> {
    Seq::new(
        d.len(),
        |i: int|
            if is_separator(d[i]) {
                '.'
            } else {
                d[i]
            },
    )
}

/// Whether every character is at most `~`.
pub open spec fn is_plain_label(label: Seq<char>) -> bool {
    forall|i: int| 0 <= i < label.len() ==> (#[trigger] label[i] as u32) <= 0x7e
}

/// One label encoded (`ascii`) or decoded.
pub open spec fn label_spec(label: Seq<char>, ascii: bool) -> Result<Seq<char>, Failure> {
    if ascii {
        if is_plain_label(label) {
            Ok(label)
        } else {
            match encode_spec(label) {
                Some(s) => Ok("xn--"@ + s),
                None => Err(Failure::PunycodeOverflow),
            }
        }
    } else if label.len() >= 4 && label.take(4) == "xn--"@ {
        decode_spec(lowercase_text(label.skip(4)))
    } else {
        Ok(label)
    }
}

/// The labels mapped and joined with `.`, or the first failure.
pub open spec fn map_labels(labels: Seq<Seq<char>>, ascii: bool) -> Result<Seq<char>, Failure>
    decreases labels.len(),
{
    if labels.len() == 0 {
        Ok(seq![])
    } else {
        match map_labels(labels.drop_last(), ascii) {
            Err(e) => Err(e),
            Ok(prev) => match label_spec(labels.last(), ascii) {
                Err(e) => Err(e),
                Ok(t) => Ok(
                    if labels.len() == 1 {
                        t
                    } else {
                        prev + seq!['.'] + t
                    },
                ),
            },
        }
    }
}

/// A domain mapped label by label. Text before the first `@` is a mailbox
/// and is kept; a second `@` ends the domain.
pub open spec fn domain_spec(input: Seq<char>, ascii: bool) -> Result<Seq<char>, Failure> {
    let pieces = split_spec(input, seq!['@']);
    let head = if pieces.len() >= 2 {
        pieces[0] + seq!['@']
    } else {
        seq![]
    };
    let domain = if pieces.len() >= 2 {
        pieces[1]
    } else {
        pieces[0]
    };
    match map_labels(split_spec(normalise_separators(domain), seq!['.']), ascii) {
        Ok(t) => Ok(head + t),
        Err(e) => Err(e),
    }
}

fn is_separator_char(c: char) -> (r: bool)
    ensures
        r == is_separator(c),
{
    c == '.' || c == '\u{3002}' || c == '\u{ff0e}' || c == '\u{ff61}'
}

fn map_label(label: &Vec<char>, ascii: bool) -> (r: Result<Vec<char>, OperationError>)
    ensures
        match label_spec(label@, ascii) {
            Ok(t) => r matches Ok(v) && v@ == t,
            Err(f) => r == Err::<Vec<char>, OperationError>(OperationError::Failed(f)),
        },
{
    let prefix: Vec<char> = vec!['x', 'n', '-', '-'];
    proof {
        reveal_strlit("xn--");
        assert(prefix@ == "xn--"@);
    }
    if ascii {
        let mut i: usize = 0;
        let mut plain = true;
        while i < label.len()
            invariant
                i <= label.len(),
                plain == (forall|j: int| 0 <= j < i ==> (#[trigger] label@[j] as u32) <= 0x7e),
            decreases label.len() - i,
        {
            if (label[i] as u32) > 0x7e {
                plain = false;
            }
            i = i + 1;
        }
        if plain {
            return Ok(label.clone());
        }
        let text = string_of(label);
        let encoded = encode(text.as_str())?;
        let mut out = prefix;
        let tail = chars_of(encoded.as_str());
        append_chars(&mut out, &tail);
        Ok(out)
    } else {
        let mut starts = label.len() >= 4;
        if starts {
            let mut i: usize = 0;
            while i < 4
                invariant
                    i <= 4 <= label.len(),
                    prefix@ == "xn--"@,
                    prefix.len() == 4,
                    starts == (forall|j: int| 0 <= j < i ==> label@[j] == prefix@[j]),
                decreases 4 - i,
            {
                if label[i] != prefix[i] {
                    starts = false;
                }
                i = i + 1;
            }
            assert(starts == (label@.take(4) == "xn--"@)) by {
                if starts {
                    assert(label@.take(4) =~= prefix@);
                } else {
                    let j = choose|j: int| 0 <= j < 4 && label@[j] != prefix@[j];
                    assert(label@.take(4)[j] != prefix@[j]);
                }
            }
        }
        if !starts {
            return Ok(label.clone());
        }
        let mut rest: Vec<char> = Vec::new();
        let mut i: usize = 4;
        while i < label.len()
            invariant
                4 <= i <= label.len(),
                rest@ == label@.subrange(4, i as int),
            decreases label.len() - i,
        {
            rest.push(label[i]);
            i = i + 1;
        }
        assert(rest@ == label@.skip(4));
        let lowered = lowercase_chars(&rest);
        let text = string_of(&lowered);
        let decoded = decode(text.as_str())?;
        Ok(chars_of(decoded.as_str()))
    }
}

fn map_domain(input: &str, ascii: bool) -> (r: Result<String, OperationError>)
    ensures
        match domain_spec(input@, ascii) {
            Ok(t) => r matches Ok(s) && s@ == t,
            Err(f) => r == Err::<String, OperationError>(OperationError::Failed(f)),
        },
{
    let text = chars_of(input);
    let at: Vec<char> = vec!['@'];
    let pieces = split(&text, &at);
    proof {
        assert(at@ == seq!['@']);
        lemma_split_nonempty_len(text@, at@);
    }
    let ghost ps = split_spec(input@, seq!['@']);
    let mut output: Vec<char> = Vec::new();
    let domain: &Vec<char> = if pieces.len() >= 2 {
        append_chars(&mut output, &pieces[0]);
        output.push('@');
        &pieces[1]
    } else {
        &pieces[0]
    };
    let mut normalised: Vec<char> = Vec::new();
    let mut i: usize = 0;
    while i < domain.len()
        invariant
            i <= domain.len(),
            normalised@ == normalise_separators(domain@.take(i as int)),
        decreases domain.len() - i,
    {
        let c = domain[i];
        normalised.push(
            if is_separator_char(c) {
                '.'
            } else {
                c
            },
        );
        assert(normalised@ =~= normalise_separators(domain@.take(i + 1)));
        i = i + 1;
    }
    assert(domain@.take(domain.len() as int) == domain@);
    let dot: Vec<char> = vec!['.'];
    let labels = split(&normalised, &dot);
    let ghost all = split_spec(normalised@, dot@);
    let ghost head = output@;
    proof {
        assert(dot@ == seq!['.']);
        assert(head == if ps.len() >= 2 { ps[0] + seq!['@'] } else { Seq::<char>::empty() });
        assert(domain@ == if ps.len() >= 2 { ps[1] } else { ps[0] });
        assert(all == split_spec(normalise_separators(if ps.len() >= 2 { ps[1] } else { ps[0] }), seq!['.']));
    }
    let mut k: usize = 0;
    while k < labels.len()
        invariant
            k <= labels.len(),
            labels@.len() == all.len(),
            forall|x: int| 0 <= x < labels@.len() ==> #[trigger] labels@[x]@ == all[x],
            map_labels(all.take(k as int), ascii) matches Ok(t) && output@ == head + t,
            domain_spec(input@, ascii) == match map_labels(all, ascii) {
                Ok(t) => Ok(head + t),
                Err(e) => Err(e),
            },
        decreases labels.len() - k,
    {
        let mapped = map_label(&labels[k], ascii);
        proof {
            assert(all.take(k + 1).drop_last() == all.take(k as int));
            assert(all.take(k + 1).last() == all[k as int]);
        }
        match mapped {
            Ok(t) => {
                if k > 0 {
                    output.push('.');
                }
                append_chars(&mut output, &t);
            },
            Err(e) => {
                proof {
                    lemma_map_labels_err(all, ascii, (k + 1) as nat);
                }
                return Err(e);
            },
        }
        k = k + 1;
    }
    assert(all.take(labels.len() as int) == all);
    Ok(string_of(&output))
}

proof fn lemma_map_labels_err(all: Seq<Seq<char>>, ascii: bool, k: nat)
    requires
        k <= all.len(),
        map_labels(all.take(k as int), ascii) is Err,
    ensures
        map_labels(all, ascii) == map_labels(all.take(k as int), ascii),
    decreases all.len() - k,
{
    if k < all.len() {
        assert(all.take(k as int + 1).drop_last() == all.take(k as int));
        lemma_map_labels_err(all, ascii, k + 1);
    } else {
        assert(all.take(k as int) == all);
    }
}

proof fn lemma_split_nonempty_len(s: Seq<char>, d: Seq<char>)
    requires
        d.len() > 0,
    ensures
        split_spec(s, d).len() >= 1,
    decreases s.len(),
{
}

/// Encodes a domain name, prefixing each label that is not plain ASCII with
/// `xn--`. Label separators come out as `.`.
pub fn to_ascii(input: &str) -> (r: Result<String, OperationError>)
    ensures
        match domain_spec(input@, true) {
            Ok(t) => r matches Ok(s) && s@ == t,
            Err(f) => r == Err::<String, OperationError>(OperationError::Failed(f)),
        },
{
    map_domain(input, true)
}

/// Decodes a domain name, unwrapping each `xn--` label after lower-casing
/// its payload.
pub fn to_unicode(input: &str) -> (r: Result<String, OperationError>)
    ensures
        match domain_spec(input@, false) {
            Ok(t) => r matches Ok(s) && s@ == t,
            Err(f) => r == Err::<String, OperationError>(OperationError::Failed(f)),
        },
{
    map_domain(input, false)
}

/// Which way a Punycode operation goes.
#[derive(Clone, Copy, Debug, PartialEq, Eq, Structural)]
pub enum Direction {
    Encode,
    Decode,
}

/// Punycode, either as a bare label transform or across a whole domain.
pub struct Punycode {
    pub direction: Direction,
}

/// What a Punycode operation answers.
pub open spec fn punycode_spec(direction: Direction, input: Seq<char>, domain: bool) -> Result<Seq<char>, Failure> {
    match (direction, domain) {
        (Direction::Encode, false) => match encode_spec(input) {
            Some(s) => Ok(s),
            None => Err(Failure::PunycodeOverflow),
        },
        (Direction::Encode, true) => domain_spec(input, true),
        (Direction::Decode, false) => decode_spec(input),
        (Direction::Decode, true) => domain_spec(input, false),
    }
}

impl Punycode {
    /// Creates the encoding half.
    pub fn encode() -> (r: Self)
        ensures
            r.direction == Direction::Encode,
    {
        Punycode { direction: Direction::Encode }
    }

    /// Creates the decoding half.
    pub fn decode() -> (r: Self)
        ensures
            r.direction == Direction::Decode,
    {
        Punycode { direction: Direction::Decode }
    }

    /// Runs the operation, on one label or, with `domain`, on a domain name.
    pub fn execute(&self, input: &str, domain: bool) -> (r: Result<String, OperationError>)
        ensures
            match punycode_spec(self.direction, input@, domain) {
                Ok(t) => r matches Ok(s) && s@ == t,
                Err(f) => r == Err::<String, OperationError>(OperationError::Failed(f)),
            },
    {
        match (self.direction, domain) {
            (Direction::Encode, false) => encode(input),
            (Direction::Encode, true) => to_ascii(input),
            (Direction::Decode, false) => decode(input),
            (Direction::Decode, true) => to_unicode(input),
        }
    }
}

} // verus!
