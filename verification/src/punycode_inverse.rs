//! Decoding undoes encoding: the proof that a Punycode label reads back as
//! the text it was written from.
//!
//! The decoder's state after each number it reads is tied to the encoder's
//! state at the moment it wrote that number. After `k` numbers the decoder
//! holds the code points the encoder has handled, in their places: every
//! basic one, every one below the current code point, and those equal to it
//! that the scan has passed.

use vstd::prelude::*;

use crate::error::Failure;
use crate::punycode::{
    adapt_spec, basic_of, decode_digits, decode_rounds, decode_spec, digit_char_spec, digit_value_spec,
    encode_number, encode_rounds, encode_scan, encode_spec, last_hyphen, least_at_least, lemma_step_smaller,
    points_of, threshold_spec, all_basic, chars_of_points, is_scalar_value,
};

verus! {

/// A character that a digit is written as: a lower-case letter or a decimal
/// digit.
pub open spec fn is_digit_char(c: char) -> bool {
    ('a' <= c && c <= 'z') || ('0' <= c && c <= '9')
}

/// Text made of digit characters only.
pub open spec fn digit_text(s: Seq<char>) -> bool {
    forall|i: int| 0 <= i < s.len() ==> is_digit_char(#[trigger] s[i])
}

proof fn lemma_threshold_range(k: int, bias: int)
    ensures
        1 <= threshold_spec(k, bias) <= 26,
{
}

/// A digit is written as a digit character and read back as itself.
proof fn lemma_digit_char(d: int)
    requires
        0 <= d < 36,
    ensures
        is_digit_char(digit_char_spec(d)),
        digit_value_spec(digit_char_spec(d)) == Some(d),
{
    if d < 26 {
        assert(((97 + d) as char) as u32 == 97 + d);
    } else {
        assert(((48 + d - 26) as char) as u32 == 48 + d - 26);
    }
}

/// A number is written in digit characters, at least one.
proof fn lemma_number_digits(q: int, k: int, bias: int)
    requires
        q >= 0,
    ensures
        encode_number(q, k, bias).len() >= 1,
        digit_text(encode_number(q, k, bias)),
    decreases q,
{
    let t = threshold_spec(k, bias);
    lemma_threshold_range(k, bias);
    if q < t {
        lemma_digit_char(q);
    } else {
        lemma_step_smaller(q, t);
        let d = t + (q - t) % (36 - t);
        lemma_digit_char(d);
        lemma_number_digits((q - t) / (36 - t), k + 36, bias);
        let rest = encode_number((q - t) / (36 - t), k + 36, bias);
        assert(encode_number(q, k, bias) == seq![digit_char_spec(d)] + rest);
        assert forall|i: int| 0 <= i < encode_number(q, k, bias).len() implies is_digit_char(
            #[trigger] encode_number(q, k, bias)[i],
        ) by {
            if i > 0 {
                assert(encode_number(q, k, bias)[i] == rest[i - 1]);
            }
        }
    }
}

/// Reading a number back from where it was written gives the number, times
/// the weight, added in; or a refusal for a value past 32 bits.
proof fn lemma_decode_number(s: Seq<char>, c: int, q: int, k: int, bias: int, i: int, w: int)
    requires
        q >= 0,
        i >= 0,
        w >= 1,
        0 <= c,
        c + encode_number(q, k, bias).len() <= s.len(),
        s.subrange(c, c + encode_number(q, k, bias).len()) == encode_number(q, k, bias),
    ensures
        decode_digits(s, c, i, w, k, bias) == Ok::<(int, int), Failure>((i + q * w, c + encode_number(q, k, bias).len()))
            || decode_digits(s, c, i, w, k, bias) == Err::<(int, int), Failure>(Failure::PunycodeOverflow),
    decreases q,
{
    let t = threshold_spec(k, bias);
    lemma_threshold_range(k, bias);
    let e = encode_number(q, k, bias);
    if q < t {
        lemma_digit_char(q);
        assert(e == seq![digit_char_spec(q)]);
        assert(s[c] == e[0]);
    } else {
        lemma_step_smaller(q, t);
        let d = t + (q - t) % (36 - t);
        let q2 = (q - t) / (36 - t);
        lemma_digit_char(d);
        let rest = encode_number(q2, k + 36, bias);
        assert(e == seq![digit_char_spec(d)] + rest);
        assert(s[c] == e[0]);
        assert(d >= t);
        assert(d * w >= 0 && w * (36 - t) >= 1) by (nonlinear_arith)
            requires
                d >= 0,
                w >= 1,
                t <= 26,
        ;
        if d * w <= u32::MAX && i + d * w <= u32::MAX && w * (36 - t) <= u32::MAX {
            assert(s.subrange(c + 1, c + 1 + rest.len()) =~= rest) by {
                assert forall|x: int| 0 <= x < rest.len() implies s.subrange(c + 1, c + 1 + rest.len())[x]
                    == rest[x] by {
                    assert(s.subrange(c, c + e.len())[x + 1] == e[x + 1]);
                }
            }
            lemma_decode_number(s, c + 1, q2, k + 36, bias, i + d * w, w * (36 - t));
            assert(i + d * w + q2 * (w * (36 - t)) == i + q * w) by (nonlinear_arith)
                requires
                    d == t + (q - t) % (36 - t),
                    q2 == (q - t) / (36 - t),
                    1 <= t <= 26,
                    q >= t,
            ;
        }
    }
}


/// Whether the code point at `k` has been handled by the time the scan for
/// code point `m` reaches position `j`: it is below `m`, or equal to it and
/// already passed.
pub open spec fn handled(p: Seq<u32>, m: int, j: int, k: int) -> bool {
    p[k] < m || (p[k] == m && k < j)
}

/// The handled code points among the first `upto`, in order: what the
/// decoder holds at that point of the encoder's scan.
pub open spec fn handled_points(p: Seq<u32>, m: int, j: int, upto: int) -> Seq<u32>
    decreases upto,
{
    if upto <= 0 {
        seq![]
    } else if handled(p, m, j, upto - 1) {
        handled_points(p, m, j, upto - 1).push(p[upto - 1])
    } else {
        handled_points(p, m, j, upto - 1)
    }
}

proof fn lemma_hp_len(p: Seq<u32>, m: int, j: int, upto: int)
    requires
        upto >= 0,
    ensures
        handled_points(p, m, j, upto).len() <= upto,
    decreases upto,
{
    if upto > 0 {
        lemma_hp_len(p, m, j, upto - 1);
    }
}

proof fn lemma_hp_mono(p: Seq<u32>, m: int, j: int, a: int, c: int)
    requires
        0 <= a <= c,
    ensures
        handled_points(p, m, j, a).len() <= handled_points(p, m, j, c).len(),
    decreases c - a,
{
    if a < c {
        lemma_hp_mono(p, m, j, a, c - 1);
    }
}

/// When every one of the first `upto` is handled, they are all there.
proof fn lemma_hp_all(p: Seq<u32>, m: int, j: int, upto: int)
    requires
        0 <= upto <= p.len(),
        handled_points(p, m, j, upto).len() >= upto,
    ensures
        handled_points(p, m, j, upto) == p.take(upto),
    decreases upto,
{
    if upto > 0 {
        lemma_hp_len(p, m, j, upto - 1);
        assert(handled(p, m, j, upto - 1));
        lemma_hp_all(p, m, j, upto - 1);
        assert(p.take(upto) == p.take(upto - 1).push(p[upto - 1]));
    }
}

/// The same handled positions give the same points.
proof fn lemma_hp_same(p: Seq<u32>, m1: int, j1: int, m2: int, j2: int, upto: int)
    requires
        upto <= p.len(),
        forall|k: int| 0 <= k < upto ==> handled(p, m1, j1, k) == handled(p, m2, j2, k),
    ensures
        handled_points(p, m1, j1, upto) == handled_points(p, m2, j2, upto),
    decreases upto,
{
    if upto > 0 {
        lemma_hp_same(p, m1, j1, m2, j2, upto - 1);
    }
}

/// Handling the code point at `j`, equal to `m`, puts it in at the number of
/// handled points before it.
proof fn lemma_hp_insert(p: Seq<u32>, m: int, j: int, upto: int)
    requires
        0 <= j < p.len(),
        p[j] == m,
        j < upto <= p.len(),
    ensures
        handled_points(p, m, j + 1, upto) == handled_points(p, m, j, upto).insert(
            handled_points(p, m, j, j).len() as int,
            m as u32,
        ),
    decreases upto,
{
    let pos = handled_points(p, m, j, j).len() as int;
    if upto == j + 1 {
        lemma_hp_same(p, m, j + 1, m, j, j);
        assert(handled(p, m, j + 1, j));
        assert(!handled(p, m, j, j));
        assert(handled_points(p, m, j, j + 1) == handled_points(p, m, j, j));
        assert(handled_points(p, m, j, j).insert(pos, m as u32) =~= handled_points(p, m, j, j).push(p[j]));
    } else {
        lemma_hp_insert(p, m, j, upto - 1);
        lemma_hp_mono(p, m, j, j, upto - 1);
        let prev = handled_points(p, m, j, upto - 1);
        assert(handled(p, m, j + 1, upto - 1) == handled(p, m, j, upto - 1));
        if handled(p, m, j, upto - 1) {
            assert(prev.insert(pos, m as u32).push(p[upto - 1]) =~= prev.push(p[upto - 1]).insert(
                pos,
                m as u32,
            ));
        }
    }
}

/// The scan passing a position whose code point is not `m` changes nothing
/// handled, and counts it before the scan point when it is below `m`.
proof fn lemma_hp_pass(p: Seq<u32>, m: int, j: int)
    requires
        0 <= j < p.len(),
        p[j] != m,
    ensures
        handled_points(p, m, j + 1, p.len() as int) == handled_points(p, m, j, p.len() as int),
        handled_points(p, m, j + 1, j + 1).len() == handled_points(p, m, j, j).len() + if p[j] < m {
            1int
        } else {
            0int
        },
{
    lemma_hp_same(p, m, j + 1, m, j, p.len() as int);
    lemma_hp_same(p, m, j + 1, m, j, j);
}

/// After handling the code point at `j`, one more is handled before `j + 1`.
proof fn lemma_hp_take(p: Seq<u32>, m: int, j: int)
    requires
        0 <= j < p.len(),
        p[j] == m,
    ensures
        handled_points(p, m, j + 1, j + 1).len() == handled_points(p, m, j, j).len() + 1,
{
    lemma_hp_same(p, m, j + 1, m, j, j);
}

/// What the least code point at or above `n` is.
proof fn lemma_least(points: Seq<u32>, n: int)
    ensures
        match least_at_least(points, n) {
            Some(m) => m >= n && (exists|k: int| 0 <= k < points.len() && points[k] == m) && forall|k: int|
                0 <= k < points.len() && points[k] >= n ==> points[k] >= m,
            None => forall|k: int| 0 <= k < points.len() ==> points[k] < n,
        },
    decreases points.len(),
{
    if points.len() > 0 {
        let rest = points.drop_last();
        lemma_least(rest, n);
        let last = points.len() - 1;
        assert(forall|k: int| 0 <= k < rest.len() ==> rest[k] == points[k]);
        match least_at_least(rest, n) {
            Some(m) => {
                let k0 = choose|k: int| 0 <= k < rest.len() && rest[k] == m;
                assert(points[k0] == m);
            },
            None => {},
        }
    }
}

/// The basic code points, in order, are those below 128.
proof fn lemma_basic_points(input: Seq<char>, upto: int)
    requires
        0 <= upto <= input.len(),
    ensures
        handled_points(points_of(input), 128, 0, upto) == points_of(basic_of(input.take(upto))),
        all_basic(basic_of(input.take(upto))),
    decreases upto,
{
    let p = points_of(input);
    if upto == 0 {
        assert(input.take(0) == Seq::<char>::empty());
        assert(points_of(Seq::<char>::empty()) =~= Seq::<u32>::empty());
    } else {
        lemma_basic_points(input, upto - 1);
        let t = input.take(upto);
        assert(t.drop_last() == input.take(upto - 1));
        assert(t.last() == input[upto - 1]);
        let prev = basic_of(input.take(upto - 1));
        if (input[upto - 1] as u32) < 0x80 {
            assert(points_of(prev.push(input[upto - 1])) =~= points_of(prev).push(input[upto - 1] as u32));
            assert forall|i: int| 0 <= i < prev.push(input[upto - 1]).len() implies (#[trigger] prev.push(
                input[upto - 1],
            )[i] as u32) < 0x80 by {
                if i < prev.len() {
                    assert(prev.push(input[upto - 1])[i] == prev[i]);
                }
            }
        }
    }
}

/// The characters whose code points these are.
proof fn lemma_chars_of_points(input: Seq<char>)
    ensures
        chars_of_points(points_of(input)) == Ok::<Seq<char>, Failure>(input),
{
    let p = points_of(input);
    assert forall|j: int| 0 <= j < p.len() implies is_scalar_value(#[trigger] p[j]) by {
        vstd::utf8::char_is_scalar(input[j]);
    }
    assert(Seq::new(p.len(), |j: int| p[j] as char) =~= input) by {
        assert forall|j: int| 0 <= j < p.len() implies (p[j] as char) == input[j] by {
            vstd::utf8::char_u32_cast(input[j], p[j]);
        }
    }
}


/// `s` begins with `a` and goes on in digit characters.
pub open spec fn extends_with_digits(s: Seq<char>, a: Seq<char>) -> bool {
    &&& s.len() >= a.len()
    &&& s.take(a.len() as int) == a
    &&& digit_text(s.skip(a.len() as int))
}

proof fn lemma_extends_trans(s: Seq<char>, a: Seq<char>, c: Seq<char>)
    requires
        extends_with_digits(s, a),
        extends_with_digits(a, c),
    ensures
        extends_with_digits(s, c),
{
    assert(s.take(c.len() as int) =~= a.take(c.len() as int));
    assert forall|i: int| 0 <= i < s.skip(c.len() as int).len() implies is_digit_char(
        #[trigger] s.skip(c.len() as int)[i],
    ) by {
        if c.len() + i < a.len() {
            assert(s.skip(c.len() as int)[i] == a.skip(c.len() as int)[i]);
        } else {
            assert(s.skip(c.len() as int)[i] == s.skip(a.len() as int)[c.len() + i - a.len()]);
        }
    }
}

/// A scan only appends numbers to what was written.
proof fn lemma_scan_extends(p: Seq<u32>, j: int, m: int, b: int, st: (int, int, int, Seq<char>))
    requires
        encode_scan(p, j, m, b, st) is Some,
        st.0 >= 0,
    ensures
        extends_with_digits(encode_scan(p, j, m, b, st)->Some_0.3, st.3),
        encode_scan(p, j, m, b, st)->Some_0.0 >= 0,
        encode_scan(p, j, m, b, st)->Some_0.2 >= st.2,
    decreases p.len() - j,
{
    if j >= p.len() || j < 0 {
        assert(st.3.take(st.3.len() as int) =~= st.3);
    } else {
        let (delta, bias, h, out) = st;
        let x = p[j];
        let delta1 = if x < m {
            delta + 1
        } else {
            delta
        };
        if x != m {
            lemma_scan_extends(p, j + 1, m, b, (delta1, bias, h, out));
        } else {
            let e = encode_number(delta1, 36, bias);
            let st1 = (0int, adapt_spec(delta1, h + 1, h == b), h + 1, out + e);
            lemma_scan_extends(p, j + 1, m, b, st1);
            lemma_number_digits(delta1, 36, bias);
            assert(extends_with_digits(out + e, out)) by {
                assert((out + e).take(out.len() as int) =~= out);
                assert((out + e).skip(out.len() as int) =~= e);
            }
            lemma_extends_trans(encode_scan(p, j, m, b, st)->Some_0.3, out + e, out);
        }
    }
}

/// The rounds only append numbers to what was written.
proof fn lemma_rounds_extends(p: Seq<u32>, b: int, n: int, st: (int, int, int, Seq<char>))
    requires
        encode_rounds(p, b, n, st) is Some,
        st.0 >= 0,
        st.2 >= 0,
    ensures
        extends_with_digits(encode_rounds(p, b, n, st)->Some_0, st.3),
    decreases 0x1_0000_0000 - n,
{
    let (delta, bias, h, out) = st;
    if h >= p.len() {
        assert(out.take(out.len() as int) =~= out);
    } else {
        lemma_least(p, n);
        let m = least_at_least(p, n)->Some_0;
        let advance = (m - n) * (h + 1);
        assert(advance >= 0) by (nonlinear_arith)
            requires
                m >= n,
                h >= 0,
                advance == (m - n) * (h + 1),
        ;
        let sst = (delta + advance, bias, h, out);
        lemma_scan_extends(p, 0, m as int, b, sst);
        let st2 = encode_scan(p, 0, m as int, b, sst)->Some_0;
        let st3 = (st2.0 + 1, st2.1, st2.2, st2.3);
        lemma_rounds_extends(p, b, m + 1, st3);
        lemma_extends_trans(encode_rounds(p, b, n, st)->Some_0, st2.3, out);
    }
}


/// Dividing a value written as whole rounds of `h + 1` and a position below
/// `h + 1` gives back both.
proof fn lemma_split_value(r: int, h: int, pos: int)
    requires
        r >= 0,
        0 <= pos <= h,
    ensures
        (r * (h + 1) + pos) / (h + 1) == r,
        (r * (h + 1) + pos) % (h + 1) == pos,
{
    vstd::arithmetic::div_mod::lemma_fundamental_div_mod_converse(r * (h + 1) + pos, h + 1, r, pos);
}

/// The decoder, started where the encoder's scan for `m` stood at position
/// `j`, reaches the state matching the end of that scan, unless it refuses a
/// value past 32 bits on the way.
#[verifier::spinoff_prover]
proof fn lemma_scan_sim(
    p: Seq<u32>,
    b: int,
    j: int,
    m: int,
    st: (int, int, int, Seq<char>),
    fin: Seq<char>,
    n_dec: int,
    i_dec: int,
)
    requires
        0 <= j <= p.len(),
        b >= 0,
        encode_scan(p, j, m, b, st) is Some,
        extends_with_digits(fin, encode_scan(p, j, m, b, st)->Some_0.3),
        st.2 == handled_points(p, m, j, p.len() as int).len(),
        st.2 >= b,
        st.0 >= 0,
        i_dec >= 0,
        n_dec <= m,
        i_dec + st.0 == (m - n_dec) * (st.2 + 1) + handled_points(p, m, j, j).len(),
        (i_dec == 0) == (st.2 == b),
        (n_dec == m && i_dec >= 1) || exists|k: int| j <= k < p.len() && p[k] == m,
    ensures
        ({
            let st2 = encode_scan(p, j, m, b, st)->Some_0;
            &&& st2.2 == handled_points(p, m, p.len() as int, p.len() as int).len()
            &&& st2.0 >= 0
            &&& st2.2 - st2.0 >= 1
            &&& st2.2 > b
            &&& (decode_rounds(fin, st.3.len() as int, handled_points(p, m, j, p.len() as int), n_dec, i_dec, st.1)
                == decode_rounds(
                fin,
                st2.3.len() as int,
                handled_points(p, m, p.len() as int, p.len() as int),
                m,
                st2.2 - st2.0,
                st2.1,
            ) || decode_rounds(fin, st.3.len() as int, handled_points(p, m, j, p.len() as int), n_dec, i_dec, st.1)
                == Err::<Seq<u32>, Failure>(Failure::PunycodeOverflow))
        }),
    decreases p.len() - j,
{
    let (delta, bias, h, out) = st;
    if j == p.len() {
        assert(n_dec == m && i_dec >= 1);
        assert((m - n_dec) * (st.2 + 1) == 0) by (nonlinear_arith)
            requires
                m == n_dec,
        ;
        assert(i_dec + delta == h);
        assert(encode_scan(p, j, m, b, st) == Some(st));
    } else {
        let x = p[j];
        let delta1 = if x < m {
            delta + 1
        } else {
            delta
        };
        if x != m {
            lemma_hp_pass(p, m, j);
            let st1 = (delta1, bias, h, out);
            assert(encode_scan(p, j, m, b, st) == encode_scan(p, j + 1, m, b, st1));
            lemma_scan_sim(p, b, j + 1, m, st1, fin, n_dec, i_dec);
        } else {
            let pos = handled_points(p, m, j, j).len() as int;
            let e = encode_number(delta1, 36, bias);
            let st1 = (0int, adapt_spec(delta1, h + 1, h == b), h + 1, out + e);
            assert(encode_scan(p, j, m, b, st) == encode_scan(p, j + 1, m, b, st1));
            let st2 = encode_scan(p, j, m, b, st)->Some_0;
            lemma_scan_extends(p, j + 1, m, b, st1);
            lemma_extends_trans(fin, st2.3, out + e);
            lemma_number_digits(delta1, 36, bias);
            assert(fin.subrange(out.len() as int, (out.len() + e.len()) as int) =~= e) by {
                assert forall|x: int| 0 <= x < e.len() implies fin.subrange(out.len() as int, (out.len() + e.len()) as int)[x]
                    == e[x] by {
                    assert(fin.take((out + e).len() as int)[out.len() + x] == (out + e)[out.len() + x]);
                }
            }
            lemma_decode_number(fin, out.len() as int, delta1, 36, bias, i_dec, 1);
            lemma_hp_mono(p, m, j, j, p.len() as int);
            lemma_hp_insert(p, m, j, p.len() as int);
            lemma_hp_take(p, m, j);
            let hp = handled_points(p, m, j, p.len() as int);
            assert(hp.len() == h);
            let i2 = i_dec + delta1;
            assert(i2 == (m - n_dec) * (h + 1) + pos);
            lemma_split_value(m - n_dec, h, pos);
            assert(x <= u32::MAX);
            lemma_scan_sim(p, b, j + 1, m, st1, fin, m, pos + 1);
            match decode_digits(fin, out.len() as int, i_dec, 1, 36, bias) {
                Ok(r) => {
                    assert(r == (i2, (out.len() + e.len()) as int));
                    assert(i2 / (h + 1) == m - n_dec);
                    assert(i2 % (h + 1) == pos);
                    assert(handled_points(p, m, j + 1, p.len() as int) == hp.insert(pos, (n_dec + i2 / (h + 1)) as u32));
                    assert(decode_rounds(fin, out.len() as int, hp, n_dec, i_dec, bias) == decode_rounds(
                        fin,
                        (out.len() + e.len()) as int,
                        handled_points(p, m, j + 1, p.len() as int),
                        m,
                        pos + 1,
                        adapt_spec(delta1, h + 1, h == b),
                    ));
                },
                Err(f) => {
                    assert(f == Failure::PunycodeOverflow);
                },
            }
        }
    }
}


/// The decoder, started where the encoder's rounds stood at code point `n`,
/// gives back every code point in place, unless it refuses a value past 32
/// bits.
#[verifier::spinoff_prover]
proof fn lemma_rounds_sim(
    p: Seq<u32>,
    b: int,
    n: int,
    st: (int, int, int, Seq<char>),
    fin: Seq<char>,
    n_dec: int,
    i_dec: int,
)
    requires
        b >= 0,
        encode_rounds(p, b, n, st) == Some(fin),
        st.2 == handled_points(p, n, 0, p.len() as int).len(),
        st.2 >= b,
        st.0 >= 0,
        i_dec >= 0,
        n_dec <= n,
        i_dec + st.0 == (n - n_dec) * (st.2 + 1),
        (i_dec == 0) == (st.2 == b),
    ensures
        decode_rounds(fin, st.3.len() as int, handled_points(p, n, 0, p.len() as int), n_dec, i_dec, st.1) == Ok::<
            Seq<u32>,
            Failure,
        >(p) || decode_rounds(fin, st.3.len() as int, handled_points(p, n, 0, p.len() as int), n_dec, i_dec, st.1)
            == Err::<Seq<u32>, Failure>(Failure::PunycodeOverflow),
    decreases 0x1_0000_0000 - n,
{
    let (delta, bias, h, out) = st;
    let hp = handled_points(p, n, 0, p.len() as int);
    if h >= p.len() {
        lemma_hp_all(p, n, 0, p.len() as int);
        assert(p.take(p.len() as int) =~= p);
        assert(fin == out);
    } else {
        lemma_least(p, n);
        let m = least_at_least(p, n)->Some_0;
        let advance = (m - n) * (h + 1);
        assert(advance >= 0) by (nonlinear_arith)
            requires
                m >= n,
                h >= 0,
                advance == (m - n) * (h + 1),
        ;
        let sst = (delta + advance, bias, h, out);
        let st2 = encode_scan(p, 0, m as int, b, sst)->Some_0;
        let st3 = (st2.0 + 1, st2.1, st2.2, st2.3);
        lemma_scan_extends(p, 0, m as int, b, sst);
        lemma_rounds_extends(p, b, m + 1, st3);
        assert forall|k: int| 0 <= k < p.len() implies handled(p, n, 0, k) == handled(p, m as int, 0, k) by {}
        lemma_hp_same(p, n, 0, m as int, 0, p.len() as int);
        assert(i_dec + delta + advance == (m - n_dec) * (h + 1)) by (nonlinear_arith)
            requires
                i_dec + delta == (n - n_dec) * (h + 1),
                advance == (m - n) * (h + 1),
        ;
        let k0 = choose|k: int| 0 <= k < p.len() && p[k] == m;
        assert(0 <= k0 < p.len() && p[k0] == m);
        lemma_scan_sim(p, b, 0, m as int, sst, fin, n_dec, i_dec);
        assert forall|k: int| 0 <= k < p.len() implies handled(p, m as int, p.len() as int, k) == handled(
            p,
            m + 1,
            0,
            k,
        ) by {}
        lemma_hp_same(p, m as int, p.len() as int, m + 1, 0, p.len() as int);
        let next: int = m + 1;
        let hh: int = st2.2 + 1;
        assert((next - m) * hh == hh) by (nonlinear_arith)
            requires
                next == m + 1,
        ;
        lemma_rounds_sim(p, b, next, st3, fin, m as int, st2.2 - st2.0);
    }
}

/// Decoding undoes encoding: a label that encodes reads back as itself,
/// unless reading it back meets a number past 32 bits.
pub proof fn lemma_decode_inverts_encode(input: Seq<char>)
    requires
        encode_spec(input) is Some,
    ensures
        decode_spec(encode_spec(input)->Some_0) == Ok::<Seq<char>, Failure>(input) || decode_spec(
            encode_spec(input)->Some_0,
        ) == Err::<Seq<char>, Failure>(Failure::PunycodeOverflow),
{
    let p = points_of(input);
    let basic = basic_of(input);
    let b = basic.len() as int;
    let start = if basic.len() > 0 {
        basic.push('-')
    } else {
        basic
    };
    let fin = encode_spec(input)->Some_0;
    lemma_basic_points(input, input.len() as int);
    assert(input.take(input.len() as int) =~= input);
    assert(handled_points(p, 128, 0, p.len() as int) == points_of(basic));
    lemma_rounds_extends(p, b, 128, (0, 72, b, start));
    let tail = fin.skip(start.len() as int);
    assert(fin =~= start + tail);
    let split = last_hyphen(fin);
    if b > 0 {
        lemma_last_hyphen_after(basic, tail);
        assert(fin =~= basic + seq!['-'] + tail);
        assert(split == b);
        assert(fin.take(split) =~= basic);
    } else {
        lemma_last_hyphen_none(tail);
        assert(fin =~= tail);
        assert(split == 0);
        assert(fin.take(split) =~= basic);
    }
    let cursor = if split > 0 {
        split + 1
    } else {
        0
    };
    assert(cursor == start.len());
    lemma_rounds_sim(p, b, 128, (0, 72, b, start), fin, 128, 0);
    lemma_chars_of_points(input);
}

/// What `encode` writes: the basic characters, a hyphen after them when
/// there are any, then digit characters only.
pub(crate) proof fn lemma_encode_extends(input: Seq<char>)
    requires
        encode_spec(input) is Some,
    ensures
        extends_with_digits(
            encode_spec(input)->Some_0,
            if basic_of(input).len() > 0 {
                basic_of(input).push('-')
            } else {
                basic_of(input)
            },
        ),
{
    let basic = basic_of(input);
    let b = basic.len() as int;
    let start = if basic.len() > 0 {
        basic.push('-')
    } else {
        basic
    };
    lemma_rounds_extends(points_of(input), b, 128, (0, 72, b, start));
}

/// Text without hyphens has none to find.
proof fn lemma_last_hyphen_none(d: Seq<char>)
    requires
        digit_text(d),
    ensures
        last_hyphen(d) == 0,
    decreases d.len(),
{
    if d.len() > 0 {
        assert(is_digit_char(d[d.len() - 1]));
        lemma_last_hyphen_none(d.drop_last());
    }
}

/// The hyphen after the basic characters is the last one when only digits
/// follow it.
proof fn lemma_last_hyphen_after(a: Seq<char>, d: Seq<char>)
    requires
        digit_text(d),
    ensures
        last_hyphen(a + seq!['-'] + d) == a.len(),
    decreases d.len(),
{
    let s = a + seq!['-'] + d;
    if d.len() == 0 {
        assert(s.last() == '-');
    } else {
        assert(is_digit_char(d[d.len() - 1]));
        assert(s.drop_last() =~= a + seq!['-'] + d.drop_last());
        lemma_last_hyphen_after(a, d.drop_last());
    }
}

} // verus!
