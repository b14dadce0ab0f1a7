//! ROT13 and other Caesar rotations over bytes.

use vstd::prelude::*;

verus! {

/// How far letters move for a rotation amount; a negative amount turns the
/// other way.
pub open spec fn letter_shift(amount: int) -> int {
    if amount < 0 {
        26 - (-amount) % 26
    } else {
        amount % 26
    }
}

/// How far digits move for a rotation amount.
pub open spec fn digit_shift(amount: int) -> int {
    if amount < 0 {
        10 - (-amount) % 10
    } else {
        amount % 10
    }
}

/// One byte rotated: letters within their case, digits among digits, each
/// only when its flag is set.
pub open spec fn rotate_byte(b: u8, lower: bool, upper: bool, numbers: bool, amount: int) -> u8 {
    if amount == 0 {
        b
    } else if upper && 0x41 <= b <= 0x5a {
        (0x41 + (b - 0x41 + letter_shift(amount)) % 26) as u8
    } else if lower && 0x61 <= b <= 0x7a {
        (0x61 + (b - 0x61 + letter_shift(amount)) % 26) as u8
    } else if numbers && 0x30 <= b <= 0x39 {
        (0x30 + (b - 0x30 + digit_shift(amount)) % 10) as u8
    } else {
        b
    }
}

/// Every byte rotated.
pub open spec fn rot13_spec(input: Seq<u8>, lower: bool, upper: bool, numbers: bool, amount: int) -> Seq<u8> {
    Seq::new(input.len(), |i: int| rotate_byte(input[i], lower, upper, numbers, amount))
}

/// Rotates letters and, optionally, digits by `amount`.
pub fn rot13(input: &[u8], lower: bool, upper: bool, numbers: bool, amount: i128) -> (r: Vec<u8>)
    ensures
        r@ == rot13_spec(input@, lower, upper, numbers, amount as int),
{
    let mut output: Vec<u8> = Vec::new();
    if amount == 0 {
        let mut i: usize = 0;
        while i < input.len()
            invariant
                i <= input.len(),
                amount == 0,
                output@ == rot13_spec(input@, lower, upper, numbers, amount as int).take(i as int),
            decreases input.len() - i,
        {
            output.push(input[i]);
            i = i + 1;
        }
        return output;
    }
    let (letters, digits): (u8, u8) = if amount < 0 {
        let magnitude: u128 = if amount == i128::MIN {
            0x8000_0000_0000_0000_0000_0000_0000_0000u128
        } else {
            (-amount) as u128
        };
        ((26 - magnitude % 26) as u8, (10 - magnitude % 10) as u8)
    } else {
        ((amount % 26) as u8, (amount % 10) as u8)
    };
    assert(letters == letter_shift(amount as int));
    assert(digits == digit_shift(amount as int));
    let mut i: usize = 0;
    while i < input.len()
        invariant
            i <= input.len(),
            amount != 0,
            letters == letter_shift(amount as int),
            digits == digit_shift(amount as int),
            letters <= 26,
            digits <= 10,
            output@ == rot13_spec(input@, lower, upper, numbers, amount as int).take(i as int),
        decreases input.len() - i,
    {
        let value = input[i];
        let rotated: u8 = if upper && 0x41 <= value && value <= 0x5a {
            0x41 + (value - 0x41 + letters) % 26
        } else if lower && 0x61 <= value && value <= 0x7a {
            0x61 + (value - 0x61 + letters) % 26
        } else if numbers && 0x30 <= value && value <= 0x39 {
            0x30 + (value - 0x30 + digits) % 10
        } else {
            value
        };
        output.push(rotated);
        i = i + 1;
    }
    output
}

proof fn lemma_shift_sum(amount: int)
    requires
        amount != 0,
    ensures
        0 <= letter_shift(amount) <= 26,
        letter_shift(amount) + letter_shift(-amount) == 26,
        0 <= digit_shift(amount) <= 10,
        digit_shift(amount) + digit_shift(-amount) == 10,
{
}

proof fn lemma_wrap_back(x: int, s: int, m: int)
    requires
        m == 26 || m == 10,
        0 <= x < m,
        0 <= s <= m,
    ensures
        0 <= (x + s) % m < m,
        ((x + s) % m + (m - s)) % m == x,
{
    if x + s < m {
        assert((x + s) % m == x + s);
        assert((x + m) % m == x);
    } else {
        assert((x + s) % m == x + s - m);
        assert(x % m == x);
    }
}

/// One byte rotated by an amount and back by its negation is unchanged.
proof fn lemma_byte_inverse(b: u8, lower: bool, upper: bool, numbers: bool, amount: int)
    ensures
        rotate_byte(rotate_byte(b, lower, upper, numbers, amount), lower, upper, numbers, -amount) == b,
{
    if amount != 0 {
        lemma_shift_sum(amount);
        let s = letter_shift(amount);
        let d = digit_shift(amount);
        if upper && 0x41 <= b <= 0x5a {
            lemma_wrap_back(b - 0x41, s, 26);
        } else if lower && 0x61 <= b <= 0x7a {
            lemma_wrap_back(b - 0x61, s, 26);
        } else if numbers && 0x30 <= b <= 0x39 {
            lemma_wrap_back(b - 0x30, d, 10);
        }
    }
}

/// Rotating by an amount and then by its negation gives the input back.
pub proof fn lemma_rotation_inverse(input: Seq<u8>, lower: bool, upper: bool, numbers: bool, amount: int)
    ensures
        rot13_spec(rot13_spec(input, lower, upper, numbers, amount), lower, upper, numbers, -amount) == input,
{
    let once = rot13_spec(input, lower, upper, numbers, amount);
    let twice = rot13_spec(once, lower, upper, numbers, -amount);
    assert forall|i: int| 0 <= i < input.len() implies twice[i] == input[i] by {
        lemma_byte_inverse(input[i], lower, upper, numbers, amount);
    }
    assert(twice =~= input);
}

/// ROT13 proper, on letters alone, undoes itself.
pub proof fn lemma_rot13_involution(input: Seq<u8>, lower: bool, upper: bool)
    ensures
        rot13_spec(rot13_spec(input, lower, upper, false, 13), lower, upper, false, 13) == input,
{
    let once = rot13_spec(input, lower, upper, false, 13);
    assert(rot13_spec(once, lower, upper, false, 13) =~= rot13_spec(once, lower, upper, false, -13));
    lemma_rotation_inverse(input, lower, upper, false, 13);
}

/// ROT13 / Caesar rotation over bytes.
pub struct Rot13 {}

impl Rot13 {
    /// Creates the ROT13 operation.
    pub fn new() -> Self {
        Rot13 {  }
    }

    /// Rotates the chosen classes of characters by `amount`.
    pub fn execute(
        &self,
        input: &[u8],
        rotate_lower_case_chars: bool,
        rotate_upper_case_chars: bool,
        rotate_numbers: bool,
        amount: i128,
    ) -> (r: Vec<u8>)
        ensures
            r@ == rot13_spec(input@, rotate_lower_case_chars, rotate_upper_case_chars, rotate_numbers, amount as int),
    {
        rot13(input, rotate_lower_case_chars, rotate_upper_case_chars, rotate_numbers, amount)
    }
}

} // verus!
