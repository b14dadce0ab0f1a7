//! Bytes written as octal numbers.

use vstd::prelude::*;

use crate::error::OperationError;
use crate::text::{chars_of, string_of};
use crate::textint::radix_digits;

verus! {

/// The bytes in octal, separated by `separator`.
pub open spec fn octal_spec(input: Seq<u8>, separator: Seq<char>) -> Seq<char>
    decreases input.len(),
{
    if input.len() == 0 {
        seq![]
    } else if input.len() == 1 {
        radix_digits(input[0] as nat, 8)
    } else {
        octal_spec(input.drop_last(), separator) + separator + radix_digits(input.last() as nat, 8)
    }
}

/// The room the output is allowed: three digits and a separator a byte.
pub open spec fn octal_capacity(len: nat, separator_bytes: nat) -> nat {
    len * (3 + separator_bytes)
}

/// The octal digits of a byte.
fn octal_digits(b: u8) -> (r: Vec<char>)
    ensures
        r@ == radix_digits(b as nat, 8),
{
    let mut r: Vec<char> = Vec::new();
    if b >= 64 {
        r.push(((b / 64) + 48) as char);
    }
    if b >= 8 {
        r.push((((b / 8) % 8) + 48) as char);
    }
    r.push(((b % 8) + 48) as char);
    proof {
        reveal_with_fuel(radix_digits, 4);
        if b >= 64 {
            assert((b as nat) / 8 >= 8);
            assert(((b as nat) / 8) / 8 == (b as nat) / 64);
        }
    }
    assert(r@ =~= radix_digits(b as nat, 8));
    r
}

/// Writes each byte in octal, with `separator` between them. The output is
/// refused when three digits and a separator for every byte would exceed
/// `max_output_bytes`.
pub fn encode(input: &[u8], separator: &str, max_output_bytes: u64) -> (r: Result<String, OperationError>)
    ensures
        octal_capacity(input.len() as nat, vstd::utf8::encode_utf8(separator@).len()) <= usize::MAX
            && octal_capacity(input.len() as nat, vstd::utf8::encode_utf8(separator@).len()) <= max_output_bytes
            ==> (r matches Ok(s) && s@ == octal_spec(input@, separator@)),
        !(octal_capacity(input.len() as nat, vstd::utf8::encode_utf8(separator@).len()) <= usize::MAX
            && octal_capacity(input.len() as nat, vstd::utf8::encode_utf8(separator@).len()) <= max_output_bytes)
            ==> r == Err::<String, OperationError>(OperationError::OutputLimitExceeded),
{
    if input.len() == 0 {
        proof {
            assert(octal_capacity(0, vstd::utf8::encode_utf8(separator@).len()) == 0);
        }
        return Ok(String::new());
    }
    let separator_bytes = separator.as_bytes().len();
    proof {
        assert(separator_bytes == vstd::utf8::encode_utf8(separator@).len());
    }
    if separator_bytes > usize::MAX - 3 {
        assert(input.len() * (3 + separator_bytes) > usize::MAX) by (nonlinear_arith)
            requires
                input.len() > 0,
                separator_bytes > usize::MAX - 3,
        ;
        return Err(OperationError::OutputLimitExceeded);
    }
    let unit = 3 + separator_bytes;
    if input.len() > 0 && unit > usize::MAX / input.len() {
        assert(input.len() * unit > usize::MAX) by (nonlinear_arith)
            requires
                input.len() > 0,
                unit > usize::MAX / input.len(),
        ;
        return Err(OperationError::OutputLimitExceeded);
    }
    assert(input.len() * unit <= usize::MAX) by (nonlinear_arith)
        requires
            input.len() == 0 || unit <= usize::MAX / input.len(),
    ;
    let capacity = input.len() * unit;
    if capacity as u64 > max_output_bytes {
        return Err(OperationError::OutputLimitExceeded);
    }
    let sep = chars_of(separator);
    let mut out: Vec<char> = Vec::new();
    let mut i: usize = 0;
    while i < input.len()
        invariant
            i <= input.len(),
            sep@ == separator@,
            out@ == octal_spec(input@.take(i as int), separator@),
        decreases input.len() - i,
    {
        if i > 0 {
            let mut k: usize = 0;
            let ghost before = out@;
            while k < sep.len()
                invariant
                    k <= sep.len(),
                    out@ == before + sep@.take(k as int),
                decreases sep.len() - k,
            {
                out.push(sep[k]);
                k = k + 1;
            }
            assert(sep@.take(sep.len() as int) == sep@);
        }
        let digits = octal_digits(input[i]);
        let mut k: usize = 0;
        let ghost before = out@;
        while k < digits.len()
            invariant
                k <= digits.len(),
                out@ == before + digits@.take(k as int),
            decreases digits.len() - k,
        {
            out.push(digits[k]);
            k = k + 1;
        }
        proof {
            assert(digits@.take(digits.len() as int) == digits@);
            assert(input@.take(i + 1).drop_last() == input@.take(i as int));
            assert(input@.take(i + 1).last() == input@[i as int]);
            if i == 0 {
                assert(input@.take(1).len() == 1);
                assert(out@ == Seq::<char>::empty() + digits@);
            }
        }
        i = i + 1;
    }
    assert(input@.take(input.len() as int) == input@);
    Ok(string_of(&out))
}

} // verus!
