//! RC4 (ARC4), with an optional discard of leading keystream words.

use vstd::prelude::*;

use crate::error::OperationError;

verus! {

/// Two entries of the state exchanged.
pub open spec fn swap_spec(s: Seq<u8>, a: int, b: int) -> Seq<u8> {
    s.update(a, s[b]).update(b, s[a])
}

/// The key byte used at schedule step `i`; an empty key gives zero.
pub open spec fn key_byte(key: Seq<u8>, i: int) -> u8 {
    if key.len() == 0 {
        0
    } else {
        key[i % key.len() as int]
    }
}

/// The state and `j` after the first `n` steps of the key schedule.
pub open spec fn schedule(key: Seq<u8>, n: nat) -> (Seq<u8>, u8)
    decreases n,
{
    if n == 0 {
        (Seq::new(256, |i: int| i as u8), 0)
    } else {
        let (s, j) = schedule(key, (n - 1) as nat);
        let i = n - 1;
        let j2 = ((j + s[i] + key_byte(key, i)) % 256) as u8;
        (swap_spec(s, i, j2 as int), j2)
    }
}

/// The state, `i` and `j` after `n` keystream steps from `s0`.
pub open spec fn generate(s0: Seq<u8>, n: nat) -> (Seq<u8>, u8, u8)
    decreases n,
{
    if n == 0 {
        (s0, 0, 0)
    } else {
        let (s, i, j) = generate(s0, (n - 1) as nat);
        let i2 = ((i + 1) % 256) as u8;
        let j2 = ((j + s[i2 as int]) % 256) as u8;
        (swap_spec(s, i2 as int, j2 as int), i2, j2)
    }
}

/// The keystream byte of step `n` (counting from one).
pub open spec fn keystream_byte(s0: Seq<u8>, n: nat) -> u8 {
    let (s, i, j) = generate(s0, n);
    s[((s[i as int] + s[j as int]) % 256) as int]
}

/// How many keystream bytes a discard of `drop_words` words skips: four per
/// word, saturating at the largest `u64`.
pub open spec fn skipped(drop_words: u64) -> nat {
    if drop_words * 4 > u64::MAX {
        u64::MAX as nat
    } else {
        (drop_words * 4) as nat
    }
}

/// The message XORed with the keystream after the discard.
pub open spec fn rc4_spec(input: Seq<u8>, key: Seq<u8>, drop_words: u64) -> Seq<u8> {
    let s0 = schedule(key, 256).0;
    Seq::new(input.len(), |k: int| input[k] ^ keystream_byte(s0, (skipped(drop_words) + k + 1) as nat))
}

proof fn lemma_schedule_len(key: Seq<u8>, n: nat)
    requires
        n <= 256,
    ensures
        schedule(key, n).0.len() == 256,
    decreases n,
{
    if n > 0 {
        lemma_schedule_len(key, (n - 1) as nat);
    }
}

proof fn lemma_generate_len(s0: Seq<u8>, n: nat)
    requires
        s0.len() == 256,
    ensures
        generate(s0, n).0.len() == 256,
    decreases n,
{
    if n > 0 {
        lemma_generate_len(s0, (n - 1) as nat);
    }
}

fn swap_entries(s: &mut Vec<u8>, a: usize, b: usize)
    requires
        a < old(s).len(),
        b < old(s).len(),
    ensures
        final(s)@ == swap_spec(old(s)@, a as int, b as int),
{
    let x = s[a];
    let y = s[b];
    s.set(a, y);
    s.set(b, x);
}

/// RC4 with the first `drop_words` 32-bit words of keystream discarded. An
/// output longer than `max_output_bytes` is refused.
pub fn apply_dropping(input: &[u8], key: &[u8], drop_words: u64, max_output_bytes: u64) -> (r: Result<
    Vec<u8>,
    OperationError,
>)
    ensures
        input.len() <= max_output_bytes ==> (r matches Ok(v) && v@ == rc4_spec(input@, key@, drop_words)),
        input.len() > max_output_bytes ==> r == Err::<Vec<u8>, OperationError>(OperationError::OutputLimitExceeded),
{
    let mut s: Vec<u8> = Vec::new();
    let mut n: usize = 0;
    while n < 256
        invariant
            n <= 256,
            s@ == Seq::new(n as nat, |i: int| i as u8),
        decreases 256 - n,
    {
        s.push(n as u8);
        assert(s@ =~= Seq::new((n + 1) as nat, |i: int| i as u8));
        n = n + 1;
    }
    let mut j: u8 = 0;
    let mut i: usize = 0;
    while i < 256
        invariant
            i <= 256,
            s.len() == 256,
            (s@, j) == schedule(key@, i as nat),
        decreases 256 - i,
    {
        let kb: u8 = if key.len() == 0 {
            0
        } else {
            key[i % key.len()]
        };
        j = ((j as u16 + s[i] as u16 + kb as u16) % 256) as u8;
        swap_entries(&mut s, i, j as usize);
        i = i + 1;
    }
    let ghost s0 = s@;
    proof {
        lemma_schedule_len(key@, 256);
    }
    let mut a: u8 = 0;
    let mut b: u8 = 0;
    let steps: u64 = if drop_words > u64::MAX / 4 {
        u64::MAX
    } else {
        drop_words * 4
    };
    assert(steps == skipped(drop_words));
    let mut step: u64 = 0;
    while step < steps
        invariant
            step <= steps,
            s0.len() == 256,
            s.len() == 256,
            s0 == schedule(key@, 256).0,
            (s@, a, b) == generate(s0, step as nat),
        decreases steps - step,
    {
        a = ((a as u16 + 1) % 256) as u8;
        b = ((b as u16 + s[a as usize] as u16) % 256) as u8;
        swap_entries(&mut s, a as usize, b as usize);
        step = step + 1;
    }
    let mut output: Vec<u8> = Vec::new();
    let mut k: usize = 0;
    while k < input.len()
        invariant
            k <= input.len(),
            s0.len() == 256,
            s.len() == 256,
            s0 == schedule(key@, 256).0,
            (s@, a, b) == generate(s0, (steps + k) as nat),
            steps == skipped(drop_words),
            output@ == rc4_spec(input@, key@, drop_words).take(k as int),
        decreases input.len() - k,
    {
        a = ((a as u16 + 1) % 256) as u8;
        b = ((b as u16 + s[a as usize] as u16) % 256) as u8;
        swap_entries(&mut s, a as usize, b as usize);
        let t = ((s[a as usize] as u16 + s[b as usize] as u16) % 256) as usize;
        let stream = s[t];
        assert(stream == keystream_byte(s0, (steps + k + 1) as nat));
        output.push(input[k] ^ stream);
        assert(output@ =~= rc4_spec(input@, key@, drop_words).take(k + 1));
        k = k + 1;
    }
    assert(rc4_spec(input@, key@, drop_words).take(input.len() as int) == rc4_spec(input@, key@, drop_words));
    if output.len() as u64 > max_output_bytes {
        return Err(OperationError::OutputLimitExceeded);
    }
    Ok(output)
}

/// RC4 itself: the same cipher with nothing discarded.
pub fn apply(input: &[u8], key: &[u8], max_output_bytes: u64) -> (r: Result<Vec<u8>, OperationError>)
    ensures
        input.len() <= max_output_bytes ==> (r matches Ok(v) && v@ == rc4_spec(input@, key@, 0)),
        input.len() > max_output_bytes ==> r == Err::<Vec<u8>, OperationError>(OperationError::OutputLimitExceeded),
{
    apply_dropping(input, key, 0, max_output_bytes)
}

/// Enciphering twice with the same key and discard gives the message back.
pub proof fn lemma_rc4_involution(input: Seq<u8>, key: Seq<u8>, drop_words: u64)
    ensures
        rc4_spec(rc4_spec(input, key, drop_words), key, drop_words) == input,
{
    let once = rc4_spec(input, key, drop_words);
    let twice = rc4_spec(once, key, drop_words);
    assert forall|k: int| 0 <= k < input.len() implies twice[k] == input[k] by {
        let x = input[k];
        let y = keystream_byte(schedule(key, 256).0, (skipped(drop_words) + k + 1) as nat);
        assert((x ^ y) ^ y == x) by (bit_vector);
    }
    assert(twice =~= input);
}

/// Discarding `drop_words` words is discarding four keystream bytes per word:
/// it answers what the cipher without a discard answers from byte
/// `4 * drop_words` on, whatever stood before.
pub proof fn lemma_rc4_drop_offset(input: Seq<u8>, key: Seq<u8>, drop_words: u64, before: Seq<u8>)
    requires
        drop_words * 4 <= u64::MAX,
        before.len() == drop_words * 4,
    ensures
        rc4_spec(input, key, drop_words) == rc4_spec(before + input, key, 0).skip(before.len() as int),
{
    let a = rc4_spec(input, key, drop_words);
    let b = rc4_spec(before + input, key, 0).skip(before.len() as int);
    assert forall|k: int| 0 <= k < input.len() implies a[k] == b[k] by {
        assert((before + input)[before.len() + k] == input[k]);
    }
    assert(a =~= b);
}

/// The number of words a signed discard argument asks for: none when it is
/// negative or does not fit in 64 bits.
pub open spec fn drop_of(drop: i128) -> u64 {
    if 0 <= drop <= u64::MAX {
        drop as u64
    } else {
        0
    }
}

/// RC4 with the leading keystream discarded.
pub struct Rc4Drop {}

impl Rc4Drop {
    /// Creates the RC4 Drop operation.
    pub fn new() -> Self {
        Rc4Drop {  }
    }

    /// Enciphers `message` under `key`, discarding `drop` words first; a
    /// negative count, or one beyond 64 bits, discards nothing.
    pub fn execute(&self, message: &[u8], key: &[u8], drop: i128, max_output_bytes: u64) -> (r: Result<
        Vec<u8>,
        OperationError,
    >)
        ensures
            message.len() <= max_output_bytes ==> (r matches Ok(v) && v@ == rc4_spec(message@, key@, drop_of(drop))),
            message.len() > max_output_bytes ==> r == Err::<Vec<u8>, OperationError>(
                OperationError::OutputLimitExceeded,
            ),
    {
        let words: u64 = if 0 <= drop && drop <= u64::MAX as i128 {
            drop as u64
        } else {
            0
        };
        apply_dropping(message, key, words, max_output_bytes)
    }
}

} // verus!
