//! TEA and XTEA, with the five block modes they are wrapped in.
//!
//! Sixty-four bit blocks and a hundred and twenty-eight bit key. The block
//! functions are published; the modes, the padding, and what happens to a
//! partial trailing block are this library's own arrangement.

use vstd::prelude::*;

use crate::error::{Failure, OperationError};
use crate::bytes::{hex_lower_spec, to_hex_lower};
use crate::text::{byte_char, str_equals, string_of, utf8_text};

verus! {

/// The golden-ratio constant both ciphers add each cycle.
pub const DELTA: u32 = 0x9E37_79B9;

/// Sixty-four bits, in bytes.
pub const BLOCK: usize = 8;

/// TEA's cycle count, which is not adjustable.
pub const TEA_CYCLES: u32 = 32;

/// A hundred and twenty-eight bits, in bytes. Neither cipher takes any other.
pub const KEY_LENGTH: usize = 16;

/// Which of the two ciphers, and for XTEA how many cycles.
#[derive(Clone, Copy, Debug, PartialEq, Eq, Structural)]
pub enum Variant {
    /// TEA, always thirty-two cycles.
    Tea,
    /// XTEA, whose cycle count is an argument.
    Xtea(u32),
}

/// The block cipher mode.
#[derive(Clone, Copy, Debug, PartialEq, Eq, Structural)]
pub enum Mode {
    Ecb,
    Cbc,
    Cfb,
    Ofb,
    Ctr,
}

/// The padding scheme, which only the blocked modes use.
#[derive(Clone, Copy, Debug, PartialEq, Eq, Structural)]
pub enum Padding {
    Pkcs5,
    No,
    Zero,
    Random,
    Bit,
}

// ---------------------------------------------------------------------------
// Words and blocks.

/// Four bytes, big-endian.
pub open spec fn be_word(b: Seq<u8>, at: int) -> u32 {
    (b[at] as int * 16777216 + b[at + 1] as int * 65536 + b[at + 2] as int * 256 + b[at
        + 3] as int) as u32
}

/// A word as four bytes, big-endian.
pub open spec fn word_bytes(w: u32) -> Seq<u8> {
    seq![(w / 16777216) as u8, ((w / 65536) % 256) as u8, ((w / 256) % 256) as u8, (w % 256) as u8]
}

/// The four key words from sixteen bytes.
pub open spec fn key_words_spec(key: Seq<u8>) -> Seq<u32> {
    seq![be_word(key, 0), be_word(key, 4), be_word(key, 8), be_word(key, 12)]
}

/// Addition modulo 2^32.
pub open spec fn wadd(a: u32, b: u32) -> u32 {
    vstd::wrapping::u32_specs::wrapping_add(a, b)
}

/// Subtraction modulo 2^32.
pub open spec fn wsub(a: u32, b: u32) -> u32 {
    vstd::wrapping::u32_specs::wrapping_sub(a, b)
}

/// The running sum after `n` cycles.
pub open spec fn sum_after(n: nat) -> u32 {
    ((n * 0x9E37_79B9) % 0x1_0000_0000) as u32
}

/// The cycle count of a variant.
pub open spec fn cycles_of(v: Variant) -> u32 {
    match v {
        Variant::Tea => 32,
        Variant::Xtea(c) => c,
    }
}

/// TEA's mixing term for one half.
pub open spec fn tea_mix(x: u32, sum: u32, k0: u32, k1: u32) -> u32 {
    wadd(x << 4, k0) ^ wadd(x, sum) ^ wadd(x >> 5, k1)
}

/// XTEA's mixing term for one half.
pub open spec fn xtea_mix(x: u32, sum: u32, k: Seq<u32>, index: u32) -> u32 {
    wadd((x << 4) ^ (x >> 5), x) ^ wadd(sum, k[index as int])
}

/// One cycle of the cipher, the `n`th (counting from one), forwards.
pub open spec fn cycle_forward(v: Variant, n: nat, state: (u32, u32), k: Seq<u32>) -> (u32, u32) {
    let (left, right) = state;
    match v {
        Variant::Tea => {
            let sum = sum_after(n);
            let left2 = wadd(left, tea_mix(right, sum, k[0], k[1]));
            (left2, wadd(right, tea_mix(left2, sum, k[2], k[3])))
        },
        Variant::Xtea(_) => {
            let before = sum_after((n - 1) as nat);
            let after = sum_after(n);
            let left2 = wadd(left, xtea_mix(right, before, k, before & 3));
            (left2, wadd(right, xtea_mix(left2, after, k, (after >> 11) & 3)))
        },
    }
}

/// One cycle of the cipher, the `n`th, backwards.
pub open spec fn cycle_backward(v: Variant, n: nat, state: (u32, u32), k: Seq<u32>) -> (u32, u32) {
    let (left, right) = state;
    match v {
        Variant::Tea => {
            let sum = sum_after(n);
            let right2 = wsub(right, tea_mix(left, sum, k[2], k[3]));
            (wsub(left, tea_mix(right2, sum, k[0], k[1])), right2)
        },
        Variant::Xtea(_) => {
            let before = sum_after((n - 1) as nat);
            let after = sum_after(n);
            let right2 = wsub(right, xtea_mix(left, after, k, (after >> 11) & 3));
            (wsub(left, xtea_mix(right2, before, k, before & 3)), right2)
        },
    }
}

/// The first `n` cycles, forwards.
pub open spec fn cipher_forward(v: Variant, n: nat, state: (u32, u32), k: Seq<u32>) -> (u32, u32)
    decreases n,
{
    if n == 0 {
        state
    } else {
        cycle_forward(v, n, cipher_forward(v, (n - 1) as nat, state, k), k)
    }
}

/// Cycles `n` down to one, backwards.
pub open spec fn cipher_backward(v: Variant, n: nat, state: (u32, u32), k: Seq<u32>) -> (u32, u32)
    decreases n,
{
    if n == 0 {
        state
    } else {
        cipher_backward(v, (n - 1) as nat, cycle_backward(v, n, state, k), k)
    }
}

/// One block, forwards.
pub open spec fn encrypt_block_spec(v: Variant, block: Seq<u8>, k: Seq<u32>) -> Seq<u8> {
    let (l, r) = cipher_forward(v, cycles_of(v) as nat, (be_word(block, 0), be_word(block, 4)), k);
    word_bytes(l) + word_bytes(r)
}

/// One block, backwards.
pub open spec fn decrypt_block_spec(v: Variant, block: Seq<u8>, k: Seq<u32>) -> Seq<u8> {
    let (l, r) = cipher_backward(v, cycles_of(v) as nat, (be_word(block, 0), be_word(block, 4)), k);
    word_bytes(l) + word_bytes(r)
}

proof fn lemma_sum_step(n: nat)
    ensures
        sum_after(n + 1) == wadd(sum_after(n), 0x9E37_79B9),
        sum_after(n) == wsub(sum_after(n + 1), 0x9E37_79B9),
{
    assert((n + 1) * 0x9E37_79B9 == n * 0x9E37_79B9 + 0x9E37_79B9) by (nonlinear_arith);
    vstd::arithmetic::div_mod::lemma_add_mod_noop(
        (n * 0x9E37_79B9) as int,
        0x9E37_79B9,
        0x1_0000_0000,
    );
}

proof fn lemma_word_roundtrip(w: u32)
    ensures
        be_word(word_bytes(w), 0) == w,
{
}

proof fn lemma_bytes_roundtrip(b: Seq<u8>, at: int)
    requires
        0 <= at,
        at + 4 <= b.len(),
    ensures
        word_bytes(be_word(b, at)) == b.subrange(at, at + 4),
{
    let w = be_word(b, at);
    let (b0, b1, b2, b3) = (b[at], b[at + 1], b[at + 2], b[at + 3]);
    assert(w == b0 * 16777216 + b1 * 65536 + b2 * 256 + b3);
    assert(w / 16777216 == b0 && (w / 65536) % 256 == b1 && (w / 256) % 256 == b2 && w % 256
        == b3) by (nonlinear_arith)
        requires
            w == b0 * 16777216 + b1 * 65536 + b2 * 256 + b3,
            b0 < 256,
            b1 < 256,
            b2 < 256,
            b3 < 256,
    ;
    assert(word_bytes(w) =~= b.subrange(at, at + 4));
}

/// A cycle backwards undoes the same cycle forwards.
proof fn lemma_cycle_inverse(v: Variant, n: nat, state: (u32, u32), k: Seq<u32>)
    requires
        n >= 1,
    ensures
        cycle_backward(v, n, cycle_forward(v, n, state, k), k) == state,
{
}

/// Running every cycle backwards undoes running them forwards.
pub proof fn lemma_cipher_inverse(v: Variant, n: nat, state: (u32, u32), k: Seq<u32>)
    ensures
        cipher_backward(v, n, cipher_forward(v, n, state, k), k) == state,
    decreases n,
{
    if n > 0 {
        let inner = cipher_forward(v, (n - 1) as nat, state, k);
        lemma_cycle_inverse(v, n, inner, k);
        lemma_cipher_inverse(v, (n - 1) as nat, state, k);
    }
}

/// Decrypting a block undoes encrypting it, for either cipher and any key.
pub proof fn lemma_block_inverse(v: Variant, block: Seq<u8>, k: Seq<u32>)
    requires
        block.len() == 8,
    ensures
        decrypt_block_spec(v, encrypt_block_spec(v, block, k), k) == block,
{
    let n = cycles_of(v) as nat;
    let s0 = (be_word(block, 0), be_word(block, 4));
    let (l, r) = cipher_forward(v, n, s0, k);
    let c = word_bytes(l) + word_bytes(r);
    assert(c.subrange(0, 4) == word_bytes(l));
    assert(c.subrange(4, 8) == word_bytes(r));
    lemma_word_roundtrip(l);
    lemma_word_roundtrip(r);
    assert(be_word(c, 0) == be_word(word_bytes(l), 0));
    assert(be_word(c, 4) == be_word(word_bytes(r), 0));
    lemma_cipher_inverse(v, n, s0, k);
    lemma_bytes_roundtrip(block, 0);
    lemma_bytes_roundtrip(block, 4);
    assert(block == block.subrange(0, 4) + block.subrange(4, 8));
}

/// Four big-endian words from sixteen bytes.
fn key_words(key: &[u8]) -> (w: Vec<u32>)
    requires
        key@.len() >= 16,
    ensures
        w@ == key_words_spec(key@),
{
    let mut w: Vec<u32> = Vec::new();
    w.push(word_at(key, 0));
    w.push(word_at(key, 4));
    w.push(word_at(key, 8));
    w.push(word_at(key, 12));
    w
}

/// Four bytes at `at`, big-endian.
fn word_at(b: &[u8], at: usize) -> (w: u32)
    requires
        at + 4 <= b@.len(),
    ensures
        w == be_word(b@, at as int),
{
    (b[at] as u32) * 16777216 + (b[at + 1] as u32) * 65536 + (b[at + 2] as u32) * 256 + (b[at
        + 3] as u32)
}

/// Appends a word as four big-endian bytes.
fn push_word(out: &mut Vec<u8>, w: u32)
    ensures
        final(out)@ == old(out)@ + word_bytes(w),
{
    out.push((w / 16777216) as u8);
    out.push(((w / 65536) % 256) as u8);
    out.push(((w / 256) % 256) as u8);
    out.push((w % 256) as u8);
}

/// One cycle, forwards.
fn cycle_forward_exec(v: Variant, n: u32, state: (u32, u32), k: &Vec<u32>, sum_before: u32) -> (r: (
    u32,
    u32,
))
    requires
        n >= 1,
        k@.len() == 4,
        sum_before == sum_after((n - 1) as nat),
    ensures
        r == cycle_forward(v, n as nat, state, k@),
{
    let (mut left, mut right) = state;
    proof {
        lemma_sum_step((n - 1) as nat);
    }
    match v {
        Variant::Tea => {
            let sum = sum_before.wrapping_add(DELTA);
            left = left.wrapping_add(
                ((right << 4).wrapping_add(k[0])) ^ right.wrapping_add(sum) ^ ((right >> 5).wrapping_add(k[1])),
            );
            right = right.wrapping_add(
                ((left << 4).wrapping_add(k[2])) ^ left.wrapping_add(sum) ^ ((left >> 5).wrapping_add(k[3])),
            );
        },
        Variant::Xtea(_) => {
            let sum = sum_before;
            assert(sum & 3 < 4) by (bit_vector);
            left = left.wrapping_add(
                (((right << 4) ^ (right >> 5)).wrapping_add(right)) ^ sum.wrapping_add(k[(sum & 3) as usize]),
            );
            let sum2 = sum.wrapping_add(DELTA);
            assert((sum2 >> 11) & 3 < 4) by (bit_vector);
            right = right.wrapping_add(
                (((left << 4) ^ (left >> 5)).wrapping_add(left)) ^ sum2.wrapping_add(k[((sum2 >> 11) & 3) as usize]),
            );
        },
    }
    (left, right)
}

/// One cycle, backwards.
fn cycle_backward_exec(v: Variant, n: u32, state: (u32, u32), k: &Vec<u32>, sum_at: u32) -> (r: (
    u32,
    u32,
))
    requires
        n >= 1,
        k@.len() == 4,
        sum_at == sum_after(n as nat),
    ensures
        r == cycle_backward(v, n as nat, state, k@),
{
    let (mut left, mut right) = state;
    proof {
        lemma_sum_step((n - 1) as nat);
    }
    match v {
        Variant::Tea => {
            let sum = sum_at;
            right = right.wrapping_sub(
                ((left << 4).wrapping_add(k[2])) ^ left.wrapping_add(sum) ^ ((left >> 5).wrapping_add(k[3])),
            );
            left = left.wrapping_sub(
                ((right << 4).wrapping_add(k[0])) ^ right.wrapping_add(sum) ^ ((right >> 5).wrapping_add(k[1])),
            );
        },
        Variant::Xtea(_) => {
            let sum = sum_at;
            assert((sum >> 11) & 3 < 4) by (bit_vector);
            right = right.wrapping_sub(
                (((left << 4) ^ (left >> 5)).wrapping_add(left)) ^ sum.wrapping_add(k[((sum >> 11) & 3) as usize]),
            );
            let sum2 = sum.wrapping_sub(DELTA);
            assert(sum2 & 3 < 4) by (bit_vector);
            left = left.wrapping_sub(
                (((right << 4) ^ (right >> 5)).wrapping_add(right)) ^ sum2.wrapping_add(k[(sum2 & 3) as usize]),
            );
        },
    }
    (left, right)
}

/// How many cycles this instance runs.
fn cycles(v: Variant) -> (c: u32)
    ensures
        c == cycles_of(v),
{
    match v {
        Variant::Tea => TEA_CYCLES,
        Variant::Xtea(c) => c,
    }
}

/// One block, forwards.
pub fn encrypt_block(v: Variant, block: &Vec<u8>, k: &Vec<u32>) -> (out: Vec<u8>)
    requires
        block@.len() == 8,
        k@.len() == 4,
    ensures
        out@ == encrypt_block_spec(v, block@, k@),
        out@.len() == 8,
{
    let n = cycles(v);
    let ghost s0 = (be_word(block@, 0), be_word(block@, 4));
    let mut state = (word_at(block.as_slice(), 0), word_at(block.as_slice(), 4));
    let mut sum: u32 = 0;
    let mut i: u32 = 0;
    while i < n
        invariant
            i <= n,
            k@.len() == 4,
            state == cipher_forward(v, i as nat, s0, k@),
            sum == sum_after(i as nat),
        decreases n - i,
    {
        state = cycle_forward_exec(v, i + 1, state, k, sum);
        proof {
            lemma_sum_step(i as nat);
        }
        sum = sum.wrapping_add(DELTA);
        i = i + 1;
    }
    let mut out: Vec<u8> = Vec::new();
    push_word(&mut out, state.0);
    push_word(&mut out, state.1);
    out
}

/// One block, backwards.
pub fn decrypt_block(v: Variant, block: &Vec<u8>, k: &Vec<u32>) -> (out: Vec<u8>)
    requires
        block@.len() == 8,
        k@.len() == 4,
    ensures
        out@ == decrypt_block_spec(v, block@, k@),
        out@.len() == 8,
{
    let n = cycles(v);
    let ghost s0 = (be_word(block@, 0), be_word(block@, 4));
    let mut state = (word_at(block.as_slice(), 0), word_at(block.as_slice(), 4));
    let mut sum: u32 = DELTA.wrapping_mul(n);
    let mut i: u32 = n;
    while i > 0
        invariant
            i <= n,
            k@.len() == 4,
            cipher_backward(v, n as nat, s0, k@) == cipher_backward(v, i as nat, state, k@),
            sum == sum_after(i as nat),
        decreases i,
    {
        state = cycle_backward_exec(v, i, state, k, sum);
        proof {
            lemma_sum_step((i - 1) as nat);
        }
        sum = sum.wrapping_sub(DELTA);
        i = i - 1;
    }
    let mut out: Vec<u8> = Vec::new();
    push_word(&mut out, state.0);
    push_word(&mut out, state.1);
    out
}


// ---------------------------------------------------------------------------
// Modes and padding.

/// The mode a name selects.
pub open spec fn mode_of(name: Seq<char>) -> Option<Mode> {
    if name == "ECB"@ {
        Some(Mode::Ecb)
    } else if name == "CBC"@ {
        Some(Mode::Cbc)
    } else if name == "CFB"@ {
        Some(Mode::Cfb)
    } else if name == "OFB"@ {
        Some(Mode::Ofb)
    } else if name == "CTR"@ {
        Some(Mode::Ctr)
    } else {
        None
    }
}

/// The padding a name selects.
pub open spec fn padding_of(name: Seq<char>) -> Option<Padding> {
    if name == "PKCS5"@ {
        Some(Padding::Pkcs5)
    } else if name == "NO"@ {
        Some(Padding::No)
    } else if name == "ZERO"@ {
        Some(Padding::Zero)
    } else if name == "RANDOM"@ {
        Some(Padding::Random)
    } else if name == "BIT"@ {
        Some(Padding::Bit)
    } else {
        None
    }
}

/// Whether a mode pads and works on whole blocks.
pub open spec fn is_blocked(m: Mode) -> bool {
    m == Mode::Ecb || m == Mode::Cbc
}

/// One block of the data starting at `at`, zero-filled past the end.
pub open spec fn block_at_spec(d: Seq<u8>, at: int) -> Seq<u8> {
    Seq::new(8, |j: int| if at + j < d.len() { d[at + j] } else { 0u8 })
}

/// Two blocks, XORed.
pub open spec fn xor_spec(a: Seq<u8>, b: Seq<u8>) -> Seq<u8> {
    Seq::new(8, |j: int| a[j] ^ b[j])
}

/// The counter incremented as a big-endian number, from byte `n - 1` down.
pub open spec fn increment_spec(c: Seq<u8>, n: int) -> Seq<u8>
    decreases n,
{
    if n <= 0 {
        c
    } else {
        let b = ((c[n - 1] + 1) % 256) as u8;
        let c2 = c.update(n - 1, b);
        if b != 0 {
            c2
        } else {
            increment_spec(c2, n - 1)
        }
    }
}

/// One block forwards through the mode: what is written, and the next chain.
#[verifier::opaque]
pub open spec fn encrypt_step(v: Variant, k: Seq<u32>, m: Mode, block: Seq<u8>, chain: Seq<u8>) -> (
    Seq<u8>,
    Seq<u8>,
) {
    match m {
        Mode::Ecb => (encrypt_block_spec(v, block, k), chain),
        Mode::Cbc => {
            let c = encrypt_block_spec(v, xor_spec(block, chain), k);
            (c, c)
        },
        Mode::Cfb => {
            let c = xor_spec(encrypt_block_spec(v, chain, k), block);
            (c, c)
        },
        Mode::Ofb => {
            let c = encrypt_block_spec(v, chain, k);
            (xor_spec(c, block), c)
        },
        Mode::Ctr => (xor_spec(encrypt_block_spec(v, chain, k), block), increment_spec(chain, 8)),
    }
}

/// One block backwards through the mode: what is written, and the next chain.
#[verifier::opaque]
pub open spec fn decrypt_step(v: Variant, k: Seq<u32>, m: Mode, block: Seq<u8>, chain: Seq<u8>) -> (
    Seq<u8>,
    Seq<u8>,
) {
    match m {
        Mode::Ecb => (decrypt_block_spec(v, block, k), chain),
        Mode::Cbc => (xor_spec(decrypt_block_spec(v, block, k), chain), block),
        Mode::Cfb => (xor_spec(encrypt_block_spec(v, chain, k), block), block),
        Mode::Ofb => {
            let c = encrypt_block_spec(v, chain, k);
            (xor_spec(c, block), c)
        },
        Mode::Ctr => (xor_spec(encrypt_block_spec(v, chain, k), block), increment_spec(chain, 8)),
    }
}

/// Every block from `at` on, forwards.
pub open spec fn encrypt_chain(
    v: Variant,
    k: Seq<u32>,
    m: Mode,
    d: Seq<u8>,
    at: int,
    chain: Seq<u8>,
) -> Seq<u8>
    decreases d.len() - at,
{
    if at < 0 || at >= d.len() {
        seq![]
    } else {
        let (o, c) = encrypt_step(v, k, m, block_at_spec(d, at), chain);
        o + if at + 8 < d.len() {
            encrypt_chain(v, k, m, d, at + 8, c)
        } else {
            seq![]
        }
    }
}

/// Every block from `at` on, backwards.
pub open spec fn decrypt_chain(
    v: Variant,
    k: Seq<u32>,
    m: Mode,
    d: Seq<u8>,
    at: int,
    chain: Seq<u8>,
) -> Seq<u8>
    decreases d.len() - at,
{
    if at < 0 || at >= d.len() {
        seq![]
    } else {
        let (o, c) = decrypt_step(v, k, m, block_at_spec(d, at), chain);
        o + if at + 8 < d.len() {
            decrypt_chain(v, k, m, d, at + 8, c)
        } else {
            seq![]
        }
    }
}

/// The message grown to a whole number of blocks.
pub open spec fn pad_spec(msg: Seq<u8>, p: Padding) -> Result<Seq<u8>, Failure> {
    let remainder = msg.len() % 8;
    if remainder == 0 && p != Padding::Pkcs5 {
        Ok(msg)
    } else {
        let count: nat = if remainder == 0 {
            8
        } else {
            (8 - remainder) as nat
        };
        match p {
            Padding::No => Err(Failure::TeaUnpaddedInput),
            Padding::Random => Err(Failure::TeaRandomPadding),
            Padding::Pkcs5 => Ok(msg + Seq::new(count, |i: int| count as u8)),
            Padding::Zero => Ok(msg + Seq::new(count, |i: int| 0u8)),
            Padding::Bit => Ok(msg + seq![0x80u8] + Seq::new((count - 1) as nat, |i: int| 0u8)),
        }
    }
}

/// BIT padding stripped: the last non-zero byte below `n` must be `0x80`.
pub open spec fn bit_unpad(msg: Seq<u8>, n: int) -> Result<Seq<u8>, Failure>
    decreases n,
{
    if n <= 0 {
        Err(Failure::TeaBadPadding)
    } else if msg[n - 1] == 0x80 {
        Ok(msg.take(n - 1))
    } else if msg[n - 1] != 0 {
        Err(Failure::TeaBadPadding)
    } else {
        bit_unpad(msg, n - 1)
    }
}

/// The message shrunk back, for the two schemes that mark where they stopped.
pub open spec fn unpad_spec(msg: Seq<u8>, p: Padding) -> Result<Seq<u8>, Failure> {
    if msg.len() == 0 {
        Ok(msg)
    } else {
        match p {
            Padding::Pkcs5 => {
                let count = msg.last() as int;
                if count == 0 || count > 8 || count > msg.len() {
                    Err(Failure::TeaBadPadding)
                } else if exists|i: int| msg.len() - count <= i < msg.len() && msg[i] != count {
                    Err(Failure::TeaBadPadding)
                } else {
                    Ok(msg.take(msg.len() - count))
                }
            },
            Padding::Bit => bit_unpad(msg, msg.len() as int),
            _ => Ok(msg),
        }
    }
}

/// What `encrypt` answers.
pub open spec fn encrypt_spec(
    msg: Seq<u8>,
    v: Variant,
    key: Seq<u8>,
    iv: Seq<u8>,
    mode: Seq<char>,
    padding: Seq<char>,
) -> Result<Seq<u8>, OperationError> {
    match mode_of(mode) {
        None => Err(OperationError::Failed(Failure::TeaInvalidMode)),
        Some(m) => match padding_of(padding) {
            None => Err(OperationError::Failed(Failure::TeaInvalidPadding)),
            Some(p) => if msg.len() == 0 {
                Ok(seq![])
            } else {
                let data = if is_blocked(m) {
                    pad_spec(msg, p)
                } else {
                    Ok(msg)
                };
                match data {
                    Err(f) => Err(OperationError::Failed(f)),
                    Ok(d) => {
                        let out = encrypt_chain(
                            v,
                            key_words_spec(key),
                            m,
                            d,
                            0,
                            block_at_spec(iv, 0),
                        );
                        if is_blocked(m) {
                            Ok(out)
                        } else {
                            Ok(out.take(msg.len() as int))
                        }
                    },
                }
            },
        },
    }
}

/// What `decrypt` answers.
pub open spec fn decrypt_spec(
    msg: Seq<u8>,
    v: Variant,
    key: Seq<u8>,
    iv: Seq<u8>,
    mode: Seq<char>,
    padding: Seq<char>,
) -> Result<Seq<u8>, OperationError> {
    match mode_of(mode) {
        None => Err(OperationError::Failed(Failure::TeaInvalidMode)),
        Some(m) => match padding_of(padding) {
            None => Err(OperationError::Failed(Failure::TeaInvalidPadding)),
            Some(p) => if msg.len() == 0 {
                Ok(seq![])
            } else if is_blocked(m) && msg.len() % 8 != 0 {
                Err(OperationError::Failed(Failure::TeaBadLength))
            } else {
                let out = decrypt_chain(v, key_words_spec(key), m, msg, 0, block_at_spec(iv, 0));
                if is_blocked(m) {
                    match unpad_spec(out, p) {
                        Ok(r) => Ok(r),
                        Err(f) => Err(OperationError::Failed(f)),
                    }
                } else {
                    Ok(out.take(msg.len() as int))
                }
            },
        },
    }
}

impl Mode {
    /// The mode a name selects.
    pub fn parse(name: &str) -> (r: Result<Mode, OperationError>)
        ensures
            match mode_of(name@) {
                Some(m) => r == Ok::<Mode, OperationError>(m),
                None => r == Err::<Mode, OperationError>(OperationError::Failed(Failure::TeaInvalidMode)),
            },
    {
        if str_equals(name, "ECB") {
            Ok(Mode::Ecb)
        } else if str_equals(name, "CBC") {
            Ok(Mode::Cbc)
        } else if str_equals(name, "CFB") {
            Ok(Mode::Cfb)
        } else if str_equals(name, "OFB") {
            Ok(Mode::Ofb)
        } else if str_equals(name, "CTR") {
            Ok(Mode::Ctr)
        } else {
            Err(OperationError::Failed(Failure::TeaInvalidMode))
        }
    }
}

impl Padding {
    /// The padding a name selects.
    pub fn parse(name: &str) -> (r: Result<Padding, OperationError>)
        ensures
            match padding_of(name@) {
                Some(p) => r == Ok::<Padding, OperationError>(p),
                None => r == Err::<Padding, OperationError>(OperationError::Failed(Failure::TeaInvalidPadding)),
            },
    {
        if str_equals(name, "PKCS5") {
            Ok(Padding::Pkcs5)
        } else if str_equals(name, "NO") {
            Ok(Padding::No)
        } else if str_equals(name, "ZERO") {
            Ok(Padding::Zero)
        } else if str_equals(name, "RANDOM") {
            Ok(Padding::Random)
        } else if str_equals(name, "BIT") {
            Ok(Padding::Bit)
        } else {
            Err(OperationError::Failed(Failure::TeaInvalidPadding))
        }
    }
}

fn mode_is_blocked(m: Mode) -> (r: bool)
    ensures
        r == is_blocked(m),
{
    match m {
        Mode::Ecb | Mode::Cbc => true,
        _ => false,
    }
}

/// Grows the message to a whole number of blocks.
///
/// `RANDOM` is refused exactly when padding would actually be added: random
/// bytes have no reproducible answer.
pub fn pad(message: &[u8], padding: Padding) -> (r: Result<Vec<u8>, Failure>)
    ensures
        match r {
            Ok(v) => pad_spec(message@, padding) == Ok::<Seq<u8>, Failure>(v@),
            Err(f) => pad_spec(message@, padding) == Err::<Seq<u8>, Failure>(f),
        },
{
    let remainder = message.len() % BLOCK;
    let mut padded: Vec<u8> = Vec::new();
    let mut i: usize = 0;
    while i < message.len()
        invariant
            i <= message.len(),
            padded@ == message@.take(i as int),
        decreases message.len() - i,
    {
        padded.push(message[i]);
        i = i + 1;
    }
    assert(message@.take(message.len() as int) == message@);
    if remainder == 0 && padding != Padding::Pkcs5 {
        return Ok(padded);
    }
    let count = if remainder == 0 {
        BLOCK
    } else {
        BLOCK - remainder
    };
    let ghost base = padded@;
    match padding {
        Padding::No => Err(Failure::TeaUnpaddedInput),
        Padding::Random => Err(Failure::TeaRandomPadding),
        Padding::Pkcs5 => {
            let mut j: usize = 0;
            while j < count
                invariant
                    j <= count <= 8,
                    padded@ == base + Seq::new(j as nat, |i: int| count as u8),
                decreases count - j,
            {
                padded.push(count as u8);
                j = j + 1;
                assert(padded@ == base + Seq::new(j as nat, |i: int| count as u8));
            }
            assert(pad_spec(message@, padding) == Ok::<Seq<u8>, Failure>(padded@));
            Ok(padded)
        },
        Padding::Zero => {
            let mut j: usize = 0;
            while j < count
                invariant
                    j <= count <= 8,
                    padded@ == base + Seq::new(j as nat, |i: int| 0u8),
                decreases count - j,
            {
                padded.push(0);
                j = j + 1;
                assert(padded@ == base + Seq::new(j as nat, |i: int| 0u8));
            }
            assert(pad_spec(message@, padding) == Ok::<Seq<u8>, Failure>(padded@));
            Ok(padded)
        },
        Padding::Bit => {
            padded.push(0x80);
            let ghost base2 = padded@;
            assert(base2 == base + seq![0x80u8]);
            let mut j: usize = 1;
            while j < count
                invariant
                    1 <= j <= count <= 8,
                    padded@ == base2 + Seq::new((j - 1) as nat, |i: int| 0u8),
                decreases count - j,
            {
                padded.push(0);
                j = j + 1;
                assert(padded@ == base2 + Seq::new((j - 1) as nat, |i: int| 0u8));
            }
            assert(pad_spec(message@, padding) == Ok::<Seq<u8>, Failure>(padded@));
            Ok(padded)
        },
    }
}

/// Shrinks the message back, for the two schemes that mark where they stopped.
///
/// `ZERO` and `RANDOM` have no marker to find, so a decrypt with either returns
/// whatever the padding added along with the message.
pub fn unpad(message: Vec<u8>, padding: Padding) -> (r: Result<Vec<u8>, Failure>)
    ensures
        match r {
            Ok(v) => unpad_spec(message@, padding) == Ok::<Seq<u8>, Failure>(v@),
            Err(f) => unpad_spec(message@, padding) == Err::<Seq<u8>, Failure>(f),
        },
{
    if message.len() == 0 {
        return Ok(message);
    }
    match padding {
        Padding::No | Padding::Zero | Padding::Random => Ok(message),
        Padding::Pkcs5 => {
            let count = message[message.len() - 1] as usize;
            if count == 0 || count > BLOCK || count > message.len() {
                return Err(Failure::TeaBadPadding);
            }
            let mut i = message.len() - count;
            while i < message.len()
                invariant
                    message.len() > 0,
                    padding == Padding::Pkcs5,
                    1 <= count <= 8,
                    count <= message.len(),
                    message.len() - count <= i <= message.len(),
                    count == message@.last() as int,
                    forall|j: int| message.len() - count <= j < i ==> message@[j] == count,
                decreases message.len() - i,
            {
                if message[i] as usize != count {
                    assert(message@[i as int] != count);
                    return Err(Failure::TeaBadPadding);
                }
                i = i + 1;
            }
            let mut out = message;
            out.truncate(out.len() - count);
            assert(out@ == message@.take(message@.len() - count));
            Ok(out)
        },
        Padding::Bit => {
            let mut at = message.len();
            while at > 0
                invariant
                    message.len() > 0,
                    padding == Padding::Bit,
                    at <= message.len(),
                    bit_unpad(message@, message.len() as int) == bit_unpad(message@, at as int),
                decreases at,
            {
                if message[at - 1] == 0x80 {
                    let ghost m = message@;
                    let mut out = message;
                    out.truncate(at - 1);
                    assert(out@ == m.take(at - 1));
                    assert(bit_unpad(m, at as int) == Ok::<Seq<u8>, Failure>(m.take(at - 1)));
                    return Ok(out);
                }
                if message[at - 1] != 0 {
                    assert(bit_unpad(message@, at as int) == Err::<Seq<u8>, Failure>(Failure::TeaBadPadding));
                    return Err(Failure::TeaBadPadding);
                }
                at = at - 1;
            }
            Err(Failure::TeaBadPadding)
        },
    }
}

/// Stripping padding undoes adding it: always for PKCS5, for BIT when the
/// message is not whole blocks (BIT adds nothing to whole blocks, and then
/// strips real zeros), and for the other schemes when it is whole blocks, so
/// that nothing was added.
pub proof fn lemma_unpad_inverts_pad(msg: Seq<u8>, p: Padding)
    requires
        p == Padding::Pkcs5 || (p == Padding::Bit && msg.len() % 8 != 0) || (p != Padding::Bit && msg.len() % 8
            == 0),
    ensures
        pad_spec(msg, p) is Ok,
        unpad_spec(pad_spec(msg, p)->Ok_0, p) == Ok::<Seq<u8>, Failure>(msg),
{
    let padded = pad_spec(msg, p)->Ok_0;
    let remainder = msg.len() % 8;
    let count: nat = if remainder == 0 {
        8
    } else {
        (8 - remainder) as nat
    };
    if p != Padding::Pkcs5 && p != Padding::Bit {
        assert(padded == msg);
    } else if p == Padding::Pkcs5 {
        let tail = Seq::new(count, |i: int| count as u8);
        assert(padded == msg + tail);
        assert(padded.len() == msg.len() + count);
        assert(padded.last() == count as u8);
        assert forall|i: int| padded.len() - count <= i < padded.len() implies padded[i]
            == count by {
            assert(padded[i] == tail[i - msg.len()]);
        }
        assert(padded.take(padded.len() - count) == msg);
    } else {
        let tail = Seq::new((count - 1) as nat, |i: int| 0u8);
        assert(padded == msg + seq![0x80u8] + tail);
        assert(padded.len() == msg.len() + count);
        assert(padded.take(msg.len() as int) == msg);
        assert(padded[msg.len() as int] == 0x80);
        assert forall|i: int| msg.len() < i < padded.len() implies padded[i] == 0 by {
            assert(padded[i] == tail[i - msg.len() - 1]);
        }
        lemma_bit_unpad_zeros(padded, msg, padded.len() as int);
    }
}

proof fn lemma_bit_unpad_zeros(padded: Seq<u8>, msg: Seq<u8>, k: int)
    requires
        msg.len() + 1 <= k <= padded.len(),
        padded.take(msg.len() as int) == msg,
        padded[msg.len() as int] == 0x80,
        forall|i: int| msg.len() < i < padded.len() ==> padded[i] == 0,
    ensures
        bit_unpad(padded, k) == Ok::<Seq<u8>, Failure>(msg),
    decreases k,
{
    if k > msg.len() + 1 {
        lemma_bit_unpad_zeros(padded, msg, k - 1);
    }
}


// ---------------------------------------------------------------------------
// The two directions.

proof fn lemma_block_lengths(v: Variant, b: Seq<u8>, c: Seq<u8>, k: Seq<u32>, n: int)
    ensures
        encrypt_block_spec(v, b, k).len() == 8,
        decrypt_block_spec(v, b, k).len() == 8,
        xor_spec(b, c).len() == 8,
        n <= c.len() ==> increment_spec(c, n).len() == c.len(),
    decreases n,
{
    if n > 0 {
        let b2 = ((c[n - 1] + 1) % 256) as u8;
        lemma_block_lengths(v, b, c.update(n - 1, b2), k, n - 1);
    }
}

proof fn lemma_chain_lengths(v: Variant, k: Seq<u32>, m: Mode, d: Seq<u8>, at: int, chain: Seq<u8>)
    requires
        0 <= at,
        chain.len() == 8,
    ensures
        encrypt_chain(v, k, m, d, at, chain).len() >= d.len() - at,
        decrypt_chain(v, k, m, d, at, chain).len() >= d.len() - at,
    decreases d.len() - at,
{
    reveal(encrypt_step);
    reveal(decrypt_step);
    if at < d.len() {
        let b = block_at_spec(d, at);
        lemma_block_lengths(v, b, chain, k, 8);
        lemma_block_lengths(v, xor_spec(b, chain), chain, k, 8);
        lemma_block_lengths(v, chain, chain, k, 8);
        lemma_block_lengths(v, b, b, k, 8);
        lemma_block_lengths(v, encrypt_block_spec(v, chain, k), chain, k, 8);
        lemma_block_lengths(v, encrypt_block_spec(v, xor_spec(b, chain), k), chain, k, 8);
        let (o, c) = encrypt_step(v, k, m, b, chain);
        let (o2, c2) = decrypt_step(v, k, m, b, chain);
        assert(o.len() == 8 && c.len() == 8);
        assert(o2.len() == 8 && c2.len() == 8);
        if at + 8 < d.len() {
            lemma_chain_lengths(v, k, m, d, at + 8, c);
            lemma_chain_lengths(v, k, m, d, at + 8, c2);
        }
    }
}

/// One block of the data, zero-filled when the data runs out.
fn block_at(data: &[u8], at: usize) -> (b: Vec<u8>)
    ensures
        b@ == block_at_spec(data@, at as int),
{
    let mut b: Vec<u8> = Vec::new();
    let mut j: usize = 0;
    while j < BLOCK
        invariant
            j <= 8,
            b@ == block_at_spec(data@, at as int).take(j as int),
        decreases 8 - j,
    {
        if at < data.len() && data.len() - at > j {
            b.push(data[at + j]);
        } else {
            b.push(0);
        }
        j = j + 1;
    }
    b
}

/// Two blocks, XORed.
fn xor(a: &Vec<u8>, b: &Vec<u8>) -> (r: Vec<u8>)
    requires
        a@.len() == 8,
        b@.len() == 8,
    ensures
        r@ == xor_spec(a@, b@),
{
    let mut r: Vec<u8> = Vec::new();
    let mut j: usize = 0;
    while j < BLOCK
        invariant
            j <= 8,
            a@.len() == 8,
            b@.len() == 8,
            r@ == xor_spec(a@, b@).take(j as int),
        decreases 8 - j,
    {
        r.push(a[j] ^ b[j]);
        j = j + 1;
    }
    r
}

/// The counter, incremented as a big-endian number.
fn increment(counter: &mut Vec<u8>)
    requires
        old(counter)@.len() == 8,
    ensures
        final(counter)@ == increment_spec(old(counter)@, 8),
{
    let mut n: usize = 8;
    while n > 0
        invariant
            n <= 8,
            counter@.len() == 8,
            increment_spec(old(counter)@, 8) == increment_spec(counter@, n as int),
        decreases n,
    {
        let b = counter[n - 1].wrapping_add(1);
        counter[n - 1] = b;
        if b != 0 {
            return;
        }
        n = n - 1;
    }
}

fn encrypt_step_exec(v: Variant, k: &Vec<u32>, m: Mode, block: &Vec<u8>, chain: &Vec<u8>) -> (r: (
    Vec<u8>,
    Vec<u8>,
))
    requires
        k@.len() == 4,
        block@.len() == 8,
        chain@.len() == 8,
    ensures
        (r.0@, r.1@) == encrypt_step(v, k@, m, block@, chain@),
        r.1@.len() == 8,
{
    reveal(encrypt_step);
    proof {
        lemma_block_lengths(v, block@, chain@, k@, 8);
    }
    match m {
        Mode::Ecb => (encrypt_block(v, block, k), chain.clone()),
        Mode::Cbc => {
            let c = encrypt_block(v, &xor(block, chain), k);
            (c.clone(), c)
        },
        Mode::Cfb => {
            let c = xor(&encrypt_block(v, chain, k), block);
            (c.clone(), c)
        },
        Mode::Ofb => {
            let c = encrypt_block(v, chain, k);
            (xor(&c, block), c)
        },
        Mode::Ctr => {
            let o = xor(&encrypt_block(v, chain, k), block);
            let mut c = chain.clone();
            increment(&mut c);
            (o, c)
        },
    }
}

fn decrypt_step_exec(v: Variant, k: &Vec<u32>, m: Mode, block: &Vec<u8>, chain: &Vec<u8>) -> (r: (
    Vec<u8>,
    Vec<u8>,
))
    requires
        k@.len() == 4,
        block@.len() == 8,
        chain@.len() == 8,
    ensures
        (r.0@, r.1@) == decrypt_step(v, k@, m, block@, chain@),
        r.1@.len() == 8,
{
    reveal(decrypt_step);
    proof {
        lemma_block_lengths(v, block@, chain@, k@, 8);
    }
    match m {
        Mode::Ecb => (decrypt_block(v, block, k), chain.clone()),
        Mode::Cbc => (xor(&decrypt_block(v, block, k), chain), block.clone()),
        Mode::Cfb => (xor(&encrypt_block(v, chain, k), block), block.clone()),
        Mode::Ofb => {
            let c = encrypt_block(v, chain, k);
            (xor(&c, block), c)
        },
        Mode::Ctr => {
            let o = xor(&encrypt_block(v, chain, k), block);
            let mut c = chain.clone();
            increment(&mut c);
            (o, c)
        },
    }
}

/// Encrypts, in whichever mode was asked for.
pub fn encrypt(
    message: &[u8],
    variant: Variant,
    key: &[u8],
    iv: &[u8],
    mode: &str,
    padding: &str,
) -> (r: Result<Vec<u8>, OperationError>)
    requires
        key@.len() >= 16,
    ensures
        match r {
            Ok(v) => encrypt_spec(message@, variant, key@, iv@, mode@, padding@) == Ok::<
                Seq<u8>,
                OperationError,
            >(v@),
            Err(e) => encrypt_spec(message@, variant, key@, iv@, mode@, padding@) == Err::<
                Seq<u8>,
                OperationError,
            >(e),
        },
{
    let k = key_words(key);
    let m = Mode::parse(mode)?;
    let p = Padding::parse(padding)?;
    if message.len() == 0 {
        return Ok(Vec::new());
    }
    let length = message.len();
    let data = if mode_is_blocked(m) {
        match pad(message, p) {
            Ok(d) => d,
            Err(f) => return Err(OperationError::Failed(f)),
        }
    } else {
        let mut d: Vec<u8> = Vec::new();
        let mut i: usize = 0;
        while i < message.len()
            invariant
                i <= message.len(),
                d@ == message@.take(i as int),
            decreases message.len() - i,
        {
            d.push(message[i]);
            i = i + 1;
        }
        assert(message@.take(message.len() as int) == message@);
        d
    };
    let ghost chain0 = block_at_spec(iv@, 0);
    let mut chain = block_at(iv, 0);
    let mut output: Vec<u8> = Vec::new();
    let mut at: usize = 0;
    while at < data.len()
        invariant
            at <= data.len(),
            chain@.len() == 8,
            k@ == key_words_spec(key@),
            encrypt_chain(variant, k@, m, data@, 0, chain0) == output@ + encrypt_chain(
                variant,
                k@,
                m,
                data@,
                at as int,
                chain@,
            ),
        decreases data.len() - at,
    {
        let block = block_at(data.as_slice(), at);
        let (mut o, c) = encrypt_step_exec(variant, &k, m, &block, &chain);
        output.append(&mut o);
        chain = c;
        at = if data.len() - at > BLOCK {
            at + BLOCK
        } else {
            data.len()
        };
    }
    assert(output@ == encrypt_chain(variant, k@, m, data@, 0, chain0)) by {
        assert(output@ + Seq::<u8>::empty() == output@);
    }
    proof {
        lemma_chain_lengths(variant, k@, m, data@, 0, chain0);
    }
    if mode_is_blocked(m) {
        Ok(output)
    } else {
        output.truncate(length);
        Ok(output)
    }
}

/// Decrypts, in whichever mode was asked for.
pub fn decrypt(
    ciphertext: &[u8],
    variant: Variant,
    key: &[u8],
    iv: &[u8],
    mode: &str,
    padding: &str,
) -> (r: Result<Vec<u8>, OperationError>)
    requires
        key@.len() >= 16,
    ensures
        match r {
            Ok(v) => decrypt_spec(ciphertext@, variant, key@, iv@, mode@, padding@) == Ok::<
                Seq<u8>,
                OperationError,
            >(v@),
            Err(e) => decrypt_spec(ciphertext@, variant, key@, iv@, mode@, padding@) == Err::<
                Seq<u8>,
                OperationError,
            >(e),
        },
{
    let k = key_words(key);
    let m = Mode::parse(mode)?;
    let p = Padding::parse(padding)?;
    if ciphertext.len() == 0 {
        return Ok(Vec::new());
    }
    let length = ciphertext.len();
    if mode_is_blocked(m) && length % BLOCK != 0 {
        return Err(OperationError::Failed(Failure::TeaBadLength));
    }
    let ghost chain0 = block_at_spec(iv@, 0);
    let mut chain = block_at(iv, 0);
    let mut output: Vec<u8> = Vec::new();
    let mut at: usize = 0;
    while at < length
        invariant
            at <= length,
            length == ciphertext@.len(),
            chain@.len() == 8,
            k@ == key_words_spec(key@),
            decrypt_chain(variant, k@, m, ciphertext@, 0, chain0) == output@ + decrypt_chain(
                variant,
                k@,
                m,
                ciphertext@,
                at as int,
                chain@,
            ),
        decreases length - at,
    {
        let block = block_at(ciphertext, at);
        let (mut o, c) = decrypt_step_exec(variant, &k, m, &block, &chain);
        output.append(&mut o);
        chain = c;
        at = if length - at > BLOCK {
            at + BLOCK
        } else {
            length
        };
    }
    assert(output@ == decrypt_chain(variant, k@, m, ciphertext@, 0, chain0)) by {
        assert(output@ + Seq::<u8>::empty() == output@);
    }
    proof {
        lemma_chain_lengths(variant, k@, m, ciphertext@, 0, chain0);
    }
    if mode_is_blocked(m) {
        match unpad(output, p) {
            Ok(r) => Ok(r),
            Err(f) => Err(OperationError::Failed(f)),
        }
    } else {
        output.truncate(length);
        Ok(output)
    }
}


proof fn lemma_xor_twice(b: Seq<u8>, c: Seq<u8>)
    requires
        b.len() == 8,
        c.len() == 8,
    ensures
        xor_spec(xor_spec(b, c), c) == b,
{
    assert forall|j: int| 0 <= j < 8 implies #[trigger] xor_spec(xor_spec(b, c), c)[j] == b[j] by {
        let x = b[j];
        let y = c[j];
        assert((x ^ y) ^ y == x) by (bit_vector);
    }
    assert(xor_spec(xor_spec(b, c), c) =~= b);
}

/// For whole blocks in ECB or CBC, decrypting the ciphertext from `at` on, with
/// the chain encryption had there, gives back the data from `at` on.
proof fn lemma_blocked_step(v: Variant, k: Seq<u32>, m: Mode, b: Seq<u8>, chain: Seq<u8>)
    requires
        is_blocked(m),
        b.len() == 8,
        chain.len() == 8,
    ensures
        encrypt_step(v, k, m, b, chain).0.len() == 8,
        encrypt_step(v, k, m, b, chain).1.len() == 8,
        decrypt_step(v, k, m, encrypt_step(v, k, m, b, chain).0, chain) == (
            b,
            encrypt_step(v, k, m, b, chain).1,
        ),
{
    reveal(encrypt_step);
    reveal(decrypt_step);
    lemma_block_lengths(v, b, chain, k, 8);
    lemma_block_lengths(v, xor_spec(b, chain), chain, k, 8);
    if m == Mode::Ecb {
        lemma_block_inverse(v, b, k);
    } else {
        lemma_block_inverse(v, xor_spec(b, chain), k);
        lemma_xor_twice(b, chain);
    }
}

/// For whole blocks in ECB or CBC, decrypting the ciphertext from `at` on, with
/// the chain encryption had there, gives back the data from `at` on.
proof fn lemma_blocked_chain_inverse(
    v: Variant,
    k: Seq<u32>,
    m: Mode,
    d: Seq<u8>,
    at: int,
    chain: Seq<u8>,
    prefix: Seq<u8>,
)
    requires
        is_blocked(m),
        d.len() % 8 == 0,
        0 <= at,
        at % 8 == 0,
        chain.len() == 8,
        prefix.len() == at,
    ensures
        decrypt_chain(v, k, m, prefix + encrypt_chain(v, k, m, d, at, chain), at, chain) == if at
            < d.len() {
            d.skip(at)
        } else {
            seq![]
        },
        encrypt_chain(v, k, m, d, at, chain).len() == if at < d.len() {
            d.len() - at
        } else {
            0
        },
    decreases d.len() - at,
{
    let e = prefix + encrypt_chain(v, k, m, d, at, chain);
    if at < d.len() {
        let b = block_at_spec(d, at);
        assert(b == d.subrange(at, at + 8));
        lemma_blocked_step(v, k, m, b, chain);
        let (o, c) = encrypt_step(v, k, m, b, chain);
        let rest = if at + 8 < d.len() {
            encrypt_chain(v, k, m, d, at + 8, c)
        } else {
            seq![]
        };
        assert(e == prefix + o + rest);
        assert(block_at_spec(e, at) == o);
        if at + 8 < d.len() {
            lemma_blocked_chain_inverse(v, k, m, d, at + 8, c, prefix + o);
            assert(prefix + o + rest == e);
            assert(d.skip(at) == b + d.skip(at + 8));
        } else {
            assert(e.len() == at + 8);
            assert(d.skip(at) == b);
        }
    }
}

/// Decrypting undoes encrypting in the two blocked modes: with PKCS5 padding,
/// with BIT padding on a message that BIT pads, and with the other paddings
/// on a message of whole blocks.
pub proof fn lemma_blocked_roundtrip(
    msg: Seq<u8>,
    v: Variant,
    key: Seq<u8>,
    iv: Seq<u8>,
    mode: Seq<char>,
    padding: Seq<char>,
)
    requires
        mode_of(mode) == Some(Mode::Ecb) || mode_of(mode) == Some(Mode::Cbc),
        padding_of(padding) == Some(Padding::Pkcs5) || (padding_of(padding) == Some(Padding::Bit)
            && msg.len() % 8 != 0) || (padding_of(padding) is Some && padding_of(padding) != Some(Padding::Bit)
            && msg.len() % 8 == 0),
    ensures
        encrypt_spec(msg, v, key, iv, mode, padding) is Ok,
        decrypt_spec(encrypt_spec(msg, v, key, iv, mode, padding)->Ok_0, v, key, iv, mode, padding)
            == Ok::<Seq<u8>, OperationError>(msg),
{
    let m = mode_of(mode)->Some_0;
    let p = padding_of(padding)->Some_0;
    if msg.len() > 0 {
        lemma_unpad_inverts_pad(msg, p);
        let d = pad_spec(msg, p)->Ok_0;
        let k = key_words_spec(key);
        let c0 = block_at_spec(iv, 0);
        let e = encrypt_chain(v, k, m, d, 0, c0);
        assert(d.len() % 8 == 0);
        lemma_blocked_chain_inverse(v, k, m, d, 0, c0, seq![]);
        assert(seq![] + e == e);
        assert(d.skip(0) == d);
        assert(e.len() == d.len());
        assert(encrypt_spec(msg, v, key, iv, mode, padding) == Ok::<Seq<u8>, OperationError>(e));
        assert(decrypt_chain(v, k, m, e, 0, c0) == d);
        assert(unpad_spec(d, p) == Ok::<Seq<u8>, Failure>(msg));
    } else {
        assert(msg == Seq::<u8>::empty());
    }
}


/// The padded message is whole blocks; PKCS5 always adds between one and
/// eight bytes.
proof fn lemma_pad_length(msg: Seq<u8>, p: Padding)
    requires
        pad_spec(msg, p) is Ok,
    ensures
        pad_spec(msg, p)->Ok_0.len() % 8 == 0,
        pad_spec(msg, p)->Ok_0.len() >= msg.len(),
        p == Padding::Pkcs5 ==> pad_spec(msg, p)->Ok_0.len() == (msg.len() / 8 + 1) * 8,
{
    let n = msg.len() as int;
    let r = n % 8;
    vstd::arithmetic::div_mod::lemma_fundamental_div_mod(n, 8);
    assert(n == (n / 8) * 8 + r && 0 <= r < 8);
    let d = pad_spec(msg, p)->Ok_0;
    if !(r == 0 && p != Padding::Pkcs5) {
        let count: int = if r == 0 {
            8
        } else {
            8 - r
        };
        assert(d.len() == n + count);
        assert((n + count) % 8 == 0 && (n + count) == (n / 8 + 1) * 8) by (nonlinear_arith)
            requires
                n == (n / 8) * 8 + r,
                0 <= r < 8,
                count == if r == 0 { 8 } else { 8 - r },
        ;
    }
}

/// What encrypting writes, by length: in a keystream mode exactly as many
/// bytes as the message, with nothing padded; in a block mode whole blocks,
/// and with PKCS5 padding one block more than the whole blocks of a
/// non-empty message.
pub proof fn lemma_encrypt_lengths(
    msg: Seq<u8>,
    v: Variant,
    key: Seq<u8>,
    iv: Seq<u8>,
    mode: Seq<char>,
    padding: Seq<char>,
)
    requires
        encrypt_spec(msg, v, key, iv, mode, padding) is Ok,
    ensures
        mode_of(mode) is Some && is_stream(mode_of(mode)->Some_0) ==> encrypt_spec(
            msg,
            v,
            key,
            iv,
            mode,
            padding,
        )->Ok_0.len() == msg.len(),
        mode_of(mode) is Some && is_blocked(mode_of(mode)->Some_0) ==> encrypt_spec(
            msg,
            v,
            key,
            iv,
            mode,
            padding,
        )->Ok_0.len() % 8 == 0,
        mode_of(mode) is Some && is_blocked(mode_of(mode)->Some_0) && padding_of(padding) == Some(
            Padding::Pkcs5,
        ) && msg.len() > 0 ==> encrypt_spec(msg, v, key, iv, mode, padding)->Ok_0.len() == (msg.len()
            / 8 + 1) * 8,
{
    let m = mode_of(mode)->Some_0;
    let p = padding_of(padding)->Some_0;
    let k = key_words_spec(key);
    let c0 = block_at_spec(iv, 0);
    if msg.len() > 0 {
        if is_blocked(m) {
            lemma_pad_length(msg, p);
            let d = pad_spec(msg, p)->Ok_0;
            lemma_blocked_chain_inverse(v, k, m, d, 0, c0, seq![]);
        } else {
            lemma_stream_encrypt_len(v, k, m, msg, 0, c0);
        }
    }
}

/// Whether a mode runs the cipher as a keystream, with no padding.
pub open spec fn is_stream(m: Mode) -> bool {
    m == Mode::Cfb || m == Mode::Ofb || m == Mode::Ctr
}

/// In a keystream mode, the encryption of the data from `at` on covers it.
proof fn lemma_stream_encrypt_len(v: Variant, k: Seq<u32>, m: Mode, d: Seq<u8>, at: int, chain: Seq<u8>)
    requires
        is_stream(m),
        0 <= at,
    ensures
        at < d.len() ==> encrypt_chain(v, k, m, d, at, chain).len() >= d.len() - at,
    decreases d.len() - at,
{
    reveal(encrypt_step);
    if at < d.len() {
        let (o, c) = encrypt_step(v, k, m, block_at_spec(d, at), chain);
        if at + 8 < d.len() {
            lemma_stream_encrypt_len(v, k, m, d, at + 8, c);
        }
    }
}

/// A byte XORed in twice is gone.
proof fn lemma_xor_cancel(a: u8, b: u8)
    ensures
        a ^ (a ^ b) == b,
{
    assert(a ^ (a ^ b) == b) by (bit_vector);
}

/// In a keystream mode each step writes a whole block.
proof fn lemma_stream_step_len(v: Variant, k: Seq<u32>, m: Mode, b: Seq<u8>, chain: Seq<u8>)
    requires
        is_stream(m),
    ensures
        encrypt_step(v, k, m, b, chain).0.len() == 8,
{
    reveal(encrypt_step);
}

/// One keystream block: where the ciphertext block agrees with what was
/// written for the first `n` bytes, decrypting gives back those bytes, and
/// for a whole block the next chain is the same on both sides.
proof fn lemma_stream_step(v: Variant, k: Seq<u32>, m: Mode, b: Seq<u8>, cb: Seq<u8>, chain: Seq<u8>, n: int)
    requires
        is_stream(m),
        0 <= n <= 8,
        b.len() == 8,
        cb.len() == 8,
        forall|j: int| 0 <= j < n ==> cb[j] == (#[trigger] encrypt_step(v, k, m, b, chain).0)[j],
    ensures
        encrypt_step(v, k, m, b, chain).0.len() == 8,
        decrypt_step(v, k, m, cb, chain).0.len() == 8,
        forall|j: int| 0 <= j < n ==> (#[trigger] decrypt_step(v, k, m, cb, chain).0)[j] == b[j],
        n == 8 ==> decrypt_step(v, k, m, cb, chain).1 == encrypt_step(v, k, m, b, chain).1,
{
    reveal(encrypt_step);
    reveal(decrypt_step);
    let key = encrypt_block_spec(v, chain, k);
    let o = encrypt_step(v, k, m, b, chain).0;
    let o2 = decrypt_step(v, k, m, cb, chain).0;
    assert forall|j: int| 0 <= j < n implies o2[j] == b[j] by {
        assert(cb[j] == o[j]);
        lemma_xor_cancel(key[j], b[j]);
    }
    if n == 8 && m == Mode::Cfb {
        assert(cb =~= o);
    }
}

/// In a keystream mode, decrypting from `at` on, with the chain encryption had
/// there, gives back the data from `at` on, whatever follows the data's end.
proof fn lemma_stream_chain_inverse(
    v: Variant,
    k: Seq<u32>,
    m: Mode,
    d: Seq<u8>,
    c: Seq<u8>,
    at: int,
    chain: Seq<u8>,
)
    requires
        is_stream(m),
        0 <= at,
        c.len() == d.len(),
        forall|j: int| at <= j < d.len() ==> c[j] == #[trigger] encrypt_chain(v, k, m, d, at, chain)[j - at],
    ensures
        at < d.len() ==> decrypt_chain(v, k, m, c, at, chain).len() >= d.len() - at,
        forall|j: int| at <= j < d.len() ==> #[trigger] decrypt_chain(v, k, m, c, at, chain)[j - at] == d[j],
    decreases d.len() - at,
{
    if at < d.len() {
        let b = block_at_spec(d, at);
        let cb = block_at_spec(c, at);
        let (o, c1) = encrypt_step(v, k, m, b, chain);
        let (o2, c2) = decrypt_step(v, k, m, cb, chain);
        let e = encrypt_chain(v, k, m, d, at, chain);
        let rest = if at + 8 < d.len() {
            encrypt_chain(v, k, m, d, at + 8, c1)
        } else {
            seq![]
        };
        let n = if at + 8 < d.len() {
            8
        } else {
            d.len() - at
        };
        lemma_stream_step_len(v, k, m, b, chain);
        assert(e == o + rest);
        assert forall|j: int| 0 <= j < n implies cb[j] == (#[trigger] encrypt_step(v, k, m, b, chain).0)[j] by {
            assert(c[at + j] == e[at + j - at]);
        }
        lemma_stream_step(v, k, m, b, cb, chain, n);
        let dc = decrypt_chain(v, k, m, c, at, chain);
        if at + 8 < d.len() {
            lemma_stream_encrypt_len(v, k, m, d, at + 8, c1);
            assert forall|j: int| at + 8 <= j < d.len() implies c[j] == #[trigger] encrypt_chain(
                v,
                k,
                m,
                d,
                at + 8,
                c1,
            )[j - (at + 8)] by {
                assert(c[j] == e[j - at]);
                assert(e[j - at] == rest[j - at - 8]);
            }
            lemma_stream_chain_inverse(v, k, m, d, c, at + 8, c1);
            let tail = decrypt_chain(v, k, m, c, at + 8, c2);
            assert(dc == o2 + tail);
            assert forall|j: int| at <= j < d.len() implies #[trigger] decrypt_chain(v, k, m, c, at, chain)[j
                - at] == d[j] by {
                if j >= at + 8 {
                    assert(dc[j - at] == tail[j - (at + 8)]);
                } else {
                    assert(dc[j - at] == o2[j - at]);
                    assert(decrypt_step(v, k, m, cb, chain).0[j - at] == b[j - at]);
                    assert(b[j - at] == d[j]);
                }
            }
        } else {
            assert(dc == o2 + Seq::<u8>::empty());
            assert forall|j: int| at <= j < d.len() implies #[trigger] decrypt_chain(v, k, m, c, at, chain)[j
                - at] == d[j] by {
                assert(dc[j - at] == o2[j - at]);
                assert(decrypt_step(v, k, m, cb, chain).0[j - at] == b[j - at]);
                assert(b[j - at] == d[j]);
            }
        }
    }
}

/// Decrypting undoes encrypting in the three keystream modes, CFB, OFB and
/// CTR, with any padding name the operation accepts.
pub proof fn lemma_stream_roundtrip(
    msg: Seq<u8>,
    v: Variant,
    key: Seq<u8>,
    iv: Seq<u8>,
    mode: Seq<char>,
    padding: Seq<char>,
)
    requires
        mode_of(mode) == Some(Mode::Cfb) || mode_of(mode) == Some(Mode::Ofb) || mode_of(mode) == Some(
            Mode::Ctr,
        ),
        padding_of(padding) is Some,
    ensures
        encrypt_spec(msg, v, key, iv, mode, padding) is Ok,
        decrypt_spec(encrypt_spec(msg, v, key, iv, mode, padding)->Ok_0, v, key, iv, mode, padding)
            == Ok::<Seq<u8>, OperationError>(msg),
{
    let m = mode_of(mode)->Some_0;
    if msg.len() > 0 {
        let k = key_words_spec(key);
        let c0 = block_at_spec(iv, 0);
        let e = encrypt_chain(v, k, m, msg, 0, c0);
        lemma_stream_encrypt_len(v, k, m, msg, 0, c0);
        let c = e.take(msg.len() as int);
        assert(encrypt_spec(msg, v, key, iv, mode, padding) == Ok::<Seq<u8>, OperationError>(c));
        assert forall|j: int| 0 <= j < msg.len() implies c[j] == #[trigger] encrypt_chain(
            v,
            k,
            m,
            msg,
            0,
            c0,
        )[j - 0] by {}
        lemma_stream_chain_inverse(v, k, m, msg, c, 0, c0);
        let dc = decrypt_chain(v, k, m, c, 0, c0);
        assert(dc.take(msg.len() as int) =~= msg) by {
            assert forall|j: int| 0 <= j < msg.len() implies dc[j] == msg[j] by {
                assert(dc[j - 0] == msg[j]);
            }
        }
    } else {
        assert(msg == Seq::<u8>::empty());
    }
}

// ---------------------------------------------------------------------------
// The operation.

/// Which cipher, before its cycle count is known.
#[derive(Clone, Copy, Debug, PartialEq, Eq, Structural)]
pub enum Family {
    Tea,
    Xtea,
}

/// Which direction an instance runs.
#[derive(Clone, Copy, Debug, PartialEq, Eq, Structural)]
pub enum Direction {
    Encrypt,
    Decrypt,
}

/// TEA and XTEA, in both directions.
pub struct Tea {
    pub family: Family,
    pub direction: Direction,
}

/// What `Tea::execute` answers.
pub open spec fn execute_spec(
    family: Family,
    direction: Direction,
    msg: Seq<u8>,
    key: Seq<u8>,
    iv: Seq<u8>,
    mode: Seq<char>,
    padding: Seq<char>,
    rounds: i128,
) -> Result<Seq<u8>, OperationError> {
    if key.len() != 16 {
        Err(OperationError::Failed(Failure::TeaInvalidKey))
    } else if mode != "ECB"@ && iv.len() != 8 && iv.len() != 0 {
        Err(OperationError::Failed(Failure::TeaInvalidIv))
    } else if family == Family::Xtea && !(1 <= rounds <= 255) {
        Err(OperationError::Failed(Failure::TeaInvalidRounds))
    } else {
        let v = if family == Family::Tea {
            Variant::Tea
        } else {
            Variant::Xtea(rounds as u32)
        };
        if direction == Direction::Encrypt {
            encrypt_spec(msg, v, key, iv, mode, padding)
        } else {
            decrypt_spec(msg, v, key, iv, mode, padding)
        }
    }
}

impl Tea {
    /// TEA, encrypting.
    pub fn encrypt() -> (t: Self)
        ensures
            t.family == Family::Tea && t.direction == Direction::Encrypt,
    {
        Tea { family: Family::Tea, direction: Direction::Encrypt }
    }

    /// TEA, decrypting.
    pub fn decrypt() -> (t: Self)
        ensures
            t.family == Family::Tea && t.direction == Direction::Decrypt,
    {
        Tea { family: Family::Tea, direction: Direction::Decrypt }
    }

    /// XTEA, encrypting.
    pub fn xtea_encrypt() -> (t: Self)
        ensures
            t.family == Family::Xtea && t.direction == Direction::Encrypt,
    {
        Tea { family: Family::Xtea, direction: Direction::Encrypt }
    }

    /// XTEA, decrypting.
    pub fn xtea_decrypt() -> (t: Self)
        ensures
            t.family == Family::Xtea && t.direction == Direction::Decrypt,
    {
        Tea { family: Family::Xtea, direction: Direction::Decrypt }
    }

    /// Checks the key, the IV and the cycle count, then runs the cipher.
    ///
    /// Outside ECB the IV is either eight bytes or empty; inside ECB it is
    /// ignored rather than refused. `rounds` is read only for XTEA.
    pub fn execute(
        &self,
        message: &[u8],
        key: &[u8],
        iv: &[u8],
        mode: &str,
        padding: &str,
        rounds: i128,
    ) -> (r: Result<Vec<u8>, OperationError>)
        ensures
            match r {
                Ok(v) => execute_spec(
                    self.family,
                    self.direction,
                    message@,
                    key@,
                    iv@,
                    mode@,
                    padding@,
                    rounds,
                ) == Ok::<Seq<u8>, OperationError>(v@),
                Err(e) => execute_spec(
                    self.family,
                    self.direction,
                    message@,
                    key@,
                    iv@,
                    mode@,
                    padding@,
                    rounds,
                ) == Err::<Seq<u8>, OperationError>(e),
            },
    {
        if key.len() != KEY_LENGTH {
            return Err(OperationError::Failed(Failure::TeaInvalidKey));
        }
        if !str_equals(mode, "ECB") && iv.len() != BLOCK && iv.len() != 0 {
            return Err(OperationError::Failed(Failure::TeaInvalidIv));
        }
        let variant = match self.family {
            Family::Tea => Variant::Tea,
            Family::Xtea => {
                if !(1 <= rounds && rounds <= 255) {
                    return Err(OperationError::Failed(Failure::TeaInvalidRounds));
                }
                Variant::Xtea(rounds as u32)
            },
        };
        match self.direction {
            Direction::Encrypt => encrypt(message, variant, key, iv, mode, padding),
            Direction::Decrypt => decrypt(message, variant, key, iv, mode, padding),
        }
    }
}


/// The characters that bytes read as: their UTF-8 text when they are valid
/// UTF-8, else one character per byte.
pub open spec fn raw_text(b: Seq<u8>) -> Seq<char> {
    if vstd::utf8::valid_utf8(b) {
        vstd::utf8::decode_utf8(b)
    } else {
        Seq::new(b.len(), |i: int| (b[i] as u32) as char)
    }
}

/// How the cipher output is written: `Hex` in lower-case hex, `Raw` as the
/// text the bytes read as.
pub open spec fn write_output_spec(output: Seq<u8>, format: Seq<char>) -> Result<Seq<char>, OperationError> {
    if format == "Hex"@ {
        Ok(hex_lower_spec(output))
    } else if format == "Raw"@ {
        Ok(raw_text(output))
    } else {
        Err(OperationError::Failed(Failure::TeaInvalidFormat))
    }
}

/// Writes the cipher output as hex, or as the text the bytes read as: their
/// UTF-8 text, falling back to one character per byte when they are not
/// valid UTF-8. Any other format is refused.
pub fn write_output(output: &[u8], format: &str) -> (r: Result<String, OperationError>)
    ensures
        match r {
            Ok(s) => write_output_spec(output@, format@) == Ok::<Seq<char>, OperationError>(s@),
            Err(e) => write_output_spec(output@, format@) == Err::<Seq<char>, OperationError>(e),
        },
{
    if str_equals(format, "Hex") {
        let hex = to_hex_lower(output);
        return Ok(string_of(&hex));
    }
    if str_equals(format, "Raw") {
        let mut bytes: Vec<u8> = Vec::new();
        let mut i: usize = 0;
        while i < output.len()
            invariant
                i <= output.len(),
                bytes@ == output@.take(i as int),
            decreases output.len() - i,
        {
            bytes.push(output[i]);
            proof {
                assert(output@.take(i + 1) == output@.take(i as int).push(output@[i as int]));
            }
            i = i + 1;
        }
        assert(output@.take(output.len() as int) == output@);
        match utf8_text(bytes) {
            Some(t) => return Ok(t),
            None => {
                let mut chars: Vec<char> = Vec::new();
                let mut j: usize = 0;
                while j < output.len()
                    invariant
                        j <= output.len(),
                        chars@ == Seq::new(j as nat, |k: int| (output@[k] as u32) as char),
                    decreases output.len() - j,
                {
                    chars.push(byte_char(output[j]));
                    proof {
                        assert(chars@ =~= Seq::new((j + 1) as nat, |k: int| (output@[k] as u32) as char));
                    }
                    j = j + 1;
                }
                return Ok(string_of(&chars));
            },
        }
    }
    Err(OperationError::Failed(Failure::TeaInvalidFormat))
}

} // verus!
