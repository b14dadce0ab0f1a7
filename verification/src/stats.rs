//! The counts the statistical measures are computed from.

use vstd::prelude::*;

use crate::text::chars_of;

verus! {

/// How many times `v` occurs in `b`.
pub open spec fn occurrences(b: Seq<u8>, v: u8) -> nat
    decreases b.len(),
{
    if b.len() == 0 {
        0
    } else {
        occurrences(b.drop_last(), v) + if b.last() == v {
            1nat
        } else {
            0nat
        }
    }
}

proof fn lemma_occurrences_bound(b: Seq<u8>, v: u8)
    ensures
        occurrences(b, v) <= b.len(),
    decreases b.len(),
{
    if b.len() > 0 {
        lemma_occurrences_bound(b.drop_last(), v);
    }
}

/// How many times each byte value occurs, indexed by the value.
pub fn byte_counts(bytes: &[u8]) -> (r: Vec<u64>)
    ensures
        r@.len() == 256,
        forall|v: int| 0 <= v < 256 ==> #[trigger] r@[v] == occurrences(bytes@, v as u8),
{
    let mut counts: Vec<u64> = Vec::new();
    let mut k: usize = 0;
    while k < 256
        invariant
            k <= 256,
            counts@.len() == k,
            forall|v: int| 0 <= v < k ==> #[trigger] counts@[v] == 0,
        decreases 256 - k,
    {
        counts.push(0);
        k = k + 1;
    }
    let mut i: usize = 0;
    while i < bytes.len()
        invariant
            i <= bytes.len(),
            counts@.len() == 256,
            forall|v: int| 0 <= v < 256 ==> #[trigger] counts@[v] == occurrences(bytes@.take(i as int), v as u8),
        decreases bytes.len() - i,
    {
        let b = bytes[i];
        proof {
            assert(bytes@.take(i + 1).drop_last() == bytes@.take(i as int));
            assert(bytes@.take(i + 1).last() == b);
            lemma_occurrences_bound(bytes@.take(i as int), b);
        }
        let c = counts[b as usize];
        counts.set(b as usize, c + 1);
        i = i + 1;
    }
    assert(bytes@.take(bytes.len() as int) == bytes@);
    counts
}

/// The letter a character counts as, `0` for `a` or `A` to `25` for `z` or
/// `Z`, or nothing for any other character.
pub open spec fn letter_index(c: char) -> Option<int> {
    if 'a' <= c && c <= 'z' {
        Some(c as int - 'a' as int)
    } else if 'A' <= c && c <= 'Z' {
        Some(c as int - 'A' as int)
    } else {
        None
    }
}

/// How many characters of `t` count as letter `l`.
pub open spec fn letter_occurrences(t: Seq<char>, l: int) -> nat
    decreases t.len(),
{
    if t.len() == 0 {
        0
    } else {
        letter_occurrences(t.drop_last(), l) + if letter_index(t.last()) == Some(l) {
            1nat
        } else {
            0nat
        }
    }
}

proof fn lemma_letter_occurrences_bound(t: Seq<char>, l: int)
    ensures
        letter_occurrences(t, l) <= t.len(),
    decreases t.len(),
{
    if t.len() > 0 {
        lemma_letter_occurrences_bound(t.drop_last(), l);
    }
}

/// How many times each ASCII letter occurs, either case, `a` first.
pub fn letter_counts(text: &str) -> (r: Vec<u64>)
    ensures
        r@.len() == 26,
        forall|l: int| 0 <= l < 26 ==> #[trigger] r@[l] == letter_occurrences(text@, l),
{
    let cs = chars_of(text);
    let mut counts: Vec<u64> = Vec::new();
    let mut k: usize = 0;
    while k < 26
        invariant
            k <= 26,
            counts@.len() == k,
            forall|l: int| 0 <= l < k ==> #[trigger] counts@[l] == 0,
        decreases 26 - k,
    {
        counts.push(0);
        k = k + 1;
    }
    let mut i: usize = 0;
    while i < cs.len()
        invariant
            i <= cs.len(),
            cs@ == text@,
            counts@.len() == 26,
            forall|l: int| 0 <= l < 26 ==> #[trigger] counts@[l] == letter_occurrences(cs@.take(i as int), l),
        decreases cs.len() - i,
    {
        let c = cs[i];
        proof {
            assert(cs@.take(i + 1).drop_last() == cs@.take(i as int));
            assert(cs@.take(i + 1).last() == c);
        }
        let index: Option<usize> = if 'a' <= c && c <= 'z' {
            Some(((c as u32) - ('a' as u32)) as usize)
        } else if 'A' <= c && c <= 'Z' {
            Some(((c as u32) - ('A' as u32)) as usize)
        } else {
            None
        };
        match index {
            Some(l) => {
                proof {
                    lemma_letter_occurrences_bound(cs@.take(i as int), l as int);
                }
                let n = counts[l];
                counts.set(l, n + 1);
            },
            None => {},
        }
        i = i + 1;
    }
    assert(cs@.take(cs.len() as int) == cs@);
    counts
}

} // verus!
