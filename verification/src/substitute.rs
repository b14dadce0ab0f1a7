//! Monoalphabetic substitution between two alphabets.

use vstd::prelude::*;

use crate::text::{chars_of, lowercase, lowercase_of, string_of, uppercase, uppercase_of};

verus! {

/// How many pairs the two alphabets give: the length of the shorter one.
pub open spec fn pair_count(plaintext: Seq<char>, ciphertext: Seq<char>) -> int {
    if plaintext.len() < ciphertext.len() {
        plaintext.len() as int
    } else {
        ciphertext.len() as int
    }
}

/// The ciphertext character that the last of the first `n` pairs with
/// plaintext `c` maps it to.
pub open spec fn lookup_upto(plaintext: Seq<char>, ciphertext: Seq<char>, n: int, c: char) -> Option<char>
    decreases n,
{
    if n <= 0 {
        None
    } else if plaintext[n - 1] == c {
        Some(ciphertext[n - 1])
    } else {
        lookup_upto(plaintext, ciphertext, n - 1, c)
    }
}

/// What the substitution maps `c` to. A plaintext character listed twice
/// keeps its last mapping.
pub open spec fn mapping(plaintext: Seq<char>, ciphertext: Seq<char>, c: char) -> Option<char> {
    lookup_upto(plaintext, ciphertext, pair_count(plaintext, ciphertext), c)
}

/// A character in upper case or in lower case, by its full case mapping.
pub open spec fn case_of_spec(value: char, upper: bool) -> Seq<char> {
    if upper {
        uppercase_of(value)
    } else {
        lowercase_of(value)
    }
}

/// The one character of a text, when it has exactly one.
pub open spec fn single_spec(value: Seq<char>) -> Option<char> {
    if value.len() == 1 {
        Some(value[0])
    } else {
        None
    }
}

/// Whether a character counts as upper case: it equals its own upper-casing.
/// An uncased character counts as upper.
pub open spec fn counts_as_upper(c: char) -> bool {
    uppercase_of(c) == seq![c]
}

/// The substitute of one character. Case-insensitive mode tries the
/// character and then its other case, and gives the result the case of the
/// input character.
pub open spec fn substitute_one_spec(
    c: char,
    plaintext: Seq<char>,
    ciphertext: Seq<char>,
    ignore_case: bool,
) -> Seq<char> {
    if !ignore_case {
        match mapping(plaintext, ciphertext, c) {
            Some(m) => seq![m],
            None => seq![c],
        }
    } else {
        let is_upper = counts_as_upper(c);
        match mapping(plaintext, ciphertext, c) {
            Some(m) => case_of_spec(m, is_upper),
            None => {
                let other = if is_upper {
                    lowercase_of(c)
                } else {
                    uppercase_of(c)
                };
                match single_spec(other) {
                    Some(s) => match mapping(plaintext, ciphertext, s) {
                        Some(m) => case_of_spec(m, is_upper),
                        None => seq![c],
                    },
                    None => seq![c],
                }
            },
        }
    }
}

/// Every character of a text substituted in turn.
pub open spec fn substitute_text(
    input: Seq<char>,
    plaintext: Seq<char>,
    ciphertext: Seq<char>,
    ignore_case: bool,
) -> Seq<char>
    decreases input.len(),
{
    if input.len() == 0 {
        seq![]
    } else {
        substitute_text(input.drop_last(), plaintext, ciphertext, ignore_case)
            + substitute_one_spec(input.last(), plaintext, ciphertext, ignore_case)
    }
}

/// The line put before the output when the alphabets differ in length.
pub open spec fn length_warning() -> Seq<char> {
    "Warning: Plaintext and Ciphertext lengths differ\n\n"@
}

/// The whole substitution: the warning when the alphabets differ in length,
/// then the substituted text.
pub open spec fn substitute_spec(
    input: Seq<char>,
    plaintext: Seq<char>,
    ciphertext: Seq<char>,
    ignore_case: bool,
) -> Seq<char> {
    if plaintext.len() != ciphertext.len() {
        length_warning() + substitute_text(input, plaintext, ciphertext, ignore_case)
    } else {
        substitute_text(input, plaintext, ciphertext, ignore_case)
    }
}

proof fn lemma_lookup_finds_last(plaintext: Seq<char>, ciphertext: Seq<char>, n: int, c: char, i: int)
    requires
        0 <= i < n,
        n <= plaintext.len(),
        n <= ciphertext.len(),
        plaintext[i] == c,
        forall|j: int| i < j < n ==> plaintext[j] != c,
    ensures
        lookup_upto(plaintext, ciphertext, n, c) == Some(ciphertext[i]),
    decreases n,
{
    if n - 1 > i {
        assert(plaintext[n - 1] != c);
        lemma_lookup_finds_last(plaintext, ciphertext, n - 1, c, i);
    }
}

proof fn lemma_lookup_misses(plaintext: Seq<char>, ciphertext: Seq<char>, n: int, c: char)
    requires
        n <= plaintext.len(),
        forall|j: int| 0 <= j < n ==> plaintext[j] != c,
    ensures
        lookup_upto(plaintext, ciphertext, n, c) == None::<char>,
    decreases n,
{
    if n > 0 {
        assert(plaintext[n - 1] != c);
        lemma_lookup_misses(plaintext, ciphertext, n - 1, c);
    }
}

proof fn lemma_single_text(c: char, plaintext: Seq<char>, ciphertext: Seq<char>, ignore_case: bool)
    ensures
        substitute_text(seq![c], plaintext, ciphertext, ignore_case)
            == substitute_one_spec(c, plaintext, ciphertext, ignore_case),
{
    let t = seq![c];
    assert(t.drop_last() =~= Seq::<char>::empty());
    assert(t.last() == c);
    let one = substitute_one_spec(c, plaintext, ciphertext, ignore_case);
    assert(substitute_text(Seq::<char>::empty(), plaintext, ciphertext, ignore_case) == Seq::<char>::empty());
    assert(substitute_text(t, plaintext, ciphertext, ignore_case)
        == substitute_text(t.drop_last(), plaintext, ciphertext, ignore_case) + one);
    assert(Seq::<char>::empty() + one =~= one);
}

/// A character of the plaintext alphabet becomes its ciphertext partner at
/// the last position where it is listed, among the pairs that both
/// alphabets give. Matched case-sensitively it is that partner as it
/// stands; matched case-insensitively it takes the case of the input
/// character: the upper-casing of the partner when the input character
/// counts as upper case, its lower-casing otherwise. A character that the
/// paired part of the plaintext alphabet does not hold stays as it is in
/// case-sensitive mode.
pub proof fn lemma_substitute_character(c: char, plaintext: Seq<char>, ciphertext: Seq<char>, i: int)
    requires
        0 <= i < pair_count(plaintext, ciphertext),
        plaintext[i] == c,
        forall|j: int| i < j < pair_count(plaintext, ciphertext) ==> plaintext[j] != c,
    ensures
        substitute_text(seq![c], plaintext, ciphertext, false) == seq![ciphertext[i]],
        counts_as_upper(c) ==> substitute_text(seq![c], plaintext, ciphertext, true) == uppercase_of(ciphertext[i]),
        !counts_as_upper(c) ==> substitute_text(seq![c], plaintext, ciphertext, true) == lowercase_of(ciphertext[i]),
{
    lemma_lookup_finds_last(plaintext, ciphertext, pair_count(plaintext, ciphertext), c, i);
    lemma_single_text(c, plaintext, ciphertext, false);
    lemma_single_text(c, plaintext, ciphertext, true);
}

/// A character absent from the paired part of the plaintext alphabet is
/// copied unchanged by the case-sensitive substitution.
pub proof fn lemma_substitute_keeps_unlisted(c: char, plaintext: Seq<char>, ciphertext: Seq<char>)
    requires
        forall|j: int| 0 <= j < pair_count(plaintext, ciphertext) ==> plaintext[j] != c,
    ensures
        substitute_text(seq![c], plaintext, ciphertext, false) == seq![c],
{
    lemma_lookup_misses(plaintext, ciphertext, pair_count(plaintext, ciphertext), c);
    lemma_single_text(c, plaintext, ciphertext, false);
}

/// The substitution works character by character: substituting two texts
/// one after the other gives the substitute of their concatenation.
pub proof fn lemma_substitute_concat(
    a: Seq<char>,
    b: Seq<char>,
    plaintext: Seq<char>,
    ciphertext: Seq<char>,
    ignore_case: bool,
)
    ensures
        substitute_text(a + b, plaintext, ciphertext, ignore_case) == substitute_text(a, plaintext, ciphertext, ignore_case)
            + substitute_text(b, plaintext, ciphertext, ignore_case),
    decreases b.len(),
{
    if b.len() == 0 {
        assert(a + b =~= a);
        assert(substitute_text(a, plaintext, ciphertext, ignore_case) + Seq::<char>::empty()
            =~= substitute_text(a, plaintext, ciphertext, ignore_case));
    } else {
        lemma_substitute_concat(a, b.drop_last(), plaintext, ciphertext, ignore_case);
        assert((a + b).drop_last() =~= a + b.drop_last());
        assert((a + b).last() == b.last());
        let sa = substitute_text(a, plaintext, ciphertext, ignore_case);
        let sb = substitute_text(b.drop_last(), plaintext, ciphertext, ignore_case);
        let one = substitute_one_spec(b.last(), plaintext, ciphertext, ignore_case);
        assert(sa + sb + one =~= sa + (sb + one));
    }
}

/// The character that `c` maps to, if any.
fn lookup(plaintext: &[char], ciphertext: &[char], c: char) -> (r: Option<char>)
    ensures
        r == mapping(plaintext@, ciphertext@, c),
{
    let n = if plaintext.len() < ciphertext.len() {
        plaintext.len()
    } else {
        ciphertext.len()
    };
    let mut i = n;
    while i > 0
        invariant
            i <= n,
            n as int == pair_count(plaintext@, ciphertext@),
            n <= plaintext.len(),
            n <= ciphertext.len(),
            lookup_upto(plaintext@, ciphertext@, n as int, c) == lookup_upto(plaintext@, ciphertext@, i as int, c),
        decreases i,
    {
        if plaintext[i - 1] == c {
            return Some(ciphertext[i - 1]);
        }
        i = i - 1;
    }
    None
}

/// A character in upper or lower case.
fn case_of(value: char, upper: bool) -> (r: Vec<char>)
    ensures
        r@ == case_of_spec(value, upper),
{
    if upper {
        uppercase(value)
    } else {
        lowercase(value)
    }
}

/// The single character of a text, when its case mapping did not grow it.
fn single_char(value: &Vec<char>) -> (r: Option<char>)
    ensures
        r == single_spec(value@),
{
    if value.len() == 1 {
        Some(value[0])
    } else {
        None
    }
}

/// One character, with the case rules of the substitution.
fn substitute_one(character: char, plaintext: &[char], ciphertext: &[char], ignore_case: bool) -> (r: Vec<char>)
    ensures
        r@ == substitute_one_spec(character, plaintext@, ciphertext@, ignore_case),
{
    if !ignore_case {
        let mapped = match lookup(plaintext, ciphertext, character) {
            Some(m) => m,
            None => character,
        };
        let mut r: Vec<char> = Vec::new();
        r.push(mapped);
        return r;
    }
    let upper = uppercase(character);
    let is_upper = upper.len() == 1 && upper[0] == character;
    proof {
        if is_upper {
            assert(upper@ =~= seq![character]);
        }
        if counts_as_upper(character) {
            assert(upper@.len() == 1 && upper@[0] == character);
        }
    }
    if let Some(mapped) = lookup(plaintext, ciphertext, character) {
        return case_of(mapped, is_upper);
    }
    let other = if is_upper {
        lowercase(character)
    } else {
        upper
    };
    if let Some(single) = single_char(&other) {
        if let Some(mapped) = lookup(plaintext, ciphertext, single) {
            return case_of(mapped, is_upper);
        }
    }
    let mut r: Vec<char> = Vec::new();
    r.push(character);
    r
}

/// Applies the substitution to every character of `input`. When the
/// alphabets differ in length a warning line comes first and only as many
/// pairs as the shorter alphabet has are used.
pub fn substitute(input: &str, plaintext: &[char], ciphertext: &[char], ignore_case: bool) -> (r: String)
    ensures
        r@ == substitute_spec(input@, plaintext@, ciphertext@, ignore_case),
{
    let mut out: Vec<char> = Vec::new();
    if plaintext.len() != ciphertext.len() {
        out = chars_of("Warning: Plaintext and Ciphertext lengths differ\n\n");
    }
    let ghost head = out@;
    let text = chars_of(input);
    let mut i: usize = 0;
    while i < text.len()
        invariant
            i <= text.len(),
            text@ == input@,
            out@ == head + substitute_text(text@.take(i as int), plaintext@, ciphertext@, ignore_case),
        decreases text.len() - i,
    {
        let piece = substitute_one(text[i], plaintext, ciphertext, ignore_case);
        let ghost before = out@;
        let mut k: usize = 0;
        while k < piece.len()
            invariant
                k <= piece.len(),
                out@ == before + piece@.take(k as int),
            decreases piece.len() - k,
        {
            out.push(piece[k]);
            k = k + 1;
        }
        proof {
            assert(piece@.take(piece.len() as int) == piece@);
            assert(text@.take(i + 1).drop_last() == text@.take(i as int));
            assert(text@.take(i + 1).last() == text@[i as int]);
        }
        i = i + 1;
    }
    proof {
        assert(text@.take(text.len() as int) == text@);
    }
    string_of(&out)
}

/// Monoalphabetic substitution between two alphabets.
pub struct Substitute {}

impl Substitute {
    /// Creates the substitution operation.
    pub fn new() -> Self {
        Substitute {  }
    }

    /// Maps each plaintext symbol to the ciphertext symbol at the same
    /// position; the alphabets are taken with their ranges already expanded.
    pub fn execute(&self, input: &str, plaintext: &[char], ciphertext: &[char], ignore_case: bool) -> (r: String)
        ensures
            r@ == substitute_spec(input@, plaintext@, ciphertext@, ignore_case),
    {
        substitute(input, plaintext, ciphertext, ignore_case)
    }
}

} // verus!
