//! Splitting, joining, UTF-16 and decimal text, as sequences of characters.

use vstd::prelude::*;

use crate::text::char_from_scalar;

verus! {

/// The first position at or after `i` where `d` occurs in `s`.
pub open spec fn find_from(s: Seq<char>, d: Seq<char>, i: int) -> Option<int>
    decreases s.len() + 1 - i,
{
    if i < 0 || i + d.len() > s.len() {
        None
    } else if s.subrange(i, i + d.len()) == d {
        Some(i)
    } else {
        find_from(s, d, i + 1)
    }
}

/// `s` split on every occurrence of a non-empty `d`, left to right.
pub open spec fn split_nonempty(s: Seq<char>, d: Seq<char>) -> Seq<Seq<char>>
    decreases s.len(),
{
    match find_from(s, d, 0) {
        Some(i) => if d.len() > 0 && 0 <= i && i + d.len() <= s.len() {
            seq![s.take(i)] + split_nonempty(s.skip(i + d.len()), d)
        } else {
            seq![s]
        },
        None => seq![s],
    }
}

/// What `str::split` gives: on an empty delimiter, an empty piece, then every
/// character on its own, then another empty piece.
pub open spec fn split_spec(s: Seq<char>, d: Seq<char>) -> Seq<Seq<char>> {
    if d.len() == 0 {
        seq![Seq::<char>::empty()] + Seq::new(s.len(), |i: int| seq![s[i]]) + seq![
            Seq::<char>::empty(),
        ]
    } else {
        split_nonempty(s, d)
    }
}

/// Pieces joined with a separator between each pair.
pub open spec fn join_spec(pieces: Seq<Seq<char>>, sep: Seq<char>) -> Seq<char>
    decreases pieces.len(),
{
    if pieces.len() == 0 {
        seq![]
    } else if pieces.len() == 1 {
        pieces[0]
    } else {
        join_spec(pieces.drop_last(), sep) + sep + pieces.last()
    }
}

pub proof fn lemma_find_bounds(s: Seq<char>, d: Seq<char>, i: int)
    ensures
        find_from(s, d, i) matches Some(k) ==> i <= k && k + d.len() <= s.len() && s.subrange(
            k,
            k + d.len(),
        ) == d,
    decreases s.len() + 1 - i,
{
    if !(i < 0 || i + d.len() > s.len()) && s.subrange(i, i + d.len()) != d {
        assert(i <= s.len());
        lemma_find_bounds(s, d, i + 1);
    }
}

/// Whether `d` occurs in `s` at `i`.
fn occurs_at(s: &Vec<char>, d: &Vec<char>, i: usize) -> (r: bool)
    requires
        i + d.len() <= s.len(),
    ensures
        r == (s@.subrange(i as int, i + d.len()) == d@),
{
    let mut j: usize = 0;
    while j < d.len()
        invariant
            j <= d.len(),
            i + d.len() <= s.len(),
            forall|k: int| 0 <= k < j ==> s@[i + k] == d@[k],
        decreases d.len() - j,
    {
        if s[i + j] != d[j] {
            assert(s@.subrange(i as int, i + d.len())[j as int] != d@[j as int]);
            return false;
        }
        j = j + 1;
    }
    assert(s@.subrange(i as int, i + d.len()) =~= d@);
    true
}

/// The first occurrence of `d` in `s` at or after `from`.
pub fn find(s: &Vec<char>, d: &Vec<char>, from: usize) -> (r: Option<usize>)
    requires
        from <= s.len(),
    ensures
        match r {
            Some(k) => find_from(s@, d@, from as int) == Some(k as int),
            None => find_from(s@, d@, from as int) is None,
        },
{
    let mut i = from;
    while s.len() - i >= d.len()
        invariant
            from <= i <= s.len(),
            find_from(s@, d@, from as int) == find_from(s@, d@, i as int),
        decreases s.len() - i,
    {
        if occurs_at(s, d, i) {
            return Some(i);
        }
        if i == s.len() {
            assert(find_from(s@, d@, i + 1) is None);
            return None;
        }
        i = i + 1;
    }
    None
}

/// Copies `s[lo..hi]`.
pub fn copy_range(s: &Vec<char>, lo: usize, hi: usize) -> (r: Vec<char>)
    requires
        lo <= hi <= s.len(),
    ensures
        r@ == s@.subrange(lo as int, hi as int),
{
    let mut r: Vec<char> = Vec::new();
    let mut i = lo;
    while i < hi
        invariant
            lo <= i <= hi <= s.len(),
            r@ == s@.subrange(lo as int, i as int),
        decreases hi - i,
    {
        r.push(s[i]);
        i = i + 1;
    }
    r
}

/// Splits `s` the way `str::split` does.
pub fn split(s: &Vec<char>, d: &Vec<char>) -> (r: Vec<Vec<char>>)
    ensures
        r@.len() == split_spec(s@, d@).len(),
        forall|i: int| 0 <= i < r@.len() ==> #[trigger] r@[i]@ == split_spec(s@, d@)[i],
{
    let mut r: Vec<Vec<char>> = Vec::new();
    if d.len() == 0 {
        r.push(Vec::new());
        let mut i: usize = 0;
        while i < s.len()
            invariant
                i <= s.len(),
                r@.len() == i + 1,
                r@[0]@ == Seq::<char>::empty(),
                forall|k: int| 1 <= k <= i ==> #[trigger] r@[k]@ == seq![s@[k - 1]],
            decreases s.len() - i,
        {
            let mut one: Vec<char> = Vec::new();
            one.push(s[i]);
            r.push(one);
            i = i + 1;
        }
        r.push(Vec::new());
        assert forall|i: int| 0 <= i < r@.len() implies #[trigger] r@[i]@ == split_spec(
            s@,
            d@,
        )[i] by {
            if 1 <= i <= s.len() {
                assert(split_spec(s@, d@)[i] == seq![s@[i - 1]]);
            }
        }
        return r;
    }
    let mut start: usize = 0;
    assert(s@.skip(0) == s@);
    while start <= s.len()
        invariant
            d@.len() > 0,
            start <= s.len(),
            split_spec(s@, d@) == r@.map_values(|v: Vec<char>| v@) + split_nonempty(
                s@.skip(start as int),
                d@,
            ),
        decreases s.len() - start,
    {
        let ghost rest = s@.skip(start as int);
        let found = find(s, d, start);
        proof {
            lemma_find_bounds(s@, d@, start as int);
            lemma_find_shift(s@, d@, start as int, 0);
        }
        match found {
            Some(k) => {
                let piece = copy_range(s, start, k);
                let ghost before = r@.map_values(|v: Vec<char>| v@);
                r.push(piece);
                proof {
                    assert(rest.take(k - start) == s@.subrange(start as int, k as int));
                    assert(rest.skip(k - start + d.len()) == s@.skip(k + d.len()));
                    assert(r@.map_values(|v: Vec<char>| v@) == before.push(
                        s@.subrange(start as int, k as int),
                    ));
                }
                start = k + d.len();
            },
            None => {
                let piece = copy_range(s, start, s.len());
                let ghost before = r@.map_values(|v: Vec<char>| v@);
                r.push(piece);
                proof {
                    assert(rest == s@.subrange(start as int, s.len() as int));
                    assert(r@.map_values(|v: Vec<char>| v@) == before.push(rest));
                    assert(split_spec(s@, d@) == r@.map_values(|v: Vec<char>| v@));
                }
                return r;
            },
        }
    }
    proof {
        assert(false);
    }
    r
}

/// A search in a suffix is the search in the whole, shifted.
pub proof fn lemma_find_shift(s: Seq<char>, d: Seq<char>, start: int, i: int)
    requires
        0 <= start <= s.len(),
        0 <= i,
    ensures
        find_from(s.skip(start), d, i) == match find_from(s, d, start + i) {
            Some(k) => Some(k - start),
            None => None::<int>,
        },
    decreases s.len() + 1 - start - i,
{
    let t = s.skip(start);
    if !(i + d.len() > t.len()) {
        assert(t.subrange(i, i + d.len()) == s.subrange(start + i, start + i + d.len()));
        if t.subrange(i, i + d.len()) != d {
            lemma_find_shift(s, d, start, i + 1);
        }
    }
}

/// Joins pieces with a separator.
pub fn join(pieces: &Vec<Vec<char>>, sep: &Vec<char>) -> (r: Vec<char>)
    ensures
        r@ == join_spec(pieces@.map_values(|v: Vec<char>| v@), sep@),
{
    let ghost all = pieces@.map_values(|v: Vec<char>| v@);
    let mut r: Vec<char> = Vec::new();
    let mut i: usize = 0;
    while i < pieces.len()
        invariant
            i <= pieces.len(),
            all == pieces@.map_values(|v: Vec<char>| v@),
            r@ == join_spec(all.take(i as int), sep@),
        decreases pieces.len() - i,
    {
        if i > 0 {
            append_chars(&mut r, sep);
        }
        append_chars(&mut r, &pieces[i]);
        proof {
            assert(all.take(i + 1).drop_last() == all.take(i as int));
            assert(all.take(i + 1).last() == pieces@[i as int]@);
            if i == 0 {
                assert(all.take(1).len() == 1);
            }
        }
        i = i + 1;
    }
    assert(all.take(pieces.len() as int) == all);
    r
}

/// Appends every character of `extra`.
pub fn append_chars(r: &mut Vec<char>, extra: &Vec<char>)
    ensures
        final(r)@ == old(r)@ + extra@,
{
    let mut i: usize = 0;
    while i < extra.len()
        invariant
            i <= extra.len(),
            r@ == old(r)@ + extra@.take(i as int),
        decreases extra.len() - i,
    {
        r.push(extra[i]);
        i = i + 1;
    }
    assert(extra@.take(extra.len() as int) == extra@);
}

/// The UTF-16 code units of one character.
pub open spec fn utf16_of(c: char) -> Seq<u16> {
    if (c as u32) < 0x10000 {
        seq![(c as u32) as u16]
    } else {
        let v = (c as u32) - 0x10000;
        seq![(0xD800 + v / 1024) as u16, (0xDC00 + v % 1024) as u16]
    }
}

/// The UTF-16 code units of a string.
pub open spec fn utf16_spec(s: Seq<char>) -> Seq<u16>
    decreases s.len(),
{
    if s.len() == 0 {
        seq![]
    } else {
        utf16_spec(s.drop_last()) + utf16_of(s.last())
    }
}

/// The UTF-16 code units of a string.
pub fn utf16_units(s: &Vec<char>) -> (r: Vec<u16>)
    ensures
        r@ == utf16_spec(s@),
{
    let mut r: Vec<u16> = Vec::new();
    let mut i: usize = 0;
    while i < s.len()
        invariant
            i <= s.len(),
            r@ == utf16_spec(s@.take(i as int)),
        decreases s.len() - i,
    {
        let code = s[i] as u32;
        if code < 0x10000 {
            r.push(code as u16);
        } else {
            let v = code - 0x10000;
            let ghost before = r@;
            r.push((0xD800 + v / 1024) as u16);
            r.push((0xDC00 + v % 1024) as u16);
            assert(r@ == before + utf16_of(s@[i as int]));
        }
        proof {
            assert(s@.take(i + 1).drop_last() == s@.take(i as int));
            assert(s@.take(i + 1).last() == s@[i as int]);
        }
        i = i + 1;
    }
    assert(s@.take(s.len() as int) == s@);
    r
}

/// The decimal digits of a number, without leading zeros.
pub open spec fn decimal_spec(n: nat) -> Seq<char>
    decreases n,
{
    if n < 10 {
        seq![(n + 48) as char]
    } else {
        decimal_spec(n / 10) + seq![((n % 10) + 48) as char]
    }
}

/// The decimal digits of a number, without leading zeros.
pub fn decimal(n: u128) -> (r: Vec<char>)
    ensures
        r@ == decimal_spec(n as nat),
    decreases n,
{
    if n < 10 {
        let mut r: Vec<char> = Vec::new();
        r.push(((n as u8) + 48) as char);
        r
    } else {
        let mut r = decimal(n / 10);
        r.push((((n % 10) as u8) + 48) as char);
        r
    }
}


/// Whether a unit is a high surrogate.
pub open spec fn is_high(u: u16) -> bool {
    0xd800 <= u <= 0xdbff
}

/// Whether a unit is a low surrogate.
pub open spec fn is_low(u: u16) -> bool {
    0xdc00 <= u <= 0xdfff
}

/// UTF-16 decoded strictly: nothing if a surrogate is unpaired.
pub open spec fn decode_utf16_strict(u: Seq<u16>) -> Option<Seq<char>>
    decreases u.len(),
{
    if u.len() == 0 {
        Some(seq![])
    } else if is_high(u[0]) {
        if u.len() > 1 && is_low(u[1]) {
            match decode_utf16_strict(u.skip(2)) {
                Some(r) => Some(seq![(0x10000 + (u[0] - 0xd800) * 1024 + (u[1] - 0xdc00)) as char] + r),
                None => None,
            }
        } else {
            None
        }
    } else if is_low(u[0]) {
        None
    } else {
        match decode_utf16_strict(u.skip(1)) {
            Some(r) => Some(seq![(u[0] as u32) as char] + r),
            None => None,
        }
    }
}

/// Decodes UTF-16, refusing an unpaired surrogate, as `String::from_utf16`.
pub fn from_utf16(u: &Vec<u16>) -> (r: Option<String>)
    ensures
        match decode_utf16_strict(u@) {
            Some(cs) => r matches Some(s) && s@ == cs,
            None => r is None,
        },
{
    let mut out: Vec<char> = Vec::new();
    let mut i: usize = 0;
    assert(u@.skip(0) == u@);
    while i < u.len()
        invariant
            i <= u.len(),
            decode_utf16_strict(u@) == match decode_utf16_strict(u@.skip(i as int)) {
                Some(r) => Some(out@ + r),
                None => None::<Seq<char>>,
            },
        decreases u.len() - i,
    {
        let ghost rest = u@.skip(i as int);
        let a = u[i];
        assert(rest[0] == a);
        if 0xd800 <= a && a <= 0xdbff {
            if i + 1 < u.len() && 0xdc00 <= u[i + 1] && u[i + 1] <= 0xdfff {
                let b = u[i + 1];
                assert(rest[1] == b);
                let v: u32 = 0x10000 + ((a - 0xd800) as u32) * 1024 + ((b - 0xdc00) as u32);
                let ghost before = out@;
                out.push(char_from_scalar(v));
                assert(rest.skip(2) == u@.skip(i + 2));
                proof {
                    assert forall|r: Seq<char>| true implies before + (seq![v as char] + r) == out@ + r by {
                        assert(before + (seq![v as char] + r) =~= out@ + r);
                    }
                }
                i = i + 2;
            } else {
                if i + 1 < u.len() {
                    assert(rest[1] == u[i + 1]);
                }
                return None;
            }
        } else if 0xdc00 <= a && a <= 0xdfff {
            return None;
        } else {
            let ghost before = out@;
            out.push(char_from_scalar(a as u32));
            assert(rest.skip(1) == u@.skip(i + 1));
            proof {
                assert forall|r: Seq<char>| true implies before + (seq![(a as u32) as char] + r) == out@ + r by {
                    assert(before + (seq![(a as u32) as char] + r) =~= out@ + r);
                }
            }
            i = i + 1;
        }
    }
    assert(u@.skip(i as int) == Seq::<u16>::empty());
    assert(out@ + Seq::<char>::empty() == out@);
    let mut s = String::new();
    let mut k: usize = 0;
    while k < out.len()
        invariant
            k <= out.len(),
            s@ == out@.take(k as int),
        decreases out.len() - k,
    {
        s.push(out[k]);
        assert(out@.take(k + 1) == out@.take(k as int).push(out@[k as int]));
        k = k + 1;
    }
    assert(out@.take(out.len() as int) == out@);
    Some(s)
}


/// A hex digit, in either case.
pub open spec fn is_hex(c: char) -> bool {
    ('0' <= c && c <= '9') || ('a' <= c && c <= 'f') || ('A' <= c && c <= 'F')
}

/// The value of a hex digit.
pub open spec fn hex_value(c: char) -> nat {
    if '0' <= c && c <= '9' {
        (c as int - 48) as nat
    } else if 'a' <= c && c <= 'f' {
        (c as int - 87) as nat
    } else {
        (c as int - 55) as nat
    }
}

/// How many hex digits start `s`, up to `cap`.
pub open spec fn hex_run(s: Seq<char>, cap: nat) -> nat
    decreases cap,
{
    if cap == 0 || s.len() == 0 || !is_hex(s[0]) {
        0
    } else {
        1 + hex_run(s.skip(1), (cap - 1) as nat)
    }
}

/// The value of the first `n` hex digits.
pub open spec fn hex_number(s: Seq<char>, n: nat) -> nat
    decreases n,
{
    if n == 0 {
        0
    } else {
        hex_number(s, (n - 1) as nat) * 16 + hex_value(s[n - 1])
    }
}

pub fn is_hex_char(c: char) -> (r: bool)
    ensures
        r == is_hex(c),
{
    ('0' <= c && c <= '9') || ('a' <= c && c <= 'f') || ('A' <= c && c <= 'F')
}

pub fn hex_char_value(c: char) -> (v: u32)
    requires
        is_hex(c),
    ensures
        v == hex_value(c),
        v < 16,
{
    if '0' <= c && c <= '9' {
        (c as u32) - 48
    } else if 'a' <= c && c <= 'f' {
        (c as u32) - 87
    } else {
        (c as u32) - 55
    }
}

pub proof fn lemma_hex_run_len(s: Seq<char>, cap: nat)
    ensures
        hex_run(s, cap) <= s.len(),
        hex_run(s, cap) <= cap,
    decreases cap,
{
    if cap > 0 && s.len() > 0 && is_hex(s[0]) {
        lemma_hex_run_len(s.skip(1), (cap - 1) as nat);
    }
}

pub proof fn lemma_hex_run(s: Seq<char>, cap: nat, k: nat)
    requires
        k <= cap,
        k <= s.len(),
        forall|i: int| 0 <= i < k ==> is_hex(#[trigger] s[i]),
        k == cap || k == s.len() || !is_hex(s[k as int]),
    ensures
        hex_run(s, cap) == k,
    decreases k,
{
    if k > 0 {
        assert forall|i: int| 0 <= i < k - 1 implies is_hex(#[trigger] s.skip(1)[i]) by {
            assert(s.skip(1)[i] == s[i + 1]);
        }
        if k < s.len() {
            assert(s.skip(1)[k - 1] == s[k as int]);
        }
        lemma_hex_run(s.skip(1), (cap - 1) as nat, (k - 1) as nat);
    }
}

} // verus!
