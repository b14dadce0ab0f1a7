//! Highlighting the characters that every sample shares at the same offset.
//!
//! Everything runs on UTF-16 code units, so a character outside the basic
//! plane is two positions.

use vstd::prelude::*;

use crate::error::{Failure, OperationError};
use crate::strings::{decode_utf16_strict, from_utf16, utf16_spec, utf16_units};
use crate::markup::{append_units, escape_all, escape_unit, push_escaped, push_escaped_from};
use crate::text::chars_of;

verus! {

/// The first position at or after `i` where `sep` occurs in `u`.
pub open spec fn find_units(u: Seq<u16>, sep: Seq<u16>, i: int) -> Option<int>
    decreases u.len() + 1 - i,
{
    if i < 0 || i + sep.len() > u.len() {
        None
    } else if u.subrange(i, i + sep.len()) == sep {
        Some(i)
    } else {
        find_units(u, sep, i + 1)
    }
}

proof fn lemma_find_units(u: Seq<u16>, sep: Seq<u16>, i: int)
    ensures
        find_units(u, sep, i) matches Some(k) ==> i <= k && k + sep.len() <= u.len(),
    decreases u.len() + 1 - i,
{
    if !(i < 0 || i + sep.len() > u.len()) && u.subrange(i, i + sep.len()) != sep {
        lemma_find_units(u, sep, i + 1);
    }
}

/// Code units split on every occurrence of a separator, left to right; an
/// empty separator leaves them whole.
pub open spec fn split_units(u: Seq<u16>, sep: Seq<u16>) -> Seq<Seq<u16>>
    decreases u.len(),
{
    if sep.len() == 0 {
        seq![u]
    } else {
        match find_units(u, sep, 0) {
            Some(i) => if 0 <= i && i + sep.len() <= u.len() {
                seq![u.take(i)] + split_units(u.skip(i + sep.len()), sep)
            } else {
                seq![u]
            },
            None => seq![u],
        }
    }
}

/// `<span class='hl5'>`.
pub open spec fn open_units() -> Seq<u16> {
    seq![
        0x3cu16, 0x73, 0x70, 0x61, 0x6e, 0x20, 0x63, 0x6c, 0x61, 0x73, 0x73, 0x3d, 0x27, 0x68, 0x6c,
        0x35, 0x27, 0x3e,
    ]
}

/// `</span>`.
pub open spec fn close_units() -> Seq<u16> {
    seq![0x3cu16, 0x2f, 0x73, 0x70, 0x61, 0x6e, 0x3e]
}

/// Whether every other sample has the first sample's unit at `index`.
pub open spec fn matched_at(samples: Seq<Seq<u16>>, index: int) -> bool {
    forall|p: int|
        1 <= p < samples.len() ==> index < (#[trigger] samples[p]).len() && samples[p][index]
            == samples[0][index]
}

/// One sample's output at one offset, and the flag afterwards. The flag is
/// shared by all samples and only the last sample updates it.
pub open spec fn step(
    sample: Seq<u16>,
    index: int,
    first_len: int,
    matched: bool,
    in_match: bool,
    is_last: bool,
    out: Seq<u16>,
) -> (Seq<u16>, bool) {
    if sample.len() <= index {
        (
            if in_match {
                out + close_units()
            } else {
                out
            },
            if is_last {
                false
            } else {
                in_match
            },
        )
    } else {
        let cur = sample[index];
        let ends = sample.len() == index + 1;
        let (o1, m1) = if matched && !in_match {
            (
                out + open_units() + escape_unit(cur) + if ends {
                    close_units()
                } else {
                    seq![]
                },
                if is_last {
                    true
                } else {
                    in_match
                },
            )
        } else if !matched && in_match {
            (
                out + close_units() + escape_unit(cur),
                if is_last {
                    false
                } else {
                    in_match
                },
            )
        } else {
            (
                out + escape_unit(cur) + if in_match && ends {
                    close_units()
                } else {
                    seq![]
                },
                in_match,
            )
        };
        if first_len - 1 == index {
            (
                o1 + if m1 {
                    close_units()
                } else {
                    seq![]
                } + escape_all(sample.skip(index + 1)),
                m1,
            )
        } else {
            (o1, m1)
        }
    }
}

/// The samples from `p` on, at one offset.
pub open spec fn row(samples: Seq<Seq<u16>>, index: int, p: int, outs: Seq<Seq<u16>>, in_match: bool) -> (
    Seq<Seq<u16>>,
    bool,
)
    decreases samples.len() - p,
{
    if p >= samples.len() || p < 0 {
        (outs, in_match)
    } else {
        let (o, m) = step(
            samples[p],
            index,
            samples[0].len() as int,
            matched_at(samples, index),
            in_match,
            p == samples.len() - 1,
            outs[p],
        );
        row(samples, index, p + 1, outs.update(p, o), m)
    }
}

/// The offsets from `index` to the end of the first sample.
pub open spec fn rows(samples: Seq<Seq<u16>>, index: int, outs: Seq<Seq<u16>>, in_match: bool) -> Seq<
    Seq<u16>,
>
    decreases samples[0].len() - index,
{
    if index >= samples[0].len() || index < 0 {
        outs
    } else {
        let (o, m) = row(samples, index, 0, outs, in_match);
        rows(samples, index + 1, o, m)
    }
}

/// Outputs joined with a separator between each pair.
pub open spec fn join_units(outs: Seq<Seq<u16>>, sep: Seq<u16>) -> Seq<u16>
    decreases outs.len(),
{
    if outs.len() == 0 {
        seq![]
    } else if outs.len() == 1 {
        outs[0]
    } else {
        join_units(outs.drop_last(), sep) + sep + outs.last()
    }
}

/// What `check` answers.
pub open spec fn check_spec(input: Seq<char>, delimiter: Seq<char>) -> Result<Seq<char>, Failure> {
    let sep = utf16_spec(delimiter);
    let samples = split_units(utf16_spec(input), sep);
    if samples.len() < 2 {
        Err(Failure::OffsetNotEnoughSamples)
    } else {
        let outs = rows(samples, 0, Seq::new(samples.len(), |i: int| Seq::<u16>::empty()), false);
        match decode_utf16_strict(join_units(outs, escape_all(sep))) {
            Some(cs) => Ok(cs),
            None => Err(Failure::OffsetUnpairedSurrogate),
        }
    }
}

fn push_open(out: &mut Vec<u16>)
    ensures
        final(out)@ == old(out)@ + open_units(),
{
    let v: Vec<u16> = vec![
        0x3cu16, 0x73, 0x70, 0x61, 0x6e, 0x20, 0x63, 0x6c, 0x61, 0x73, 0x73, 0x3d, 0x27, 0x68, 0x6c,
        0x35, 0x27, 0x3e,
    ];
    assert(v@ == open_units());
    append_units(out, &v);
}

fn push_close(out: &mut Vec<u16>)
    ensures
        final(out)@ == old(out)@ + close_units(),
{
    let v: Vec<u16> = vec![0x3cu16, 0x2f, 0x73, 0x70, 0x61, 0x6e, 0x3e];
    assert(v@ == close_units());
    append_units(out, &v);
}

/// The units `u[lo..hi]`.
fn copy_units(u: &Vec<u16>, lo: usize, hi: usize) -> (r: Vec<u16>)
    requires
        lo <= hi <= u.len(),
    ensures
        r@ == u@.subrange(lo as int, hi as int),
{
    let mut r: Vec<u16> = Vec::new();
    let mut i = lo;
    while i < hi
        invariant
            lo <= i <= hi <= u.len(),
            r@ == u@.subrange(lo as int, i as int),
        decreases hi - i,
    {
        r.push(u[i]);
        i = i + 1;
    }
    r
}

/// Whether `sep` occurs in `u` at `i`.
fn units_at(u: &Vec<u16>, sep: &Vec<u16>, i: usize) -> (r: bool)
    requires
        i + sep.len() <= u.len(),
    ensures
        r == (u@.subrange(i as int, i + sep.len()) == sep@),
{
    let mut j: usize = 0;
    while j < sep.len()
        invariant
            j <= sep.len(),
            i + sep.len() <= u.len(),
            forall|k: int| 0 <= k < j ==> u@[i + k] == sep@[k],
        decreases sep.len() - j,
    {
        if u[i + j] != sep[j] {
            assert(u@.subrange(i as int, i + sep.len())[j as int] != sep@[j as int]);
            return false;
        }
        j = j + 1;
    }
    assert(u@.subrange(i as int, i + sep.len()) =~= sep@);
    true
}

proof fn lemma_find_units_shift(u: Seq<u16>, sep: Seq<u16>, start: int, i: int)
    requires
        0 <= start <= u.len(),
        0 <= i,
    ensures
        find_units(u.skip(start), sep, i) == match find_units(u, sep, start + i) {
            Some(k) => Some(k - start),
            None => None::<int>,
        },
    decreases u.len() + 1 - start - i,
{
    let t = u.skip(start);
    if !(i + sep.len() > t.len()) {
        assert(t.subrange(i, i + sep.len()) == u.subrange(start + i, start + i + sep.len()));
        if t.subrange(i, i + sep.len()) != sep {
            lemma_find_units_shift(u, sep, start, i + 1);
        }
    }
}

/// Splits on a separator, scanning left to right.
fn split_on(units: &Vec<u16>, sep: &Vec<u16>) -> (r: Vec<Vec<u16>>)
    ensures
        r@.map_values(|v: Vec<u16>| v@) == split_units(units@, sep@),
{
    let mut pieces: Vec<Vec<u16>> = Vec::new();
    if sep.len() == 0 {
        pieces.push(copy_units(units, 0, units.len()));
        assert(units@.subrange(0, units.len() as int) == units@);
        assert(pieces@.map_values(|v: Vec<u16>| v@) =~= seq![units@]);
        return pieces;
    }
    let mut start: usize = 0;
    let mut index: usize = 0;
    assert(units@.skip(0) == units@);
    while units.len() - index >= sep.len()
        invariant
            sep.len() > 0,
            start <= index <= units.len(),
            split_units(units@, sep@) == pieces@.map_values(|v: Vec<u16>| v@) + split_units(
                units@.skip(start as int),
                sep@,
            ),
            find_units(units@, sep@, start as int) == find_units(units@, sep@, index as int),
        decreases units.len() - index,
    {
        if units_at(units, sep, index) {
            let ghost rest = units@.skip(start as int);
            proof {
                lemma_find_units_shift(units@, sep@, start as int, 0);
                assert(rest.take(index - start) == units@.subrange(start as int, index as int));
                assert(rest.skip(index - start + sep.len()) == units@.skip(index + sep.len()));
            }
            let ghost before = pieces@.map_values(|v: Vec<u16>| v@);
            pieces.push(copy_units(units, start, index));
            assert(pieces@.map_values(|v: Vec<u16>| v@) == before.push(units@.subrange(start as int, index as int)));
            index = index + sep.len();
            start = index;
        } else {
            index = index + 1;
        }
    }
    proof {
        lemma_find_units_shift(units@, sep@, start as int, 0);
        assert(find_units(units@, sep@, index as int) is None);
    }
    let ghost before = pieces@.map_values(|v: Vec<u16>| v@);
    pieces.push(copy_units(units, start, units.len()));
    assert(units@.subrange(start as int, units.len() as int) == units@.skip(start as int));
    assert(pieces@.map_values(|v: Vec<u16>| v@) == before.push(units@.skip(start as int)));
    pieces
}


/// One sample's output at one offset; returns the flag afterwards.
fn step_exec(
    out: &mut Vec<u16>,
    sample: &Vec<u16>,
    index: usize,
    first_len: usize,
    matched: bool,
    in_match: bool,
    is_last: bool,
) -> (m: bool)
    requires
        index < first_len,
    ensures
        (final(out)@, m) == step(sample@, index as int, first_len as int, matched, in_match, is_last, old(out)@),
{
    if sample.len() <= index {
        if in_match {
            push_close(out);
        }
        return if is_last {
            false
        } else {
            in_match
        };
    }
    let current = sample[index];
    let mut m = in_match;
    if matched && !in_match {
        push_open(out);
        push_escaped(out, current);
        if sample.len() == index + 1 {
            push_close(out);
        } else {
            assert(out@ == out@ + Seq::<u16>::empty());
        }
        if is_last {
            m = true;
        }
    } else if !matched && in_match {
        push_close(out);
        push_escaped(out, current);
        if is_last {
            m = false;
        }
    } else {
        push_escaped(out, current);
        if in_match && sample.len() == index + 1 {
            push_close(out);
        } else {
            assert(out@ == out@ + Seq::<u16>::empty());
        }
    }
    if first_len - 1 == index {
        if m {
            push_close(out);
        } else {
            assert(out@ == out@ + Seq::<u16>::empty());
        }
        push_escaped_from(out, sample, index + 1);
    }
    m
}

/// Compares samples and marks the characters common to all of them.
///
/// `delimiter` separates the samples. The output is HTML: each run of
/// characters that every sample has at the same offset is wrapped in
/// `<span class='hl5'>` and `</span>`, and the samples are joined again with
/// the escaped delimiter. One match flag is shared by all samples and only
/// the last sample of an offset updates it, so the earlier samples follow
/// the run as the previous offset left it.
pub fn check(input: &str, delimiter: &str) -> (r: Result<String, OperationError>)
    ensures
        match check_spec(input@, delimiter@) {
            Ok(t) => r matches Ok(s) && s@ == t,
            Err(f) => r == Err::<String, OperationError>(OperationError::Failed(f)),
        },
{
    let text = chars_of(input);
    let units = utf16_units(&text);
    let dtext = chars_of(delimiter);
    let separator = utf16_units(&dtext);
    let samples = split_on(&units, &separator);
    let ghost sv = samples@.map_values(|v: Vec<u16>| v@);
    if samples.len() < 2 {
        return Err(OperationError::Failed(Failure::OffsetNotEnoughSamples));
    }
    let mut outputs: Vec<Vec<u16>> = Vec::new();
    let mut c: usize = 0;
    while c < samples.len()
        invariant
            c <= samples.len(),
            outputs.len() == c,
            outputs@.map_values(|v: Vec<u16>| v@) == Seq::new(c as nat, |i: int| Seq::<u16>::empty()),
        decreases samples.len() - c,
    {
        let e: Vec<u16> = Vec::new();
        let ghost before = outputs@.map_values(|v: Vec<u16>| v@);
        outputs.push(e);
        assert(outputs@.map_values(|v: Vec<u16>| v@) =~= before.push(Seq::<u16>::empty()));
        assert(outputs@.map_values(|v: Vec<u16>| v@) =~= Seq::new((c + 1) as nat, |i: int| Seq::<u16>::empty()));
        c = c + 1;
    }
    let ghost whole = rows(sv, 0, outputs@.map_values(|v: Vec<u16>| v@), false);
    let mut in_match = false;
    let last = samples.len() - 1;
    let first_len = samples[0].len();
    let mut index: usize = 0;
    while index < first_len
        invariant
            sv == samples@.map_values(|v: Vec<u16>| v@),
            samples.len() >= 2,
            last == samples.len() - 1,
            outputs.len() == samples.len(),
            first_len == sv[0].len(),
            index <= first_len,
            whole == rows(sv, index as int, outputs@.map_values(|v: Vec<u16>| v@), in_match),
        decreases first_len - index,
    {
        let unit = samples[0][index];
        assert(sv[0] == samples@[0]@);
        let mut matched = true;
        let mut q: usize = 1;
        while q < samples.len()
            invariant
                1 <= q <= samples.len(),
                sv == samples@.map_values(|v: Vec<u16>| v@),
                index < first_len == sv[0].len(),
                unit == sv[0][index as int],
                matched == (forall|p: int|
                    1 <= p < q ==> index < (#[trigger] sv[p]).len() && sv[p][index as int] == sv[0][index as int]),
            decreases samples.len() - q,
        {
            assert(sv[q as int] == samples@[q as int]@);
            if !(index < samples[q].len() && samples[q][index] == unit) {
                matched = false;
            }
            q = q + 1;
        }
        assert(matched == matched_at(sv, index as int));
        let ghost row_whole = row(sv, index as int, 0, outputs@.map_values(|v: Vec<u16>| v@), in_match);
        let mut position: usize = 0;
        while position < samples.len()
            invariant
                position <= samples.len(),
                sv == samples@.map_values(|v: Vec<u16>| v@),
                last == samples.len() - 1,
                outputs.len() == samples.len(),
                index < first_len == sv[0].len(),
                matched == matched_at(sv, index as int),
                row_whole == row(sv, index as int, position as int, outputs@.map_values(|v: Vec<u16>| v@), in_match),
            decreases samples.len() - position,
        {
            let ghost before = outputs@.map_values(|v: Vec<u16>| v@);
            let m = step_exec(&mut outputs[position], &samples[position], index, first_len, matched, in_match, position == last);
            proof {
                assert(outputs@.map_values(|v: Vec<u16>| v@) =~= before.update(position as int, outputs@[position as int]@));
            }
            in_match = m;
            position = position + 1;
        }
        index = index + 1;
    }
    let mut escaped: Vec<u16> = Vec::new();
    push_escaped_from(&mut escaped, &separator, 0);
    assert(separator@.skip(0) == separator@);
    let ghost ov = outputs@.map_values(|v: Vec<u16>| v@);
    let mut joined: Vec<u16> = Vec::new();
    let mut k: usize = 0;
    while k < outputs.len()
        invariant
            k <= outputs.len(),
            ov == outputs@.map_values(|v: Vec<u16>| v@),
            joined@ == join_units(ov.take(k as int), escaped@),
        decreases outputs.len() - k,
    {
        if k > 0 {
            append_units(&mut joined, &escaped);
        }
        append_units(&mut joined, &outputs[k]);
        proof {
            assert(ov.take(k + 1).drop_last() == ov.take(k as int));
            assert(ov.take(k + 1).last() == outputs@[k as int]@);
            if k == 0 {
                assert(ov.take(1).len() == 1);
            }
        }
        k = k + 1;
    }
    assert(ov.take(outputs.len() as int) == ov);
    match from_utf16(&joined) {
        Some(s) => Ok(s),
        None => Err(OperationError::Failed(Failure::OffsetUnpairedSurrogate)),
    }
}

/// Marks the characters that every sample shares at the same offset.
pub struct OffsetChecker {}

impl OffsetChecker {
    /// Creates the operation.
    pub fn new() -> Self {
        OffsetChecker {  }
    }

    /// Runs the comparison over samples separated by `delimiter`.
    pub fn execute(&self, input: &str, delimiter: &str) -> (r: Result<String, OperationError>)
        ensures
            match check_spec(input@, delimiter@) {
                Ok(t) => r matches Ok(s) && s@ == t,
                Err(f) => r == Err::<String, OperationError>(OperationError::Failed(f)),
            },
    {
        check(input, delimiter)
    }
}

} // verus!
