//! Edit distance between two delimited samples.

use vstd::prelude::*;

use crate::error::{Failure, OperationError};
use crate::strings::{decimal, decimal_spec, split, split_spec, utf16_spec, utf16_units, utf16_of, split_nonempty, find_from, lemma_find_bounds};
use crate::text::{chars_of, str_equals, string_of};
use crate::bytes::{byte_array, byte_array_spec, from_hex_auto, hex_auto_spec};

verus! {

/// The largest edit cost accepted.
pub const MAX_COST: i128 = 4294967295;

/// The smallest of three.
pub open spec fn min3(a: int, b: int, c: int) -> int {
    let m = if b < a {
        b
    } else {
        a
    };
    if c < m {
        c
    } else {
        m
    }
}

/// The weighted edit distance from the first `c` units of `src` to the first
/// `r` units of `tgt`.
pub open spec fn lev(
    src: Seq<u16>,
    tgt: Seq<u16>,
    r: nat,
    c: nat,
    ins: int,
    del: int,
    sub: int,
) -> int
    decreases r, c,
{
    if r == 0 {
        c * del
    } else if c == 0 {
        lev(src, tgt, (r - 1) as nat, 0, ins, del, sub) + ins
    } else {
        min3(
            lev(src, tgt, (r - 1) as nat, c, ins, del, sub) + ins,
            lev(src, tgt, r, (c - 1) as nat, ins, del, sub) + del,
            lev(src, tgt, (r - 1) as nat, (c - 1) as nat, ins, del, sub) + if src[c - 1] == tgt[r
                - 1] {
                0
            } else {
                sub
            },
        )
    }
}

/// What `levenshtein` answers.
pub open spec fn levenshtein_spec(input: Seq<char>, delimiter: Seq<char>, costs: (i128, i128, i128)) -> Result<
    Seq<char>,
    OperationError,
> {
    let (ins, del, sub) = costs;
    let parts = split_spec(input, delimiter);
    if ins < 0 || del < 0 || sub < 0 {
        Err(OperationError::Failed(Failure::DistanceNegativeCost))
    } else if parts.len() != 2 {
        Err(OperationError::Failed(Failure::DistanceWrongSampleCount))
    } else if ins > MAX_COST || del > MAX_COST || sub > MAX_COST {
        Err(OperationError::Failed(Failure::DistanceCostTooLarge))
    } else {
        let src = utf16_spec(parts[0]);
        let tgt = utf16_spec(parts[1]);
        Ok(decimal_spec(lev(src, tgt, tgt.len(), src.len(), ins as int, del as int, sub as int) as nat))
    }
}

/// One edit: keep a unit, write another in its place, delete it, or insert
/// one.
pub enum Edit {
    Keep,
    Substitute(u16),
    Delete,
    Insert(u16),
}

/// Whether the edits, applied in order, turn `a` into `b`.
pub open spec fn edits(ops: Seq<Edit>, a: Seq<u16>, b: Seq<u16>) -> bool
    decreases ops.len(),
{
    if ops.len() == 0 {
        a.len() == 0 && b.len() == 0
    } else {
        let rest = ops.drop_last();
        match ops.last() {
            Edit::Keep => a.len() > 0 && b.len() > 0 && a.last() == b.last() && edits(
                rest,
                a.drop_last(),
                b.drop_last(),
            ),
            Edit::Substitute(x) => a.len() > 0 && b.len() > 0 && b.last() == x && edits(
                rest,
                a.drop_last(),
                b.drop_last(),
            ),
            Edit::Delete => a.len() > 0 && edits(rest, a.drop_last(), b),
            Edit::Insert(x) => b.len() > 0 && b.last() == x && edits(rest, a, b.drop_last()),
        }
    }
}

/// What the edits cost: nothing to keep, and the given cost for each other
/// kind.
pub open spec fn edit_cost(ops: Seq<Edit>, ins: int, del: int, sub: int) -> int
    decreases ops.len(),
{
    if ops.len() == 0 {
        0
    } else {
        edit_cost(ops.drop_last(), ins, del, sub) + match ops.last() {
            Edit::Keep => 0,
            Edit::Substitute(_) => sub,
            Edit::Delete => del,
            Edit::Insert(_) => ins,
        }
    }
}

proof fn lemma_lev_lower(
    ops: Seq<Edit>,
    src: Seq<u16>,
    tgt: Seq<u16>,
    r: nat,
    c: nat,
    ins: int,
    del: int,
    sub: int,
)
    requires
        r <= tgt.len(),
        c <= src.len(),
        ins >= 0,
        del >= 0,
        sub >= 0,
        edits(ops, src.take(c as int), tgt.take(r as int)),
    ensures
        edit_cost(ops, ins, del, sub) >= lev(src, tgt, r, c, ins, del, sub),
    decreases ops.len(),
{
    let a = src.take(c as int);
    let b = tgt.take(r as int);
    if ops.len() > 0 {
        let rest = ops.drop_last();
        if c > 0 {
            assert(a.drop_last() =~= src.take(c - 1));
            assert(a.last() == src[c - 1]);
        }
        if r > 0 {
            assert(b.drop_last() =~= tgt.take(r - 1));
            assert(b.last() == tgt[r - 1]);
        }
        match ops.last() {
            Edit::Keep => {
                lemma_lev_lower(rest, src, tgt, (r - 1) as nat, (c - 1) as nat, ins, del, sub);
            },
            Edit::Substitute(_) => {
                lemma_lev_lower(rest, src, tgt, (r - 1) as nat, (c - 1) as nat, ins, del, sub);
            },
            Edit::Delete => {
                lemma_lev_lower(rest, src, tgt, r, (c - 1) as nat, ins, del, sub);
                if r == 0 {
                    assert(lev(src, tgt, 0, c, ins, del, sub) == lev(src, tgt, 0, (c - 1) as nat, ins, del, sub)
                        + del) by (nonlinear_arith)
                        requires
                            lev(src, tgt, 0, c, ins, del, sub) == c * del,
                            lev(src, tgt, 0, (c - 1) as nat, ins, del, sub) == (c - 1) * del,
                    ;
                }
            },
            Edit::Insert(_) => {
                lemma_lev_lower(rest, src, tgt, (r - 1) as nat, c, ins, del, sub);
            },
        }
    }
}

proof fn lemma_lev_attained(src: Seq<u16>, tgt: Seq<u16>, r: nat, c: nat, ins: int, del: int, sub: int) -> (ops:
    Seq<Edit>)
    requires
        r <= tgt.len(),
        c <= src.len(),
    ensures
        edits(ops, src.take(c as int), tgt.take(r as int)),
        edit_cost(ops, ins, del, sub) == lev(src, tgt, r, c, ins, del, sub),
    decreases r, c,
{
    let a = src.take(c as int);
    let b = tgt.take(r as int);
    if c > 0 {
        assert(a.drop_last() =~= src.take(c - 1));
        assert(a.last() == src[c - 1]);
    }
    if r > 0 {
        assert(b.drop_last() =~= tgt.take(r - 1));
        assert(b.last() == tgt[r - 1]);
    }
    if r == 0 {
        if c == 0 {
            seq![]
        } else {
            let rest = lemma_lev_attained(src, tgt, 0, (c - 1) as nat, ins, del, sub);
            let ops = rest.push(Edit::Delete);
            assert(ops.drop_last() =~= rest);
            assert(c * del == (c - 1) * del + del) by (nonlinear_arith);
            ops
        }
    } else if c == 0 {
        let rest = lemma_lev_attained(src, tgt, (r - 1) as nat, 0, ins, del, sub);
        let ops = rest.push(Edit::Insert(tgt[r - 1]));
        assert(ops.drop_last() =~= rest);
        ops
    } else {
        let x = lev(src, tgt, (r - 1) as nat, c, ins, del, sub) + ins;
        let y = lev(src, tgt, r, (c - 1) as nat, ins, del, sub) + del;
        let same = src[c - 1] == tgt[r - 1];
        let z = lev(src, tgt, (r - 1) as nat, (c - 1) as nat, ins, del, sub) + if same {
            0
        } else {
            sub
        };
        let m = min3(x, y, z);
        if m == z {
            let rest = lemma_lev_attained(src, tgt, (r - 1) as nat, (c - 1) as nat, ins, del, sub);
            let ops = rest.push(if same {
                Edit::Keep
            } else {
                Edit::Substitute(tgt[r - 1])
            });
            assert(ops.drop_last() =~= rest);
            ops
        } else if m == y {
            let rest = lemma_lev_attained(src, tgt, r, (c - 1) as nat, ins, del, sub);
            let ops = rest.push(Edit::Delete);
            assert(ops.drop_last() =~= rest);
            ops
        } else {
            let rest = lemma_lev_attained(src, tgt, (r - 1) as nat, c, ins, del, sub);
            let ops = rest.push(Edit::Insert(tgt[r - 1]));
            assert(ops.drop_last() =~= rest);
            ops
        }
    }
}

/// The weighted edit distance is the least cost of turning the first sample
/// into the second: some sequence of edits costs exactly `lev`, and none
/// costs less, whatever the non-negative costs.
pub proof fn lemma_lev_least(src: Seq<u16>, tgt: Seq<u16>, ins: int, del: int, sub: int)
    requires
        ins >= 0,
        del >= 0,
        sub >= 0,
    ensures
        exists|ops: Seq<Edit>|
            edits(ops, src, tgt) && #[trigger] edit_cost(ops, ins, del, sub) == lev(
                src,
                tgt,
                tgt.len(),
                src.len(),
                ins,
                del,
                sub,
            ),
        forall|ops: Seq<Edit>|
            edits(ops, src, tgt) ==> #[trigger] edit_cost(ops, ins, del, sub) >= lev(
                src,
                tgt,
                tgt.len(),
                src.len(),
                ins,
                del,
                sub,
            ),
{
    assert(src.take(src.len() as int) =~= src);
    assert(tgt.take(tgt.len() as int) =~= tgt);
    let best = lemma_lev_attained(src, tgt, tgt.len(), src.len(), ins, del, sub);
    assert(edits(best, src, tgt));
    assert forall|ops: Seq<Edit>| edits(ops, src, tgt) implies #[trigger] edit_cost(ops, ins, del, sub) >= lev(
        src,
        tgt,
        tgt.len(),
        src.len(),
        ins,
        del,
        sub,
    ) by {
        lemma_lev_lower(ops, src, tgt, tgt.len(), src.len(), ins, del, sub);
    }
}

proof fn lemma_lev_bounds(src: Seq<u16>, tgt: Seq<u16>, r: nat, c: nat, ins: int, del: int, sub: int)
    requires
        0 <= ins <= 4294967295,
        0 <= del <= 4294967295,
        0 <= sub <= 4294967295,
    ensures
        0 <= lev(src, tgt, r, c, ins, del, sub) <= (r + c) * 4294967295,
    decreases r, c,
{
    if r == 0 {
        assert(0 <= c * del <= c * 4294967295) by (nonlinear_arith)
            requires
                0 <= del <= 4294967295,
        ;
    } else if c == 0 {
        lemma_lev_bounds(src, tgt, (r - 1) as nat, 0, ins, del, sub);
    } else {
        lemma_lev_bounds(src, tgt, (r - 1) as nat, c, ins, del, sub);
        lemma_lev_bounds(src, tgt, r, (c - 1) as nat, ins, del, sub);
        lemma_lev_bounds(src, tgt, (r - 1) as nat, (c - 1) as nat, ins, del, sub);
    }
}

pub proof fn lemma_split_pieces_shorter(s: Seq<char>, d: Seq<char>)
    ensures
        forall|i: int| 0 <= i < split_spec(s, d).len() ==> (#[trigger] split_spec(s, d)[i]).len() <= s.len(),
{
    if d.len() > 0 {
        lemma_split_nonempty_shorter(s, d);
    }
}

proof fn lemma_split_nonempty_shorter(s: Seq<char>, d: Seq<char>)
    ensures
        forall|i: int| 0 <= i < split_nonempty(s, d).len() ==> (#[trigger] split_nonempty(s, d)[i]).len() <= s.len(),
    decreases s.len(),
{
    lemma_find_bounds(s, d, 0);
    match find_from(s, d, 0) {
        Some(k) => {
            if d.len() > 0 && 0 <= k && k + d.len() <= s.len() {
                let rest = s.skip(k + d.len());
                lemma_split_nonempty_shorter(rest, d);
                let whole = split_nonempty(s, d);
                assert forall|i: int| 0 <= i < whole.len() implies (#[trigger] whole[i]).len() <= s.len() by {
                    if i > 0 {
                        assert(whole[i] == split_nonempty(rest, d)[i - 1]);
                    }
                }
            }
        },
        None => {},
    }
}

proof fn lemma_utf16_len(s: Seq<char>)
    ensures
        utf16_spec(s).len() <= 2 * s.len(),
    decreases s.len(),
{
    if s.len() > 0 {
        lemma_utf16_len(s.drop_last());
    }
}

/// Levenshtein distance with configurable insertion, deletion, and
/// substitution costs, over UTF-16 code units.
///
/// Each cost is refused above four billion, and the input is at most the
/// executor's input ceiling, so the whole matrix stays inside `i64`.
pub fn levenshtein(input: &str, delimiter: &str, costs: (i128, i128, i128)) -> (r: Result<
    String,
    OperationError,
>)
    requires
        input@.len() <= 0x1000_0000,
    ensures
        match r {
            Ok(s) => levenshtein_spec(input@, delimiter@, costs) == Ok::<Seq<char>, OperationError>(s@),
            Err(e) => levenshtein_spec(input@, delimiter@, costs) == Err::<Seq<char>, OperationError>(e),
        },
{
    let (insertion, deletion, substitution) = costs;
    if insertion < 0 || deletion < 0 || substitution < 0 {
        return Err(OperationError::Failed(Failure::DistanceNegativeCost));
    }
    let text = chars_of(input);
    let sep = chars_of(delimiter);
    let parts = split(&text, &sep);
    if parts.len() != 2 {
        return Err(OperationError::Failed(Failure::DistanceWrongSampleCount));
    }
    let source = utf16_units(&parts[0]);
    let target = utf16_units(&parts[1]);
    if insertion > MAX_COST || deletion > MAX_COST || substitution > MAX_COST {
        return Err(OperationError::Failed(Failure::DistanceCostTooLarge));
    }
    proof {
        lemma_split_pieces_shorter(input@, delimiter@);
        assert(parts@[0]@ == split_spec(input@, delimiter@)[0]);
        assert(parts@[1]@ == split_spec(input@, delimiter@)[1]);
        lemma_utf16_len(parts@[0]@);
        lemma_utf16_len(parts@[1]@);
    }
    let ins = insertion as i64;
    let del = deletion as i64;
    let sub = substitution as i64;
    let ghost src = source@;
    let ghost tgt = target@;
    let n = source.len();
    let m = target.len();
    assert(n <= 0x2000_0000 && m <= 0x2000_0000);

    let mut row: Vec<i64> = Vec::new();
    let mut c: usize = 0;
    while c <= n
        invariant
            c <= n + 1,
            n <= 0x2000_0000,
            0 <= del <= 4294967295,
            row@.len() == c,
            forall|j: int| 0 <= j < c ==> #[trigger] row@[j] == j * del,
        decreases n + 1 - c,
    {
        assert(0 <= (c as int) * (del as int) <= 0x2000_0000 * 4294967295) by (nonlinear_arith)
            requires
                c <= 0x2000_0000,
                0 <= del <= 4294967295,
        ;
        row.push((c as i64) * del);
        c = c + 1;
    }

    let mut r: usize = 0;
    while r < m
        invariant
            r <= m <= 0x2000_0000,
            n <= 0x2000_0000,
            n == src.len(),
            m == tgt.len(),
            source@ == src,
            target@ == tgt,
            0 <= ins <= 4294967295,
            0 <= del <= 4294967295,
            0 <= sub <= 4294967295,
            row@.len() == n + 1,
            forall|j: int| 0 <= j <= n ==> #[trigger] row@[j] == lev(src, tgt, r as nat, j as nat, ins as int, del as int, sub as int),
        decreases m - r,
    {
        let letter = target[r];
        proof {
            lemma_lev_bounds(src, tgt, r as nat, 0, ins as int, del as int, sub as int);
            lemma_lev_bounds(src, tgt, (r + 1) as nat, 0, ins as int, del as int, sub as int);
        }
        let mut diagonal = row[0];
        row.set(0, row[0] + ins);
        let mut column: usize = 0;
        while column < n
            invariant
                column <= n,
                r < m <= 0x2000_0000,
                n <= 0x2000_0000,
                n == src.len(),
                m == tgt.len(),
                source@ == src,
                target@ == tgt,
                letter == tgt[r as int],
                0 <= ins <= 4294967295,
                0 <= del <= 4294967295,
                0 <= sub <= 4294967295,
                row@.len() == n + 1,
                diagonal == lev(src, tgt, r as nat, column as nat, ins as int, del as int, sub as int),
                forall|j: int| 0 <= j <= column ==> #[trigger] row@[j] == lev(src, tgt, (r + 1) as nat, j as nat, ins as int, del as int, sub as int),
                forall|j: int| column < j <= n ==> #[trigger] row@[j] == lev(src, tgt, r as nat, j as nat, ins as int, del as int, sub as int),
            decreases n - column,
        {
            proof {
                lemma_lev_bounds(src, tgt, r as nat, (column + 1) as nat, ins as int, del as int, sub as int);
                lemma_lev_bounds(src, tgt, (r + 1) as nat, column as nat, ins as int, del as int, sub as int);
                lemma_lev_bounds(src, tgt, r as nat, column as nat, ins as int, del as int, sub as int);
            }
            let above = row[column + 1];
            let mut best = above + ins;
            let candidate = row[column] + del;
            if candidate < best {
                best = candidate;
            }
            let replace = if source[column] == letter {
                diagonal
            } else {
                diagonal + sub
            };
            if replace < best {
                best = replace;
            }
            row.set(column + 1, best);
            diagonal = above;
            column = column + 1;
        }
        r = r + 1;
    }
    proof {
        lemma_lev_bounds(src, tgt, m as nat, n as nat, ins as int, del as int, sub as int);
    }
    let result = row[n];
    let digits = decimal(result as u128);
    Ok(string_of(&digits))
}


/// The number of set bits in a byte.
pub open spec fn popcount(x: u8) -> nat
    decreases x,
{
    if x == 0 {
        0
    } else {
        (x % 2) as nat + popcount(x / 2)
    }
}

/// How two bytes differ: as bytes, or bit by bit.
pub open spec fn byte_difference(a: u8, b: u8, by_byte: bool) -> nat {
    if by_byte {
        if a != b {
            1
        } else {
            0
        }
    } else {
        popcount(a ^ b)
    }
}

/// The differences over the first `n` bytes of `l`, a byte past the end of
/// `r` counting as zero.
pub open spec fn hamming_count(l: Seq<u8>, r: Seq<u8>, by_byte: bool, n: nat) -> nat
    decreases n,
{
    if n == 0 {
        0
    } else {
        let i = (n - 1) as int;
        let other = if i < r.len() {
            r[i]
        } else {
            0u8
        };
        hamming_count(l, r, by_byte, (n - 1) as nat) + byte_difference(l[i], other, by_byte)
    }
}

/// The byte of `r` that position `i` of the left sample is compared with:
/// zero past its end.
pub open spec fn paired(r: Seq<u8>, i: int) -> u8 {
    if i < r.len() {
        r[i]
    } else {
        0u8
    }
}

proof fn lemma_popcount_zero(x: u8)
    ensures
        popcount(x) == 0 <==> x == 0,
    decreases x,
{
    if x != 0 {
        if x % 2 == 0 {
            assert(x / 2 != 0 && x / 2 < x) by (bit_vector)
                requires
                    x != 0,
                    x % 2 == 0,
            ;
            lemma_popcount_zero(x / 2);
        }
    }
}

proof fn lemma_xor_zero(a: u8, b: u8)
    ensures
        (a ^ b == 0) <==> a == b,
{
    assert((a ^ b == 0) <==> a == b) by (bit_vector);
}

/// Hamming counts every position of the left sample, the first included: it
/// is zero exactly when no position differs from its partner, by byte or by
/// bit; counting bytes, it equals the number of positions exactly when
/// every position differs.
pub proof fn lemma_hamming_counts_positions(l: Seq<u8>, r: Seq<u8>, by_byte: bool, n: nat)
    requires
        n <= l.len(),
    ensures
        hamming_count(l, r, by_byte, n) == 0 <==> forall|i: int| 0 <= i < n ==> l[i] == #[trigger] paired(r, i),
        hamming_count(l, r, true, n) <= n,
        hamming_count(l, r, true, n) == n <==> forall|i: int| 0 <= i < n ==> l[i] != #[trigger] paired(r, i),
    decreases n,
{
    if n > 0 {
        let i = (n - 1) as int;
        lemma_hamming_counts_positions(l, r, by_byte, (n - 1) as nat);
        lemma_hamming_counts_positions(l, r, true, (n - 1) as nat);
        lemma_popcount_zero(l[i] ^ paired(r, i));
        lemma_xor_zero(l[i], paired(r, i));
        assert(paired(r, i) == paired(r, i));
        if forall|k: int| 0 <= k < n ==> l[k] == #[trigger] paired(r, k) {
            assert(l[i] == paired(r, i));
        }
        if forall|k: int| 0 <= k < n ==> l[k] != #[trigger] paired(r, k) {
            assert(l[i] != paired(r, i));
        }
    }
}

/// Changing one position of the left sample from equal to its partner into
/// different adds exactly one to the byte count, wherever the position is.
pub proof fn lemma_hamming_one_more(l: Seq<u8>, r: Seq<u8>, k: int, x: u8, n: nat)
    requires
        n <= l.len(),
        0 <= k < n,
        l[k] == paired(r, k),
        x != paired(r, k),
    ensures
        hamming_count(l.update(k, x), r, true, n) == hamming_count(l, r, true, n) + 1,
    decreases n,
{
    let l2 = l.update(k, x);
    if n - 1 > k {
        lemma_hamming_one_more(l, r, k, x, (n - 1) as nat);
        assert(l2[n - 1] == l[n - 1]);
    } else {
        assert forall|i: int| 0 <= i < k implies l[i] == l2[i] by {}
        lemma_hamming_same_prefix(l, l2, r, k as nat);
        assert(l2[k] == x);
        assert(hamming_count(l2, r, true, n) == hamming_count(l2, r, true, k as nat) + 1);
        assert(hamming_count(l, r, true, n) == hamming_count(l, r, true, k as nat));
    }
}

proof fn lemma_hamming_same_prefix(a: Seq<u8>, b: Seq<u8>, r: Seq<u8>, m: nat)
    requires
        m <= a.len(),
        m <= b.len(),
        forall|i: int| 0 <= i < m ==> a[i] == b[i],
    ensures
        hamming_count(a, r, true, m) == hamming_count(b, r, true, m),
    decreases m,
{
    if m > 0 {
        lemma_hamming_same_prefix(a, b, r, (m - 1) as nat);
        assert(a[m - 1] == b[m - 1]);
    }
}

/// One sample as bytes, read as hex or as text.
pub open spec fn decode_sample_spec(p: Seq<char>, hex: bool) -> Seq<u8> {
    if hex {
        hex_auto_spec(p)
    } else {
        byte_array_spec(p)
    }
}

/// What `hamming` answers.
pub open spec fn hamming_spec(input: Seq<char>, delimiter: Seq<char>, by_byte: bool, hex: bool) -> Result<
    Seq<char>,
    OperationError,
> {
    let parts = split_spec(input, delimiter);
    if parts.len() != 2 {
        Err(OperationError::Failed(Failure::DistanceWrongSampleCount))
    } else if utf16_spec(parts[0]).len() != utf16_spec(parts[1]).len() {
        Err(OperationError::Failed(Failure::DistanceLengthMismatch))
    } else {
        let l = decode_sample_spec(parts[0], hex);
        let r = decode_sample_spec(parts[1], hex);
        Ok(decimal_spec(hamming_count(l, r, by_byte, l.len())))
    }
}

proof fn lemma_popcount_bound(x: u8)
    ensures
        popcount(x) <= 8,
{
    assert(popcount(x) <= 8) by {
        reveal_with_fuel(popcount, 9);
        assert(x / 2 / 2 / 2 / 2 / 2 / 2 / 2 / 2 == 0) by (bit_vector);
    }
}

fn count_bits(x: u8) -> (n: u128)
    ensures
        n == popcount(x),
        n <= 8,
{
    let mut n: u128 = 0;
    let mut y = x;
    proof {
        lemma_popcount_bound(x);
    }
    while y != 0
        invariant
            n + popcount(y) == popcount(x),
            popcount(x) <= 8,
        decreases y,
    {
        n = n + (y % 2) as u128;
        y = y / 2;
    }
    n
}

fn decode_sample(p: &Vec<char>, hex: bool) -> (r: Vec<u8>)
    ensures
        r@ == decode_sample_spec(p@, hex),
{
    if hex {
        from_hex_auto(p)
    } else {
        byte_array(p)
    }
}

/// Hamming distance, by byte or by bit.
///
/// The equal-length check runs on the strings, before any conversion, so two
/// samples can pass it and still produce byte arrays of different lengths; a
/// byte read past the end of the shorter one counts as zero.
pub fn hamming(input: &str, delimiter: &str, by_byte: bool, hex_input: bool) -> (r: Result<
    String,
    OperationError,
>)
    ensures
        match r {
            Ok(s) => hamming_spec(input@, delimiter@, by_byte, hex_input) == Ok::<Seq<char>, OperationError>(s@),
            Err(e) => hamming_spec(input@, delimiter@, by_byte, hex_input) == Err::<Seq<char>, OperationError>(e),
        },
{
    let text = chars_of(input);
    let sep = chars_of(delimiter);
    let parts = split(&text, &sep);
    if parts.len() != 2 {
        return Err(OperationError::Failed(Failure::DistanceWrongSampleCount));
    }
    if utf16_units(&parts[0]).len() != utf16_units(&parts[1]).len() {
        return Err(OperationError::Failed(Failure::DistanceLengthMismatch));
    }
    let left = decode_sample(&parts[0], hex_input);
    let right = decode_sample(&parts[1], hex_input);
    let mut distance: u128 = 0;
    let mut i: usize = 0;
    while i < left.len()
        invariant
            i <= left.len(),
            distance == hamming_count(left@, right@, by_byte, i as nat),
            distance <= 8 * i,
        decreases left.len() - i,
    {
        let other = if i < right.len() {
            right[i]
        } else {
            0
        };
        let d = if by_byte {
            if left[i] != other {
                1
            } else {
                0
            }
        } else {
            count_bits(left[i] ^ other)
        };
        distance = distance + d;
        i = i + 1;
    }
    let digits = decimal(distance);
    Ok(string_of(&digits))
}


/// Hamming distance between two equal-length samples.
pub struct HammingDistance {}

impl HammingDistance {
    /// Creates the Hamming distance operation.
    pub fn new() -> Self {
        HammingDistance {  }
    }

    /// Counts differing bytes when `unit` is `Byte` and differing bits
    /// otherwise, reading the samples as hex when `input_type` is `Hex`.
    pub fn execute(&self, input: &str, delimiter: &str, unit: &str, input_type: &str) -> (r: Result<
        String,
        OperationError,
    >)
        ensures
            match r {
                Ok(s) => hamming_spec(input@, delimiter@, unit@ == "Byte"@, input_type@ == "Hex"@)
                    == Ok::<Seq<char>, OperationError>(s@),
                Err(e) => hamming_spec(input@, delimiter@, unit@ == "Byte"@, input_type@ == "Hex"@)
                    == Err::<Seq<char>, OperationError>(e),
            },
    {
        let by_byte = str_equals(unit, "Byte");
        let hex = str_equals(input_type, "Hex");
        hamming(input, delimiter, by_byte, hex)
    }
}

/// Levenshtein edit distance between two samples.
pub struct LevenshteinDistance {}

impl LevenshteinDistance {
    /// Creates the Levenshtein distance operation.
    pub fn new() -> Self {
        LevenshteinDistance {  }
    }

    /// The weighted edit distance; see `levenshtein`.
    pub fn execute(
        &self,
        input: &str,
        delimiter: &str,
        insertion_cost: i128,
        deletion_cost: i128,
        substitution_cost: i128,
    ) -> (r: Result<String, OperationError>)
        requires
            input@.len() <= 0x1000_0000,
        ensures
            match r {
                Ok(s) => levenshtein_spec(
                    input@,
                    delimiter@,
                    (insertion_cost, deletion_cost, substitution_cost),
                ) == Ok::<Seq<char>, OperationError>(s@),
                Err(e) => levenshtein_spec(
                    input@,
                    delimiter@,
                    (insertion_cost, deletion_cost, substitution_cost),
                ) == Err::<Seq<char>, OperationError>(e),
            },
    {
        levenshtein(input, delimiter, (insertion_cost, deletion_cost, substitution_cost))
    }
}

} // verus!
