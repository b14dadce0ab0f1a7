//! Removing and reordering parts of the input.

use vstd::prelude::*;

use crate::error::{Failure, OperationError};
use crate::text::{chars_of, str_equals, string_of, utf8_lossy, utf8_text_lossy};
use vstd::utf8::encode_utf8;

verus! {

/// The characters not in `selection`, in order.
pub open spec fn without(s: Seq<char>, selection: Seq<char>) -> Seq<char>
    decreases s.len(),
{
    if s.len() == 0 {
        seq![]
    } else if selection.contains(s.last()) {
        without(s.drop_last(), selection)
    } else {
        without(s.drop_last(), selection).push(s.last())
    }
}

fn contains_char(set: &Vec<char>, c: char) -> (r: bool)
    ensures
        r == set@.contains(c),
{
    let mut i: usize = 0;
    while i < set.len()
        invariant
            i <= set.len(),
            forall|j: int| 0 <= j < i ==> set@[j] != c,
        decreases set.len() - i,
    {
        if set[i] == c {
            assert(set@[i as int] == c);
            return true;
        }
        i = i + 1;
    }
    false
}

/// Removes every character in `selection`.
pub fn remove_whitespace(input: &str, selection: &Vec<char>) -> (r: String)
    ensures
        r@ == without(input@, selection@),
{
    let s = chars_of(input);
    let mut out: Vec<char> = Vec::new();
    let mut i: usize = 0;
    while i < s.len()
        invariant
            i <= s.len(),
            out@ == without(s@.take(i as int), selection@),
        decreases s.len() - i,
    {
        let c = s[i];
        if !contains_char(selection, c) {
            out.push(c);
        }
        proof {
            assert(s@.take(i + 1).drop_last() == s@.take(i as int));
            assert(s@.take(i + 1).last() == c);
        }
        i = i + 1;
    }
    assert(s@.take(s.len() as int) == s@);
    string_of(&out)
}

/// The characters the remove-whitespace flags select, in flag order: space,
/// carriage return, line feed, tab, form feed, full stop.
pub open spec fn strippable(spaces: bool, crs: bool, lfs: bool, tabs: bool, ffs: bool, stops: bool) -> Seq<char> {
    (if spaces { seq![' '] } else { seq![] }) + (if crs { seq!['\r'] } else { seq![] }) + (if lfs {
        seq!['\n']
    } else {
        seq![]
    }) + (if tabs { seq!['\t'] } else { seq![] }) + (if ffs { seq!['\u{c}'] } else { seq![] }) + (if stops {
        seq!['.']
    } else {
        seq![]
    })
}

/// The bytes that are not zero, in order.
pub open spec fn without_nulls(b: Seq<u8>) -> Seq<u8>
    decreases b.len(),
{
    if b.len() == 0 {
        seq![]
    } else if b.last() == 0 {
        without_nulls(b.drop_last())
    } else {
        without_nulls(b.drop_last()).push(b.last())
    }
}

/// Removes every `0x00` byte.
pub fn remove_null_bytes(input: &[u8]) -> (r: Vec<u8>)
    ensures
        r@ == without_nulls(input@),
{
    let mut out: Vec<u8> = Vec::new();
    let mut i: usize = 0;
    while i < input.len()
        invariant
            i <= input.len(),
            out@ == without_nulls(input@.take(i as int)),
        decreases input.len() - i,
    {
        if input[i] != 0 {
            out.push(input[i]);
        }
        proof {
            assert(input@.take(i + 1).drop_last() == input@.take(i as int));
            assert(input@.take(i + 1).last() == input@[i as int]);
        }
        i = i + 1;
    }
    assert(input@.take(input.len() as int) == input@);
    out
}

/// Whether the selected bytes are kept or discarded.
#[derive(Clone, Copy, Debug, PartialEq, Eq, Structural)]
pub enum Nth {
    Take,
    Drop,
}

/// Where counting restarts before position `i`: just past the last line
/// feed before it with `each_line`, else zero.
pub open spec fn count_origin(b: Seq<u8>, i: int, each_line: bool) -> int
    decreases i,
{
    if !each_line || i <= 0 {
        0
    } else if b[i - 1] == 0x0a {
        i
    } else {
        count_origin(b, i - 1, each_line)
    }
}

/// Whether the byte at `i` is one of every `every` from `start`.
pub open spec fn selected(b: Seq<u8>, i: int, every: int, start: int, each_line: bool) -> bool {
    let origin = count_origin(b, i, each_line);
    i - origin >= start && (i - (start + origin)) % every == 0
}

/// The bytes kept, in order; with `each_line`, every line feed is kept.
pub open spec fn nth_spec(b: Seq<u8>, n: int, mode: Nth, every: int, start: int, each_line: bool) -> Seq<u8>
    decreases n,
{
    if n <= 0 {
        seq![]
    } else {
        let i = n - 1;
        let prev = nth_spec(b, i, mode, every, start, each_line);
        if each_line && b[i] == 0x0a {
            prev.push(0x0a)
        } else {
            let sel = selected(b, i, every, start, each_line);
            if (mode == Nth::Take && sel) || (mode == Nth::Drop && !sel) {
                prev.push(b[i])
            } else {
                prev
            }
        }
    }
}

/// What `take_or_drop_nth` answers.
pub open spec fn take_or_drop_spec(b: Seq<u8>, mode: Nth, every: int, start: int, each_line: bool) -> Result<
    Seq<u8>,
    Failure,
> {
    if every <= 0 {
        Err(Failure::NthInvalidEvery)
    } else if start < 0 {
        Err(Failure::NthInvalidStart)
    } else {
        Ok(nth_spec(b, b.len() as int, mode, every, start, each_line))
    }
}

/// How many positions below `n` are one of every `every` from `start`.
pub open spec fn nth_count(n: int, every: int, start: int) -> int {
    if n <= start {
        0
    } else {
        (n - start - 1) / every + 1
    }
}

proof fn lemma_nth_count_step(n: int, every: int, start: int)
    requires
        every > 0,
        start >= 0,
        n >= 0,
    ensures
        nth_count(n + 1, every, start) == nth_count(n, every, start) + if n >= start && (n - start)
            % every == 0 {
            1int
        } else {
            0int
        },
        n >= start && (n - start) % every == 0 ==> n == start + nth_count(n, every, start) * every,
{
    if n >= start {
        let m = n - start;
        if m == 0 {
            assert(0int % every == 0) by (nonlinear_arith)
                requires
                    every > 0,
            ;
        } else {
            assert(m / every == (m - 1) / every + if m % every == 0 {
                1int
            } else {
                0int
            }) by (nonlinear_arith)
                requires
                    every > 0,
                    m >= 1,
            {
                vstd::arithmetic::div_mod::lemma_fundamental_div_mod(m, every);
                vstd::arithmetic::div_mod::lemma_fundamental_div_mod(m - 1, every);
            }
            if m % every == 0 {
                vstd::arithmetic::div_mod::lemma_fundamental_div_mod(m, every);
                let q = m / every;
                assert(m == q * every) by (nonlinear_arith)
                    requires
                        m == every * q + m % every,
                        m % every == 0,
                ;
            }
        }
    }
}

proof fn lemma_nth_plain(b: Seq<u8>, n: int, every: int, start: int)
    requires
        every > 0,
        start >= 0,
        0 <= n <= b.len(),
    ensures
        nth_spec(b, n, Nth::Take, every, start, false).len() == nth_count(n, every, start),
        nth_spec(b, n, Nth::Take, every, start, false).len() + nth_spec(b, n, Nth::Drop, every, start, false).len()
            == n,
        forall|k: int|
            0 <= k < nth_spec(b, n, Nth::Take, every, start, false).len() ==> #[trigger] nth_spec(
                b,
                n,
                Nth::Take,
                every,
                start,
                false,
            )[k] == b[start + k * every],
    decreases n,
{
    if n > 0 {
        let i = n - 1;
        lemma_nth_plain(b, i, every, start);
        lemma_nth_count_step(i, every, start);
        let prev = nth_spec(b, i, Nth::Take, every, start, false);
        let t = nth_spec(b, n, Nth::Take, every, start, false);
        assert(count_origin(b, i, false) == 0);
        assert forall|k: int| 0 <= k < t.len() implies #[trigger] t[k] == b[start + k * every] by {
            if k < prev.len() {
                assert(t[k] == prev[k]);
            }
        }
    }
}

/// The position of the `k`-th byte that every-nth selection leaves out:
/// every position before `start`, then all but the first of each run of
/// `every` positions.
pub open spec fn left_out_index(k: int, every: int, start: int) -> int {
    if k < start || every <= 1 {
        k
    } else {
        let m = k - start;
        start + (m / (every - 1)) * every + m % (every - 1) + 1
    }
}

proof fn lemma_left_out_step(i: int, every: int, start: int)
    requires
        every > 0,
        start >= 0,
        i >= 0,
        !(i >= start && (i - start) % every == 0),
    ensures
        every == 1 ==> i < start,
        left_out_index(i - nth_count(i, every, start), every, start) == i,
{
    if i >= start {
        let x = i - start;
        vstd::arithmetic::div_mod::lemma_fundamental_div_mod(x, every);
        let q = x / every;
        let r = x % every;
        assert(every != 1) by {
            if every == 1 {
                vstd::arithmetic::div_mod::lemma_fundamental_div_mod_converse(x, 1, x, 0);
            }
        }
        assert(1 <= r < every);
        assert(x == q * every + r) by (nonlinear_arith)
            requires
                x == every * q + r,
        ;
        vstd::arithmetic::div_mod::lemma_fundamental_div_mod_converse(x - 1, every, q, r - 1);
        assert(nth_count(i, every, start) == q + 1);
        let k = i - (q + 1);
        let m = k - start;
        assert(m == q * (every - 1) + (r - 1)) by (nonlinear_arith)
            requires
                m == i - q - 1 - start,
                x == i - start,
                x == q * every + r,
        ;
        assert(q >= 0) by (nonlinear_arith)
            requires
                x >= 0,
                every > 0,
                q == x / every,
        ;
        assert(m >= 0) by (nonlinear_arith)
            requires
                m == q * (every - 1) + (r - 1),
                q >= 0,
                every >= 2,
                r >= 1,
        ;
        vstd::arithmetic::div_mod::lemma_fundamental_div_mod_converse(m, every - 1, q, r - 1);
        assert(k >= start);
        assert(left_out_index(k, every, start) == start + q * every + (r - 1) + 1);
    } else {
        assert(nth_count(i, every, start) == 0);
    }
}

proof fn lemma_left_out_next(k: int, every: int, start: int)
    requires
        every > 0,
        start >= 0,
        k >= 0,
    ensures
        left_out_index(k, every, start) < left_out_index(k + 1, every, start),
{
    if every > 1 && k + 1 >= start {
        let e1 = every - 1;
        if k + 1 == start {
            vstd::arithmetic::div_mod::lemma_fundamental_div_mod_converse(0, e1, 0, 0);
        } else {
            let m = k - start;
            vstd::arithmetic::div_mod::lemma_fundamental_div_mod(m, e1);
            let q = m / e1;
            let r = m % e1;
            assert(m == q * e1 + r) by (nonlinear_arith)
                requires
                    m == e1 * q + r,
            ;
            if r + 1 < e1 {
                vstd::arithmetic::div_mod::lemma_fundamental_div_mod_converse(m + 1, e1, q, r + 1);
            } else {
                assert(m + 1 == (q + 1) * e1 + 0) by (nonlinear_arith)
                    requires
                        m == q * e1 + r,
                        r + 1 == e1,
                ;
                vstd::arithmetic::div_mod::lemma_fundamental_div_mod_converse(m + 1, e1, q + 1, 0);
                assert((q + 1) * every == q * every + every) by (nonlinear_arith);
            }
        }
    }
}

proof fn lemma_left_out_increasing(k1: int, k2: int, every: int, start: int)
    requires
        every > 0,
        start >= 0,
        0 <= k1 < k2,
    ensures
        left_out_index(k1, every, start) < left_out_index(k2, every, start),
    decreases k2 - k1,
{
    lemma_left_out_next(k2 - 1, every, start);
    if k1 < k2 - 1 {
        lemma_left_out_increasing(k1, k2 - 1, every, start);
    }
}

proof fn lemma_left_out_unselected(k: int, n: int, every: int, start: int)
    requires
        every > 0,
        start >= 0,
        n >= 0,
        0 <= k < n - nth_count(n, every, start),
    ensures
        !(left_out_index(k, every, start) >= start && (left_out_index(k, every, start) - start) % every == 0),
{
    if k >= start {
        if every == 1 {
            assert(nth_count(n, 1, start) == n - start) by {
                if n > start {
                    vstd::arithmetic::div_mod::lemma_fundamental_div_mod_converse(n - start - 1, 1, n - start - 1, 0);
                }
            }
        } else {
            let e1 = every - 1;
            let m = k - start;
            vstd::arithmetic::div_mod::lemma_fundamental_div_mod(m, e1);
            let q = m / e1;
            let r = m % e1;
            assert(q >= 0) by (nonlinear_arith)
                requires
                    m >= 0,
                    e1 > 0,
                    q == m / e1,
            ;
            let x = left_out_index(k, every, start) - start;
            assert(x == q * every + (r + 1));
            vstd::arithmetic::div_mod::lemma_fundamental_div_mod_converse(x, every, q, r + 1);
        }
    }
}

proof fn lemma_left_out_shape(n: int, every: int, start: int)
    requires
        every > 0,
        start >= 0,
        n >= 0,
    ensures
        forall|k: int|
            0 <= k < n - nth_count(n, every, start) ==> !(#[trigger] left_out_index(k, every, start) >= start && (
            left_out_index(k, every, start) - start) % every == 0),
        forall|k1: int, k2: int|
            0 <= k1 < k2 ==> #[trigger] left_out_index(k1, every, start) < #[trigger] left_out_index(k2, every, start),
{
    assert forall|k: int| 0 <= k < n - nth_count(n, every, start) implies !(#[trigger] left_out_index(
        k,
        every,
        start,
    ) >= start && (left_out_index(k, every, start) - start) % every == 0) by {
        lemma_left_out_unselected(k, n, every, start);
    }
    assert forall|k1: int, k2: int| 0 <= k1 < k2 implies #[trigger] left_out_index(k1, every, start)
        < #[trigger] left_out_index(k2, every, start) by {
        lemma_left_out_increasing(k1, k2, every, start);
    }
}

proof fn lemma_drop_plain(b: Seq<u8>, n: int, every: int, start: int)
    requires
        every > 0,
        start >= 0,
        0 <= n <= b.len(),
    ensures
        nth_spec(b, n, Nth::Drop, every, start, false).len() == n - nth_count(n, every, start),
        forall|k: int|
            0 <= k < nth_spec(b, n, Nth::Drop, every, start, false).len() ==> #[trigger] nth_spec(
                b,
                n,
                Nth::Drop,
                every,
                start,
                false,
            )[k] == b[left_out_index(k, every, start)],
    decreases n,
{
    if n > 0 {
        let i = n - 1;
        lemma_drop_plain(b, i, every, start);
        lemma_nth_count_step(i, every, start);
        let prev = nth_spec(b, i, Nth::Drop, every, start, false);
        let d = nth_spec(b, n, Nth::Drop, every, start, false);
        assert(count_origin(b, i, false) == 0);
        if !(i >= start && (i - start) % every == 0) {
            lemma_left_out_step(i, every, start);
        }
        assert forall|k: int| 0 <= k < d.len() implies #[trigger] d[k] == b[left_out_index(k, every, start)] by {
            if k < prev.len() {
                assert(d[k] == prev[k]);
            }
        }
    }
}

/// Counting from the start of the input, taking every nth byte keeps exactly
/// the bytes at `start`, `start + every`, `start + 2 * every` and so on, in
/// order, and dropping keeps the rest: the two together are as long as the
/// input.
pub proof fn lemma_take_drop_partition(b: Seq<u8>, every: int, start: int)
    requires
        every > 0,
        start >= 0,
    ensures
        take_or_drop_spec(b, Nth::Take, every, start, false) is Ok,
        take_or_drop_spec(b, Nth::Drop, every, start, false) is Ok,
        take_or_drop_spec(b, Nth::Take, every, start, false)->Ok_0.len() == nth_count(b.len() as int, every, start),
        forall|k: int|
            0 <= k < take_or_drop_spec(b, Nth::Take, every, start, false)->Ok_0.len() ==> #[trigger] take_or_drop_spec(
                b,
                Nth::Take,
                every,
                start,
                false,
            )->Ok_0[k] == b[start + k * every],
        take_or_drop_spec(b, Nth::Take, every, start, false)->Ok_0.len() + take_or_drop_spec(
            b,
            Nth::Drop,
            every,
            start,
            false,
        )->Ok_0.len() == b.len(),
        forall|k: int|
            0 <= k < take_or_drop_spec(b, Nth::Drop, every, start, false)->Ok_0.len() ==> #[trigger] take_or_drop_spec(
                b,
                Nth::Drop,
                every,
                start,
                false,
            )->Ok_0[k] == b[left_out_index(k, every, start)],
        forall|k: int|
            0 <= k < take_or_drop_spec(b, Nth::Drop, every, start, false)->Ok_0.len() ==> !(#[trigger] left_out_index(
                k,
                every,
                start,
            ) >= start && (left_out_index(k, every, start) - start) % every == 0),
        forall|k1: int, k2: int|
            0 <= k1 < k2 < take_or_drop_spec(b, Nth::Drop, every, start, false)->Ok_0.len() ==> #[trigger] left_out_index(
                k1,
                every,
                start,
            ) < #[trigger] left_out_index(k2, every, start),
{
    lemma_nth_plain(b, b.len() as int, every, start);
    lemma_drop_plain(b, b.len() as int, every, start);
    lemma_left_out_shape(b.len() as int, every, start);
}

/// Keeps or drops every nth byte, counting from a starting offset; with
/// `each_line` the count restarts after every line feed.
pub fn take_or_drop_nth(input: &[u8], mode: Nth, every: i128, start: i128, each_line: bool) -> (r: Result<
    Vec<u8>,
    OperationError,
>)
    ensures
        match take_or_drop_spec(input@, mode, every as int, start as int, each_line) {
            Ok(v) => r matches Ok(out) && out@ == v,
            Err(f) => r == Err::<Vec<u8>, OperationError>(OperationError::Failed(f)),
        },
{
    if every <= 0 {
        return Err(OperationError::Failed(Failure::NthInvalidEvery));
    }
    if start < 0 {
        return Err(OperationError::Failed(Failure::NthInvalidStart));
    }
    let mut output: Vec<u8> = Vec::new();
    let mut offset: usize = 0;
    let mut i: usize = 0;
    while i < input.len()
        invariant
            i <= input.len(),
            every > 0,
            start >= 0,
            offset <= i,
            offset == count_origin(input@, i as int, each_line),
            output@ == nth_spec(input@, i as int, mode, every as int, start as int, each_line),
        decreases input.len() - i,
    {
        let byte = input[i];
        if each_line && byte == 0x0a {
            output.push(0x0a);
            offset = i + 1;
        } else {
            let distance = (i - offset) as i128;
            let sel = distance >= start && (distance - start) % every == 0;
            assert(sel == selected(input@, i as int, every as int, start as int, each_line));
            let keep = match mode {
                Nth::Take => sel,
                Nth::Drop => !sel,
            };
            if keep {
                output.push(byte);
            }
        }
        i = i + 1;
    }
    Ok(output)
}


/// The index of the first line feed, if any.
pub open spec fn first_newline(b: Seq<u8>, i: int) -> Option<int>
    decreases b.len() - i,
{
    if i < 0 || i >= b.len() {
        None
    } else if b[i] == 0x0a {
        Some(i)
    } else {
        first_newline(b, i + 1)
    }
}

proof fn lemma_first_newline(b: Seq<u8>, i: int)
    requires
        0 <= i,
    ensures
        first_newline(b, i) matches Some(k) ==> i <= k < b.len() && b[k] == 0x0a,
    decreases b.len() - i,
{
    if i < b.len() && b[i] != 0x0a {
        lemma_first_newline(b, i + 1);
    }
}

/// The bytes split at every line feed; the last piece follows the last one.
pub open spec fn lines_of(b: Seq<u8>) -> Seq<Seq<u8>>
    decreases b.len(),
{
    match first_newline(b, 0) {
        Some(k) => if 0 <= k < b.len() {
            seq![b.take(k)] + lines_of(b.skip(k + 1))
        } else {
            seq![b]
        },
        None => seq![b],
    }
}

/// The lines from last to first, each followed by a line feed.
pub open spec fn reversed_lines(lines: Seq<Seq<u8>>) -> Seq<u8>
    decreases lines.len(),
{
    if lines.len() == 0 {
        seq![]
    } else {
        lines.last() + seq![0x0au8] + reversed_lines(lines.drop_last())
    }
}

/// Lines in reverse order, cut back to the input's length so that input
/// without a trailing line feed does not gain one.
pub open spec fn reverse_lines_spec(b: Seq<u8>) -> Seq<u8> {
    reversed_lines(lines_of(b)).take(b.len() as int)
}

proof fn lemma_reversed_lines_cons(x: Seq<u8>, rest: Seq<Seq<u8>>)
    ensures
        reversed_lines(seq![x] + rest) == reversed_lines(rest) + x + seq![0x0au8],
    decreases rest.len(),
{
    if rest.len() == 0 {
        assert(seq![x] + rest == seq![x]);
        assert(seq![x].drop_last() == Seq::<Seq<u8>>::empty());
        assert(seq![x].last() == x);
        assert(reversed_lines(Seq::<Seq<u8>>::empty()) == Seq::<u8>::empty());
        assert(reversed_lines(seq![x]) == x + seq![0x0au8] + Seq::<u8>::empty());
        assert(x + seq![0x0au8] + Seq::<u8>::empty() == reversed_lines(rest) + x + seq![0x0au8]);
    } else {
        lemma_reversed_lines_cons(x, rest.drop_last());
        assert((seq![x] + rest).drop_last() == seq![x] + rest.drop_last());
        assert((seq![x] + rest).last() == rest.last());
        let a = rest.last() + seq![0x0au8];
        let m = reversed_lines(rest.drop_last());
        assert(a + (m + x + seq![0x0au8]) == (a + m) + x + seq![0x0au8]);
    }
}

/// Reverses line order.
fn reverse_lines(input: &[u8]) -> (r: Vec<u8>)
    ensures
        r@ == reverse_lines_spec(input@),
{
    let mut starts: Vec<usize> = Vec::new();
    let mut ends: Vec<usize> = Vec::new();
    let mut start: usize = 0;
    let mut index: usize = 0;
    let ghost whole = lines_of(input@);
    assert(input@.skip(0) == input@);
    while index < input.len()
        invariant
            start <= index <= input.len(),
            starts.len() == ends.len(),
            forall|j: int| 0 <= j < starts.len() ==> #[trigger] starts@[j] <= ends@[j] <= input.len(),
            whole == Seq::new(starts.len() as nat, |j: int| input@.subrange(starts@[j] as int, ends@[j] as int))
                + lines_of(input@.skip(start as int)),
            first_newline(input@.skip(start as int), 0) == first_newline(input@.skip(start as int), index - start),
        decreases input.len() - index,
    {
        let ghost rest = input@.skip(start as int);
        assert(rest[index - start] == input@[index as int]);
        if input[index] == 0x0a {
            proof {
                assert(rest.take(index - start) == input@.subrange(start as int, index as int));
                assert(rest.skip(index - start + 1) == input@.skip(index + 1));
                let prev = Seq::new(starts.len() as nat, |j: int| input@.subrange(starts@[j] as int, ends@[j] as int));
                assert(prev + (seq![input@.subrange(start as int, index as int)] + lines_of(input@.skip(index + 1)))
                    == prev.push(input@.subrange(start as int, index as int)) + lines_of(input@.skip(index + 1)));
            }
            let ghost old_starts = starts@;
            let ghost old_ends = ends@;
            starts.push(start);
            ends.push(index);
            proof {
                assert forall|j: int| 0 <= j < starts.len() implies #[trigger] starts@[j] <= ends@[j] <= input.len() by {
                    if j < starts.len() - 1 {
                        assert(starts@[j] == old_starts[j]);
                        assert(ends@[j] == old_ends[j]);
                    }
                }
                assert(Seq::new(starts.len() as nat, |j: int| input@.subrange(starts@[j] as int, ends@[j] as int))
                    =~= Seq::new((starts.len() - 1) as nat, |j: int| input@.subrange(starts@[j] as int, ends@[j] as int))
                    .push(input@.subrange(start as int, index as int)));
                assert(input@.skip(index + 1).skip(0) == input@.skip(index + 1));
            }
            start = index + 1;
        }
        index = index + 1;
    }
    proof {
        let rest = input@.skip(start as int);
        assert(first_newline(rest, index - start) is None);
        let prev = Seq::new(starts.len() as nat, |j: int| input@.subrange(starts@[j] as int, ends@[j] as int));
        assert(rest == input@.subrange(start as int, input.len() as int));
        assert(whole == prev.push(rest));
    }
    starts.push(start);
    ends.push(input.len());
    assert(whole =~= Seq::new(starts.len() as nat, |j: int| input@.subrange(starts@[j] as int, ends@[j] as int)));
    let mut output: Vec<u8> = Vec::new();
    let mut k = starts.len();
    while k > 0
        invariant
            k <= starts.len() == ends.len(),
            whole.len() == starts.len(),
            forall|j: int| 0 <= j < starts.len() ==> #[trigger] starts@[j] <= ends@[j] <= input.len(),
            forall|j: int| 0 <= j < starts.len() ==> #[trigger] whole[j] == input@.subrange(starts@[j] as int, ends@[j] as int),
            output@ == reversed_lines(whole.subrange(k as int, whole.len() as int)),
        decreases k,
    {
        let j = k - 1;
        let ghost before = output@;
        let mut p = starts[j];
        let stop = ends[j];
        assert(starts@[j as int] <= stop <= input.len());
        while p < stop
            invariant
                starts@[j as int] <= p <= stop <= input.len(),
                stop == ends@[j as int],
                output@ == before + input@.subrange(starts@[j as int] as int, p as int),
            decreases stop - p,
        {
            output.push(input[p]);
            p = p + 1;
        }
        output.push(0x0a);
        proof {
            let sub = whole.subrange(j as int, whole.len() as int);
            assert(sub == seq![whole[j as int]] + whole.subrange(k as int, whole.len() as int));
            lemma_reversed_lines_cons(whole[j as int], whole.subrange(k as int, whole.len() as int));
        }
        k = j;
    }
    assert(whole.subrange(0, whole.len() as int) == whole);
    let mut truncated: Vec<u8> = Vec::new();
    let mut q: usize = 0;
    while q < input.len() && q < output.len()
        invariant
            q <= input.len(),
            q <= output.len(),
            truncated@ == output@.take(q as int),
        decreases input.len() - q,
    {
        truncated.push(output[q]);
        q = q + 1;
    }
    proof {
        lemma_reversed_lines_len(whole);
        lemma_lines_len(input@);
    }
    truncated
}

proof fn lemma_reversed_lines_len(lines: Seq<Seq<u8>>)
    ensures
        reversed_lines(lines).len() >= lines.len(),
    decreases lines.len(),
{
    if lines.len() > 0 {
        lemma_reversed_lines_len(lines.drop_last());
    }
}

proof fn lemma_lines_len(b: Seq<u8>)
    ensures
        reversed_lines(lines_of(b)).len() >= b.len(),
    decreases b.len(),
{
    lemma_first_newline(b, 0);
    match first_newline(b, 0) {
        Some(k) => {
            let rest = b.skip(k + 1);
            lemma_lines_len(rest);
            lemma_reversed_lines_cons(b.take(k), lines_of(rest));
        },
        None => {
            assert(lines_of(b) == seq![b]);
            assert(seq![b].drop_last() == Seq::<Seq<u8>>::empty());
        },
    }
}

/// The text bytes read as: what they encode when they are valid UTF-8, else
/// the text with each invalid stretch replaced.
pub open spec fn reading(b: Seq<u8>) -> Seq<char> {
    if vstd::utf8::valid_utf8(b) {
        vstd::utf8::decode_utf8(b)
    } else {
        utf8_lossy(b)
    }
}

/// The text the bytes read as (invalid UTF-8 replaced), its characters in
/// reverse order, encoded again as UTF-8.
fn reverse_characters(input: &[u8]) -> (out: Vec<u8>)
    ensures
        out@ == encode_utf8(reading(input@).reverse()),
{
    let text = utf8_text_lossy(input);
    let cs = chars_of(text.as_str());
    let mut rev: Vec<char> = Vec::new();
    let mut i = cs.len();
    while i > 0
        invariant
            i <= cs.len(),
            rev@ == cs@.subrange(i as int, cs.len() as int).reverse(),
        decreases i,
    {
        i = i - 1;
        rev.push(cs[i]);
        assert(rev@ =~= cs@.subrange(i as int, cs.len() as int).reverse());
    }
    assert(cs@.subrange(0, cs.len() as int) == cs@);
    let s = string_of(&rev);
    let bytes = s.as_str().as_bytes();
    let mut out: Vec<u8> = Vec::new();
    let mut k: usize = 0;
    while k < bytes.len()
        invariant
            k <= bytes.len(),
            out@ == bytes@.take(k as int),
        decreases bytes.len() - k,
    {
        out.push(bytes[k]);
        k = k + 1;
    }
    assert(bytes@.take(bytes.len() as int) == bytes@);
    out
}

/// What `reverse` answers for a unit: `Byte`, `Character` (of the text,
/// invalid UTF-8 replaced) or `Line`.
pub open spec fn reverse_spec(b: Seq<u8>, scope: Seq<char>) -> Result<Seq<u8>, Failure> {
    if scope == "Byte"@ {
        Ok(b.reverse())
    } else if scope == "Character"@ {
        Ok(encode_utf8(reading(b).reverse()))
    } else if scope == "Line"@ {
        Ok(reverse_lines_spec(b))
    } else {
        Err(Failure::ReverseInvalidScope)
    }
}

/// Reverses the input by byte, by character, or by line.
pub fn reverse(input: &[u8], scope: &str) -> (r: Result<Vec<u8>, OperationError>)
    ensures
        match reverse_spec(input@, scope@) {
            Ok(v) => r matches Ok(out) && out@ == v,
            Err(f) => r == Err::<Vec<u8>, OperationError>(OperationError::Failed(f)),
        },
{
    if str_equals(scope, "Byte") {
        let mut out: Vec<u8> = Vec::new();
        let mut i = input.len();
        while i > 0
            invariant
                i <= input.len(),
                out@ == input@.subrange(i as int, input.len() as int).reverse(),
            decreases i,
        {
            i = i - 1;
            out.push(input[i]);
            assert(out@ =~= input@.subrange(i as int, input.len() as int).reverse());
        }
        assert(input@.subrange(0, input.len() as int) == input@);
        Ok(out)
    } else if str_equals(scope, "Character") {
        Ok(reverse_characters(input))
    } else if str_equals(scope, "Line") {
        Ok(reverse_lines(input))
    } else {
        Err(OperationError::Failed(Failure::ReverseInvalidScope))
    }
}

/// Removes selected whitespace characters, and optionally full stops.
pub struct RemoveWhitespace {}

impl RemoveWhitespace {
    /// Creates the remove-whitespace operation.
    pub fn new() -> Self {
        RemoveWhitespace {  }
    }

    /// Removes each kind of character whose flag is set.
    pub fn execute(
        &self,
        input: &str,
        spaces: bool,
        carriage_returns: bool,
        line_feeds: bool,
        tabs: bool,
        form_feeds: bool,
        full_stops: bool,
    ) -> (r: String)
        ensures
            r@ == without(
                input@,
                strippable(spaces, carriage_returns, line_feeds, tabs, form_feeds, full_stops),
            ),
    {
        let mut selection: Vec<char> = Vec::new();
        if spaces {
            selection.push(' ');
        }
        if carriage_returns {
            selection.push('\r');
        }
        if line_feeds {
            selection.push('\n');
        }
        if tabs {
            selection.push('\t');
        }
        if form_feeds {
            selection.push('\u{c}');
        }
        if full_stops {
            selection.push('.');
        }
        assert(selection@ =~= strippable(spaces, carriage_returns, line_feeds, tabs, form_feeds, full_stops));
        remove_whitespace(input, &selection)
    }
}

/// Removes every zero byte.
pub struct RemoveNullBytes {}

impl RemoveNullBytes {
    /// Creates the remove-null-bytes operation.
    pub fn new() -> Self {
        RemoveNullBytes {  }
    }

    /// Removes every `0x00` byte.
    pub fn execute(&self, input: &[u8]) -> (r: Vec<u8>)
        ensures
            r@ == without_nulls(input@),
    {
        remove_null_bytes(input)
    }
}

/// Keeps every nth byte.
pub struct TakeNthBytes {}

impl TakeNthBytes {
    /// Creates the operation.
    pub fn new() -> Self {
        TakeNthBytes {  }
    }

    /// Keeps one byte out of every `every`, from `start`.
    pub fn execute(&self, input: &[u8], every: i128, start: i128, each_line: bool) -> (r: Result<
        Vec<u8>,
        OperationError,
    >)
        ensures
            match take_or_drop_spec(input@, Nth::Take, every as int, start as int, each_line) {
                Ok(v) => r matches Ok(out) && out@ == v,
                Err(f) => r == Err::<Vec<u8>, OperationError>(OperationError::Failed(f)),
            },
    {
        take_or_drop_nth(input, Nth::Take, every, start, each_line)
    }
}

/// Drops every nth byte.
pub struct DropNthBytes {}

impl DropNthBytes {
    /// Creates the operation.
    pub fn new() -> Self {
        DropNthBytes {  }
    }

    /// Drops one byte out of every `every`, from `start`.
    pub fn execute(&self, input: &[u8], every: i128, start: i128, each_line: bool) -> (r: Result<
        Vec<u8>,
        OperationError,
    >)
        ensures
            match take_or_drop_spec(input@, Nth::Drop, every as int, start as int, each_line) {
                Ok(v) => r matches Ok(out) && out@ == v,
                Err(f) => r == Err::<Vec<u8>, OperationError>(OperationError::Failed(f)),
            },
    {
        take_or_drop_nth(input, Nth::Drop, every, start, each_line)
    }
}

/// Reverses the input.
pub struct Reverse {}

impl Reverse {
    /// Creates the operation.
    pub fn new() -> Self {
        Reverse {  }
    }

    /// Reverses by the unit `by` names.
    pub fn execute(&self, input: &[u8], by: &str) -> (r: Result<Vec<u8>, OperationError>)
        ensures
            match reverse_spec(input@, by@) {
                Ok(v) => r matches Ok(out) && out@ == v,
                Err(f) => r == Err::<Vec<u8>, OperationError>(OperationError::Failed(f)),
            },
    {
        reverse(input, by)
    }
}

/// Reversing by byte twice gives back the input.
pub proof fn lemma_reverse_bytes_involution(b: Seq<u8>)
    ensures
        reverse_spec(reverse_spec(b, "Byte"@)->Ok_0, "Byte"@) == Ok::<Seq<u8>, Failure>(b),
{
    reveal_strlit("Byte");
    assert(b.reverse().reverse() =~= b);
}

/// Reversing by character twice gives back input that is valid UTF-8.
pub proof fn lemma_reverse_characters_involution(b: Seq<u8>)
    requires
        vstd::utf8::valid_utf8(b),
    ensures
        reverse_spec(reverse_spec(b, "Character"@)->Ok_0, "Character"@) == Ok::<Seq<u8>, Failure>(b),
{
    reveal_strlit("Byte");
    reveal_strlit("Character");
    let t = vstd::utf8::decode_utf8(b);
    let once = encode_utf8(t.reverse());
    vstd::utf8::encode_utf8_valid_utf8(t.reverse());
    vstd::utf8::encode_utf8_decode_utf8(t.reverse());
    assert(t.reverse().reverse() =~= t);
    vstd::utf8::decode_utf8_encode_utf8(b);
    assert(reading(once) == t.reverse());
    assert("Character"@ != "Byte"@) by {
        assert("Character"@.len() != "Byte"@.len());
    }
    assert(reading(b) == t);
    assert(reverse_spec(b, "Character"@) == Ok::<Seq<u8>, Failure>(once));
    assert(reverse_spec(once, "Character"@) == Ok::<Seq<u8>, Failure>(encode_utf8(t)));
}


/// Lines joined back together with a line feed between each two.
pub open spec fn joined(lines: Seq<Seq<u8>>) -> Seq<u8>
    decreases lines.len(),
{
    if lines.len() == 0 {
        seq![]
    } else if lines.len() == 1 {
        lines[0]
    } else {
        lines[0] + seq![0x0au8] + joined(lines.drop_first())
    }
}

/// No line of the sequence holds a line feed.
pub open spec fn feed_free(lines: Seq<Seq<u8>>) -> bool {
    forall|i: int, j: int| 0 <= i < lines.len() && 0 <= j < lines[i].len() ==> #[trigger] lines[i][j] != 0x0a
}

proof fn lemma_first_newline_exact(b: Seq<u8>, i: int)
    requires
        0 <= i,
    ensures
        first_newline(b, i) matches Some(k) ==> forall|j: int| i <= j < k ==> b[j] != 0x0a,
        first_newline(b, i) is None ==> forall|j: int| i <= j < b.len() ==> b[j] != 0x0a,
    decreases b.len() - i,
{
    if i < b.len() && b[i] != 0x0a {
        lemma_first_newline_exact(b, i + 1);
    }
}

proof fn lemma_first_newline_at(b: Seq<u8>, i: int, k: int)
    requires
        0 <= i <= k <= b.len(),
        forall|j: int| i <= j < k ==> b[j] != 0x0a,
        k < b.len() ==> b[k] == 0x0a,
    ensures
        k < b.len() ==> first_newline(b, i) == Some(k),
        k == b.len() ==> first_newline(b, i) is None,
    decreases k - i,
{
    if i < k {
        lemma_first_newline_at(b, i + 1, k);
    }
}

proof fn lemma_lines_of_shape(b: Seq<u8>)
    ensures
        lines_of(b).len() >= 1,
        feed_free(lines_of(b)),
        joined(lines_of(b)) == b,
    decreases b.len(),
{
    lemma_first_newline(b, 0);
    lemma_first_newline_exact(b, 0);
    match first_newline(b, 0) {
        Some(k) => {
            let rest = b.skip(k + 1);
            lemma_lines_of_shape(rest);
            let ls = lines_of(b);
            assert(ls == seq![b.take(k)] + lines_of(rest));
            assert(ls.drop_first() == lines_of(rest));
            assert(ls[0] == b.take(k));
            assert forall|i: int, j: int| 0 <= i < ls.len() && 0 <= j < ls[i].len() implies #[trigger] ls[i][j] != 0x0a by {
                if i > 0 {
                    assert(ls[i] == lines_of(rest)[i - 1]);
                }
            }
            assert(b =~= b.take(k) + seq![0x0au8] + rest);
        },
        None => {
            assert(lines_of(b) == seq![b]);
        },
    }
}

proof fn lemma_lines_of_joined(ls: Seq<Seq<u8>>)
    requires
        ls.len() >= 1,
        feed_free(ls),
    ensures
        lines_of(joined(ls)) == ls,
    decreases ls.len(),
{
    let x = ls[0];
    assert forall|j: int| 0 <= j < x.len() implies x[j] != 0x0a by {
        assert(ls[0][j] != 0x0a);
    }
    if ls.len() == 1 {
        lemma_first_newline_at(x, 0, x.len() as int);
        assert(ls == seq![x]);
    } else {
        let rest = ls.drop_first();
        assert forall|i: int, j: int| 0 <= i < rest.len() && 0 <= j < rest[i].len() implies #[trigger] rest[i][j] != 0x0a by {
            assert(rest[i] == ls[i + 1]);
        }
        lemma_lines_of_joined(rest);
        let b = joined(ls);
        assert(b == x + seq![0x0au8] + joined(rest));
        lemma_first_newline_at(b, 0, x.len() as int);
        assert(b.take(x.len() as int) =~= x);
        assert(b.skip(x.len() + 1int) =~= joined(rest));
        assert(ls =~= seq![x] + rest);
    }
}

proof fn lemma_reversed_lines_joined(ls: Seq<Seq<u8>>)
    requires
        ls.len() >= 1,
    ensures
        reversed_lines(ls) == joined(ls.reverse()) + seq![0x0au8],
    decreases ls.len(),
{
    let r = ls.reverse();
    if ls.len() == 1 {
        assert(ls.drop_last() == Seq::<Seq<u8>>::empty());
        assert(r[0] == ls.last());
        assert(r.len() == 1);
        assert(joined(r) == ls.last());
        assert(reversed_lines(ls.drop_last()) == Seq::<u8>::empty());
        assert(reversed_lines(ls) == ls.last() + seq![0x0au8] + Seq::<u8>::empty());
        assert(ls.last() + seq![0x0au8] + Seq::<u8>::empty() =~= ls.last() + seq![0x0au8]);
    } else {
        let d = ls.drop_last();
        lemma_reversed_lines_joined(d);
        assert(r.drop_first() =~= d.reverse());
        assert(r[0] == ls.last());
        assert(joined(r) == ls.last() + seq![0x0au8] + joined(d.reverse()));
        assert(reversed_lines(ls) == ls.last() + seq![0x0au8] + reversed_lines(d));
        assert(ls.last() + seq![0x0au8] + (joined(d.reverse()) + seq![0x0au8])
            =~= ls.last() + seq![0x0au8] + joined(d.reverse()) + seq![0x0au8]);
    }
}

/// The total length of the lines.
spec fn total_len(ls: Seq<Seq<u8>>) -> int
    decreases ls.len(),
{
    if ls.len() == 0 {
        0
    } else {
        ls[0].len() + total_len(ls.drop_first())
    }
}

proof fn lemma_joined_len(ls: Seq<Seq<u8>>)
    requires
        ls.len() >= 1,
    ensures
        joined(ls).len() == total_len(ls) + ls.len() - 1,
    decreases ls.len(),
{
    let t = ls.drop_first();
    if ls.len() > 1 {
        lemma_joined_len(t);
        assert(joined(ls) == ls[0] + seq![0x0au8] + joined(t));
        assert(total_len(ls) == ls[0].len() + total_len(t));
    } else {
        assert(t.len() == 0);
        assert(total_len(t) == 0);
        assert(total_len(ls) == ls[0].len() + total_len(t));
        assert(joined(ls) == ls[0]);
    }
}

proof fn lemma_total_len_push(ls: Seq<Seq<u8>>, x: Seq<u8>)
    ensures
        total_len(ls.push(x)) == total_len(ls) + x.len(),
    decreases ls.len(),
{
    let p = ls.push(x);
    if ls.len() == 0 {
        assert(p.drop_first() =~= Seq::<Seq<u8>>::empty());
        assert(total_len(p.drop_first()) == 0);
        assert(p[0] == x);
        assert(total_len(p) == p[0].len() + total_len(p.drop_first()));
    } else {
        assert(p.drop_first() =~= ls.drop_first().push(x));
        lemma_total_len_push(ls.drop_first(), x);
        assert(p[0] == ls[0]);
        assert(total_len(p) == p[0].len() + total_len(p.drop_first()));
        assert(total_len(ls) == ls[0].len() + total_len(ls.drop_first()));
    }
}

proof fn lemma_total_len_reverse(ls: Seq<Seq<u8>>)
    ensures
        total_len(ls.reverse()) == total_len(ls),
    decreases ls.len(),
{
    if ls.len() > 0 {
        let t = ls.drop_first();
        lemma_total_len_reverse(t);
        assert(ls.reverse() =~= t.reverse().push(ls[0]));
        lemma_total_len_push(t.reverse(), ls[0]);
    }
}

proof fn lemma_reverse_lines_as_joined(b: Seq<u8>)
    ensures
        reverse_lines_spec(b) == joined(lines_of(b).reverse()),
{
    let ls = lines_of(b);
    lemma_lines_of_shape(b);
    lemma_reversed_lines_joined(ls);
    lemma_joined_len(ls);
    lemma_joined_len(ls.reverse());
    lemma_total_len_reverse(ls);
    let j = joined(ls.reverse());
    assert(j.len() == b.len());
    assert((j + seq![0x0au8]).take(b.len() as int) =~= j);
}

/// Reversing by line twice gives back the input, whatever it holds.
pub proof fn lemma_reverse_lines_involution(b: Seq<u8>)
    ensures
        reverse_spec(reverse_spec(b, "Line"@)->Ok_0, "Line"@) == Ok::<Seq<u8>, Failure>(b),
{
    reveal_strlit("Byte");
    reveal_strlit("Character");
    reveal_strlit("Line");
    assert("Line"@ != "Byte"@) by {
        assert("Line"@[0] != "Byte"@[0]);
    }
    assert("Line"@ != "Character"@) by {
        assert("Line"@.len() != "Character"@.len());
    }
    let ls = lines_of(b);
    lemma_lines_of_shape(b);
    lemma_reverse_lines_as_joined(b);
    let once = joined(ls.reverse());
    assert(feed_free(ls.reverse())) by {
        assert forall|i: int, j: int| 0 <= i < ls.reverse().len() && 0 <= j < ls.reverse()[i].len() implies #[trigger] ls.reverse()[i][j] != 0x0a by {
            assert(ls.reverse()[i] == ls[ls.len() - 1 - i]);
        }
    }
    lemma_lines_of_joined(ls.reverse());
    lemma_reverse_lines_as_joined(once);
    assert(ls.reverse().reverse() =~= ls);
}

} // verus!
