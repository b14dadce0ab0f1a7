//! Set operations over delimited samples.

use vstd::prelude::*;

use crate::error::{Failure, OperationError};
use crate::strings::{append_chars, join, join_spec, split, split_spec};
use crate::text::{chars_of, string_of};

verus! {

/// Which set operation to run.
#[derive(Clone, Copy, Debug, PartialEq, Eq, Structural)]
pub enum Kind {
    Union,
    Intersection,
    Difference,
    SymmetricDifference,
    CartesianProduct,
}

/// Whether the operation needs exactly two samples rather than at least two.
pub open spec fn requires_pair(k: Kind) -> bool {
    k != Kind::CartesianProduct
}

/// The samples, split on the sample delimiter unless it is empty.
pub open spec fn samples_spec(input: Seq<char>, d: Seq<char>) -> Seq<Seq<char>> {
    if d.len() == 0 {
        seq![input]
    } else {
        split_spec(input, d)
    }
}

/// The items of one sample, split on the item delimiter unless it is empty.
pub open spec fn items_spec(sample: Seq<char>, d: Seq<char>) -> Seq<Seq<char>> {
    if d.len() == 0 {
        seq![sample]
    } else {
        split_spec(sample, d)
    }
}

/// The items of the first sample kept by membership in the second, without
/// later duplicates: intersection when `included`, difference otherwise.
pub open spec fn keep_spec(left: Seq<Seq<char>>, right: Seq<Seq<char>>, included: bool) -> Seq<
    Seq<char>,
>
    decreases left.len(),
{
    if left.len() == 0 {
        seq![]
    } else {
        let prev = keep_spec(left.drop_last(), right, included);
        let x = left.last();
        if right.contains(x) == included && !prev.contains(x) {
            prev.push(x)
        } else {
            prev
        }
    }
}

/// Where an item first occurs in a sequence that holds it.
pub open spec fn first_index(s: Seq<Seq<char>>, x: Seq<char>) -> int
    decreases s.len(),
{
    if s.len() == 0 {
        -1
    } else if s.drop_last().contains(x) {
        first_index(s.drop_last(), x)
    } else {
        s.len() - 1
    }
}

proof fn lemma_first_index(s: Seq<Seq<char>>, x: Seq<char>)
    requires
        s.contains(x),
    ensures
        0 <= first_index(s, x) < s.len(),
        s[first_index(s, x)] == x,
    decreases s.len(),
{
    if s.drop_last().contains(x) {
        lemma_first_index(s.drop_last(), x);
    } else {
        let i = choose|i: int| 0 <= i < s.len() && s[i] == x;
        if i < s.len() - 1 {
            assert(s.drop_last()[i] == x);
        }
    }
}

/// Intersection and difference never repeat an item: they hold each item of
/// the first sample whose membership in the second is as asked, once, in
/// the order of first occurrence in the first sample.
pub proof fn lemma_keep_first_occurrences(left: Seq<Seq<char>>, right: Seq<Seq<char>>, included: bool)
    ensures
        keep_spec(left, right, included).no_duplicates(),
        forall|x: Seq<char>|
            #[trigger] keep_spec(left, right, included).contains(x) <==> (left.contains(x)
                && right.contains(x) == included),
        forall|i: int, j: int|
            0 <= i < j < keep_spec(left, right, included).len() ==> first_index(
                left,
                #[trigger] keep_spec(left, right, included)[i],
            ) < first_index(left, #[trigger] keep_spec(left, right, included)[j]),
    decreases left.len(),
{
    let r = keep_spec(left, right, included);
    if left.len() > 0 {
        let d = left.drop_last();
        let x = left.last();
        lemma_keep_first_occurrences(d, right, included);
        let prev = keep_spec(d, right, included);
        assert forall|y: Seq<char>| d.contains(y) implies left.contains(y) by {
            let i = choose|i: int| 0 <= i < d.len() && d[i] == y;
            assert(left[i] == y);
        }
        assert forall|y: Seq<char>| left.contains(y) && y != x implies d.contains(y) by {
            let i = choose|i: int| 0 <= i < left.len() && left[i] == y;
            assert(i < left.len() - 1);
            assert(d[i] == y);
        }
        assert(left.contains(x)) by {
            assert(left[left.len() - 1] == x);
        }
        assert forall|y: Seq<char>| prev.contains(y) implies first_index(left, y) == first_index(d, y)
            && first_index(d, y) < d.len() by {
            lemma_first_index(d, y);
        }
        if right.contains(x) == included && !prev.contains(x) {
            assert(!d.contains(x));
            assert(first_index(left, x) == left.len() - 1);
            assert forall|i: int, j: int| 0 <= i < j < r.len() implies first_index(left, #[trigger] r[i])
                < first_index(left, #[trigger] r[j]) by {
                assert(prev.contains(r[i])) by {
                    assert(r[i] == prev[i]);
                }
                if j < prev.len() {
                    assert(r[j] == prev[j]);
                    assert(prev.contains(r[j]));
                    assert(first_index(d, prev[i]) < first_index(d, prev[j]));
                }
            }
            assert forall|a: int, b: int| 0 <= a < r.len() && 0 <= b < r.len() && a != b implies r[a]
                != r[b] by {
                if a < prev.len() && b < prev.len() {
                    assert(r[a] == prev[a] && r[b] == prev[b]);
                } else if a < prev.len() {
                    assert(prev.contains(r[a])) by {
                        assert(r[a] == prev[a]);
                    }
                } else {
                    assert(prev.contains(r[b])) by {
                        assert(r[b] == prev[b]);
                    }
                }
            }
            assert forall|y: Seq<char>| #[trigger] r.contains(y) <==> (left.contains(y) && right.contains(y)
                == included) by {
                if r.contains(y) && y != x {
                    let i = choose|i: int| 0 <= i < r.len() && r[i] == y;
                    assert(prev[i] == y);
                }
                if prev.contains(y) {
                    let i = choose|i: int| 0 <= i < prev.len() && prev[i] == y;
                    assert(r[i] == y);
                }
                if y == x {
                    assert(r[r.len() - 1] == x);
                }
            }
        } else {
            assert forall|i: int, j: int| 0 <= i < j < r.len() implies first_index(left, #[trigger] r[i])
                < first_index(left, #[trigger] r[j]) by {
                assert(prev.contains(prev[i]) && prev.contains(prev[j]));
            }
        }
    }
}

/// The items of `a` absent from `b`, duplicates kept.
pub open spec fn absent_spec(a: Seq<Seq<char>>, b: Seq<Seq<char>>) -> Seq<Seq<char>>
    decreases a.len(),
{
    if a.len() == 0 {
        seq![]
    } else {
        let prev = absent_spec(a.drop_last(), b);
        if b.contains(a.last()) {
            prev
        } else {
            prev.push(a.last())
        }
    }
}

/// Whether every character is an ASCII digit.
pub open spec fn all_digits(s: Seq<char>) -> bool {
    forall|i: int| 0 <= i < s.len() ==> '0' <= #[trigger] s[i] <= '9'
}

/// The value of a run of decimal digits.
pub open spec fn digits_value(s: Seq<char>) -> nat
    decreases s.len(),
{
    if s.len() == 0 {
        0
    } else {
        digits_value(s.drop_last()) * 10 + (s.last() as int - 48) as nat
    }
}

/// Whether a key is an array index to a JavaScript object: the canonical
/// decimal form of a number below 2^32 - 1.
pub open spec fn is_index(s: Seq<char>) -> bool {
    &&& 1 <= s.len() <= 10
    &&& all_digits(s)
    &&& (s.len() == 1 || s[0] != '0')
    &&& digits_value(s) < 4294967295
}

/// A key inserted before the first key of greater value.
pub open spec fn insert_sorted(sorted: Seq<Seq<char>>, x: Seq<char>) -> Seq<Seq<char>>
    decreases sorted.len(),
{
    if sorted.len() == 0 {
        seq![x]
    } else if digits_value(x) < digits_value(sorted[0]) {
        seq![x] + sorted
    } else {
        seq![sorted[0]] + insert_sorted(sorted.skip(1), x)
    }
}

/// The distinct index keys, in ascending numeric order.
pub open spec fn index_keys(s: Seq<Seq<char>>) -> Seq<Seq<char>>
    decreases s.len(),
{
    if s.len() == 0 {
        seq![]
    } else {
        let prev = index_keys(s.drop_last());
        if is_index(s.last()) && !prev.contains(s.last()) {
            insert_sorted(prev, s.last())
        } else {
            prev
        }
    }
}

/// The distinct other keys, in the order they were first inserted.
pub open spec fn other_keys(s: Seq<Seq<char>>) -> Seq<Seq<char>>
    decreases s.len(),
{
    if s.len() == 0 {
        seq![]
    } else {
        let prev = other_keys(s.drop_last());
        if !is_index(s.last()) && !prev.contains(s.last()) {
            prev.push(s.last())
        } else {
            prev
        }
    }
}

/// The keys of an object built from the items, in the order a JavaScript
/// object lists them.
pub open spec fn union_spec(left: Seq<Seq<char>>, right: Seq<Seq<char>>) -> Seq<Seq<char>> {
    index_keys(left + right) + other_keys(left + right)
}

/// Every tuple taking one item from each of the first `k` sets, first set
/// outermost.
pub open spec fn tuples_spec(sets: Seq<Seq<Seq<char>>>, k: nat) -> Seq<Seq<Seq<char>>>
    decreases k,
{
    if k == 0 {
        seq![seq![]]
    } else {
        extend_all(tuples_spec(sets, (k - 1) as nat), sets[k - 1])
    }
}

/// Each tuple extended by each item, tuple outermost.
pub open spec fn extend_all(tuples: Seq<Seq<Seq<char>>>, items: Seq<Seq<char>>) -> Seq<
    Seq<Seq<char>>,
>
    decreases tuples.len(),
{
    if tuples.len() == 0 {
        seq![]
    } else {
        extend_all(tuples.drop_last(), items) + extended_by(tuples.last(), items)
    }
}

/// One tuple, written `(a,b,c)`.
pub open spec fn tuple_text(t: Seq<Seq<char>>, d: Seq<char>) -> Seq<char> {
    seq!['('] + join_spec(t, d) + seq![')']
}

/// What `run` answers.
pub open spec fn run_spec(input: Seq<char>, kind: Kind, sd: Seq<char>, id: Seq<char>) -> Result<
    Seq<char>,
    OperationError,
> {
    let parts = samples_spec(input, sd);
    if !(if requires_pair(kind) {
        parts.len() == 2
    } else {
        parts.len() >= 2
    }) {
        Err(OperationError::Failed(Failure::SetsWrongSampleCount))
    } else {
        let sets = all_items(parts, id);
        Ok(
            match kind {
                Kind::Union => join_spec(union_spec(sets[0], sets[1]), id),
                Kind::Intersection => join_spec(keep_spec(sets[0], sets[1], true), id),
                Kind::Difference => join_spec(keep_spec(sets[0], sets[1], false), id),
                Kind::SymmetricDifference => join_spec(
                    absent_spec(sets[0], sets[1]) + absent_spec(sets[1], sets[0]),
                    id,
                ),
                Kind::CartesianProduct => join_spec(tuple_texts(tuples_spec(sets, sets.len()), id), id),
            },
        )
    }
}

/// The views of a list of character vectors.
pub open spec fn views(v: Seq<Vec<char>>) -> Seq<Seq<char>> {
    v.map_values(|x: Vec<char>| x@)
}

/// The views of a list of lists of character vectors.
pub open spec fn views2(v: Seq<Vec<Vec<char>>>) -> Seq<Seq<Seq<char>>> {
    v.map_values(|x: Vec<Vec<char>>| views(x@))
}

/// Each tuple written out.
pub open spec fn tuple_texts(t: Seq<Seq<Seq<char>>>, d: Seq<char>) -> Seq<Seq<char>> {
    t.map_values(|x: Seq<Seq<char>>| tuple_text(x, d))
}

/// Each sample's items.
pub open spec fn all_items(parts: Seq<Seq<char>>, d: Seq<char>) -> Seq<Seq<Seq<char>>> {
    parts.map_values(|p: Seq<char>| items_spec(p, d))
}

/// Each item appended to one tuple.
pub open spec fn extended_by(t: Seq<Seq<char>>, items: Seq<Seq<char>>) -> Seq<Seq<Seq<char>>> {
    items.map_values(|x: Seq<char>| t.push(x))
}

proof fn lemma_views_push(v: Seq<Vec<char>>, x: Vec<char>)
    ensures
        views(v.push(x)) == views(v).push(x@),
{
    assert(views(v.push(x)) =~= views(v).push(x@));
}

proof fn lemma_views2_push(v: Seq<Vec<Vec<char>>>, x: Vec<Vec<char>>)
    ensures
        views2(v.push(x)) == views2(v).push(views(x@)),
{
    assert(views2(v.push(x)) =~= views2(v).push(views(x@)));
}

proof fn lemma_texts_take(t: Seq<Seq<Seq<char>>>, d: Seq<char>, i: int)
    requires
        0 <= i < t.len(),
    ensures
        tuple_texts(t.take(i + 1), d) == tuple_texts(t.take(i), d).push(tuple_text(t[i], d)),
{
    assert(tuple_texts(t.take(i + 1), d) =~= tuple_texts(t.take(i), d).push(tuple_text(t[i], d)));
}

proof fn lemma_items_take(p: Seq<Seq<char>>, d: Seq<char>, i: int)
    requires
        0 <= i < p.len(),
    ensures
        all_items(p.take(i + 1), d) == all_items(p.take(i), d).push(items_spec(p[i], d)),
{
    assert(all_items(p.take(i + 1), d) =~= all_items(p.take(i), d).push(items_spec(p[i], d)));
}

proof fn lemma_extended_take(t: Seq<Seq<char>>, items: Seq<Seq<char>>, b: int)
    requires
        0 <= b < items.len(),
    ensures
        extended_by(t, items.take(b + 1)) == extended_by(t, items.take(b)).push(t.push(items[b])),
{
    assert(extended_by(t, items.take(b + 1)) =~= extended_by(t, items.take(b)).push(
        t.push(items[b]),
    ));
}

/// Whether two character vectors are equal.
fn chars_equal(a: &Vec<char>, b: &Vec<char>) -> (r: bool)
    ensures
        r == (a@ == b@),
{
    if a.len() != b.len() {
        return false;
    }
    let mut i: usize = 0;
    while i < a.len()
        invariant
            i <= a.len() == b.len(),
            forall|j: int| 0 <= j < i ==> a@[j] == b@[j],
        decreases a.len() - i,
    {
        if a[i] != b[i] {
            return false;
        }
        i = i + 1;
    }
    assert(a@ =~= b@);
    true
}

/// Whether the list holds the item.
fn list_contains(list: &Vec<Vec<char>>, x: &Vec<char>) -> (r: bool)
    ensures
        r == views(list@).contains(x@),
{
    let mut i: usize = 0;
    while i < list.len()
        invariant
            i <= list.len(),
            forall|j: int| 0 <= j < i ==> list@[j]@ != x@,
        decreases list.len() - i,
    {
        if chars_equal(&list[i], x) {
            assert(views(list@)[i as int] == x@);
            return true;
        }
        i = i + 1;
    }
    assert forall|j: int| 0 <= j < views(list@).len() implies views(list@)[j] != x@ by {
        assert(views(list@)[j] == list@[j]@);
    }
    false
}

/// A copy of a character vector.
fn copy_chars(v: &Vec<char>) -> (r: Vec<char>)
    ensures
        r@ == v@,
{
    let mut r: Vec<char> = Vec::new();
    append_chars(&mut r, v);
    assert(Seq::<char>::empty() + v@ == v@);
    r
}

/// Splits the input into samples.
fn samples(input: &Vec<char>, d: &Vec<char>) -> (r: Vec<Vec<char>>)
    ensures
        views(r@) == samples_spec(input@, d@),
{
    if d.len() == 0 {
        let mut r: Vec<Vec<char>> = Vec::new();
        r.push(copy_chars(input));
        assert(views(r@) =~= seq![input@]);
        r
    } else {
        let r = split(input, d);
        assert(views(r@) =~= split_spec(input@, d@));
        r
    }
}

/// Splits one sample into items.
fn items(sample: &Vec<char>, d: &Vec<char>) -> (r: Vec<Vec<char>>)
    ensures
        views(r@) == items_spec(sample@, d@),
{
    samples(sample, d)
}

/// Intersection and difference share a shape: walk the first sample once,
/// keeping items by membership in the second and dropping later duplicates.
fn keep(left: &Vec<Vec<char>>, right: &Vec<Vec<char>>, included: bool) -> (r: Vec<Vec<char>>)
    ensures
        views(r@) == keep_spec(views(left@), views(right@), included),
{
    let mut kept: Vec<Vec<char>> = Vec::new();
    let mut i: usize = 0;
    while i < left.len()
        invariant
            i <= left.len(),
            views(kept@) == keep_spec(views(left@).take(i as int), views(right@), included),
        decreases left.len() - i,
    {
        let item = &left[i];
        proof {
            assert(views(left@).take(i + 1).drop_last() == views(left@).take(i as int));
            assert(views(left@).take(i + 1).last() == item@);
        }
        if list_contains(right, item) == included && !list_contains(&kept, item) {
            let c = copy_chars(item);
            proof {
                lemma_views_push(kept@, c);
            }
            kept.push(c);
            assert(views(kept@) == keep_spec(views(left@).take(i as int), views(right@), included).push(item@));
        }
        i = i + 1;
    }
    assert(views(left@).take(left.len() as int) == views(left@));
    kept
}

/// The items of `a` absent from `b`, duplicates kept.
fn absent(a: &Vec<Vec<char>>, b: &Vec<Vec<char>>, out: &mut Vec<Vec<char>>)
    ensures
        views(final(out)@) == views(old(out)@) + absent_spec(views(a@), views(b@)),
{
    let ghost start = views(out@);
    let mut i: usize = 0;
    while i < a.len()
        invariant
            i <= a.len(),
            views(out@) == start + absent_spec(views(a@).take(i as int), views(b@)),
        decreases a.len() - i,
    {
        proof {
            assert(views(a@).take(i + 1).drop_last() == views(a@).take(i as int));
            assert(views(a@).take(i + 1).last() == a@[i as int]@);
        }
        if !list_contains(b, &a[i]) {
            let c = copy_chars(&a[i]);
            proof {
                lemma_views_push(out@, c);
            }
            out.push(c);
            assert(views(out@) == start + absent_spec(views(a@).take(i as int), views(b@)).push(
                a@[i as int]@,
            ));
        }
        i = i + 1;
    }
    assert(views(a@).take(a.len() as int) == views(a@));
}

/// The items of each side absent from the other, left first, duplicates
/// kept: the filter is by membership alone.
fn symmetric(left: &Vec<Vec<char>>, right: &Vec<Vec<char>>) -> (r: Vec<Vec<char>>)
    ensures
        views(r@) == absent_spec(views(left@), views(right@)) + absent_spec(views(right@), views(left@)),
{
    let mut out: Vec<Vec<char>> = Vec::new();
    absent(left, right, &mut out);
    absent(right, left, &mut out);
    assert(Seq::<Seq<char>>::empty() + absent_spec(views(left@), views(right@)) == absent_spec(
        views(left@),
        views(right@),
    ));
    out
}

/// The value of a run of decimal digits, as long as it has at most ten.
fn value_of(s: &Vec<char>) -> (v: u64)
    requires
        s@.len() <= 10,
        all_digits(s@),
    ensures
        v == digits_value(s@),
{
    let mut v: u64 = 0;
    let mut i: usize = 0;
    while i < s.len()
        invariant
            i <= s.len() <= 10,
            all_digits(s@),
            v == digits_value(s@.take(i as int)),
            v < pow10(i as nat),
        decreases s.len() - i,
    {
        proof {
            assert(s@.take(i + 1).drop_last() == s@.take(i as int));
            assert(s@.take(i + 1).last() == s@[i as int]);
            assert('0' <= s@[i as int] <= '9');
            lemma_pow10_bound(i as nat);
        }
        v = v * 10 + ((s[i] as u32) - 48) as u64;
        i = i + 1;
    }
    assert(s@.take(s.len() as int) == s@);
    v
}

/// Ten to the power `n`.
pub open spec fn pow10(n: nat) -> nat
    decreases n,
{
    if n == 0 {
        1
    } else {
        10 * pow10((n - 1) as nat)
    }
}

proof fn lemma_pow10_bound(n: nat)
    requires
        n <= 10,
    ensures
        pow10(n) <= 10000000000,
    decreases n,
{
    if n > 0 {
        lemma_pow10_bound((n - 1) as nat);
        assert(pow10((n - 1) as nat) <= 1000000000) by {
            if n - 1 < 10 {
                lemma_pow10_small((n - 1) as nat);
            }
        }
    }
}

proof fn lemma_pow10_small(n: nat)
    requires
        n < 10,
    ensures
        pow10(n) <= 1000000000,
    decreases n,
{
    if n > 0 {
        lemma_pow10_small((n - 1) as nat);
        assert(pow10((n - 1) as nat) <= 100000000) by {
            lemma_pow10_tiny((n - 1) as nat);
        }
    }
}

proof fn lemma_pow10_tiny(n: nat)
    requires
        n < 9,
    ensures
        pow10(n) <= 100000000,
    decreases n,
{
    reveal_with_fuel(pow10, 10);
    if n > 0 {
        lemma_pow10_tiny((n - 1) as nat);
    }
}

/// Whether a key is an array index; see `is_index`.
fn key_is_index(s: &Vec<char>) -> (r: bool)
    ensures
        r == is_index(s@),
{
    if s.len() < 1 || s.len() > 10 {
        return false;
    }
    let mut i: usize = 0;
    while i < s.len()
        invariant
            i <= s.len(),
            forall|j: int| 0 <= j < i ==> '0' <= #[trigger] s@[j] <= '9',
        decreases s.len() - i,
    {
        if !('0' <= s[i] && s[i] <= '9') {
            return false;
        }
        i = i + 1;
    }
    if s.len() > 1 && s[0] == '0' {
        return false;
    }
    value_of(s) < 4294967295
}

proof fn lemma_insert_at(sorted: Seq<Seq<char>>, x: Seq<char>, p: int)
    requires
        0 <= p <= sorted.len(),
        forall|j: int| 0 <= j < p ==> !(digits_value(x) < digits_value(#[trigger] sorted[j])),
        p == sorted.len() || digits_value(x) < digits_value(sorted[p]),
    ensures
        insert_sorted(sorted, x) == sorted.take(p) + seq![x] + sorted.skip(p),
    decreases sorted.len(),
{
    if sorted.len() == 0 {
        assert(sorted.take(p) + seq![x] + sorted.skip(p) == seq![x]);
    } else if p == 0 {
        assert(sorted.take(0) + seq![x] + sorted.skip(0) == seq![x] + sorted);
    } else {
        let t = sorted.skip(1);
        assert forall|j: int| 0 <= j < p - 1 implies !(digits_value(x) < digits_value(
            #[trigger] t[j],
        )) by {
            assert(t[j] == sorted[j + 1]);
        }
        if p < sorted.len() {
            assert(t[p - 1] == sorted[p]);
        }
        lemma_insert_at(t, x, p - 1);
        assert(seq![sorted[0]] + (t.take(p - 1) + seq![x] + t.skip(p - 1)) == sorted.take(p)
            + seq![x] + sorted.skip(p));
    }
}

/// The keys of a JavaScript object built from the items; see `union_spec`.
fn union(all: &Vec<Vec<char>>) -> (r: Vec<Vec<char>>)
    ensures
        views(r@) == index_keys(views(all@)) + other_keys(views(all@)),
{
    let mut indexed: Vec<Vec<char>> = Vec::new();
    let mut values: Vec<u64> = Vec::new();
    let mut others: Vec<Vec<char>> = Vec::new();
    let mut i: usize = 0;
    while i < all.len()
        invariant
            i <= all.len(),
            values@.len() == indexed@.len(),
            forall|j: int|
                0 <= j < indexed@.len() ==> is_index(#[trigger] indexed@[j]@) && values@[j]
                    == digits_value(indexed@[j]@),
            views(indexed@) == index_keys(views(all@).take(i as int)),
            views(others@) == other_keys(views(all@).take(i as int)),
        decreases all.len() - i,
    {
        let x = &all[i];
        proof {
            assert(views(all@).take(i + 1).drop_last() == views(all@).take(i as int));
            assert(views(all@).take(i + 1).last() == x@);
        }
        if key_is_index(x) {
            if !list_contains(&indexed, x) {
                let v = value_of(x);
                let mut p: usize = 0;
                while p < indexed.len() && !(v < values[p])
                    invariant
                        p <= indexed.len(),
                        values@.len() == indexed@.len(),
                        v == digits_value(x@),
                        forall|j: int|
                            0 <= j < indexed@.len() ==> values@[j] == digits_value(
                                #[trigger] indexed@[j]@,
                            ),
                        forall|j: int|
                            0 <= j < p ==> !(digits_value(x@) < digits_value(
                                #[trigger] views(indexed@)[j],
                            )),
                    decreases indexed.len() - p,
                {
                    p = p + 1;
                }
                proof {
                    lemma_insert_at(views(indexed@), x@, p as int);
                }
                let ghost before = views(indexed@);
                indexed.insert(p, copy_chars(x));
                values.insert(p, v);
                assert(views(indexed@) == before.take(p as int) + seq![x@] + before.skip(p as int));
            }
        } else {
            if !list_contains(&others, x) {
                let c = copy_chars(x);
                proof {
                    lemma_views_push(others@, c);
                }
                others.push(c);
            }
        }
        i = i + 1;
    }
    assert(views(all@).take(all.len() as int) == views(all@));
    let ghost ix = views(indexed@);
    let mut r = indexed;
    let mut j: usize = 0;
    while j < others.len()
        invariant
            j <= others.len(),
            views(r@) == ix + views(others@).take(j as int),
        decreases others.len() - j,
    {
        let c = copy_chars(&others[j]);
        proof {
            lemma_views_push(r@, c);
        }
        r.push(c);
        proof {
            assert(views(others@).take(j + 1) == views(others@).take(j as int).push(others@[j as int]@));
        }
        j = j + 1;
    }
    assert(views(others@).take(others.len() as int) == views(others@));
    r
}

/// Cartesian product across every sample, as the list of tuple texts.
fn cartesian(sets: &Vec<Vec<Vec<char>>>, d: &Vec<char>) -> (r: Vec<Vec<char>>)
    ensures
        views(r@) == tuple_texts(tuples_spec(views2(sets@), sets@.len()), d@),
{
    let ghost all = views2(sets@);
    let mut tuples: Vec<Vec<Vec<char>>> = Vec::new();
    let empty: Vec<Vec<char>> = Vec::new();
    proof {
        lemma_views2_push(tuples@, empty);
        assert(views(empty@) =~= Seq::<Seq<char>>::empty());
        assert(views2(tuples@) =~= Seq::<Seq<Seq<char>>>::empty());
    }
    tuples.push(empty);
    let mut k: usize = 0;
    while k < sets.len()
        invariant
            k <= sets.len(),
            all == views2(sets@),
            views2(tuples@) == tuples_spec(all, k as nat),
        decreases sets.len() - k,
    {
        let set = &sets[k];
        let ghost tv = views2(tuples@);
        let ghost sv = views(set@);
        assert(all[k as int] == sv);
        let mut next: Vec<Vec<Vec<char>>> = Vec::new();
        let mut a: usize = 0;
        while a < tuples.len()
            invariant
                a <= tuples.len(),
                tv == views2(tuples@),
                sv == views(set@),
                views2(next@) == extend_all(tv.take(a as int), sv),
            decreases tuples.len() - a,
        {
            let ghost before = views2(next@);
            let tuple = &tuples[a];
            assert(tv[a as int] == views(tuple@));
            let mut b: usize = 0;
            while b < set.len()
                invariant
                    b <= set.len(),
                    a < tuples.len(),
                    tv == views2(tuples@),
                    sv == views(set@),
                    tv[a as int] == views(tuple@),
                    views2(next@) == before + extended_by(tv[a as int], sv.take(b as int)),
                decreases set.len() - b,
            {
                let mut extended: Vec<Vec<char>> = Vec::new();
                let mut c: usize = 0;
                while c < tuple.len()
                    invariant
                        c <= tuple.len(),
                        views(extended@) == views(tuple@).take(c as int),
                    decreases tuple.len() - c,
                {
                    let x = copy_chars(&tuple[c]);
                    proof {
                        lemma_views_push(extended@, x);
                        assert(views(tuple@).take(c + 1) == views(tuple@).take(c as int).push(
                            tuple@[c as int]@,
                        ));
                    }
                    extended.push(x);
                    c = c + 1;
                }
                let y = copy_chars(&set[b]);
                proof {
                    lemma_views_push(extended@, y);
                    assert(views(tuple@).take(tuple.len() as int) == views(tuple@));
                    assert(sv[b as int] == y@);
                    lemma_extended_take(tv[a as int], sv, b as int);
                }
                extended.push(y);
                proof {
                    lemma_views2_push(next@, extended);
                    assert(views(extended@) == tv[a as int].push(sv[b as int]));
                }
                next.push(extended);
                b = b + 1;
            }
            proof {
                assert(sv.take(set.len() as int) == sv);
                assert(tv.take(a + 1).drop_last() == tv.take(a as int));
                assert(tv.take(a + 1).last() == tv[a as int]);
            }
            a = a + 1;
        }
        proof {
            assert(tv.take(tuples.len() as int) == tv);
        }
        tuples = next;
        k = k + 1;
    }
    let mut r: Vec<Vec<char>> = Vec::new();
    let mut i: usize = 0;
    let ghost tv = views2(tuples@);
    while i < tuples.len()
        invariant
            i <= tuples.len(),
            tv == views2(tuples@),
            views(r@) == tuple_texts(tv.take(i as int), d@),
        decreases tuples.len() - i,
    {
        let mut text: Vec<char> = Vec::new();
        text.push('(');
        let inner = join(&tuples[i], d);
        append_chars(&mut text, &inner);
        text.push(')');
        proof {
            assert(tv[i as int] == views(tuples@[i as int]@));
            assert(text@ == tuple_text(tv[i as int], d@));
            lemma_texts_take(tv, d@, i as int);
            lemma_views_push(r@, text);
        }
        r.push(text);
        i = i + 1;
    }
    assert(tv.take(tuples.len() as int) == tv);
    r
}

/// Runs one of the set operations.
///
/// Both delimiters are taken literally: `\n` is a newline, not a backslash
/// and an `n`.
pub fn run(input: &str, kind: Kind, sample_delimiter: &str, item_delimiter: &str) -> (r: Result<
    String,
    OperationError,
>)
    ensures
        match r {
            Ok(s) => run_spec(input@, kind, sample_delimiter@, item_delimiter@) == Ok::<
                Seq<char>,
                OperationError,
            >(s@),
            Err(e) => run_spec(input@, kind, sample_delimiter@, item_delimiter@) == Err::<
                Seq<char>,
                OperationError,
            >(e),
        },
{
    let text = chars_of(input);
    let sd = chars_of(sample_delimiter);
    let id = chars_of(item_delimiter);
    let parts = samples(&text, &sd);
    let count = parts.len();
    let acceptable = match kind {
        Kind::CartesianProduct => count >= 2,
        _ => count == 2,
    };
    if !acceptable {
        return Err(OperationError::Failed(Failure::SetsWrongSampleCount));
    }
    let ghost pv = views(parts@);
    let mut sets: Vec<Vec<Vec<char>>> = Vec::new();
    let mut i: usize = 0;
    while i < parts.len()
        invariant
            i <= parts.len(),
            pv == views(parts@),
            views2(sets@) == all_items(pv.take(i as int), id@),
        decreases parts.len() - i,
    {
        let it = items(&parts[i], &id);
        proof {
            assert(pv[i as int] == parts@[i as int]@);
            lemma_items_take(pv, id@, i as int);
            lemma_views2_push(sets@, it);
        }
        sets.push(it);
        i = i + 1;
    }
    let ghost sv = views2(sets@);
    assert(pv.take(parts.len() as int) == pv);
    assert(sv == all_items(pv, id@));
    let list: Vec<Vec<char>> = match kind {
        Kind::Union => {
            let mut all: Vec<Vec<char>> = Vec::new();
            let none: Vec<Vec<char>> = Vec::new();
            absent(&sets[0], &none, &mut all);
            absent(&sets[1], &none, &mut all);
            proof {
                lemma_absent_none(views(sets@[0]@));
                lemma_absent_none(views(sets@[1]@));
                assert(views(none@) =~= Seq::<Seq<char>>::empty());
                assert(sv[0] == views(sets@[0]@));
                assert(sv[1] == views(sets@[1]@));
                assert(views(all@) == Seq::<Seq<char>>::empty() + sv[0] + sv[1]);
                assert(Seq::<Seq<char>>::empty() + sv[0] == sv[0]);
                assert(views(all@) == sv[0] + sv[1]);
            }
            union(&all)
        },
        Kind::Intersection => keep(&sets[0], &sets[1], true),
        Kind::Difference => keep(&sets[0], &sets[1], false),
        Kind::SymmetricDifference => symmetric(&sets[0], &sets[1]),
        Kind::CartesianProduct => cartesian(&sets, &id),
    };
    let joined = join(&list, &id);
    Ok(string_of(&joined))
}

proof fn lemma_absent_none(a: Seq<Seq<char>>)
    ensures
        absent_spec(a, Seq::<Seq<char>>::empty()) == a,
    decreases a.len(),
{
    if a.len() > 0 {
        lemma_absent_none(a.drop_last());
        assert(a.drop_last().push(a.last()) == a);
    }
}

/// One of the set operations over delimited samples.
pub struct SetOperation {
    pub kind: Kind,
}

impl SetOperation {
    /// Union of two samples.
    pub fn union() -> (r: Self)
        ensures
            r.kind == Kind::Union,
    {
        SetOperation { kind: Kind::Union }
    }

    /// Intersection of two samples.
    pub fn intersection() -> (r: Self)
        ensures
            r.kind == Kind::Intersection,
    {
        SetOperation { kind: Kind::Intersection }
    }

    /// Items in the first sample only.
    pub fn difference() -> (r: Self)
        ensures
            r.kind == Kind::Difference,
    {
        SetOperation { kind: Kind::Difference }
    }

    /// Items in exactly one sample.
    pub fn symmetric_difference() -> (r: Self)
        ensures
            r.kind == Kind::SymmetricDifference,
    {
        SetOperation { kind: Kind::SymmetricDifference }
    }

    /// Every tuple across all samples.
    pub fn cartesian_product() -> (r: Self)
        ensures
            r.kind == Kind::CartesianProduct,
    {
        SetOperation { kind: Kind::CartesianProduct }
    }

    /// Runs this operation; see `run`.
    pub fn execute(&self, input: &str, sample_delimiter: &str, item_delimiter: &str) -> (r: Result<
        String,
        OperationError,
    >)
        ensures
            match r {
                Ok(s) => run_spec(input@, self.kind, sample_delimiter@, item_delimiter@) == Ok::<
                    Seq<char>,
                    OperationError,
                >(s@),
                Err(e) => run_spec(input@, self.kind, sample_delimiter@, item_delimiter@) == Err::<
                    Seq<char>,
                    OperationError,
                >(e),
            },
    {
        run(input, self.kind, sample_delimiter, item_delimiter)
    }
}

} // verus!
