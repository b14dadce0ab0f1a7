//! The offset checker only marks: deleting its highlight tags from what it
//! writes gives back the escaped input, every sample and every separator once,
//! in order.

use vstd::prelude::*;

use crate::markup::{escape_all, escape_unit};
use crate::offsetcheck::{
    close_units, find_units, join_units, matched_at, open_units, row, rows, split_units, step,
};
use crate::strings::{decode_utf16_strict, utf16_spec};

verus! {

/// The units with every highlight tag, `<span class='hl5'>` or `</span>`,
/// deleted.
pub open spec fn strip_tags(u: Seq<u16>) -> Seq<u16>
    decreases u.len(),
{
    if u.len() == 0 {
        seq![]
    } else if u.len() >= 18 && u.take(18) == open_units() {
        strip_tags(u.skip(18))
    } else if u.len() >= 7 && u.take(7) == close_units() {
        strip_tags(u.skip(7))
    } else {
        seq![u[0]] + strip_tags(u.skip(1))
    }
}

/// Deleting the tags from `o` followed by anything yields `v` followed by
/// what deleting them from the rest yields.
pub open spec fn strips_to(o: Seq<u16>, v: Seq<u16>) -> bool {
    forall|z: Seq<u16>| #[trigger] strip_tags(o + z) == v + strip_tags(z)
}

/// No unit is `<`, so no tag can start in it.
pub open spec fn tagless(t: Seq<u16>) -> bool {
    forall|i: int| 0 <= i < t.len() ==> #[trigger] t[i] != 0x3c
}

proof fn lemma_compose(a: Seq<u16>, va: Seq<u16>, b: Seq<u16>, vb: Seq<u16>)
    requires
        strips_to(a, va),
        strips_to(b, vb),
    ensures
        strips_to(a + b, va + vb),
{
    assert forall|z: Seq<u16>| #[trigger] strip_tags((a + b) + z) == (va + vb) + strip_tags(z) by {
        assert((a + b) + z =~= a + (b + z));
        assert(strip_tags(a + (b + z)) == va + strip_tags(b + z));
        assert(strip_tags(b + z) == vb + strip_tags(z));
        assert(va + (vb + strip_tags(z)) =~= (va + vb) + strip_tags(z));
    }
}

proof fn lemma_empty_strips()
    ensures
        strips_to(Seq::<u16>::empty(), Seq::<u16>::empty()),
{
    assert forall|z: Seq<u16>| #[trigger] strip_tags(Seq::<u16>::empty() + z) == Seq::<u16>::empty() + strip_tags(z) by {
        assert(Seq::<u16>::empty() + z =~= z);
        assert(Seq::<u16>::empty() + strip_tags(z) =~= strip_tags(z));
    }
}

proof fn lemma_tags_strip()
    ensures
        strips_to(open_units(), Seq::<u16>::empty()),
        strips_to(close_units(), Seq::<u16>::empty()),
{
    assert forall|z: Seq<u16>| #[trigger] strip_tags(open_units() + z) == Seq::<u16>::empty() + strip_tags(z) by {
        let u = open_units() + z;
        assert(u.take(18) =~= open_units());
        assert(u.skip(18) =~= z);
        assert(Seq::<u16>::empty() + strip_tags(z) =~= strip_tags(z));
    }
    assert forall|z: Seq<u16>| #[trigger] strip_tags(close_units() + z) == Seq::<u16>::empty() + strip_tags(z) by {
        let u = close_units() + z;
        assert(u.take(7) =~= close_units());
        assert(u.skip(7) =~= z);
        assert(!(u.len() >= 18 && u.take(18) == open_units())) by {
            if u.len() >= 18 {
                assert(u.take(18)[1] == u[1]);
                assert(u[1] == close_units()[1]);
                assert(close_units()[1] == 0x2f);
                assert(open_units()[1] == 0x73);
            }
        }
        assert(Seq::<u16>::empty() + strip_tags(z) =~= strip_tags(z));
    }
}

proof fn lemma_tagless_prefix(t: Seq<u16>, z: Seq<u16>)
    requires
        tagless(t),
    ensures
        strip_tags(t + z) == t + strip_tags(z),
    decreases t.len(),
{
    if t.len() == 0 {
        assert(t + z =~= z);
        assert(t + strip_tags(z) =~= strip_tags(z));
    } else {
        let u = t + z;
        assert(u[0] == t[0]);
        assert(t[0] != 0x3c);
        if u.len() >= 18 {
            assert(u.take(18)[0] != open_units()[0]);
        }
        if u.len() >= 7 {
            assert(u.take(7)[0] != close_units()[0]);
        }
        let r = t.skip(1);
        assert forall|i: int| 0 <= i < r.len() implies #[trigger] r[i] != 0x3c by {
            assert(r[i] == t[i + 1]);
        }
        lemma_tagless_prefix(r, z);
        assert(u.skip(1) =~= r + z);
        assert(seq![t[0]] + (r + strip_tags(z)) =~= t + strip_tags(z));
    }
}

proof fn lemma_tagless_strips(t: Seq<u16>)
    requires
        tagless(t),
    ensures
        strips_to(t, t),
{
    assert forall|z: Seq<u16>| #[trigger] strip_tags(t + z) == t + strip_tags(z) by {
        lemma_tagless_prefix(t, z);
    }
}

proof fn lemma_escape_tagless(s: Seq<u16>)
    ensures
        tagless(escape_all(s)),
        forall|u: u16| tagless(#[trigger] escape_unit(u)),
    decreases s.len(),
{
    assert forall|u: u16| tagless(#[trigger] escape_unit(u)) by {}
    if s.len() > 0 {
        lemma_escape_tagless(s.drop_last());
        let a = escape_all(s.drop_last());
        let b = escape_unit(s.last());
        assert(tagless(b));
        assert forall|i: int| 0 <= i < (a + b).len() implies #[trigger] (a + b)[i] != 0x3c by {
            if i < a.len() {
                assert((a + b)[i] == a[i]);
            } else {
                assert((a + b)[i] == b[i - a.len()]);
            }
        }
    }
}

proof fn lemma_escape_concat(a: Seq<u16>, b: Seq<u16>)
    ensures
        escape_all(a + b) == escape_all(a) + escape_all(b),
    decreases b.len(),
{
    if b.len() == 0 {
        assert(a + b =~= a);
        assert(escape_all(a) + escape_all(b) =~= escape_all(a));
    } else {
        lemma_escape_concat(a, b.drop_last());
        assert((a + b).drop_last() =~= a + b.drop_last());
        assert((a + b).last() == b.last());
        assert(escape_all(a) + (escape_all(b.drop_last()) + escape_unit(b.last())) =~= escape_all(a)
            + escape_all(b.drop_last()) + escape_unit(b.last()));
    }
}

/// What deleting the tags from one sample's output yields once the offsets
/// below `i` are done: the escaped units seen so far, and, once the last
/// offset of the first sample is done, the escaped rest of the sample.
pub open spec fn seen(sample: Seq<u16>, i: int, first_len: int) -> Seq<u16> {
    let k = if i < sample.len() {
        i
    } else {
        sample.len() as int
    };
    escape_all(sample.take(k)) + if i >= first_len && sample.len() >= first_len {
        escape_all(sample.skip(first_len))
    } else {
        seq![]
    }
}

proof fn lemma_step_strips(
    sample: Seq<u16>,
    index: int,
    first_len: int,
    matched: bool,
    in_match: bool,
    is_last: bool,
    out: Seq<u16>,
)
    requires
        0 <= index < first_len,
        strips_to(out, seen(sample, index, first_len)),
    ensures
        strips_to(step(sample, index, first_len, matched, in_match, is_last, out).0, seen(sample, index + 1, first_len)),
{
    lemma_tags_strip();
    lemma_escape_tagless(sample.skip(index + 1));
    let v = seen(sample, index, first_len);
    assert(v == escape_all(sample.take(if index < sample.len() { index } else { sample.len() as int })));
    assert(v + Seq::<u16>::empty() =~= v);
    if sample.len() <= index {
        assert(seen(sample, index + 1, first_len) =~= v);
        lemma_compose(out, v, close_units(), Seq::<u16>::empty());
    } else {
        let cur = sample[index];
        let e = escape_unit(cur);
        lemma_tagless_strips(e);
        let ends = sample.len() == index + 1;
        lemma_compose(out, v, open_units(), Seq::<u16>::empty());
        lemma_compose(out, v, close_units(), Seq::<u16>::empty());
        lemma_compose(out + open_units(), v, e, e);
        lemma_compose(out + close_units(), v, e, e);
        lemma_compose(out, v, e, e);
        lemma_compose(out + open_units() + e, v + e, close_units(), Seq::<u16>::empty());
        lemma_compose(out + e, v + e, close_units(), Seq::<u16>::empty());
        assert((v + e) + Seq::<u16>::empty() =~= v + e);
        let o1 = if matched && !in_match {
            out + open_units() + e + if ends {
                close_units()
            } else {
                seq![]
            }
        } else if !matched && in_match {
            out + close_units() + e
        } else {
            out + e + if in_match && ends {
                close_units()
            } else {
                seq![]
            }
        };
        assert(out + open_units() + e + Seq::<u16>::empty() =~= out + open_units() + e);
        assert(out + e + Seq::<u16>::empty() =~= out + e);
        assert(strips_to(o1, v + e));
        assert(sample.take(index + 1).drop_last() =~= sample.take(index));
        assert(sample.take(index + 1).last() == cur);
        assert(escape_all(sample.take(index + 1)) == v + e);
        let tail = escape_all(sample.skip(index + 1));
        lemma_tagless_strips(tail);
        if first_len - 1 == index {
            lemma_compose(o1, v + e, close_units(), Seq::<u16>::empty());
            let o2 = if step(sample, index, first_len, matched, in_match, is_last, out).1 {
                o1 + close_units()
            } else {
                o1
            };
            assert(strips_to(o2, v + e));
            lemma_compose(o2, v + e, tail, tail);
            assert(seen(sample, index + 1, first_len) == v + e + tail);
        } else {
            assert(seen(sample, index + 1, first_len) =~= v + e);
        }
    }
}

proof fn lemma_row_strips(samples: Seq<Seq<u16>>, index: int, p: int, outs: Seq<Seq<u16>>, in_match: bool)
    requires
        samples.len() >= 1,
        0 <= p <= samples.len(),
        outs.len() == samples.len(),
        0 <= index < samples[0].len(),
        forall|q: int| 0 <= q < p ==> strips_to(#[trigger] outs[q], seen(samples[q], index + 1, samples[0].len() as int)),
        forall|q: int| p <= q < samples.len() ==> strips_to(#[trigger] outs[q], seen(samples[q], index, samples[0].len() as int)),
    ensures
        row(samples, index, p, outs, in_match).0.len() == samples.len(),
        forall|q: int|
            0 <= q < samples.len() ==> strips_to(
                #[trigger] row(samples, index, p, outs, in_match).0[q],
                seen(samples[q], index + 1, samples[0].len() as int),
            ),
    decreases samples.len() - p,
{
    if p < samples.len() {
        let f = samples[0].len() as int;
        let (o, m) = step(samples[p], index, f, matched_at(samples, index), in_match, p == samples.len() - 1, outs[p]);
        lemma_step_strips(samples[p], index, f, matched_at(samples, index), in_match, p == samples.len() - 1, outs[p]);
        let next = outs.update(p, o);
        assert forall|q: int| 0 <= q < p + 1 implies strips_to(#[trigger] next[q], seen(samples[q], index + 1, f)) by {
            if q < p {
                assert(next[q] == outs[q]);
            }
        }
        assert forall|q: int| p + 1 <= q < samples.len() implies strips_to(#[trigger] next[q], seen(samples[q], index, f)) by {
            assert(next[q] == outs[q]);
        }
        lemma_row_strips(samples, index, p + 1, next, m);
    }
}

proof fn lemma_rows_strips(samples: Seq<Seq<u16>>, index: int, outs: Seq<Seq<u16>>, in_match: bool)
    requires
        samples.len() >= 1,
        0 <= index <= samples[0].len(),
        outs.len() == samples.len(),
        forall|q: int| 0 <= q < samples.len() ==> strips_to(#[trigger] outs[q], seen(samples[q], index, samples[0].len() as int)),
    ensures
        rows(samples, index, outs, in_match).len() == samples.len(),
        forall|q: int|
            0 <= q < samples.len() ==> strips_to(
                #[trigger] rows(samples, index, outs, in_match)[q],
                seen(samples[q], samples[0].len() as int, samples[0].len() as int),
            ),
    decreases samples[0].len() - index,
{
    if index < samples[0].len() {
        lemma_row_strips(samples, index, 0, outs, in_match);
        let (o, m) = row(samples, index, 0, outs, in_match);
        lemma_rows_strips(samples, index + 1, o, m);
    }
}

proof fn lemma_seen_whole(sample: Seq<u16>, first_len: int)
    requires
        first_len >= 1,
    ensures
        seen(sample, first_len, first_len) == escape_all(sample),
{
    if sample.len() >= first_len {
        lemma_escape_concat(sample.take(first_len), sample.skip(first_len));
        assert(sample.take(first_len) + sample.skip(first_len) =~= sample);
        if first_len == sample.len() {
            assert(sample.take(first_len) =~= sample);
        }
    } else {
        assert(sample.take(sample.len() as int) =~= sample);
        assert(escape_all(sample) + Seq::<u16>::empty() =~= escape_all(sample));
    }
}

proof fn lemma_join_strips(outs: Seq<Seq<u16>>, samples: Seq<Seq<u16>>, sep: Seq<u16>)
    requires
        outs.len() == samples.len(),
        forall|q: int| 0 <= q < outs.len() ==> strips_to(#[trigger] outs[q], escape_all(samples[q])),
    ensures
        strips_to(join_units(outs, escape_all(sep)), escape_all(join_units(samples, sep))),
    decreases outs.len(),
{
    if outs.len() == 0 {
        lemma_empty_strips();
        assert(escape_all(Seq::<u16>::empty()) == Seq::<u16>::empty());
    } else if outs.len() == 1 {
        assert(strips_to(outs[0], escape_all(samples[0])));
    } else {
        let (od, sd) = (outs.drop_last(), samples.drop_last());
        assert forall|q: int| 0 <= q < od.len() implies strips_to(#[trigger] od[q], escape_all(sd[q])) by {
            assert(od[q] == outs[q] && sd[q] == samples[q]);
        }
        lemma_join_strips(od, sd, sep);
        lemma_escape_tagless(sep);
        lemma_tagless_strips(escape_all(sep));
        let a = join_units(od, escape_all(sep));
        let va = escape_all(join_units(sd, sep));
        lemma_compose(a, va, escape_all(sep), escape_all(sep));
        assert(strips_to(outs.last(), escape_all(samples.last())));
        lemma_compose(a + escape_all(sep), va + escape_all(sep), outs.last(), escape_all(samples.last()));
        lemma_escape_concat(join_units(sd, sep), sep);
        lemma_escape_concat(join_units(sd, sep) + sep, samples.last());
    }
}

proof fn lemma_find_units_match(u: Seq<u16>, sep: Seq<u16>, i: int)
    ensures
        find_units(u, sep, i) matches Some(k) ==> i <= k && k + sep.len() <= u.len() && u.subrange(k, k + sep.len())
            == sep,
    decreases u.len() + 1 - i,
{
    if !(i < 0 || i + sep.len() > u.len()) && u.subrange(i, i + sep.len()) != sep {
        lemma_find_units_match(u, sep, i + 1);
    }
}

proof fn lemma_join_front(x: Seq<u16>, rest: Seq<Seq<u16>>, sep: Seq<u16>)
    requires
        rest.len() >= 1,
    ensures
        join_units(seq![x] + rest, sep) == x + sep + join_units(rest, sep),
    decreases rest.len(),
{
    let all = seq![x] + rest;
    if rest.len() == 1 {
        assert(all.drop_last() =~= seq![x]);
        assert(all.last() == rest[0]);
        assert(join_units(seq![x], sep) == x);
        assert(join_units(rest, sep) == rest[0]);
    } else {
        lemma_join_front(x, rest.drop_last(), sep);
        assert(all.drop_last() =~= seq![x] + rest.drop_last());
        assert(all.last() == rest.last());
        assert(x + sep + join_units(rest.drop_last(), sep) + sep + rest.last() =~= x + sep + (join_units(
            rest.drop_last(),
            sep,
        ) + sep + rest.last()));
    }
}

proof fn lemma_split_join_units(u: Seq<u16>, sep: Seq<u16>)
    requires
        sep.len() > 0,
    ensures
        split_units(u, sep).len() >= 1,
        join_units(split_units(u, sep), sep) == u,
    decreases u.len(),
{
    lemma_find_units_match(u, sep, 0);
    match find_units(u, sep, 0) {
        Some(i) => {
            let rest = u.skip(i + sep.len());
            lemma_split_join_units(rest, sep);
            lemma_join_front(u.take(i), split_units(rest, sep), sep);
            assert(u =~= u.take(i) + sep + rest);
        },
        None => {},
    }
}

/// The units `check` decodes into its answer.
pub open spec fn check_units(input: Seq<char>, delimiter: Seq<char>) -> Seq<u16> {
    let sep = utf16_spec(delimiter);
    let samples = split_units(utf16_spec(input), sep);
    join_units(
        rows(samples, 0, Seq::new(samples.len(), |i: int| Seq::<u16>::empty()), false),
        escape_all(sep),
    )
}

/// The offset checker only adds highlight tags: with at least two samples
/// and a first sample that is not empty, deleting every `<span class='hl5'>`
/// and `</span>` from the units it answers with gives the input's units
/// escaped, every sample and every separator once, in order.
pub proof fn lemma_check_only_marks(input: Seq<char>, delimiter: Seq<char>)
    requires
        split_units(utf16_spec(input), utf16_spec(delimiter)).len() >= 2,
        split_units(utf16_spec(input), utf16_spec(delimiter))[0].len() > 0,
    ensures
        strip_tags(check_units(input, delimiter)) == escape_all(utf16_spec(input)),
        crate::offsetcheck::check_spec(input, delimiter) == match decode_utf16_strict(check_units(input, delimiter)) {
            Some(cs) => Ok::<Seq<char>, crate::error::Failure>(cs),
            None => Err(crate::error::Failure::OffsetUnpairedSurrogate),
        },
{
    let sep = utf16_spec(delimiter);
    let u = utf16_spec(input);
    let samples = split_units(u, sep);
    let f = samples[0].len() as int;
    let outs0 = Seq::new(samples.len(), |i: int| Seq::<u16>::empty());
    lemma_empty_strips();
    assert forall|q: int| 0 <= q < samples.len() implies strips_to(#[trigger] outs0[q], seen(samples[q], 0, f)) by {
        assert(samples[q].take(0) =~= Seq::<u16>::empty());
        assert(escape_all(Seq::<u16>::empty()) == Seq::<u16>::empty());
        assert(seen(samples[q], 0, f) =~= Seq::<u16>::empty());
    }
    lemma_rows_strips(samples, 0, outs0, false);
    let outs = rows(samples, 0, outs0, false);
    assert forall|q: int| 0 <= q < outs.len() implies strips_to(#[trigger] outs[q], escape_all(samples[q])) by {
        lemma_seen_whole(samples[q], f);
    }
    lemma_join_strips(outs, samples, sep);
    assert(sep.len() > 0);
    lemma_split_join_units(u, sep);
    assert(strip_tags(check_units(input, delimiter) + Seq::<u16>::empty()) == escape_all(u) + strip_tags(
        Seq::<u16>::empty(),
    ));
    assert(check_units(input, delimiter) + Seq::<u16>::empty() =~= check_units(input, delimiter));
    assert(escape_all(u) + Seq::<u16>::empty() =~= escape_all(u));
}

} // verus!
