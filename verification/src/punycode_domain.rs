//! Decoding a domain undoes encoding it: the labels are split, each one is
//! carried through the label transform and back, and the pieces are joined
//! again with the same separator.

use vstd::prelude::*;

use crate::error::Failure;
use crate::punycode::{
    basic_of, domain_spec, encode_spec, is_plain_label, label_spec, map_labels, normalise_separators,
};
use crate::punycode_inverse::{lemma_decode_inverts_encode, lemma_encode_extends};
use crate::strings::{find_from, join_spec, split_nonempty, split_spec};
use crate::text::{char_from_scalar, lowercase, lowercase_of, lowercase_text};

verus! {

/// No character of `s` is `c`.
pub open spec fn free_of(s: Seq<char>, c: char) -> bool {
    forall|i: int| 0 <= i < s.len() ==> #[trigger] s[i] != c
}

proof fn lemma_find_char(s: Seq<char>, c: char, i: int)
    requires
        0 <= i,
    ensures
        find_from(s, seq![c], i) matches Some(k) ==> i <= k < s.len() && s[k] == c && forall|j: int|
            i <= j < k ==> #[trigger] s[j] != c,
        find_from(s, seq![c], i) is None ==> forall|j: int| i <= j < s.len() ==> #[trigger] s[j] != c,
    decreases s.len() + 1 - i,
{
    if i + 1 <= s.len() {
        assert(s.subrange(i, i + 1) =~= seq![s[i]]);
        if s[i] != c {
            assert(s.subrange(i, i + 1) != seq![c]) by {
                assert(s.subrange(i, i + 1)[0] != seq![c][0]);
            }
            lemma_find_char(s, c, i + 1);
        }
    }
}

proof fn lemma_find_char_at(s: Seq<char>, c: char, i: int, k: int)
    requires
        0 <= i <= k <= s.len(),
        forall|j: int| i <= j < k ==> #[trigger] s[j] != c,
        k < s.len() ==> s[k] == c,
    ensures
        k < s.len() ==> find_from(s, seq![c], i) == Some(k),
        k == s.len() ==> find_from(s, seq![c], i) is None,
    decreases k - i,
{
    if i + 1 <= s.len() {
        assert(s.subrange(i, i + 1) =~= seq![s[i]]);
    }
    if i < k {
        assert(s.subrange(i, i + 1) != seq![c]) by {
            assert(s.subrange(i, i + 1)[0] != seq![c][0]);
        }
        lemma_find_char_at(s, c, i + 1, k);
    }
}

/// Joining with the first piece split off.
proof fn lemma_join_front(x: Seq<char>, rest: Seq<Seq<char>>, sep: Seq<char>)
    requires
        rest.len() >= 1,
    ensures
        join_spec(seq![x] + rest, sep) == x + sep + join_spec(rest, sep),
    decreases rest.len(),
{
    let all = seq![x] + rest;
    if rest.len() == 1 {
        assert(all.drop_last() =~= seq![x]);
        assert(all.last() == rest[0]);
        assert(join_spec(seq![x], sep) == x);
    } else {
        lemma_join_front(x, rest.drop_last(), sep);
        assert(all.drop_last() =~= seq![x] + rest.drop_last());
        assert(all.last() == rest.last());
        assert(x + sep + join_spec(rest.drop_last(), sep) + sep + rest.last() =~= x + sep + (join_spec(
            rest.drop_last(),
            sep,
        ) + sep + rest.last()));
    }
}

/// Splitting on one character gives pieces without it that join back to the
/// text; a character the text lacks, no piece has.
proof fn lemma_split_shape(s: Seq<char>, c: char)
    ensures
        split_nonempty(s, seq![c]).len() >= 1,
        forall|i: int| 0 <= i < split_nonempty(s, seq![c]).len() ==> free_of(#[trigger] split_nonempty(s, seq![c])[i], c),
        join_spec(split_nonempty(s, seq![c]), seq![c]) == s,
        forall|e: char, i: int|
            free_of(s, e) && 0 <= i < split_nonempty(s, seq![c]).len() ==> #[trigger] free_of(split_nonempty(s, seq![c])[i], e),
    decreases s.len(),
{
    let ps = split_nonempty(s, seq![c]);
    lemma_find_char(s, c, 0);
    match find_from(s, seq![c], 0) {
        Some(k) => {
            let rest = s.skip(k + 1);
            lemma_split_shape(rest, c);
            let rs = split_nonempty(rest, seq![c]);
            assert(ps == seq![s.take(k)] + rs);
            lemma_join_front(s.take(k), rs, seq![c]);
            assert(s =~= s.take(k) + seq![c] + rest);
            assert forall|i: int| 0 <= i < ps.len() implies free_of(#[trigger] ps[i], c) by {
                if i > 0 {
                    assert(ps[i] == rs[i - 1]);
                }
            }
            assert forall|e: char, i: int| free_of(s, e) && 0 <= i < ps.len() implies #[trigger] free_of(ps[i], e) by {
                if i > 0 {
                    assert(ps[i] == rs[i - 1]);
                    assert(free_of(rest, e));
                }
            }
        },
        None => {
            assert(ps == seq![s]);
        },
    }
}

/// Splitting what was joined gives back the pieces, when none holds the
/// separator.
proof fn lemma_split_join(ps: Seq<Seq<char>>, c: char)
    requires
        ps.len() >= 1,
        forall|i: int| 0 <= i < ps.len() ==> free_of(#[trigger] ps[i], c),
    ensures
        split_nonempty(join_spec(ps, seq![c]), seq![c]) == ps,
    decreases ps.len(),
{
    let x = ps[0];
    assert(free_of(ps[0], c));
    if ps.len() == 1 {
        assert(join_spec(ps, seq![c]) == x);
        lemma_find_char_at(x, c, 0, x.len() as int);
        assert(ps =~= seq![x]);
    } else {
        let rest = ps.drop_first();
        assert forall|i: int| 0 <= i < rest.len() implies free_of(#[trigger] rest[i], c) by {
            assert(rest[i] == ps[i + 1]);
        }
        lemma_split_join(rest, c);
        assert(ps =~= seq![x] + rest);
        lemma_join_front(x, rest, seq![c]);
        let s = join_spec(ps, seq![c]);
        assert(s == x + seq![c] + join_spec(rest, seq![c]));
        lemma_find_char_at(s, c, 0, x.len() as int);
        assert(s.take(x.len() as int) =~= x);
        assert(s.skip(x.len() + 1int) =~= join_spec(rest, seq![c]));
    }
}

/// Pieces without a character, joined by another, have none of it.
proof fn lemma_join_free(ps: Seq<Seq<char>>, sep: char, e: char)
    requires
        sep != e,
        forall|i: int| 0 <= i < ps.len() ==> free_of(#[trigger] ps[i], e),
    ensures
        free_of(join_spec(ps, seq![sep]), e),
    decreases ps.len(),
{
    if ps.len() > 1 {
        lemma_join_free(ps.drop_last(), sep, e);
        assert(free_of(ps[ps.len() - 1], e));
        let j = join_spec(ps.drop_last(), seq![sep]);
        let t = j + seq![sep] + ps.last();
        assert forall|i: int| 0 <= i < t.len() implies #[trigger] t[i] != e by {
            if i < j.len() {
                assert(t[i] == j[i]);
            } else if i > j.len() {
                assert(t[i] == ps.last()[i - j.len() - 1]);
            }
        }
    } else if ps.len() == 1 {
        assert(free_of(ps[0], e));
    }
}

/// Pieces whose characters are all ASCII, joined by an ASCII separator, are
/// ASCII.
proof fn lemma_join_ascii(ps: Seq<Seq<char>>, sep: char)
    requires
        (sep as u32) < 0x80,
        forall|i: int| 0 <= i < ps.len() ==> ascii_text(#[trigger] ps[i]),
    ensures
        ascii_text(join_spec(ps, seq![sep])),
    decreases ps.len(),
{
    if ps.len() > 1 {
        lemma_join_ascii(ps.drop_last(), sep);
        assert(ascii_text(ps[ps.len() - 1]));
        let j = join_spec(ps.drop_last(), seq![sep]);
        let t = j + seq![sep] + ps.last();
        assert forall|i: int| 0 <= i < t.len() implies (#[trigger] t[i] as u32) < 0x80 by {
            if i < j.len() {
                assert(t[i] == j[i]);
            } else if i > j.len() {
                assert(t[i] == ps.last()[i - j.len() - 1]);
            }
        }
    } else if ps.len() == 1 {
        assert(ascii_text(ps[0]));
    }
}

/// Every character is ASCII.
pub open spec fn ascii_text(s: Seq<char>) -> bool {
    forall|i: int| 0 <= i < s.len() ==> (#[trigger] s[i] as u32) < 0x80
}


/// An ASCII character that is neither a capital, `.`, nor `@`.
pub open spec fn kept_char(c: char) -> bool {
    (c as u32) < 0x80 && c != '.' && c != '@' && !('A' <= c && c <= 'Z')
}

/// What `char::to_lowercase` does to ASCII that is not a capital, as the
/// trusted wrapper states: it leaves the character as it is.
pub open spec fn ascii_lowercase_fixed() -> bool {
    forall|c: char| (c as u32) < 0x80 && !('A' <= c && c <= 'Z') ==> #[trigger] lowercase_of(c) == seq![c]
}

/// Runs `char::to_lowercase` over every ASCII character that is not a
/// capital and, through the trusted wrapper's statement of each result,
/// establishes the fact that the domain round trip rests on.
pub fn confirm_ascii_lowercase()
    ensures
        ascii_lowercase_fixed(),
{
    let mut v: u32 = 0;
    while v < 0x80
        invariant
            v <= 0x80,
            forall|c: char| (c as u32) < v && !('A' <= c && c <= 'Z') ==> #[trigger] lowercase_of(c) == seq![c],
        decreases 0x80 - v,
    {
        let c = char_from_scalar(v);
        let low = lowercase(c);
        assert forall|d: char| (d as u32) < v + 1 && !('A' <= d && d <= 'Z') implies #[trigger] lowercase_of(d)
            == seq![d] by {
            if (d as u32) == v {
                vstd::utf8::char_u32_cast(d, v);
                assert(d == c);
            }
        }
        v = v + 1;
    }
}

proof fn lemma_lowercase_kept(s: Seq<char>)
    requires
        ascii_lowercase_fixed(),
        forall|i: int| 0 <= i < s.len() ==> kept_char(#[trigger] s[i]),
    ensures
        lowercase_text(s) == s,
    decreases s.len(),
{
    if s.len() > 0 {
        lemma_lowercase_kept(s.drop_last());
        assert(kept_char(s[s.len() - 1]));
        assert(lowercase_of(s.last()) == seq![s.last()]);
        assert(s =~= s.drop_last() + seq![s.last()]);
    }
}

proof fn lemma_basic_kept(l: Seq<char>)
    requires
        forall|j: int| 0 <= j < l.len() && (l[j] as u32) < 0x80 ==> kept_char(#[trigger] l[j]),
    ensures
        forall|k: int| 0 <= k < basic_of(l).len() ==> kept_char(#[trigger] basic_of(l)[k]),
    decreases l.len(),
{
    if l.len() > 0 {
        let d = l.drop_last();
        assert forall|j: int| 0 <= j < d.len() && (d[j] as u32) < 0x80 implies kept_char(#[trigger] d[j]) by {
            assert(d[j] == l[j]);
        }
        lemma_basic_kept(d);
        if (l.last() as u32) < 0x80 {
            assert(kept_char(l[l.len() - 1]));
            let b = basic_of(d).push(l.last());
            assert forall|k: int| 0 <= k < b.len() implies kept_char(#[trigger] b[k]) by {
                if k < basic_of(d).len() {
                    assert(b[k] == basic_of(d)[k]);
                }
            }
        }
    }
}

/// A label that reads back as itself: a plain one that does not look
/// encoded, or another one without ASCII capitals, which would come back
/// lower-cased.
pub open spec fn returns_intact(l: Seq<char>) -> bool {
    if is_plain_label(l) {
        !(l.len() >= 4 && l.take(4) == "xn--"@)
    } else {
        forall|i: int| 0 <= i < l.len() ==> !('A' <= #[trigger] l[i] && l[i] <= 'Z')
    }
}

proof fn lemma_label_round(l: Seq<char>)
    requires
        free_of(l, '.'),
        free_of(l, '@'),
        returns_intact(l),
        label_spec(l, true) is Ok,
        ascii_lowercase_fixed(),
    ensures
        ascii_text(label_spec(l, true)->Ok_0),
        free_of(label_spec(l, true)->Ok_0, '.'),
        free_of(label_spec(l, true)->Ok_0, '@'),
        label_spec(label_spec(l, true)->Ok_0, false) == Ok::<Seq<char>, Failure>(l) || label_spec(
            label_spec(l, true)->Ok_0,
            false,
        ) == Err::<Seq<char>, Failure>(Failure::PunycodeOverflow),
{
    reveal_strlit("xn--");
    let m = label_spec(l, true)->Ok_0;
    if is_plain_label(l) {
        assert(m == l);
        assert forall|i: int| 0 <= i < m.len() implies (#[trigger] m[i] as u32) < 0x80 by {
            assert((l[i] as u32) <= 0x7e);
        }
    } else {
        let s = encode_spec(l)->Some_0;
        assert(m == "xn--"@ + s);
        lemma_encode_extends(l);
        assert forall|j: int| 0 <= j < l.len() && (l[j] as u32) < 0x80 implies kept_char(#[trigger] l[j]) by {
            assert(l[j] != '.');
            assert(l[j] != '@');
        }
        lemma_basic_kept(l);
        let basic = basic_of(l);
        let start = if basic.len() > 0 {
            basic.push('-')
        } else {
            basic
        };
        assert forall|i: int| 0 <= i < s.len() implies kept_char(#[trigger] s[i]) by {
            if i < start.len() {
                assert(s[i] == s.take(start.len() as int)[i]);
                assert(s.take(start.len() as int)[i] == start[i]);
                if i < basic.len() {
                    assert(start[i] == basic[i]);
                }
            } else {
                assert(s[i] == s.skip(start.len() as int)[i - start.len()]);
                assert(crate::punycode_inverse::is_digit_char(s.skip(start.len() as int)[i - start.len()]));
            }
        }
        assert forall|i: int| 0 <= i < m.len() implies kept_char(#[trigger] m[i]) by {
            if i >= 4 {
                assert(m[i] == s[i - 4]);
            }
        }
        assert(m.take(4) =~= "xn--"@);
        assert(m.skip(4) =~= s);
        lemma_lowercase_kept(s);
        lemma_decode_inverts_encode(l);
    }
}


proof fn lemma_map_labels(ls: Seq<Seq<char>>, ms: Seq<Seq<char>>, ascii: bool, e: Failure)
    requires
        ms.len() == ls.len(),
        forall|i: int|
            0 <= i < ls.len() ==> #[trigger] label_spec(ls[i], ascii) == Ok::<Seq<char>, Failure>(ms[i])
                || label_spec(ls[i], ascii) == Err::<Seq<char>, Failure>(e),
    ensures
        map_labels(ls, ascii) == Ok::<Seq<char>, Failure>(join_spec(ms, seq!['.'])) || map_labels(ls, ascii)
            == Err::<Seq<char>, Failure>(e),
        (forall|i: int| 0 <= i < ls.len() ==> #[trigger] label_spec(ls[i], ascii) == Ok::<Seq<char>, Failure>(ms[i]))
            ==> map_labels(ls, ascii) == Ok::<Seq<char>, Failure>(join_spec(ms, seq!['.'])),
    decreases ls.len(),
{
    if ls.len() > 0 {
        let (ld, md) = (ls.drop_last(), ms.drop_last());
        assert forall|i: int| 0 <= i < ld.len() implies #[trigger] label_spec(ld[i], ascii) == Ok::<Seq<char>, Failure>(md[i])
            || label_spec(ld[i], ascii) == Err::<Seq<char>, Failure>(e) by {
            assert(ld[i] == ls[i] && md[i] == ms[i]);
            assert(label_spec(ls[i], ascii) == Ok::<Seq<char>, Failure>(ms[i]) || label_spec(ls[i], ascii) == Err::<Seq<char>, Failure>(e));
        }
        lemma_map_labels(ld, md, ascii, e);
        let k = ls.len() - 1;
        assert(label_spec(ls[k], ascii) == Ok::<Seq<char>, Failure>(ms[k]) || label_spec(ls[k], ascii) == Err::<Seq<char>, Failure>(e));
        if forall|i: int| 0 <= i < ls.len() ==> #[trigger] label_spec(ls[i], ascii) == Ok::<Seq<char>, Failure>(ms[i]) {
            assert forall|i: int| 0 <= i < ld.len() implies #[trigger] label_spec(ld[i], ascii) == Ok::<Seq<char>, Failure>(md[i]) by {
                assert(ld[i] == ls[i] && md[i] == ms[i]);
            }
        }
        if ls.len() == 1 {
            assert(md.len() == 0);
            assert(join_spec(ms, seq!['.']) == ms[0]);
        }
    }
}

proof fn lemma_map_labels_ok(ls: Seq<Seq<char>>, ascii: bool)
    requires
        map_labels(ls, ascii) is Ok,
    ensures
        forall|i: int| 0 <= i < ls.len() ==> (#[trigger] label_spec(ls[i], ascii)) is Ok,
    decreases ls.len(),
{
    if ls.len() > 0 {
        lemma_map_labels_ok(ls.drop_last(), ascii);
        assert forall|i: int| 0 <= i < ls.len() implies (#[trigger] label_spec(ls[i], ascii)) is Ok by {
            if i < ls.len() - 1 {
                assert(ls[i] == ls.drop_last()[i]);
            }
        }
    }
}

/// The labels of a domain: the text with every separator written as `.`,
/// split on `.`.
pub open spec fn domain_labels(d: Seq<char>) -> Seq<Seq<char>> {
    split_spec(normalise_separators(d), seq!['.'])
}

/// The labels of a domain encode and decode back to the domain with every
/// separator written as `.`, or a label meets a number past 32 bits on the
/// way back; the encoded text is ASCII and has no `@`.
proof fn lemma_labels_round(dom: Seq<char>)
    requires
        free_of(dom, '@'),
        forall|i: int| 0 <= i < domain_labels(dom).len() ==> returns_intact(#[trigger] domain_labels(dom)[i]),
        map_labels(domain_labels(dom), true) is Ok,
        ascii_lowercase_fixed(),
    ensures
        free_of(map_labels(domain_labels(dom), true)->Ok_0, '@'),
        map_labels(domain_labels(map_labels(domain_labels(dom), true)->Ok_0), false) == Ok::<Seq<char>, Failure>(
            normalise_separators(dom),
        ) || map_labels(domain_labels(map_labels(domain_labels(dom), true)->Ok_0), false) == Err::<
            Seq<char>,
            Failure,
        >(Failure::PunycodeOverflow),
{
    let big_d = normalise_separators(dom);
    assert(free_of(big_d, '@')) by {
        assert forall|i: int| 0 <= i < big_d.len() implies #[trigger] big_d[i] != '@' by {
            assert(dom[i] != '@');
        }
    }
    let ls = split_nonempty(big_d, seq!['.']);
    assert(domain_labels(dom) == ls);
    lemma_split_shape(big_d, '.');
    lemma_map_labels_ok(ls, true);
    let ms = Seq::new(ls.len(), |i: int| label_spec(ls[i], true)->Ok_0);
    assert forall|i: int| 0 <= i < ls.len() implies #[trigger] label_spec(ls[i], true) == Ok::<Seq<char>, Failure>(ms[i])
        || label_spec(ls[i], true) == Err::<Seq<char>, Failure>(Failure::PunycodeOverflow) by {
        assert(label_spec(ls[i], true) is Ok);
    }
    assert forall|i: int| 0 <= i < ls.len() implies #[trigger] label_spec(ls[i], true) == Ok::<Seq<char>, Failure>(ms[i]) by {
        assert(label_spec(ls[i], true) is Ok);
    }
    lemma_map_labels(ls, ms, true, Failure::PunycodeOverflow);
    let t = join_spec(ms, seq!['.']);
    assert(map_labels(ls, true)->Ok_0 == t);
    assert forall|i: int| 0 <= i < ms.len() implies #[trigger] free_of(ms[i], '.') && free_of(ms[i], '@') && ascii_text(ms[i])
        && (label_spec(ms[i], false) == Ok::<Seq<char>, Failure>(ls[i]) || label_spec(ms[i], false) == Err::<Seq<char>, Failure>(
        Failure::PunycodeOverflow,
    )) by {
        assert(free_of(ls[i], '.'));
        assert(free_of(ls[i], '@'));
        assert(returns_intact(domain_labels(dom)[i]));
        lemma_label_round(ls[i]);
    }
    assert forall|i: int| 0 <= i < ms.len() implies free_of(#[trigger] ms[i], '@') by {
        assert(free_of(ms[i], '.') && free_of(ms[i], '@') && ascii_text(ms[i]));
    }
    assert forall|i: int| 0 <= i < ms.len() implies free_of(#[trigger] ms[i], '.') by {
        assert(free_of(ms[i], '.') && free_of(ms[i], '@') && ascii_text(ms[i]));
    }
    assert forall|i: int| 0 <= i < ms.len() implies ascii_text(#[trigger] ms[i]) by {
        assert(free_of(ms[i], '.') && free_of(ms[i], '@') && ascii_text(ms[i]));
    }
    lemma_join_free(ms, '.', '@');
    lemma_join_ascii(ms, '.');
    assert(normalise_separators(t) =~= t);
    lemma_split_join(ms, '.');
    assert(domain_labels(t) == ms);
    assert forall|i: int| 0 <= i < ms.len() implies #[trigger] label_spec(ms[i], false) == Ok::<Seq<char>, Failure>(ls[i])
        || label_spec(ms[i], false) == Err::<Seq<char>, Failure>(Failure::PunycodeOverflow) by {
        assert(free_of(ms[i], '.') && free_of(ms[i], '@') && ascii_text(ms[i])
        && (label_spec(ms[i], false) == Ok::<Seq<char>, Failure>(ls[i]) || label_spec(ms[i], false) == Err::<Seq<char>, Failure>(
        Failure::PunycodeOverflow,
    )));
    }
    lemma_map_labels(ms, ls, false, Failure::PunycodeOverflow);
}

/// The part of an address after its mailbox, or all of it when it has none.
pub open spec fn domain_part(d: Seq<char>) -> Seq<char> {
    let pieces = split_spec(d, seq!['@']);
    if pieces.len() >= 2 {
        pieces[1]
    } else {
        pieces[0]
    }
}

/// The mailbox and its `@`, or nothing.
pub open spec fn mailbox_part(d: Seq<char>) -> Seq<char> {
    let pieces = split_spec(d, seq!['@']);
    if pieces.len() >= 2 {
        pieces[0] + seq!['@']
    } else {
        seq![]
    }
}

/// Decoding a domain undoes encoding it: an address with at most one `@`,
/// whose plain labels do not begin with `xn--` and whose other labels hold
/// no ASCII capital, reads back as its mailbox followed by its domain with
/// every separator written as `.`, unless reading a label back meets a
/// number past 32 bits. The proof rests on `char::to_lowercase` leaving
/// ASCII that holds no capital as it is, as the trusted wrapper around it
/// states.
pub proof fn lemma_to_unicode_inverts_to_ascii(d: Seq<char>)
    requires
        split_spec(d, seq!['@']).len() <= 2,
        forall|i: int|
            0 <= i < domain_labels(domain_part(d)).len() ==> returns_intact(
                #[trigger] domain_labels(domain_part(d))[i],
            ),
        domain_spec(d, true) is Ok,
        ascii_lowercase_fixed(),
    ensures
        domain_spec(domain_spec(d, true)->Ok_0, false) == Ok::<Seq<char>, Failure>(
            mailbox_part(d) + normalise_separators(domain_part(d)),
        ) || domain_spec(domain_spec(d, true)->Ok_0, false) == Err::<Seq<char>, Failure>(
            Failure::PunycodeOverflow,
        ),
{
    let pieces = split_nonempty(d, seq!['@']);
    lemma_split_shape(d, '@');
    let dom = domain_part(d);
    let head = mailbox_part(d);
    assert(free_of(dom, '@'));
    assert(domain_spec(d, true) == match map_labels(domain_labels(dom), true) {
        Ok(t) => Ok::<Seq<char>, Failure>(head + t),
        Err(e) => Err(e),
    });
    lemma_labels_round(dom);
    let t = map_labels(domain_labels(dom), true)->Ok_0;
    let out = head + t;
    assert(domain_spec(d, true)->Ok_0 == out);
    if pieces.len() >= 2 {
        let mb = pieces[0];
        assert(free_of(mb, '@'));
        assert(pieces =~= seq![mb, dom]);
        lemma_split_join(seq![mb, t], '@');
        assert(join_spec(seq![mb, t], seq!['@']) == join_spec(seq![mb], seq!['@']) + seq!['@'] + t) by {
            assert(seq![mb, t].drop_last() =~= seq![mb]);
        }
        assert(out =~= join_spec(seq![mb, t], seq!['@']));
        assert(split_spec(out, seq!['@']) == seq![mb, t]);
        assert(domain_part(out) == t);
        assert(mailbox_part(out) == head);
    } else {
        assert(head == Seq::<char>::empty());
        assert(out =~= t);
        lemma_find_char(t, '@', 0);
        assert(split_spec(out, seq!['@']) == seq![t]);
        assert(domain_part(out) == t);
        assert(mailbox_part(out) == head);
    }
    assert(domain_spec(out, false) == match map_labels(domain_labels(t), false) {
        Ok(u) => Ok::<Seq<char>, Failure>(head + u),
        Err(e) => Err(e),
    });
}

} // verus!
