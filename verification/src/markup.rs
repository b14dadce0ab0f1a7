//! HTML escaping on UTF-16 code units.

use vstd::prelude::*;

verus! {

/// One code unit escaped for HTML: the apostrophe as `&#x27;`, the backtick
/// as `&#x60;`, and NUL as the private-use `U+E000`.
pub open spec fn escape_unit(u: u16) -> Seq<u16> {
    if u == 0x26 {
        seq![0x26u16, 0x61, 0x6d, 0x70, 0x3b]
    } else if u == 0x3c {
        seq![0x26u16, 0x6c, 0x74, 0x3b]
    } else if u == 0x3e {
        seq![0x26u16, 0x67, 0x74, 0x3b]
    } else if u == 0x22 {
        seq![0x26u16, 0x71, 0x75, 0x6f, 0x74, 0x3b]
    } else if u == 0x27 {
        seq![0x26u16, 0x23, 0x78, 0x32, 0x37, 0x3b]
    } else if u == 0x60 {
        seq![0x26u16, 0x23, 0x78, 0x36, 0x30, 0x3b]
    } else if u == 0 {
        seq![0xe000u16]
    } else {
        seq![u]
    }
}

/// Code units escaped one by one.
pub open spec fn escape_all(s: Seq<u16>) -> Seq<u16>
    decreases s.len(),
{
    if s.len() == 0 {
        seq![]
    } else {
        escape_all(s.drop_last()) + escape_unit(s.last())
    }
}

/// Appends the units of `extra`.
pub fn append_units(out: &mut Vec<u16>, extra: &Vec<u16>)
    ensures
        final(out)@ == old(out)@ + extra@,
{
    let mut i: usize = 0;
    while i < extra.len()
        invariant
            i <= extra.len(),
            out@ == old(out)@ + extra@.take(i as int),
        decreases extra.len() - i,
    {
        out.push(extra[i]);
        i = i + 1;
    }
    assert(extra@.take(extra.len() as int) == extra@);
}

/// Appends one code unit, escaped for HTML.
pub fn push_escaped(out: &mut Vec<u16>, unit: u16)
    ensures
        final(out)@ == old(out)@ + escape_unit(unit),
{
    let v: Vec<u16> = if unit == 0x26 {
        vec![0x26u16, 0x61, 0x6d, 0x70, 0x3b]
    } else if unit == 0x3c {
        vec![0x26u16, 0x6c, 0x74, 0x3b]
    } else if unit == 0x3e {
        vec![0x26u16, 0x67, 0x74, 0x3b]
    } else if unit == 0x22 {
        vec![0x26u16, 0x71, 0x75, 0x6f, 0x74, 0x3b]
    } else if unit == 0x27 {
        vec![0x26u16, 0x23, 0x78, 0x32, 0x37, 0x3b]
    } else if unit == 0x60 {
        vec![0x26u16, 0x23, 0x78, 0x36, 0x30, 0x3b]
    } else if unit == 0 {
        vec![0xe000u16]
    } else {
        vec![unit]
    };
    assert(v@ == escape_unit(unit));
    append_units(out, &v);
}

/// Appends `s[from..]`, escaped.
pub fn push_escaped_from(out: &mut Vec<u16>, s: &Vec<u16>, from: usize)
    requires
        from <= s.len(),
    ensures
        final(out)@ == old(out)@ + escape_all(s@.skip(from as int)),
{
    let mut i = from;
    while i < s.len()
        invariant
            from <= i <= s.len(),
            out@ == old(out)@ + escape_all(s@.subrange(from as int, i as int)),
        decreases s.len() - i,
    {
        let ghost before = out@;
        push_escaped(out, s[i]);
        proof {
            let t = s@.subrange(from as int, i + 1);
            assert(t.drop_last() == s@.subrange(from as int, i as int));
            assert(t.last() == s@[i as int]);
        }
        i = i + 1;
    }
    assert(s@.subrange(from as int, s.len() as int) == s@.skip(from as int));
}

} // verus!
