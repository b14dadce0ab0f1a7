//! Explaining a UNIX permission string given in octal or textual form.

use vstd::prelude::*;

use crate::error::{Failure, OperationError};
use crate::text::chars_of;

verus! {

/// The nineteen flags a permission string can carry.
#[derive(Clone, Copy, Debug, PartialEq, Eq, Structural)]
pub struct Perms {
    pub directory: bool,
    pub symlink: bool,
    pub named_pipe: bool,
    pub socket: bool,
    pub char_device: bool,
    pub block_device: bool,
    pub door: bool,
    pub sticky: bool,
    pub setuid: bool,
    pub setgid: bool,
    pub read_user: bool,
    pub write_user: bool,
    pub exec_user: bool,
    pub read_group: bool,
    pub write_group: bool,
    pub exec_group: bool,
    pub read_other: bool,
    pub write_other: bool,
    pub exec_other: bool,
}

/// No flag set.
pub open spec fn no_perms() -> Perms {
    Perms {
        directory: false,
        symlink: false,
        named_pipe: false,
        socket: false,
        char_device: false,
        block_device: false,
        door: false,
        sticky: false,
        setuid: false,
        setgid: false,
        read_user: false,
        write_user: false,
        exec_user: false,
        read_group: false,
        write_group: false,
        exec_group: false,
        read_other: false,
        write_other: false,
        exec_other: false,
    }
}

/// Whitespace to a JavaScript regular expression.
pub open spec fn is_js_space(c: char) -> bool {
    ('\u{9}' <= c && c <= '\u{d}') || c == ' ' || c == '\u{a0}' || c == '\u{1680}' || ('\u{2000}'
        <= c && c <= '\u{200a}') || c == '\u{2028}' || c == '\u{2029}' || c == '\u{202f}' || c
        == '\u{205f}' || c == '\u{3000}' || c == '\u{feff}'
}

/// A character that can appear in the textual form.
pub open spec fn is_textual(c: char) -> bool {
    c == 'd' || c == 'l' || c == 'p' || c == 'c' || c == 'b' || c == 'D' || c == 'r' || c == 'w'
        || c == 'x' || c == 's' || c == 'S' || c == 't' || c == 'T' || c == '-'
}

/// An octal digit.
pub open spec fn is_octal(c: char) -> bool {
    '0' <= c && c <= '7'
}

/// How many leading characters satisfy the predicate, up to `cap`.
pub open spec fn leading_count(s: Seq<char>, octal: bool, cap: nat) -> nat
    decreases cap,
{
    if cap == 0 || s.len() == 0 || !(if octal {
        is_octal(s[0])
    } else {
        is_textual(s[0])
    }) {
        0
    } else {
        1 + leading_count(s.skip(1), octal, (cap - 1) as nat)
    }
}

/// The value of the octal digit at `i`, or zero past the end of the digits.
pub open spec fn digit_at(s: Seq<char>, n: nat, i: int) -> nat {
    if i < n {
        (s[i] as int - 48) as nat
    } else {
        0
    }
}

/// Whether bit `b` of a digit is set.
pub open spec fn bit(d: nat, b: nat) -> bool {
    if b == 2 {
        (d / 4) % 2 == 1
    } else if b == 1 {
        (d / 2) % 2 == 1
    } else {
        d % 2 == 1
    }
}

/// The octal form read: up to four digits, high to low; fewer than four leave
/// the special bits clear.
pub open spec fn from_octal_spec(rest: Seq<char>) -> Perms {
    let n = leading_count(rest, true, 4);
    let (special, user, group, other) = if n == 4 {
        (digit_at(rest, n, 0), digit_at(rest, n, 1), digit_at(rest, n, 2), digit_at(rest, n, 3))
    } else {
        (0, digit_at(rest, n, 0), digit_at(rest, n, 1), digit_at(rest, n, 2))
    };
    Perms {
        setuid: bit(special, 2),
        setgid: bit(special, 1),
        sticky: bit(special, 0),
        read_user: bit(user, 2),
        write_user: bit(user, 1),
        exec_user: bit(user, 0),
        read_group: bit(group, 2),
        write_group: bit(group, 1),
        exec_group: bit(group, 0),
        read_other: bit(other, 2),
        write_other: bit(other, 1),
        exec_other: bit(other, 0),
        ..no_perms()
    }
}

/// The character at `i` of the field, if the field reaches it.
pub open spec fn at(f: Seq<char>, n: nat, i: int) -> Option<char> {
    if i < n {
        Some(f[i])
    } else {
        None
    }
}

/// The textual form read position by position; a short form leaves the
/// remaining flags clear.
pub open spec fn from_textual_spec(rest: Seq<char>) -> Perms {
    let n = leading_count(rest, false, 10);
    let t = at(rest, n, 0);
    let x1 = at(rest, n, 3);
    let x2 = at(rest, n, 6);
    let x3 = at(rest, n, 9);
    Perms {
        directory: t == Some('d'),
        symlink: t == Some('l'),
        named_pipe: t == Some('p'),
        socket: t == Some('s'),
        char_device: t == Some('c'),
        block_device: t == Some('b'),
        door: t == Some('D'),
        read_user: at(rest, n, 1) == Some('r'),
        write_user: at(rest, n, 2) == Some('w'),
        exec_user: x1 == Some('x') || x1 == Some('s'),
        setuid: x1 == Some('s') || x1 == Some('S'),
        read_group: at(rest, n, 4) == Some('r'),
        write_group: at(rest, n, 5) == Some('w'),
        exec_group: x2 == Some('x') || x2 == Some('s'),
        setgid: x2 == Some('s') || x2 == Some('S'),
        read_other: at(rest, n, 7) == Some('r'),
        write_other: at(rest, n, 8) == Some('w'),
        exec_other: x3 == Some('x') || x3 == Some('t'),
        sticky: x3 == Some('t') || x3 == Some('T'),
    }
}

/// The leading character of the textual form: the last type flag set wins.
pub open spec fn type_char(p: Perms) -> char {
    if p.door {
        'D'
    } else if p.block_device {
        'b'
    } else if p.char_device {
        'c'
    } else if p.socket {
        's'
    } else if p.named_pipe {
        'p'
    } else if p.symlink {
        'l'
    } else if p.directory {
        'd'
    } else {
        '-'
    }
}

/// One read/write/execute triple.
pub open spec fn triple(read: bool, write: bool, execute: bool, special: bool, both: char, only: char) -> Seq<char> {
    seq![
        if read {
            'r'
        } else {
            '-'
        },
        if write {
            'w'
        } else {
            '-'
        },
        if execute && special {
            both
        } else if special {
            only
        } else if execute {
            'x'
        } else {
            '-'
        },
    ]
}

/// The ten-character textual form.
pub open spec fn textual_spec(p: Perms) -> Seq<char> {
    seq![type_char(p)] + triple(p.read_user, p.write_user, p.exec_user, p.setuid, 's', 'S')
        + triple(p.read_group, p.write_group, p.exec_group, p.setgid, 's', 'S') + triple(
        p.read_other,
        p.write_other,
        p.exec_other,
        p.sticky,
        't',
        'T',
    )
}

/// One octal digit weighed from three flags.
pub open spec fn weigh(four: bool, two: bool, one: bool) -> char {
    ((if four {
        4int
    } else {
        0
    }) + (if two {
        2int
    } else {
        0
    }) + (if one {
        1int
    } else {
        0
    }) + 48) as char
}

/// The four-digit octal form, special bits first.
pub open spec fn octal_spec(p: Perms) -> Seq<char> {
    seq![
        weigh(p.setuid, p.setgid, p.sticky),
        weigh(p.read_user, p.write_user, p.exec_user),
        weigh(p.read_group, p.write_group, p.exec_group),
        weigh(p.read_other, p.write_other, p.exec_other),
    ]
}

/// The file type the leading character stands for.
pub open spec fn file_type_spec(p: Perms) -> Seq<char> {
    if p.directory {
        "Directory"@
    } else if p.symlink {
        "Symbolic link"@
    } else if p.named_pipe {
        "Named pipe"@
    } else if p.socket {
        "Socket"@
    } else if p.char_device {
        "Character device"@
    } else if p.block_device {
        "Block device"@
    } else if p.door {
        "Door"@
    } else {
        "Regular file"@
    }
}

/// One row of the permission matrix.
pub open spec fn row_spec(label: Seq<char>, user: bool, group: bool, other: bool) -> Seq<char> {
    " |"@ + label + " |"@ + cell(user) + cell(group) + cell(other) + "\n"@
}

/// One cell of the permission matrix.
pub open spec fn cell(granted: bool) -> Seq<char> {
    "   "@ + seq![
        if granted {
            'X'
        } else {
            ' '
        },
    ] + "   |"@
}

/// The report.
pub open spec fn render_spec(p: Perms, textual: bool) -> Seq<char> {
    head_spec(p, textual) + flags_spec(p) + table_spec(p)
}

/// The two representations, and the file type for textual input.
pub open spec fn head_spec(p: Perms, textual: bool) -> Seq<char> {
    "Textual representation: "@ + textual_spec(p) + "\nOctal representation:   "@ + octal_spec(p)
        + (if textual {
        "\nFile type: "@ + file_type_spec(p)
    } else {
        seq![]
    })
}

/// A line for each special bit that is set.
pub open spec fn flags_spec(p: Perms) -> Seq<char> {
    (if p.setuid {
        "\nThe setuid flag is set"@
    } else {
        seq![]
    }) + (if p.setgid {
        "\nThe setgid flag is set"@
    } else {
        seq![]
    }) + (if p.sticky {
        "\nThe sticky bit is set"@
    } else {
        seq![]
    })
}

/// The permission matrix.
pub open spec fn table_spec(p: Perms) -> Seq<char> {
    let rule = " +---------+-------+-------+-------+\n"@;
    "\n\n"@ + rule + " |         | User  | Group | Other |\n"@ + rule + row_spec(
        "    Read"@,
        p.read_user,
        p.read_group,
        p.read_other,
    ) + rule + row_spec("   Write"@, p.write_user, p.write_group, p.write_other) + rule
        + row_spec(" Execute"@, p.exec_user, p.exec_group, p.exec_other)
        + " +---------+-------+-------+-------+"@
}

/// The number of leading JavaScript whitespace characters.
pub open spec fn space_prefix(s: Seq<char>) -> nat
    decreases s.len(),
{
    if s.len() > 0 && is_js_space(s[0]) {
        1 + space_prefix(s.skip(1))
    } else {
        0
    }
}

/// What `parse_permissions` answers.
pub open spec fn parse_permissions_spec(input: Seq<char>) -> Result<Seq<char>, OperationError> {
    let rest = input.skip(space_prefix(input) as int);
    if rest.len() > 0 && is_octal(rest[0]) {
        Ok(render_spec(from_octal_spec(rest), false))
    } else if rest.len() > 0 && is_textual(rest[0]) {
        Ok(render_spec(from_textual_spec(rest), true))
    } else {
        Err(OperationError::Failed(Failure::PermissionsUnrecognisedFormat))
    }
}

proof fn lemma_space_prefix(s: Seq<char>)
    ensures
        space_prefix(s) <= s.len(),
        forall|i: int| 0 <= i < space_prefix(s) ==> is_js_space(#[trigger] s[i]),
        space_prefix(s) < s.len() ==> !is_js_space(s[space_prefix(s) as int]),
    decreases s.len(),
{
    if s.len() > 0 && is_js_space(s[0]) {
        let t = s.skip(1);
        lemma_space_prefix(t);
        assert forall|i: int| 0 <= i < space_prefix(s) implies is_js_space(#[trigger] s[i]) by {
            if i > 0 {
                assert(s[i] == t[i - 1]);
            }
        }
        if space_prefix(s) < s.len() {
            assert(s[space_prefix(s) as int] == t[space_prefix(t) as int]);
        }
    }
}

/// Parsing refuses exactly the input whose first character that is not
/// JavaScript whitespace is missing, or is neither an octal digit nor a
/// character of the textual form.
pub proof fn lemma_permissions_refusal(input: Seq<char>)
    ensures
        forall|i: int| 0 <= i < space_prefix(input) ==> is_js_space(#[trigger] input[i]),
        space_prefix(input) < input.len() ==> !is_js_space(input[space_prefix(input) as int]),
        parse_permissions_spec(input) is Err <==> (space_prefix(input) == input.len() || !(is_octal(
            input[space_prefix(input) as int],
        ) || is_textual(input[space_prefix(input) as int]))),
        parse_permissions_spec(input) is Err ==> parse_permissions_spec(input) == Err::<
            Seq<char>,
            OperationError,
        >(OperationError::Failed(Failure::PermissionsUnrecognisedFormat)),
{
    lemma_space_prefix(input);
    let k = space_prefix(input) as int;
    if k < input.len() {
        assert(input.skip(k)[0] == input[k]);
    }
}

pub(crate) fn js_space(c: char) -> (r: bool)
    ensures
        r == is_js_space(c),
{
    ('\u{9}' <= c && c <= '\u{d}') || c == ' ' || c == '\u{a0}' || c == '\u{1680}' || ('\u{2000}'
        <= c && c <= '\u{200a}') || c == '\u{2028}' || c == '\u{2029}' || c == '\u{202f}' || c
        == '\u{205f}' || c == '\u{3000}' || c == '\u{feff}'
}

fn textual_char(c: char) -> (r: bool)
    ensures
        r == is_textual(c),
{
    c == 'd' || c == 'l' || c == 'p' || c == 'c' || c == 'b' || c == 'D' || c == 'r' || c == 'w'
        || c == 'x' || c == 's' || c == 'S' || c == 't' || c == 'T' || c == '-'
}

proof fn lemma_leading_count(s: Seq<char>, octal: bool, cap: nat, k: nat)
    requires
        k <= cap,
        k <= s.len(),
        forall|i: int| 0 <= i < k ==> (if octal {
            is_octal(#[trigger] s[i])
        } else {
            is_textual(s[i])
        }),
        k == cap || k == s.len() || !(if octal {
            is_octal(s[k as int])
        } else {
            is_textual(s[k as int])
        }),
    ensures
        leading_count(s, octal, cap) == k,
    decreases k,
{
    if k > 0 {
        assert forall|i: int| 0 <= i < k - 1 implies (if octal {
            is_octal(#[trigger] s.skip(1)[i])
        } else {
            is_textual(s.skip(1)[i])
        }) by {
            assert(s.skip(1)[i] == s[i + 1]);
        }
        if k < s.len() {
            assert(s.skip(1)[k - 1] == s[k as int]);
        }
        lemma_leading_count(s.skip(1), octal, (cap - 1) as nat, (k - 1) as nat);
    }
}

fn of_kind(c: char, octal: bool) -> (r: bool)
    ensures
        r == if octal {
            is_octal(c)
        } else {
            is_textual(c)
        },
{
    if octal {
        '0' <= c && c <= '7'
    } else {
        textual_char(c)
    }
}

/// How many leading characters of `s[start..]` are octal digits (or textual
/// characters), up to `cap`.
fn count_leading(s: &Vec<char>, start: usize, octal: bool, cap: usize) -> (n: usize)
    requires
        start <= s.len(),
    ensures
        n == leading_count(s@.skip(start as int), octal, cap as nat),
        n <= cap,
        start + n <= s.len(),
{
    let ghost rest = s@.skip(start as int);
    let mut n: usize = 0;
    while n < cap && start + n < s.len() && of_kind(s[start + n], octal)
        invariant
            n <= cap,
            start + n <= s.len(),
            rest == s@.skip(start as int),
            forall|i: int| 0 <= i < n ==> (if octal {
                is_octal(#[trigger] rest[i])
            } else {
                is_textual(rest[i])
            }),
        decreases cap - n,
    {
        assert(rest[n as int] == s@[start + n]);
        n = n + 1;
    }
    proof {
        if n < cap && start + n < s.len() {
            assert(rest[n as int] == s@[start + n]);
        }
        lemma_leading_count(rest, octal, cap as nat, n as nat);
    }
    n
}

/// Reads the octal form: up to four digits, high to low.
fn from_octal(s: &Vec<char>, start: usize) -> (p: Perms)
    requires
        start <= s.len(),
    ensures
        p == from_octal_spec(s@.skip(start as int)),
{
    let ghost rest = s@.skip(start as int);
    let n = count_leading(s, start, true, 4);
    proof {
        lemma_leading_bound(rest, true, 4);
        if 0 < n { assert(rest[0] == s@[start as int]); }
        if 1 < n { assert(rest[1] == s@[start + 1]); }
        if 2 < n { assert(rest[2] == s@[start + 2]); }
        if 3 < n { assert(rest[3] == s@[start + 3]); }
    }
    let d0: u32 = if 0 < n { (s[start] as u32) - 48 } else { 0 };
    let d1: u32 = if 1 < n { (s[start + 1] as u32) - 48 } else { 0 };
    let d2: u32 = if 2 < n { (s[start + 2] as u32) - 48 } else { 0 };
    let d3: u32 = if 3 < n { (s[start + 3] as u32) - 48 } else { 0 };
    proof {
        lemma_leading_bound(rest, true, 4);
        if 0 < n { assert(rest[0] == s@[start as int]); }
        if 1 < n { assert(rest[1] == s@[start + 1]); }
        if 2 < n { assert(rest[2] == s@[start + 2]); }
        if 3 < n { assert(rest[3] == s@[start + 3]); }
    }
    let (special, user, group, other) = if n == 4 {
        (d0, d1, d2, d3)
    } else {
        (0, d0, d1, d2)
    };
    Perms {
        directory: false,
        symlink: false,
        named_pipe: false,
        socket: false,
        char_device: false,
        block_device: false,
        door: false,
        setuid: (special / 4) % 2 == 1,
        setgid: (special / 2) % 2 == 1,
        sticky: special % 2 == 1,
        read_user: (user / 4) % 2 == 1,
        write_user: (user / 2) % 2 == 1,
        exec_user: user % 2 == 1,
        read_group: (group / 4) % 2 == 1,
        write_group: (group / 2) % 2 == 1,
        exec_group: group % 2 == 1,
        read_other: (other / 4) % 2 == 1,
        write_other: (other / 2) % 2 == 1,
        exec_other: other % 2 == 1,
    }
}

proof fn lemma_leading_bound(s: Seq<char>, octal: bool, cap: nat)
    ensures
        leading_count(s, octal, cap) <= cap,
        leading_count(s, octal, cap) <= s.len(),
        forall|i: int| 0 <= i < leading_count(s, octal, cap) ==> (if octal {
            is_octal(#[trigger] s[i])
        } else {
            is_textual(s[i])
        }),
    decreases cap,
{
    if !(cap == 0 || s.len() == 0 || !(if octal {
        is_octal(s[0])
    } else {
        is_textual(s[0])
    })) {
        lemma_leading_bound(s.skip(1), octal, (cap - 1) as nat);
        assert forall|i: int| 0 <= i < leading_count(s, octal, cap) implies (if octal {
            is_octal(#[trigger] s[i])
        } else {
            is_textual(s[i])
        }) by {
            if i > 0 {
                assert(s[i] == s.skip(1)[i - 1]);
            }
        }
    }
}

/// The character at `i` of the field, if the field reaches it.
fn at_exec(s: &Vec<char>, start: usize, n: usize, i: usize) -> (r: Option<char>)
    requires
        start + n <= s.len(),
    ensures
        r == at(s@.skip(start as int), n as nat, i as int),
{
    if i < n {
        assert(s@.skip(start as int)[i as int] == s@[start + i]);
        Some(s[start + i])
    } else {
        None
    }
}

/// Reads the textual form, position by position.
fn from_textual(s: &Vec<char>, start: usize) -> (p: Perms)
    requires
        start <= s.len(),
    ensures
        p == from_textual_spec(s@.skip(start as int)),
{
    let n = count_leading(s, start, false, 10);
    let t = at_exec(s, start, n, 0);
    let x1 = at_exec(s, start, n, 3);
    let x2 = at_exec(s, start, n, 6);
    let x3 = at_exec(s, start, n, 9);
    Perms {
        directory: t == Some('d'),
        symlink: t == Some('l'),
        named_pipe: t == Some('p'),
        socket: t == Some('s'),
        char_device: t == Some('c'),
        block_device: t == Some('b'),
        door: t == Some('D'),
        read_user: at_exec(s, start, n, 1) == Some('r'),
        write_user: at_exec(s, start, n, 2) == Some('w'),
        exec_user: x1 == Some('x') || x1 == Some('s'),
        setuid: x1 == Some('s') || x1 == Some('S'),
        read_group: at_exec(s, start, n, 4) == Some('r'),
        write_group: at_exec(s, start, n, 5) == Some('w'),
        exec_group: x2 == Some('x') || x2 == Some('s'),
        setgid: x2 == Some('s') || x2 == Some('S'),
        read_other: at_exec(s, start, n, 7) == Some('r'),
        write_other: at_exec(s, start, n, 8) == Some('w'),
        exec_other: x3 == Some('x') || x3 == Some('t'),
        sticky: x3 == Some('t') || x3 == Some('T'),
    }
}

fn push_triple(
    out: &mut String,
    read: bool,
    write: bool,
    execute: bool,
    special: bool,
    both: char,
    only: char,
)
    ensures
        final(out)@ == old(out)@ + triple(read, write, execute, special, both, only),
{
    out.push(if read { 'r' } else { '-' });
    out.push(if write { 'w' } else { '-' });
    out.push(
        if execute && special {
            both
        } else if special {
            only
        } else if execute {
            'x'
        } else {
            '-'
        },
    );
}

fn weigh_digit(four: bool, two: bool, one: bool) -> (c: char)
    ensures
        c == weigh(four, two, one),
{
    let v: u8 = (if four { 4 } else { 0 }) + (if two { 2 } else { 0 }) + (if one { 1 } else { 0 });
    (v + 48) as char
}

fn file_type(p: &Perms) -> (r: &'static str)
    ensures
        r@ == file_type_spec(*p),
{
    if p.directory {
        "Directory"
    } else if p.symlink {
        "Symbolic link"
    } else if p.named_pipe {
        "Named pipe"
    } else if p.socket {
        "Socket"
    } else if p.char_device {
        "Character device"
    } else if p.block_device {
        "Block device"
    } else if p.door {
        "Door"
    } else {
        "Regular file"
    }
}

fn push_row(out: &mut String, label: &str, user: bool, group: bool, other: bool)
    ensures
        final(out)@ == old(out)@ + row_spec(label@, user, group, other),
{
    out.append(" |");
    out.append(label);
    out.append(" |");
    push_cell(out, user);
    push_cell(out, group);
    push_cell(out, other);
    out.append("\n");
}

fn push_cell(out: &mut String, granted: bool)
    ensures
        final(out)@ == old(out)@ + cell(granted),
{
    out.append("   ");
    out.push(if granted { 'X' } else { ' ' });
    out.append("   |");
}

fn push_textual(out: &mut String, p: &Perms)
    ensures
        final(out)@ == old(out)@ + textual_spec(*p),
{
    let ghost start = out@;
    out.push(
        if p.door {
            'D'
        } else if p.block_device {
            'b'
        } else if p.char_device {
            'c'
        } else if p.socket {
            's'
        } else if p.named_pipe {
            'p'
        } else if p.symlink {
            'l'
        } else if p.directory {
            'd'
        } else {
            '-'
        },
    );
    let ghost mut acc = seq![type_char(*p)];
    assert(out@ =~= start + acc);
    push_triple(out, p.read_user, p.write_user, p.exec_user, p.setuid, 's', 'S');
    proof {
        let piece = triple(p.read_user, p.write_user, p.exec_user, p.setuid, 's', 'S');
        vstd::seq_lib::lemma_concat_associative(start, acc, piece);
        acc = acc + piece;
    }
    push_triple(out, p.read_group, p.write_group, p.exec_group, p.setgid, 's', 'S');
    proof {
        let piece = triple(p.read_group, p.write_group, p.exec_group, p.setgid, 's', 'S');
        vstd::seq_lib::lemma_concat_associative(start, acc, piece);
        acc = acc + piece;
    }
    push_triple(out, p.read_other, p.write_other, p.exec_other, p.sticky, 't', 'T');
    proof {
        let piece = triple(p.read_other, p.write_other, p.exec_other, p.sticky, 't', 'T');
        vstd::seq_lib::lemma_concat_associative(start, acc, piece);
        acc = acc + piece;
    }
}

fn push_octal(out: &mut String, p: &Perms)
    ensures
        final(out)@ == old(out)@ + octal_spec(*p),
{
    let ghost start = out@;
    out.push(weigh_digit(p.setuid, p.setgid, p.sticky));
    out.push(weigh_digit(p.read_user, p.write_user, p.exec_user));
    out.push(weigh_digit(p.read_group, p.write_group, p.exec_group));
    out.push(weigh_digit(p.read_other, p.write_other, p.exec_other));
    assert(out@ =~= start + octal_spec(*p));
}

fn push_head(out: &mut String, p: &Perms, textual: bool)
    ensures
        final(out)@ == old(out)@ + head_spec(*p, textual),
{
    let ghost start = out@;
    out.append("Textual representation: ");
    push_textual(out, p);
    out.append("\nOctal representation:   ");
    push_octal(out, p);
    let ghost mid = out@;
    if textual {
        out.append("\nFile type: ");
        out.append(file_type(p));
    }
    proof {
        let t = "Textual representation: "@;
        let o = "\nOctal representation:   "@;
        let f = if textual {
            "\nFile type: "@ + file_type_spec(*p)
        } else {
            seq![]
        };
        assert(out@ == mid + f);
        vstd::seq_lib::lemma_concat_associative(start, t, textual_spec(*p));
        vstd::seq_lib::lemma_concat_associative(start, t + textual_spec(*p), o);
        vstd::seq_lib::lemma_concat_associative(start, t + textual_spec(*p) + o, octal_spec(*p));
        vstd::seq_lib::lemma_concat_associative(start, t + textual_spec(*p) + o + octal_spec(*p), f);
    }
}

fn push_flags(out: &mut String, p: &Perms)
    ensures
        final(out)@ == old(out)@ + flags_spec(*p),
{
    let ghost start = out@;
    if p.setuid {
        out.append("\nThe setuid flag is set");
    }
    let ghost a = out@;
    if p.setgid {
        out.append("\nThe setgid flag is set");
    }
    let ghost b = out@;
    if p.sticky {
        out.append("\nThe sticky bit is set");
    }
    assert(out@ =~= start + flags_spec(*p));
}

fn push_table(out: &mut String, p: &Perms)
    ensures
        final(out)@ == old(out)@ + table_spec(*p),
{
    let ghost start = out@;
    let rule = " +---------+-------+-------+-------+\n";
    out.append("\n\n");
    let ghost mut acc = "\n\n"@;
    out.append(rule);
    proof {
        vstd::seq_lib::lemma_concat_associative(start, acc, rule@);
        acc = acc + rule@;
    }
    out.append(" |         | User  | Group | Other |\n");
    proof {
        vstd::seq_lib::lemma_concat_associative(start, acc, " |         | User  | Group | Other |\n"@);
        acc = acc + " |         | User  | Group | Other |\n"@;
    }
    out.append(rule);
    proof {
        vstd::seq_lib::lemma_concat_associative(start, acc, rule@);
        acc = acc + rule@;
    }
    push_row(out, "    Read", p.read_user, p.read_group, p.read_other);
    proof {
        let piece = row_spec("    Read"@, p.read_user, p.read_group, p.read_other);
        vstd::seq_lib::lemma_concat_associative(start, acc, piece);
        acc = acc + piece;
    }
    out.append(rule);
    proof {
        vstd::seq_lib::lemma_concat_associative(start, acc, rule@);
        acc = acc + rule@;
    }
    push_row(out, "   Write", p.write_user, p.write_group, p.write_other);
    proof {
        let piece = row_spec("   Write"@, p.write_user, p.write_group, p.write_other);
        vstd::seq_lib::lemma_concat_associative(start, acc, piece);
        acc = acc + piece;
    }
    out.append(rule);
    proof {
        vstd::seq_lib::lemma_concat_associative(start, acc, rule@);
        acc = acc + rule@;
    }
    push_row(out, " Execute", p.exec_user, p.exec_group, p.exec_other);
    proof {
        let piece = row_spec(" Execute"@, p.exec_user, p.exec_group, p.exec_other);
        vstd::seq_lib::lemma_concat_associative(start, acc, piece);
        acc = acc + piece;
    }
    out.append(" +---------+-------+-------+-------+");
    proof {
        vstd::seq_lib::lemma_concat_associative(start, acc, " +---------+-------+-------+-------+"@);
        acc = acc + " +---------+-------+-------+-------+"@;
        assert(acc == table_spec(*p));
    }
}

/// Builds the report. The file-type line appears only for textual input.
fn render(p: &Perms, textual: bool) -> (out: String)
    ensures
        out@ == render_spec(*p, textual),
{
    let mut out = String::new();
    push_head(&mut out, p, textual);
    push_flags(&mut out, p);
    push_table(&mut out, p);
    proof {
        let e = Seq::<char>::empty();
        assert(e + head_spec(*p, textual) == head_spec(*p, textual));
        vstd::seq_lib::lemma_concat_associative(head_spec(*p, textual), flags_spec(*p), table_spec(*p));
    }
    out
}

/// Explains a permission string given in octal or textual form.
///
/// Leading JavaScript whitespace is skipped; octal is tried first, so a
/// string that could read as either is octal.
pub fn parse_permissions(input: &str) -> (r: Result<String, OperationError>)
    ensures
        match r {
            Ok(s) => parse_permissions_spec(input@) == Ok::<Seq<char>, OperationError>(s@),
            Err(e) => parse_permissions_spec(input@) == Err::<Seq<char>, OperationError>(e),
        },
{
    let s = chars_of(input);
    let mut start: usize = 0;
    assert(input@.skip(0) == input@);
    while start < s.len() && js_space(s[start])
        invariant
            start <= s.len(),
            s@ == input@,
            space_prefix(input@) == start + space_prefix(input@.skip(start as int)),
        decreases s.len() - start,
    {
        assert(input@.skip(start as int)[0] == s@[start as int]);
        assert(input@.skip(start as int).skip(1) == input@.skip(start + 1));
        start = start + 1;
    }
    proof {
        if start < s.len() {
            assert(input@.skip(start as int)[0] == s@[start as int]);
        }
        assert(space_prefix(input@.skip(start as int)) == 0);
    }
    if start < s.len() && '0' <= s[start] && s[start] <= '7' {
        assert(input@.skip(start as int)[0] == s@[start as int]);
        Ok(render(&from_octal(&s, start), false))
    } else if start < s.len() && textual_char(s[start]) {
        assert(input@.skip(start as int)[0] == s@[start as int]);
        Ok(render(&from_textual(&s, start), true))
    } else {
        Err(OperationError::Failed(Failure::PermissionsUnrecognisedFormat))
    }
}

/// Explains which permissions a UNIX mode grants to which users.
pub struct ParseUnixFilePermissions {}

impl ParseUnixFilePermissions {
    /// Creates the operation.
    pub fn new() -> Self {
        ParseUnixFilePermissions {  }
    }

    /// Runs the operation; see `parse_permissions`.
    pub fn execute(&self, input: &str) -> (r: Result<String, OperationError>)
        ensures
            match r {
                Ok(s) => parse_permissions_spec(input@) == Ok::<Seq<char>, OperationError>(s@),
                Err(e) => parse_permissions_spec(input@) == Err::<Seq<char>, OperationError>(e),
            },
    {
        parse_permissions(input)
    }
}


/// A well-formed ten-character textual permission string: a file type, then
/// three read/write/execute triples, the execute places also carrying the
/// setuid, setgid and sticky flags.
pub open spec fn well_formed_textual(t: Seq<char>) -> bool {
    &&& t.len() == 10
    &&& (t[0] == '-' || t[0] == 'd' || t[0] == 'l' || t[0] == 'p' || t[0] == 's' || t[0] == 'c' || t[0] == 'b'
        || t[0] == 'D')
    &&& (t[1] == 'r' || t[1] == '-') && (t[4] == 'r' || t[4] == '-') && (t[7] == 'r' || t[7] == '-')
    &&& (t[2] == 'w' || t[2] == '-') && (t[5] == 'w' || t[5] == '-') && (t[8] == 'w' || t[8] == '-')
    &&& (t[3] == 'x' || t[3] == 's' || t[3] == 'S' || t[3] == '-')
    &&& (t[6] == 'x' || t[6] == 's' || t[6] == 'S' || t[6] == '-')
    &&& (t[9] == 'x' || t[9] == 't' || t[9] == 'T' || t[9] == '-')
}

proof fn lemma_leading_textual(s: Seq<char>, k: nat)
    requires
        k <= s.len(),
        forall|i: int| 0 <= i < k ==> is_textual(#[trigger] s[i]),
    ensures
        leading_count(s, false, k) == k,
    decreases k,
{
    if k > 0 {
        let t = s.skip(1);
        assert forall|i: int| 0 <= i < (k - 1) as nat implies is_textual(#[trigger] t[i]) by {
            assert(t[i] == s[i + 1]);
        }
        lemma_leading_textual(t, (k - 1) as nat);
    }
}

proof fn lemma_triple_back(a: char, b: char, c: char, both: char, only: char)
    requires
        a == 'r' || a == '-',
        b == 'w' || b == '-',
        c == 'x' || c == both || c == only || c == '-',
        both != 'x' && only != 'x' && both != only && both != '-' && only != '-',
    ensures
        triple(a == 'r', b == 'w', c == 'x' || c == both, c == both || c == only, both, only) =~= seq![a, b, c],
{
}

proof fn lemma_type_back(t: Seq<char>)
    requires
        well_formed_textual(t),
    ensures
        type_char(from_textual_spec(t)) == t[0],
{
    lemma_leading_textual_ten(t);
}

proof fn lemma_leading_textual_ten(t: Seq<char>)
    requires
        well_formed_textual(t),
    ensures
        leading_count(t, false, 10) == 10,
{
    assert forall|i: int| 0 <= i < 10 implies is_textual(#[trigger] t[i]) by {}
    lemma_leading_textual(t, 10);
}

proof fn lemma_textual_fields(t: Seq<char>)
    requires
        well_formed_textual(t),
    ensures
        from_textual_spec(t).read_user == (t[1] == 'r'),
        from_textual_spec(t).write_user == (t[2] == 'w'),
        from_textual_spec(t).exec_user == (t[3] == 'x' || t[3] == 's'),
        from_textual_spec(t).setuid == (t[3] == 's' || t[3] == 'S'),
        from_textual_spec(t).read_group == (t[4] == 'r'),
        from_textual_spec(t).write_group == (t[5] == 'w'),
        from_textual_spec(t).exec_group == (t[6] == 'x' || t[6] == 's'),
        from_textual_spec(t).setgid == (t[6] == 's' || t[6] == 'S'),
        from_textual_spec(t).read_other == (t[7] == 'r'),
        from_textual_spec(t).write_other == (t[8] == 'w'),
        from_textual_spec(t).exec_other == (t[9] == 'x' || t[9] == 't'),
        from_textual_spec(t).sticky == (t[9] == 't' || t[9] == 'T'),
{
    lemma_leading_textual_ten(t);
}

/// Reading a well-formed textual permission string and writing the flags
/// back in textual form gives the same ten characters: each character sets
/// exactly the flags that print as it, so an `s` in the user's execute
/// place sets both setuid and the user's execute bit.
#[verifier::spinoff_prover]
#[verifier::rlimit(60)]
pub proof fn lemma_textual_round_trip(t: Seq<char>)
    requires
        well_formed_textual(t),
    ensures
        textual_spec(from_textual_spec(t)) == t,
{
    let p = from_textual_spec(t);
    lemma_textual_fields(t);
    lemma_triple_back(t[1], t[2], t[3], 's', 'S');
    lemma_triple_back(t[4], t[5], t[6], 's', 'S');
    lemma_triple_back(t[7], t[8], t[9], 't', 'T');
    lemma_type_back(t);
    let u = triple(p.read_user, p.write_user, p.exec_user, p.setuid, 's', 'S');
    let g = triple(p.read_group, p.write_group, p.exec_group, p.setgid, 's', 'S');
    let o = triple(p.read_other, p.write_other, p.exec_other, p.sticky, 't', 'T');
    assert(u == seq![t[1], t[2], t[3]]);
    assert(g == seq![t[4], t[5], t[6]]);
    assert(o == seq![t[7], t[8], t[9]]);
    assert(textual_spec(p) == seq![type_char(p)] + u + g + o);
    assert(seq![t[0]] + seq![t[1], t[2], t[3]] + seq![t[4], t[5], t[6]] + seq![t[7], t[8], t[9]] =~= t);
}
} // verus!
