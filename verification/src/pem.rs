//! PEM framing around a base64 body.

use vstd::prelude::*;

use crate::error::{Failure, OperationError};
use crate::strings::{copy_range, find, find_from, lemma_find_bounds};
use crate::quoted_printable::run_before;
use crate::text::{chars_of, is_whitespace, string_of, whitespace};

verus! {

/// Where the body is folded.
pub const FOLD_AT: usize = 64;

/// The body with a CRLF after every sixty-four characters.
pub open spec fn folded(body: Seq<char>) -> Seq<char>
    decreases body.len(),
{
    if body.len() == 0 {
        seq![]
    } else {
        let n = body.len() - 1;
        folded(body.drop_last()) + seq![body.last()] + if (n + 1) % 64 == 0 {
            seq!['\r', '\n']
        } else {
            seq![]
        }
    }
}

/// How many whitespace characters end the text.
pub open spec fn trailing_whitespace(s: Seq<char>) -> nat
    decreases s.len(),
{
    if s.len() > 0 && is_whitespace(s.last()) {
        1 + trailing_whitespace(s.drop_last())
    } else {
        0
    }
}

/// The text without trailing whitespace.
pub open spec fn trim_end_spec(s: Seq<char>) -> Seq<char> {
    s.take(s.len() - trailing_whitespace(s))
}

proof fn lemma_trailing_whitespace(s: Seq<char>)
    ensures
        trailing_whitespace(s) <= s.len(),
    decreases s.len(),
{
    if s.len() > 0 && is_whitespace(s.last()) {
        lemma_trailing_whitespace(s.drop_last());
    }
}

/// Breaks the body every sixty-four characters, then trims trailing space.
pub fn fold(body: &str) -> (r: String)
    ensures
        r@ == trim_end_spec(folded(body@)),
{
    let cs = chars_of(body);
    let mut out: Vec<char> = Vec::new();
    let mut i: usize = 0;
    while i < cs.len()
        invariant
            i <= cs.len(),
            cs@ == body@,
            out@ == folded(cs@.take(i as int)),
        decreases cs.len() - i,
    {
        out.push(cs[i]);
        if (i + 1) % FOLD_AT == 0 {
            out.push('\r');
            out.push('\n');
        }
        proof {
            assert(cs@.take(i + 1).drop_last() == cs@.take(i as int));
            assert(cs@.take(i + 1).last() == cs@[i as int]);
        }
        assert(out@ =~= folded(cs@.take(i + 1)));
        i = i + 1;
    }
    assert(cs@.take(cs.len() as int) == cs@);
    let mut n = out.len();
    proof {
        lemma_trailing_whitespace(out@);
        assert(out@.take(out.len() as int) == out@);
    }
    while n > 0 && whitespace(out[n - 1])
        invariant
            n <= out.len(),
            trailing_whitespace(out@) == (out.len() - n) + trailing_whitespace(out@.take(n as int)),
        decreases n,
    {
        assert(out@.take(n as int).drop_last() == out@.take(n - 1));
        assert(out@.take(n as int).last() == out@[n - 1]);
        n = n - 1;
    }
    let mut trimmed: Vec<char> = Vec::new();
    let mut k: usize = 0;
    while k < n
        invariant
            k <= n <= out.len(),
            trimmed@ == out@.take(k as int),
        decreases n - k,
    {
        trimmed.push(out[k]);
        k = k + 1;
    }
    string_of(&trimmed)
}

fn push_chars(out: &mut Vec<char>, extra: &Vec<char>)
    ensures
        final(out)@ == old(out)@ + extra@,
{
    let mut i: usize = 0;
    while i < extra.len()
        invariant
            i <= extra.len(),
            out@ == old(out)@ + extra@.take(i as int),
        decreases extra.len() - i,
    {
        out.push(extra[i]);
        i = i + 1;
    }
    assert(extra@.take(extra.len() as int) == extra@);
}

/// A base64 body framed as a PEM block, with CRLF line endings and a CRLF
/// after the footer.
pub open spec fn frame_spec(body: Seq<char>, header: Seq<char>) -> Seq<char> {
    "-----BEGIN "@ + header + "-----\r\n"@ + trim_end_spec(folded(body)) + "\r\n-----END "@ + header
        + "-----\r\n"@
}

/// Frames a base64 body as a PEM block under `header`.
pub fn frame(body: &str, header: &str) -> (r: String)
    ensures
        r@ == frame_spec(body@, header@),
{
    let mut out: Vec<char> = Vec::new();
    push_chars(&mut out, &chars_of("-----BEGIN "));
    push_chars(&mut out, &chars_of(header));
    push_chars(&mut out, &chars_of("-----\r\n"));
    let f = fold(body);
    push_chars(&mut out, &chars_of(f.as_str()));
    push_chars(&mut out, &chars_of("\r\n-----END "));
    push_chars(&mut out, &chars_of(header));
    push_chars(&mut out, &chars_of("-----\r\n"));
    string_of(&out)
}

/// Whether a label matches `[A-Z][A-Z ]+[A-Z]`.
pub open spec fn is_label_spec(label: Seq<char>) -> bool {
    label.len() >= 3 && 'A' <= label[0] <= 'Z' && 'A' <= label.last() <= 'Z' && forall|i: int|
        0 <= i < label.len() ==> ('A' <= #[trigger] label[i] <= 'Z' || label[i] == ' ')
}

/// Whether a label is upper-case letters and spaces, starting and ending
/// with a letter.
pub fn is_label(label: &Vec<char>) -> (r: bool)
    ensures
        r == is_label_spec(label@),
{
    let n = label.len();
    if n < 3 {
        return false;
    }
    if !('A' <= label[0] && label[0] <= 'Z') || !('A' <= label[n - 1] && label[n - 1] <= 'Z') {
        return false;
    }
    let mut i: usize = 0;
    while i < n
        invariant
            i <= n == label.len(),
            forall|k: int| 0 <= k < i ==> ('A' <= #[trigger] label@[k] <= 'Z' || label@[k] == ' '),
        decreases n - i,
    {
        if !(('A' <= label[i] && label[i] <= 'Z') || label[i] == ' ') {
            return false;
        }
        i = i + 1;
    }
    true
}

/// The next `-----BEGIN LABEL-----` at or after `offset`: its label and
/// what follows it.
pub open spec fn next_header_spec(s: Seq<char>, offset: int) -> Option<(Seq<char>, Seq<char>)>
    decreases s.len() + 1 - offset,
{
    match find_from(s, "-----BEGIN "@, offset) {
        None => None,
        Some(at) => {
            proof {
                lemma_find_bounds(s, "-----BEGIN "@, offset);
                reveal_strlit("-----BEGIN ");
            }
            let start = at + 11;
            match find_from(s, "-----"@, start) {
                Some(w) => if is_label_spec(s.subrange(start, w)) {
                    Some((s.subrange(start, w), s.skip(w + 5)))
                } else {
                    next_header_spec(s, start)
                },
                None => next_header_spec(s, start),
            }
        },
    }
}

pub proof fn lemma_next_header(s: Seq<char>, offset: int)
    requires
        0 <= offset,
    ensures
        next_header_spec(s, offset) matches Some((label, after)) ==> after.len() < s.len(),
    decreases s.len() + 1 - offset,
{
    lemma_find_bounds(s, "-----BEGIN "@, offset);
    reveal_strlit("-----BEGIN ");
    reveal_strlit("-----");
    match find_from(s, "-----BEGIN "@, offset) {
        None => {},
        Some(at) => {
            let start = at + 11;
            lemma_find_bounds(s, "-----"@, start);
            match find_from(s, "-----"@, start) {
                Some(w) => if !is_label_spec(s.subrange(start, w)) {
                    lemma_next_header(s, start);
                },
                None => {
                    lemma_next_header(s, start);
                },
            }
        },
    }
}

/// The bodies of every PEM block, in order; text around them is ignored.
pub open spec fn pem_bodies_spec(s: Seq<char>) -> Result<Seq<Seq<char>>, Failure>
    decreases s.len(),
{
    match next_header_spec(s, 0) {
        None => Ok(seq![]),
        Some((label, after)) => {
            let footer = "-----END "@ + label + "-----"@;
            match find_from(after, footer, 0) {
                None => Err(Failure::PemMissingFooter),
                Some(end) => {
                    proof {
                        lemma_next_header(s, 0);
                        lemma_find_bounds(after, footer, 0);
                    }
                    match pem_bodies_spec(after.skip(end + footer.len())) {
                        Err(e) => Err(e),
                        Ok(rest) => Ok(seq![after.take(end)] + rest),
                    }
                },
            }
        },
    }
}


/// Finds the next `-----BEGIN LABEL-----` at or after `offset`; answers the
/// label's bounds and where the text after the header starts.
pub fn next_header(s: &Vec<char>, offset: usize) -> (r: Option<(usize, usize, usize)>)
    requires
        offset <= s.len(),
    ensures
        match next_header_spec(s@, offset as int) {
            None => r is None,
            Some((label, after)) => r matches Some((a, b, c)) && a <= b <= s.len() && c <= s.len() && label
                == s@.subrange(a as int, b as int) && after == s@.skip(c as int),
        },
{
    let open = chars_of("-----BEGIN ");
    let close = chars_of("-----");
    proof {
        reveal_strlit("-----BEGIN ");
        reveal_strlit("-----");
    }
    let mut off = offset;
    loop
        invariant
            off <= s.len(),
            open@ == "-----BEGIN "@,
            close@ == "-----"@,
            open@.len() == 11,
            close@.len() == 5,
            next_header_spec(s@, offset as int) == next_header_spec(s@, off as int),
        decreases s.len() - off,
    {
        proof {
            lemma_find_bounds(s@, open@, off as int);
        }
        match find(s, &open, off) {
            None => {
                return None;
            },
            Some(at) => {
                let start = at + open.len();
                proof {
                    lemma_find_bounds(s@, close@, start as int);
                }
                match find(s, &close, start) {
                    Some(w) => {
                        let label = copy_range(s, start, w);
                        if is_label(&label) {
                            return Some((start, w, w + close.len()));
                        }
                    },
                    None => {},
                }
                off = start;
            },
        }
    }
}

/// Extracts the body of every PEM block, in order. A block that opens and
/// never closes is refused.
pub fn pem_bodies(input: &str) -> (r: Result<Vec<String>, OperationError>)
    ensures
        match pem_bodies_spec(input@) {
            Ok(t) => r matches Ok(v) && v@.map_values(|b: String| b@) == t,
            Err(f) => r == Err::<Vec<String>, OperationError>(OperationError::Failed(f)),
        },
{
    let mut rest = chars_of(input);
    let mut bodies: Vec<String> = Vec::new();
    let ghost whole = pem_bodies_spec(input@);
    loop
        invariant
            whole == pem_bodies_spec(input@),
            whole == match pem_bodies_spec(rest@) {
                Err(e) => Err(e),
                Ok(t) => Ok(bodies@.map_values(|b: String| b@) + t),
            },
        decreases rest.len(),
    {
        let found = next_header(&rest, 0);
        proof {
            lemma_next_header(rest@, 0);
        }
        match found {
            None => {
                assert(bodies@.map_values(|b: String| b@) + Seq::<Seq<char>>::empty() == bodies@.map_values(
                    |b: String| b@,
                ));
                return Ok(bodies);
            },
            Some((a, b, c)) => {
                let label = copy_range(&rest, a, b);
                let mut footer = chars_of("-----END ");
                push_chars(&mut footer, &label);
                push_chars(&mut footer, &chars_of("-----"));
                let after = copy_range(&rest, c, rest.len());
                assert(after@ == rest@.skip(c as int));
                proof {
                    lemma_find_bounds(after@, footer@, 0);
                }
                match find(&after, &footer, 0) {
                    None => {
                        return Err(OperationError::Failed(Failure::PemMissingFooter));
                    },
                    Some(end) => {
                        let body = copy_range(&after, 0, end);
                        let ghost before = bodies@.map_values(|b: String| b@);
                        bodies.push(string_of(&body));
                        assert(bodies@.map_values(|b: String| b@) == before.push(after@.take(end as int)));
                        let next = copy_range(&after, end + footer.len(), after.len());
                        assert(next@ == after@.skip(end + footer.len()));
                        proof {
                            let t = pem_bodies_spec(next@);
                            match t {
                                Ok(x) => {
                                    assert(before + (seq![after@.take(end as int)] + x) == before.push(
                                        after@.take(end as int),
                                    ) + x);
                                },
                                Err(_) => {},
                            }
                        }
                        rest = next;
                    },
                }
            },
        }
    }
}


/// The text with every CR LF pair deleted.
pub open spec fn remove_crlf(s: Seq<char>) -> Seq<char>
    decreases s.len(),
{
    if s.len() == 0 {
        seq![]
    } else if s.len() >= 2 && s[s.len() - 2] == '\r' && s.last() == '\n' {
        remove_crlf(s.take(s.len() - 2))
    } else {
        remove_crlf(s.drop_last()).push(s.last())
    }
}

proof fn lemma_run_prefix(a: Seq<char>, b: Seq<char>, j: int)
    requires
        0 <= j <= a.len(),
    ensures
        run_before(a + b, j) == run_before(a, j),
    decreases j,
{
    if j > 0 {
        assert((a + b)[j - 1] == a[j - 1]);
        lemma_run_prefix(a, b, j - 1);
    }
}

proof fn lemma_mod_succ(n: int)
    requires
        n >= 0,
    ensures
        (n + 1) % 64 == if n % 64 == 63 {
            0
        } else {
            n % 64 + 1
        },
{
    vstd::arithmetic::div_mod::lemma_fundamental_div_mod(n, 64);
    let q = n / 64;
    let r = n % 64;
    if r == 63 {
        vstd::arithmetic::div_mod::lemma_fundamental_div_mod_converse(n + 1, 64, q + 1, 0);
    } else {
        vstd::arithmetic::div_mod::lemma_fundamental_div_mod_converse(n + 1, 64, q, r + 1);
    }
}

/// The shape of the folded body, before trimming.
proof fn lemma_folded_shape(b: Seq<char>)
    requires
        forall|i: int| 0 <= i < b.len() ==> #[trigger] b[i] != '\r' && b[i] != '\n',
    ensures
        remove_crlf(folded(b)) == b,
        run_before(folded(b), folded(b).len() as int) == b.len() % 64,
        forall|j: int|
            0 <= j < folded(b).len() && #[trigger] folded(b)[j] == '\r' ==> j + 1 < folded(b).len()
                && folded(b)[j + 1] == '\n' && run_before(folded(b), j) == 64,
        forall|j: int| 0 <= j < folded(b).len() && #[trigger] folded(b)[j] == '\n' ==> j > 0 && folded(b)[j - 1] == '\r',
        b.len() > 0 && b.len() % 64 != 0 ==> folded(b).len() > 0 && folded(b).last() == b.last(),
        b.len() > 0 && b.len() % 64 == 0 ==> folded(b).len() >= 3 && folded(b).last() == '\n' && folded(b)[folded(
            b,
        ).len() - 2] == '\r' && folded(b)[folded(b).len() - 3] == b.last() && folded(b).take(
            folded(b).len() - 2,
        ) == folded(b.drop_last()).push(b.last()),
    decreases b.len(),
{
    if b.len() > 0 {
        let bp = b.drop_last();
        let c = b.last();
        assert(c == b[b.len() - 1]);
        assert forall|i: int| 0 <= i < bp.len() implies #[trigger] bp[i] != '\r' && bp[i] != '\n' by {
            assert(bp[i] == b[i]);
        }
        lemma_folded_shape(bp);
        let g = folded(bp);
        let h = g.push(c);
        let n = bp.len() as int;
        lemma_mod_succ(n);
        lemma_run_prefix(g, seq![c], g.len() as int);
        assert(h =~= g + seq![c]);
        assert(run_before(h, h.len() as int) == n % 64 + 1);
        assert forall|j: int| 0 <= j <= g.len() implies run_before(h, j) == run_before(g, j) by {
            lemma_run_prefix(g, seq![c], j);
        }
        assert(h.drop_last() =~= g);
        assert(h.last() == c);
        assert(remove_crlf(h) == remove_crlf(g).push(c));
        assert(b =~= bp.push(c));
        if (n + 1) % 64 == 0 {
            let f = h + seq!['\r', '\n'];
            assert(folded(b) == f);
            assert forall|j: int| 0 <= j <= h.len() implies run_before(f, j) == run_before(h, j) by {
                lemma_run_prefix(h, seq!['\r', '\n'], j);
            }
            assert(f.take(f.len() - 2) =~= h);
            assert(remove_crlf(f) == remove_crlf(h));
            assert(f[f.len() - 1] == '\n');
            assert(run_before(f, f.len() as int) == 0);
            assert forall|j: int| 0 <= j < f.len() && #[trigger] f[j] == '\r' implies j + 1 < f.len() && f[j + 1] == '\n'
                && run_before(f, j) == 64 by {
                if j < g.len() {
                    assert(f[j] == g[j]);
                    assert(f[j + 1] == g[j + 1] || j + 1 == g.len());
                    if j + 1 == g.len() {
                        assert(g[j] == '\r');
                    }
                    assert(f[j + 1] == g[j + 1]);
                }
            }
            assert forall|j: int| 0 <= j < f.len() && #[trigger] f[j] == '\n' implies j > 0 && f[j - 1] == '\r' by {
                if j < g.len() {
                    assert(f[j] == g[j]);
                    assert(f[j - 1] == g[j - 1]);
                }
            }
        } else {
            assert(folded(b) == h + Seq::<char>::empty());
            assert(h + Seq::<char>::empty() =~= h);
            assert forall|j: int| 0 <= j < h.len() && #[trigger] h[j] == '\r' implies j + 1 < h.len() && h[j + 1] == '\n'
                && run_before(h, j) == 64 by {
                if j < g.len() {
                    assert(h[j] == g[j]);
                    if j + 1 == g.len() {
                        assert(g[j] == '\r');
                    }
                    assert(h[j + 1] == g[j + 1]);
                }
            }
            assert forall|j: int| 0 <= j < h.len() && #[trigger] h[j] == '\n' implies j > 0 && h[j - 1] == '\r' by {
                if j < g.len() {
                    assert(h[j] == g[j]);
                    assert(h[j - 1] == g[j - 1]);
                }
            }
        }
    }
}

/// Folding a body breaks it into lines of sixty-four characters: in what
/// `fold` writes, every carriage return is followed by a line feed and ends
/// a line of exactly sixty-four characters, every line feed follows a
/// carriage return, the last line holds at most sixty-four, and deleting the
/// CR LF pairs gives the body back. This holds of every body without line
/// breaks that does not end in whitespace, as a base64 body does not.
pub proof fn lemma_fold_lines(body: Seq<char>)
    requires
        forall|i: int| 0 <= i < body.len() ==> #[trigger] body[i] != '\r' && body[i] != '\n',
        body.len() == 0 || !is_whitespace(body.last()),
    ensures
        remove_crlf(trim_end_spec(folded(body))) == body,
        forall|j: int|
            0 <= j < trim_end_spec(folded(body)).len() && #[trigger] trim_end_spec(folded(body))[j] == '\r' ==> j + 1
                < trim_end_spec(folded(body)).len() && trim_end_spec(folded(body))[j + 1] == '\n' && run_before(
                trim_end_spec(folded(body)),
                j,
            ) == 64,
        forall|j: int|
            0 <= j < trim_end_spec(folded(body)).len() && #[trigger] trim_end_spec(folded(body))[j] == '\n' ==> j > 0
                && trim_end_spec(folded(body))[j - 1] == '\r',
        run_before(trim_end_spec(folded(body)), trim_end_spec(folded(body)).len() as int) <= 64,
{
    lemma_folded_shape(body);
    let f = folded(body);
    if body.len() == 0 {
        assert(f.len() == 0);
        assert(trailing_whitespace(f) == 0);
        assert(trim_end_spec(f) =~= f);
    } else if body.len() % 64 != 0 {
        assert(trailing_whitespace(f) == 0);
        assert(trim_end_spec(f) =~= f);
        assert(body.len() % 64 < 64);
    } else {
        let h = f.take(f.len() - 2);
        assert(f.drop_last().last() == '\r');
        assert(f.drop_last().drop_last() =~= h);
        assert(h.last() == body.last());
        assert(trailing_whitespace(h) == 0);
        assert(is_whitespace('\r') && is_whitespace('\n'));
        assert(f.last() == '\n');
        assert(trailing_whitespace(f) == 1 + trailing_whitespace(f.drop_last()));
        assert(trailing_whitespace(f.drop_last()) == 1 + trailing_whitespace(h));
        assert(trailing_whitespace(f) == 2);
        assert(trim_end_spec(f) == h);
        let bp = body.drop_last();
        assert forall|i: int| 0 <= i < bp.len() implies #[trigger] bp[i] != '\r' && bp[i] != '\n' by {
            assert(bp[i] == body[i]);
        }
        lemma_folded_shape(bp);
        let g = folded(bp);
        assert(h == g.push(body.last()));
        assert(h.drop_last() =~= g);
        assert(remove_crlf(h) == remove_crlf(g).push(body.last()));
        assert(body =~= bp.push(body.last()));
        lemma_run_prefix(g, seq![body.last()], g.len() as int);
        assert(h =~= g + seq![body.last()]);
        lemma_mod_succ(bp.len() as int);
        assert(run_before(h, h.len() as int) == bp.len() % 64 + 1);
        assert forall|j: int| 0 <= j < h.len() && #[trigger] h[j] == '\r' implies j + 1 < h.len() && h[j + 1] == '\n'
            && run_before(h, j) == 64 by {
            assert(h[j] == f[j]);
            assert(f[j] == '\r');
            assert(h[j + 1] == f[j + 1]);
            assert(run_before(f, j) == run_before(h, j)) by {
                assert(f =~= h + f.skip(f.len() - 2));
                lemma_run_prefix(h, f.skip(f.len() - 2), j);
            }
        }
        assert forall|j: int| 0 <= j < h.len() && #[trigger] h[j] == '\n' implies j > 0 && h[j - 1] == '\r' by {
            assert(h[j] == f[j]);
            assert(h[j - 1] == f[j - 1]);
        }
    }
}
} // verus!
