//! The decisions of the suggestion search: which candidate operations an
//! input calls for, in the order they are tried, and the hits that a
//! candidate's output makes. Running the candidates is left to the caller.

use vstd::prelude::*;

use crate::suggest::{
    looks_defanged, looks_defanged_spec, looks_like_base32, looks_like_base32_spec, looks_like_base64,
    looks_like_base64_spec, looks_like_hex, looks_like_hex_spec, looks_like_html_entities,
    looks_like_html_entities_spec, looks_like_url_encoded, looks_like_url_encoded_spec, looks_like_zlib,
    looks_like_zlib_spec, looks_mostly_alpha, looks_mostly_alpha_spec, preview_of, preview_spec,
    score_output, score_spec, Hit, Options, Step,
};
use crate::text::{chars_of, is_whitespace, string_of, utf8_text, whitespace};

verus! {

/// The candidate operations the search knows how to propose.
#[derive(Clone, Copy, Debug, PartialEq, Eq, Structural)]
pub enum ProbeKind {
    Gunzip,
    Bzip2,
    Zlib,
    RawInflate,
    Hex,
    Base64,
    Base32,
    Url,
    Html,
    Defang,
    Rot13,
}

/// What a candidate runs on: the input's bytes, or its text.
#[derive(Clone, Copy, Debug, PartialEq, Eq, Structural)]
pub enum ProbeInput {
    Bytes,
    Text,
}

/// One candidate: the step that re-runs it, why it was proposed, and what
/// it runs on.
#[derive(Clone, Copy)]
pub struct Probe {
    pub step: Step,
    pub reason: &'static str,
    pub input: ProbeInput,
}

/// The step, reason and input of each candidate.
pub open spec fn probe_spec(kind: ProbeKind) -> Probe {
    match kind {
        ProbeKind::Gunzip => Probe {
            step: Step {
                id: "compression.gunzip@1",
                alias: "Gunzip",
                args_summary: "(none)",
                recipe_fragment: "{\"op\":\"Gunzip\",\"args\":[]}",
            },
            reason: "gzip magic 1f 8b",
            input: ProbeInput::Bytes,
        },
        ProbeKind::Bzip2 => Probe {
            step: Step {
                id: "compression.bzip2.decompress@1",
                alias: "Bzip2 Decompress",
                args_summary: "low_memory=false",
                recipe_fragment: "{\"op\":\"Bzip2 Decompress\",\"args\":[false]}",
            },
            reason: "bzip2 magic BZh",
            input: ProbeInput::Bytes,
        },
        ProbeKind::Zlib => Probe {
            step: Step {
                id: "compression.zlib.inflate@1",
                alias: "Zlib Inflate",
                args_summary: "start_index=0",
                recipe_fragment: "{\"op\":\"Zlib Inflate\",\"args\":[0,0,\"Adaptive\",false,false]}",
            },
            reason: "zlib CMF/FLG header",
            input: ProbeInput::Bytes,
        },
        ProbeKind::RawInflate => Probe {
            step: Step {
                id: "compression.raw.inflate@1",
                alias: "Raw Inflate",
                args_summary: "start_index=0",
                recipe_fragment: "{\"op\":\"Raw Inflate\",\"args\":[0,0,\"Adaptive\",false,false]}",
            },
            reason: "possible raw deflate stream",
            input: ProbeInput::Bytes,
        },
        ProbeKind::Hex => Probe {
            step: Step {
                id: "encoding.hex.decode@1",
                alias: "From Hex",
                args_summary: "delimiter=Auto",
                recipe_fragment: "{\"op\":\"From Hex\",\"args\":[\"Auto\"]}",
            },
            reason: "high density of hex digits",
            input: ProbeInput::Text,
        },
        ProbeKind::Base64 => Probe {
            step: Step {
                id: "encoding.base64.decode@1",
                alias: "From Base64",
                args_summary: "alphabet=A-Za-z0-9+/=",
                recipe_fragment: "{\"op\":\"From Base64\",\"args\":[\"A-Za-z0-9+/=\",true,false]}",
            },
            reason: "base64 alphabet and padding shape",
            input: ProbeInput::Text,
        },
        ProbeKind::Base32 => Probe {
            step: Step {
                id: "encoding.base32.decode@1",
                alias: "From Base32",
                args_summary: "alphabet=A-Z2-7=",
                recipe_fragment: "{\"op\":\"From Base32\",\"args\":[\"A-Z2-7=\",true]}",
            },
            reason: "base32 alphabet density",
            input: ProbeInput::Text,
        },
        ProbeKind::Url => Probe {
            step: Step {
                id: "encoding.url.decode@1",
                alias: "URL Decode",
                args_summary: "treat_plus_as_space=true",
                recipe_fragment: "{\"op\":\"URL Decode\",\"args\":[true]}",
            },
            reason: "percent-encoded sequences present",
            input: ProbeInput::Text,
        },
        ProbeKind::Html => Probe {
            step: Step {
                id: "encoding.html.decode@1",
                alias: "From HTML Entity",
                args_summary: "(none)",
                recipe_fragment: "{\"op\":\"From HTML Entity\",\"args\":[]}",
            },
            reason: "HTML entities present",
            input: ProbeInput::Text,
        },
        ProbeKind::Defang => Probe {
            step: Step {
                id: "defang.fang_url@1",
                alias: "Fang URL",
                args_summary: "restore dots/hxxp/slashes",
                recipe_fragment: "{\"op\":\"Fang URL\",\"args\":[true,true,true]}",
            },
            reason: "defanged URL markers (hxxp / [.] / [://])",
            input: ProbeInput::Text,
        },
        ProbeKind::Rot13 => Probe {
            step: Step {
                id: "encoding.rot13@1",
                alias: "ROT13",
                args_summary: "amount=13",
                recipe_fragment: "{\"op\":\"ROT13\",\"args\":[true,true,false,13]}",
            },
            reason: "mostly alphabetic; ROT13 may surface plaintext",
            input: ProbeInput::Bytes,
        },
    }
}

/// The step, reason and input of a candidate.
pub fn probe_of(kind: ProbeKind) -> (p: Probe)
    ensures
        p == probe_spec(kind),
{
    match kind {
        ProbeKind::Gunzip => Probe {
            step: Step {
                id: "compression.gunzip@1",
                alias: "Gunzip",
                args_summary: "(none)",
                recipe_fragment: "{\"op\":\"Gunzip\",\"args\":[]}",
            },
            reason: "gzip magic 1f 8b",
            input: ProbeInput::Bytes,
        },
        ProbeKind::Bzip2 => Probe {
            step: Step {
                id: "compression.bzip2.decompress@1",
                alias: "Bzip2 Decompress",
                args_summary: "low_memory=false",
                recipe_fragment: "{\"op\":\"Bzip2 Decompress\",\"args\":[false]}",
            },
            reason: "bzip2 magic BZh",
            input: ProbeInput::Bytes,
        },
        ProbeKind::Zlib => Probe {
            step: Step {
                id: "compression.zlib.inflate@1",
                alias: "Zlib Inflate",
                args_summary: "start_index=0",
                recipe_fragment: "{\"op\":\"Zlib Inflate\",\"args\":[0,0,\"Adaptive\",false,false]}",
            },
            reason: "zlib CMF/FLG header",
            input: ProbeInput::Bytes,
        },
        ProbeKind::RawInflate => Probe {
            step: Step {
                id: "compression.raw.inflate@1",
                alias: "Raw Inflate",
                args_summary: "start_index=0",
                recipe_fragment: "{\"op\":\"Raw Inflate\",\"args\":[0,0,\"Adaptive\",false,false]}",
            },
            reason: "possible raw deflate stream",
            input: ProbeInput::Bytes,
        },
        ProbeKind::Hex => Probe {
            step: Step {
                id: "encoding.hex.decode@1",
                alias: "From Hex",
                args_summary: "delimiter=Auto",
                recipe_fragment: "{\"op\":\"From Hex\",\"args\":[\"Auto\"]}",
            },
            reason: "high density of hex digits",
            input: ProbeInput::Text,
        },
        ProbeKind::Base64 => Probe {
            step: Step {
                id: "encoding.base64.decode@1",
                alias: "From Base64",
                args_summary: "alphabet=A-Za-z0-9+/=",
                recipe_fragment: "{\"op\":\"From Base64\",\"args\":[\"A-Za-z0-9+/=\",true,false]}",
            },
            reason: "base64 alphabet and padding shape",
            input: ProbeInput::Text,
        },
        ProbeKind::Base32 => Probe {
            step: Step {
                id: "encoding.base32.decode@1",
                alias: "From Base32",
                args_summary: "alphabet=A-Z2-7=",
                recipe_fragment: "{\"op\":\"From Base32\",\"args\":[\"A-Z2-7=\",true]}",
            },
            reason: "base32 alphabet density",
            input: ProbeInput::Text,
        },
        ProbeKind::Url => Probe {
            step: Step {
                id: "encoding.url.decode@1",
                alias: "URL Decode",
                args_summary: "treat_plus_as_space=true",
                recipe_fragment: "{\"op\":\"URL Decode\",\"args\":[true]}",
            },
            reason: "percent-encoded sequences present",
            input: ProbeInput::Text,
        },
        ProbeKind::Html => Probe {
            step: Step {
                id: "encoding.html.decode@1",
                alias: "From HTML Entity",
                args_summary: "(none)",
                recipe_fragment: "{\"op\":\"From HTML Entity\",\"args\":[]}",
            },
            reason: "HTML entities present",
            input: ProbeInput::Text,
        },
        ProbeKind::Defang => Probe {
            step: Step {
                id: "defang.fang_url@1",
                alias: "Fang URL",
                args_summary: "restore dots/hxxp/slashes",
                recipe_fragment: "{\"op\":\"Fang URL\",\"args\":[true,true,true]}",
            },
            reason: "defanged URL markers (hxxp / [.] / [://])",
            input: ProbeInput::Text,
        },
        ProbeKind::Rot13 => Probe {
            step: Step {
                id: "encoding.rot13@1",
                alias: "ROT13",
                args_summary: "amount=13",
                recipe_fragment: "{\"op\":\"ROT13\",\"args\":[true,true,false,13]}",
            },
            reason: "mostly alphabetic; ROT13 may surface plaintext",
            input: ProbeInput::Bytes,
        },
    }
}


/// A text without its leading whitespace, by `char::is_whitespace`.
pub open spec fn trim_start_spec(s: Seq<char>) -> Seq<char>
    decreases s.len(),
{
    if s.len() > 0 && is_whitespace(s[0]) {
        trim_start_spec(s.subrange(1, s.len() as int))
    } else {
        s
    }
}

/// A text without its trailing whitespace.
pub open spec fn trim_end_spec(s: Seq<char>) -> Seq<char>
    decreases s.len(),
{
    if s.len() > 0 && is_whitespace(s[s.len() - 1]) {
        trim_end_spec(s.subrange(0, s.len() - 1))
    } else {
        s
    }
}

/// A text without whitespace at either end, as `str::trim` leaves it.
pub open spec fn trim_spec(s: Seq<char>) -> Seq<char> {
    trim_end_spec(trim_start_spec(s))
}

/// The characters of `s` without whitespace at either end.
pub fn trim(s: &Vec<char>) -> (r: Vec<char>)
    ensures
        r@ == trim_spec(s@),
{
    let n = s.len();
    let mut i: usize = 0;
    assert(s@.subrange(0, n as int) == s@);
    while i < n && whitespace(s[i])
        invariant
            i <= n == s.len(),
            trim_start_spec(s@) == trim_start_spec(s@.subrange(i as int, n as int)),
        decreases n - i,
    {
        assert(s@.subrange(i as int, n as int).subrange(1, (n - i) as int) == s@.subrange(i + 1, n as int));
        i = i + 1;
    }
    assert(trim_start_spec(s@.subrange(i as int, n as int)) == s@.subrange(i as int, n as int));
    let mut j: usize = n;
    while j > i && whitespace(s[j - 1])
        invariant
            i <= j <= n == s.len(),
            trim_spec(s@) == trim_end_spec(s@.subrange(i as int, j as int)),
        decreases j,
    {
        assert(s@.subrange(i as int, j as int).subrange(0, (j - i - 1) as int) == s@.subrange(
            i as int,
            j - 1,
        ));
        j = j - 1;
    }
    let mut r: Vec<char> = Vec::new();
    let mut k: usize = i;
    while k < j
        invariant
            i <= k <= j <= n == s.len(),
            r@ == s@.subrange(i as int, k as int),
            trim_spec(s@) == trim_end_spec(s@.subrange(i as int, j as int)),
            j == i || !is_whitespace(s@[j - 1]),
        decreases j - k,
    {
        r.push(s[k]);
        assert(s@.subrange(i as int, k + 1) == s@.subrange(i as int, k as int).push(s@[k as int]));
        k = k + 1;
    }
    r
}

/// Whether the bytes open with the gzip magic `1f 8b`.
pub open spec fn gzip_magic(b: Seq<u8>) -> bool {
    b.len() >= 2 && b[0] == 0x1f && b[1] == 0x8b
}

/// Whether the bytes open with the bzip2 magic `BZh`.
pub open spec fn bzip2_magic(b: Seq<u8>) -> bool {
    b.len() >= 3 && b[0] == 0x42 && b[1] == 0x5a && b[2] == 0x68
}

/// The candidates that magic bytes call for: gzip, then bzip2, then zlib and
/// raw deflate for a zlib header.
pub open spec fn magic_kinds(b: Seq<u8>) -> Seq<ProbeKind> {
    when(gzip_magic(b), ProbeKind::Gunzip) + when(bzip2_magic(b), ProbeKind::Bzip2) + (if looks_like_zlib_spec(b) {
        seq![ProbeKind::Zlib, ProbeKind::RawInflate]
    } else {
        seq![]
    })
}

/// A candidate when its guard holds.
#[verifier::opaque]
pub open spec fn when(guard: bool, kind: ProbeKind) -> Seq<ProbeKind> {
    if guard {
        seq![kind]
    } else {
        seq![]
    }
}

/// The candidates that the shape of a text calls for, judged on the text
/// without whitespace at its ends, in a fixed order.
pub open spec fn text_kinds(text: Seq<char>) -> Seq<ProbeKind> {
    let t = trim_spec(text);
    if t.len() == 0 {
        seq![]
    } else {
        flagged(
            looks_like_hex_spec(t),
            looks_like_base64_spec(t),
            looks_like_base32_spec(t),
            looks_like_url_encoded_spec(t),
            looks_like_html_entities_spec(t),
            looks_defanged_spec(t),
        )
    }
}

/// Every candidate for an input, in the order they are tried: nothing for
/// empty input; else the magic-byte candidates, then the text candidates
/// (of the text when there is one, else of the bytes when they are UTF-8),
/// then ROT13 when the search is intensive and the bytes are mostly letters.
pub open spec fn candidates_spec(b: Seq<u8>, text: Option<Seq<char>>, intensive: bool) -> Seq<ProbeKind> {
    if b.len() == 0 {
        seq![]
    } else {
        magic_kinds(b) + (match text {
            Some(t) => text_kinds(t),
            None => if vstd::utf8::valid_utf8(b) {
                text_kinds(vstd::utf8::decode_utf8(b))
            } else {
                seq![]
            },
        }) + when(intensive && looks_mostly_alpha_spec(b), ProbeKind::Rot13)
    }
}

/// The candidates whose guards hold, in the fixed order of the text probes.
pub open spec fn flagged(hex: bool, base64: bool, base32: bool, url: bool, html: bool, defang: bool) -> Seq<
    ProbeKind,
> {
    when(hex, ProbeKind::Hex) + when(base64, ProbeKind::Base64) + when(base32, ProbeKind::Base32) + when(
        url,
        ProbeKind::Url,
    ) + when(html, ProbeKind::Html) + when(defang, ProbeKind::Defang)
}

/// Appends a candidate when its guard holds.
fn push_when(out: &mut Vec<ProbeKind>, guard: bool, kind: ProbeKind)
    ensures
        final(out)@ == old(out)@ + when(guard, kind),
{
    reveal(when);
    if guard {
        out.push(kind);
    } else {
        assert(old(out)@ + Seq::<ProbeKind>::empty() == old(out)@);
    }
}

/// Appends the candidates whose guards hold.
fn push_flagged(
    out: &mut Vec<ProbeKind>,
    hex: bool,
    base64: bool,
    base32: bool,
    url: bool,
    html: bool,
    defang: bool,
)
    ensures
        final(out)@ == old(out)@ + flagged(hex, base64, base32, url, html, defang),
{
    let ghost start = out@;
    let ghost w1 = when(hex, ProbeKind::Hex);
    let ghost w2 = when(base64, ProbeKind::Base64);
    let ghost w3 = when(base32, ProbeKind::Base32);
    let ghost w4 = when(url, ProbeKind::Url);
    let ghost w5 = when(html, ProbeKind::Html);
    let ghost w6 = when(defang, ProbeKind::Defang);
    push_when(out, hex, ProbeKind::Hex);
    push_when(out, base64, ProbeKind::Base64);
    assert(out@ =~= start + (w1 + w2));
    push_when(out, base32, ProbeKind::Base32);
    assert(out@ =~= start + (w1 + w2 + w3));
    push_when(out, url, ProbeKind::Url);
    assert(out@ =~= start + (w1 + w2 + w3 + w4));
    push_when(out, html, ProbeKind::Html);
    assert(out@ =~= start + (w1 + w2 + w3 + w4 + w5));
    push_when(out, defang, ProbeKind::Defang);
    assert(out@ =~= start + (w1 + w2 + w3 + w4 + w5 + w6));
}

/// The text-shape candidates for a text.
fn text_candidates(text: &Vec<char>, out: &mut Vec<ProbeKind>)
    ensures
        final(out)@ == old(out)@ + text_kinds(text@),
{
    let t = trim(text);
    if t.len() == 0 {
        assert(old(out)@ + Seq::<ProbeKind>::empty() == old(out)@);
        return;
    }
    let ts = string_of(&t);
    let hex = looks_like_hex(ts.as_str());
    let base64 = looks_like_base64(ts.as_str());
    let base32 = looks_like_base32(ts.as_str());
    let url = looks_like_url_encoded(ts.as_str());
    let html = looks_like_html_entities(ts.as_str());
    let defang = looks_defanged(ts.as_str());
    push_flagged(out, hex, base64, base32, url, html, defang);
}

/// Every candidate for an input, in the order they are tried.
pub fn candidates(bytes: &[u8], text: Option<&str>, intensive: bool) -> (r: Vec<ProbeKind>)
    ensures
        r@ == candidates_spec(
            bytes@,
            match text {
                Some(t) => Some(t@),
                None => None,
            },
            intensive,
        ),
{
    let mut out: Vec<ProbeKind> = Vec::new();
    if bytes.len() == 0 {
        return out;
    }
    let gzip = bytes.len() >= 2 && bytes[0] == 0x1f && bytes[1] == 0x8b;
    push_when(&mut out, gzip, ProbeKind::Gunzip);
    let bzip2 = bytes.len() >= 3 && bytes[0] == 0x42 && bytes[1] == 0x5a && bytes[2] == 0x68;
    push_when(&mut out, bzip2, ProbeKind::Bzip2);
    let ghost m2 = out@;
    if looks_like_zlib(bytes) {
        out.push(ProbeKind::Zlib);
        out.push(ProbeKind::RawInflate);
    }
    assert(out@ == magic_kinds(bytes@)) by {
        if looks_like_zlib_spec(bytes@) {
            assert(out@ == m2 + seq![ProbeKind::Zlib, ProbeKind::RawInflate]);
        } else {
            assert(out@ == m2 + Seq::<ProbeKind>::empty());
        }
    }
    let ghost before_text = out@;
    match text {
        Some(t) => {
            let cs = chars_of(t);
            text_candidates(&cs, &mut out);
        },
        None => {
            let mut owned: Vec<u8> = Vec::new();
            let mut i: usize = 0;
            while i < bytes.len()
                invariant
                    i <= bytes.len(),
                    owned@ == bytes@.take(i as int),
                decreases bytes.len() - i,
            {
                owned.push(bytes[i]);
                assert(bytes@.take(i + 1) == bytes@.take(i as int).push(bytes@[i as int]));
                i = i + 1;
            }
            assert(bytes@.take(bytes.len() as int) == bytes@);
            match utf8_text(owned) {
                Some(decoded) => {
                    let cs = chars_of(decoded.as_str());
                    text_candidates(&cs, &mut out);
                },
                None => {
                    assert(out@ == before_text + Seq::<ProbeKind>::empty());
                },
            }
        },
    }
    let rot = intensive && looks_mostly_alpha(bytes);
    push_when(&mut out, rot, ProbeKind::Rot13);
    out
}


/// The option's text, as a view.
pub open spec fn text_view(text: Option<&str>) -> Option<Seq<char>> {
    match text {
        Some(t) => Some(t@),
        None => None,
    }
}

/// The hit a candidate's output makes on its own: none below a score of 35,
/// else the output's score, the one step, the reason and a preview.
pub fn first_hit(step: Step, reason: &str, out_bytes: &[u8], out_text: Option<&str>) -> (r: Option<Hit>)
    ensures
        score_spec(out_bytes@, out_text is Some) < 35 ==> r is None,
        score_spec(out_bytes@, out_text is Some) >= 35 ==> r is Some,
        r is Some ==> r.unwrap().score == score_spec(out_bytes@, out_text is Some),
        r is Some ==> r.unwrap().steps@ == seq![step],
        r is Some ==> r.unwrap().reason@ == reason@,
        r is Some ==> r.unwrap().preview@ == preview_spec(out_bytes@, text_view(out_text)),
{
    let score = score_output(out_bytes, out_text.is_some());
    if score < 35 {
        return None;
    }
    let preview = preview_of(out_bytes, out_text);
    let mut steps: Vec<Step> = Vec::new();
    steps.push(step);
    assert(steps@ == seq![step]);
    let why = string_of(&chars_of(reason));
    Some(Hit { score, steps, reason: why, preview })
}

/// The children that a chain keeps: those scoring at least 40, in order.
pub open spec fn kept_children(children: Seq<Hit>) -> Seq<Hit>
    decreases children.len(),
{
    if children.len() == 0 {
        seq![]
    } else if children.last().score >= 40 {
        kept_children(children.drop_last()).push(children.last())
    } else {
        kept_children(children.drop_last())
    }
}

/// The score of a chain: the first step's score and half the child's, at
/// most 99.
pub open spec fn chain_score(score: u16, child: u16) -> u16 {
    let v = score + child / 2;
    (if v > 99 {
        99
    } else {
        v
    }) as u16
}

/// What each chained hit is made of, given the kept child it extends.
pub open spec fn chains_child(h: Hit, step: Step, reason: Seq<char>, score: u16, child: Hit) -> bool {
    &&& h.score == chain_score(score, child.score)
    &&& h.steps@ == seq![step] + child.steps@
    &&& h.reason@ == reason + "; then "@ + child.reason@
    &&& h.preview@ == child.preview@
}

/// The reason of a chained hit.
fn chained_reason(reason: &str, child: &str) -> (r: String)
    ensures
        r@ == reason@ + "; then "@ + child@,
{
    let mut out = chars_of(reason);
    let sep = chars_of("; then ");
    let tail = chars_of(child);
    let ghost first = out@;
    let mut k: usize = 0;
    while k < sep.len()
        invariant
            k <= sep.len(),
            out@ == first + sep@.take(k as int),
        decreases sep.len() - k,
    {
        out.push(sep[k]);
        assert(sep@.take(k + 1) == sep@.take(k as int).push(sep@[k as int]));
        k = k + 1;
    }
    assert(sep@.take(sep.len() as int) == sep@);
    let ghost second = out@;
    let mut k: usize = 0;
    while k < tail.len()
        invariant
            k <= tail.len(),
            out@ == second + tail@.take(k as int),
        decreases tail.len() - k,
    {
        out.push(tail[k]);
        assert(tail@.take(k + 1) == tail@.take(k as int).push(tail@[k as int]));
        k = k + 1;
    }
    assert(tail@.take(tail.len() as int) == tail@);
    string_of(&out)
}

/// The hits that a candidate's deeper search adds: each child scoring at
/// least 40, with this step put in front, the scores combined and the
/// reasons joined.
pub fn chain_hits(step: Step, reason: &str, score: u16, children: &Vec<Hit>) -> (r: Vec<Hit>)
    ensures
        r@.len() == kept_children(children@).len(),
        forall|i: int|
            0 <= i < r@.len() ==> chains_child(#[trigger] r@[i], step, reason@, score, kept_children(children@)[i]),
{
    let mut out: Vec<Hit> = Vec::new();
    let mut i: usize = 0;
    while i < children.len()
        invariant
            i <= children.len(),
            out@.len() == kept_children(children@.take(i as int)).len(),
            forall|j: int|
                0 <= j < out@.len() ==> chains_child(
                    #[trigger] out@[j],
                    step,
                    reason@,
                    score,
                    kept_children(children@.take(i as int))[j],
                ),
        decreases children.len() - i,
    {
        let ghost before = kept_children(children@.take(i as int));
        let ghost before_out = out@;
        assert(children@.take(i + 1).drop_last() == children@.take(i as int));
        assert(children@.take(i + 1).last() == children@[i as int]);
        let child = &children[i];
        if child.score >= 40 {
            let half: u16 = child.score / 2;
            let sum: u32 = score as u32 + half as u32;
            let combined: u16 = if sum > 99 {
                99
            } else {
                sum as u16
            };
            let mut steps: Vec<Step> = Vec::new();
            steps.push(step);
            let mut k: usize = 0;
            while k < child.steps.len()
                invariant
                    k <= child.steps.len(),
                    steps@ == seq![step] + child.steps@.take(k as int),
                decreases child.steps.len() - k,
            {
                steps.push(child.steps[k]);
                assert(child.steps@.take(k + 1) == child.steps@.take(k as int).push(child.steps@[k as int]));
                k = k + 1;
            }
            assert(child.steps@.take(child.steps.len() as int) == child.steps@);
            let why = chained_reason(reason, child.reason.as_str());
            let preview = child.preview.clone();
            let h = Hit { score: combined, steps, reason: why, preview };
            assert(chains_child(h, step, reason@, score, children@[i as int]));
            out.push(h);
            assert(kept_children(children@.take(i + 1)) == before.push(children@[i as int]));
            assert(forall|j: int| 0 <= j < before_out.len() ==> out@[j] == before_out[j]);
        }
        i = i + 1;
    }
    assert(children@.take(children.len() as int) == children@);
    out
}


/// Whether a candidate can run: one that reads bytes always can, one that
/// reads text only when the input has text.
pub fn runs_on(input: ProbeInput, has_text: bool) -> (r: bool)
    ensures
        r == (input == ProbeInput::Bytes || has_text),
{
    match input {
        ProbeInput::Bytes => true,
        ProbeInput::Text => has_text,
    }
}

/// The bounds for searching a hit's output in turn: one level shallower,
/// and only while depth remains and the output is not empty.
pub fn descend(options: Options, output: &[u8]) -> (r: Option<Options>)
    ensures
        r == if options.depth > 1 && output@.len() > 0 {
            Some(Options { depth: (options.depth - 1) as usize, intensive: options.intensive })
        } else {
            None::<Options>
        },
{
    if options.depth > 1 && output.len() > 0 {
        Some(Options { depth: options.depth - 1, intensive: options.intensive })
    } else {
        None
    }
}

} // verus!
