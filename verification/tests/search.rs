use ferrosift_operations::error::{Failure, OperationError};
use ferrosift_operations::probes::{self, descend, runs_on, ProbeInput, ProbeKind};
use ferrosift_operations::suggest::{self, Hit, Options, Step, SuggestRecipe};

fn step(id: &'static str) -> Step {
    Step { id, alias: id, args_summary: "(none)", recipe_fragment: "{}" }
}

fn hit(id: &'static str, score: u16, reason: &str, preview: &str) -> Hit {
    Hit { score, steps: vec![step(id)], reason: String::from(reason), preview: String::from(preview) }
}

#[test]
fn detectors_on_typical_inputs() {
    assert!(suggest::looks_like_hex("48656c6c6f20776f"));
    assert!(!suggest::looks_like_hex("48656c6"));
    assert!(suggest::looks_like_base64("SGVsbG8gd29ybGQ="));
    assert!(suggest::looks_like_url_encoded("a%20b"));
    assert!(suggest::looks_like_html_entities("a &amp; b"));
    assert!(suggest::looks_defanged("hxxp://example[.]com"));
    assert!(suggest::looks_like_zlib(&[0x78, 0x9c]));
    assert!(!suggest::looks_like_zlib(&[0x78, 0x9d]));
    assert!(suggest::looks_mostly_alpha(b"Uryyb jbeyq"));
    assert!(!suggest::looks_mostly_alpha(b"1234567890"));
}

#[test]
fn score_formula() {
    assert_eq!(suggest::score_output(b"hello world", true), 99);
    assert_eq!(suggest::score_output(b"hello world", false), 99);
    assert_eq!(suggest::score_output(&[0, 1, 2, 3], false), 0);
    assert_eq!(suggest::score_output(&[0x1f, 0x8b, 0, 0], false), 70);
    assert_eq!(suggest::score_output(&[b'a', 0, b'b', 0], false), 50);
    assert_eq!(suggest::score_output(b"", true), 0);
}

#[test]
fn previews() {
    assert_eq!(suggest::preview_of(b"a\nb", Some("a\nb")), "a\\nb");
    assert_eq!(suggest::preview_of(&[0xde, 0xad], None), "hex:dead");
    let long = "x".repeat(70);
    assert_eq!(suggest::preview_of(long.as_bytes(), Some(&long)), format!("{}...", "x".repeat(64)));
}

#[test]
fn options_are_checked() {
    assert_eq!(suggest::parse_options(0, false), Err(OperationError::Failed(Failure::SuggestInvalidDepth)));
    assert_eq!(suggest::parse_options(4, false), Err(OperationError::Failed(Failure::SuggestInvalidDepth)));
    assert_eq!(suggest::parse_options(2, true).map(|o| (o.depth, o.intensive)), Ok((2, true)));
    assert_eq!(suggest::parse_max_results(33), Err(OperationError::Failed(Failure::SuggestInvalidMaxResults)));
    assert_eq!(suggest::parse_max_results(5), Ok(5));
    assert_eq!(suggest::ensure_budget(10, 5), Err(OperationError::OutputLimitExceeded));
    assert_eq!(suggest::ensure_budget(5, 5), Ok(()));
}

#[test]
fn candidates_for_gzip_magic() {
    assert_eq!(probes::candidates(&[0x1f, 0x8b, 0x08, 0x00], None, false), vec![ProbeKind::Gunzip]);
}

#[test]
fn candidates_for_zlib_header() {
    assert_eq!(
        probes::candidates(&[0x78, 0x9c, 0xff, 0xfe], None, false),
        vec![ProbeKind::Zlib, ProbeKind::RawInflate]
    );
}

#[test]
fn candidates_for_nothing() {
    assert!(probes::candidates(b"", Some("48656c6c6f20776f"), true).is_empty());
}

#[test]
fn candidates_for_hex_text() {
    let found = probes::candidates(b"48656c6c6f20776f", Some("  48656c6c6f20776f\n"), false);
    assert_eq!(found[0], ProbeKind::Hex);
}

#[test]
fn candidates_read_utf8_bytes_as_text() {
    let found = probes::candidates(b"a%20b", None, false);
    assert!(found.contains(&ProbeKind::Url));
}

#[test]
fn candidates_add_rot13_when_intensive() {
    let data = b"Uryyb jbeyq guvf vf n grfg";
    assert_eq!(probes::candidates(data, Some("!"), true), vec![ProbeKind::Rot13]);
    assert!(probes::candidates(data, Some("!"), false).is_empty());
}

#[test]
fn probe_table() {
    let gunzip = probes::probe_of(ProbeKind::Gunzip);
    assert_eq!(gunzip.step.id, "compression.gunzip@1");
    assert_eq!(gunzip.input, ProbeInput::Bytes);
    let hex = probes::probe_of(ProbeKind::Hex);
    assert_eq!(hex.step.alias, "From Hex");
    assert_eq!(hex.input, ProbeInput::Text);
    assert_eq!(probes::probe_of(ProbeKind::Rot13).step.args_summary, "amount=13");
}

#[test]
fn trim_removes_unicode_whitespace() {
    let text: Vec<char> = "\u{3000} a b\t\n".chars().collect();
    assert_eq!(probes::trim(&text), vec!['a', ' ', 'b']);
    let blank: Vec<char> = " \n".chars().collect();
    assert!(probes::trim(&blank).is_empty());
}

#[test]
fn first_hit_scores_and_filters() {
    let found = probes::first_hit(step("x@1"), "because", b"hello world", Some("hello world")).unwrap();
    assert_eq!(found.score, 99);
    assert_eq!(found.reason, "because");
    assert_eq!(found.preview, "hello world");
    assert_eq!(found.steps.len(), 1);
    assert!(probes::first_hit(step("x@1"), "because", &[0, 1, 2], None).is_none());
}

#[test]
fn chain_hits_keep_strong_children() {
    let children = vec![hit("b@1", 80, "inner", "text"), hit("c@1", 39, "weak", "junk")];
    let chained = probes::chain_hits(step("a@1"), "outer", 50, &children);
    assert_eq!(chained.len(), 1);
    assert_eq!(chained[0].score, 90);
    assert_eq!(chained[0].reason, "outer; then inner");
    assert_eq!(chained[0].preview, "text");
    assert_eq!(chained[0].steps.iter().map(|s| s.id).collect::<Vec<_>>(), vec!["a@1", "b@1"]);
    let capped = probes::chain_hits(step("a@1"), "outer", 90, &children);
    assert_eq!(capped[0].score, 99);
}

#[test]
fn rank_orders_filters_and_truncates() {
    let mut hits = vec![
        hit("b@1", 50, "r", "p1"),
        hit("a@1", 80, "r", "p2"),
        hit("a@1", 80, "r", "p2"),
        hit("c@1", 50, "r", "p0"),
    ];
    suggest::rank(&mut hits, "", 10);
    let order: Vec<(&str, u16)> = hits.iter().map(|h| (h.steps[0].id, h.score)).collect();
    assert_eq!(order, vec![("a@1", 80), ("b@1", 50), ("c@1", 50)]);

    let mut cribbed = vec![hit("b@1", 50, "r", "Secret"), hit("a@1", 80, "r", "nothing")];
    suggest::rank(&mut cribbed, "SECRET", 10);
    assert_eq!(cribbed.len(), 1);
    assert_eq!(cribbed[0].steps[0].id, "b@1");

    let mut many = vec![hit("a@1", 60, "r", "1"), hit("b@1", 70, "r", "2"), hit("c@1", 80, "r", "3")];
    suggest::rank(&mut many, "", 2);
    assert_eq!(many.len(), 2);
    assert_eq!(many[0].steps[0].id, "c@1");
}

#[test]
fn report_without_suggestions() {
    assert_eq!(
        suggest::render_report(b"hi", &Vec::new()),
        "FerroSift Suggest recipe\ninput_bytes=2 printable=100%\nnote: CyberChef Magic remains unsupported; this advisor only ranks portable recipes\n(no suggestions)\n"
    );
}

#[test]
fn report_lists_ranked_hits() {
    let mut chain = hit("a@1", 90, "outer; then inner", "plain");
    chain.steps.push(Step { id: "b@1", alias: "Bee", args_summary: "x=1", recipe_fragment: "{\"op\":\"Bee\"}" });
    let report = SuggestRecipe::new()
        .conclude(b"ab", vec![chain, hit("c@1", 40, "only", "tail")], "", 10, 10_000)
        .unwrap();
    assert!(report.contains("\n\n1. score=90 a@1 (a@1)\n   chain: a@1 -> Bee\n   args: (none)\n"));
    assert!(report.contains("   recipe: [{},{\"op\":\"Bee\"}]\n\n2. score=40 c@1 (c@1)\n"));
    assert!(report.ends_with("   preview: tail\n   recipe: [{}]\n"));
}

#[test]
fn report_refused_over_budget() {
    assert_eq!(
        SuggestRecipe::new().conclude(b"ab", Vec::new(), "", 10, 20),
        Err(OperationError::OutputLimitExceeded)
    );
}

#[test]
fn rank_does_not_depend_on_discovery_order() {
    let found: [(&'static str, u16, &str, &str); 5] = [
        ("c", 50, "third", "zeta"),
        ("a", 90, "first", "alpha"),
        ("b", 50, "second", "beta"),
        ("b", 50, "second", "alpha"),
        ("a", 70, "other", "omega"),
    ];
    let build = |order: [usize; 5]| -> Vec<Hit> {
        order.iter().map(|&k| hit(found[k].0, found[k].1, found[k].2, found[k].3)).collect()
    };
    let mut forward = build([0, 1, 2, 3, 4]);
    let mut backward = build([4, 3, 2, 1, 0]);
    let mut shuffled = build([3, 0, 4, 2, 1]);
    suggest::rank(&mut forward, "", 10);
    suggest::rank(&mut backward, "", 10);
    suggest::rank(&mut shuffled, "", 10);
    let previews = |hits: &Vec<Hit>| hits.iter().map(|h| h.preview.clone()).collect::<Vec<_>>();
    assert_eq!(previews(&forward), vec!["alpha", "omega", "alpha", "beta", "zeta"]);
    assert_eq!(previews(&backward), previews(&forward));
    assert_eq!(previews(&shuffled), previews(&forward));
}

#[test]
fn search_descends_while_depth_remains() {
    let deep = Options { depth: 3, intensive: true };
    assert_eq!(descend(deep, b"x"), Some(Options { depth: 2, intensive: true }));
    assert_eq!(descend(deep, b""), None);
    assert_eq!(descend(Options { depth: 1, intensive: false }, b"x"), None);
    assert!(runs_on(ProbeInput::Bytes, false));
    assert!(!runs_on(ProbeInput::Text, false));
    assert!(runs_on(ProbeInput::Text, true));
}
