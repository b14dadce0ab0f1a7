use ferrosift_operations::bytes;
use ferrosift_operations::distance::{HammingDistance, LevenshteinDistance};
use ferrosift_operations::error::{Failure, OperationError};
use ferrosift_operations::offsetcheck::OffsetChecker;
use ferrosift_operations::oid::{self, HexToObjectIdentifier};
use ferrosift_operations::pem;
use ferrosift_operations::sets::{self, Kind, SetOperation};
use ferrosift_operations::shape::{self, DechunkHttpResponse, RemoveAnsiEscapeCodes, StripHttpHeaders, Wrap};
use ferrosift_operations::sift::{self, Nth, RemoveNullBytes, RemoveWhitespace, Reverse, TakeNthBytes};
use ferrosift_operations::substitute::{self, Substitute};
use ferrosift_operations::table::{self, Format, ToTable};
use ferrosift_operations::tlv::Reader;
use ferrosift_operations::unixperms::ParseUnixFilePermissions;

#[test]
fn set_union_keeps_first_appearance() {
    assert_eq!(sets::run("b,a\n\na,c", Kind::Union, "\n\n", ","), Ok(String::from("b,a,c")));
}

#[test]
fn set_union_puts_index_keys_first() {
    assert_eq!(SetOperation::union().execute("10,2,b\n\n1,a", "\n\n", ","), Ok(String::from("1,2,10,b,a")));
}

#[test]
fn set_intersection_and_difference() {
    assert_eq!(
        SetOperation::intersection().execute("1,2,3,2\n\n2,3,4", "\n\n", ","),
        Ok(String::from("2,3"))
    );
    assert_eq!(SetOperation::difference().execute("1,2,3\n\n2,3,4", "\n\n", ","), Ok(String::from("1")));
}

#[test]
fn set_symmetric_difference_keeps_duplicates() {
    assert_eq!(
        SetOperation::symmetric_difference().execute("a,a,b\n\nb,c", "\n\n", ","),
        Ok(String::from("a,a,c"))
    );
}

#[test]
fn set_cartesian_product() {
    assert_eq!(
        SetOperation::cartesian_product().execute("a,b\n\nx", "\n\n", ","),
        Ok(String::from("(a,x),(b,x)"))
    );
}

#[test]
fn set_refuses_wrong_sample_count() {
    assert_eq!(
        SetOperation::union().execute("a,b", "\n\n", ","),
        Err(OperationError::Failed(Failure::SetsWrongSampleCount))
    );
}

#[test]
fn hamming_counts_bytes_and_bits() {
    let op = HammingDistance::new();
    assert_eq!(op.execute("abc\n\nabd", "\n\n", "Byte", "Raw string"), Ok(String::from("1")));
    assert_eq!(op.execute("abc\n\nabd", "\n\n", "Bit", "Raw string"), Ok(String::from("3")));
}

#[test]
fn hamming_refuses_bad_samples() {
    let op = HammingDistance::new();
    assert_eq!(
        op.execute("abc\n\nab", "\n\n", "Byte", "Raw string"),
        Err(OperationError::Failed(Failure::DistanceLengthMismatch))
    );
    assert_eq!(
        op.execute("abc", "\n\n", "Byte", "Raw string"),
        Err(OperationError::Failed(Failure::DistanceWrongSampleCount))
    );
}

#[test]
fn levenshtein_classic_example() {
    assert_eq!(
        LevenshteinDistance::new().execute("kitten\n\nsitting", "\n\n", 1, 1, 1),
        Ok(String::from("3"))
    );
    assert_eq!(
        LevenshteinDistance::new().execute("ab\n\nb", "\n\n", 1, 5, 1),
        Ok(String::from("5"))
    );
}

#[test]
fn levenshtein_refuses_bad_costs() {
    assert_eq!(
        LevenshteinDistance::new().execute("a\n\nb", "\n\n", -1, 1, 1),
        Err(OperationError::Failed(Failure::DistanceNegativeCost))
    );
    assert_eq!(
        LevenshteinDistance::new().execute("a\n\nb", "\n\n", 1, 5_000_000_000, 1),
        Err(OperationError::Failed(Failure::DistanceCostTooLarge))
    );
}

#[test]
fn remove_whitespace_by_flags() {
    let op = RemoveWhitespace::new();
    assert_eq!(op.execute("a b\tc\r\nd.", true, true, true, true, true, false), "abcd.");
    assert_eq!(op.execute("a b\tc\r\nd.", true, false, false, false, false, true), "ab\tc\r\nd");
}

#[test]
fn remove_null_bytes_drops_zeros() {
    assert_eq!(RemoveNullBytes::new().execute(&[0, 1, 0, 2, 0]), vec![1, 2]);
}

#[test]
fn take_every_second_byte() {
    assert_eq!(TakeNthBytes::new().execute(b"abcdef", 2, 0, false), Ok(b"ace".to_vec()));
    assert_eq!(sift::take_or_drop_nth(b"abcdef", Nth::Drop, 2, 0, false), Ok(b"bdf".to_vec()));
}

#[test]
fn take_nth_refuses_bad_arguments() {
    assert_eq!(
        TakeNthBytes::new().execute(b"abc", 0, 0, false),
        Err(OperationError::Failed(Failure::NthInvalidEvery))
    );
    assert_eq!(
        TakeNthBytes::new().execute(b"abc", 1, -1, false),
        Err(OperationError::Failed(Failure::NthInvalidStart))
    );
}

#[test]
fn reverse_by_unit() {
    let op = Reverse::new();
    assert_eq!(op.execute(b"abc", "Byte"), Ok(b"cba".to_vec()));
    assert_eq!(op.execute("a\u{e9}b".as_bytes(), "Character"), Ok("b\u{e9}a".as_bytes().to_vec()));
    assert_eq!(op.execute(b"one\ntwo", "Line"), Ok(b"two\none".to_vec()));
    assert_eq!(op.execute(b"x", "Word"), Err(OperationError::Failed(Failure::ReverseInvalidScope)));
}

#[test]
fn reverse_twice_is_identity() {
    let text = "h\u{e9}llo, w\u{f6}rld \u{1f600}".as_bytes();
    let once = sift::reverse(text, "Character").unwrap();
    assert_eq!(sift::reverse(&once, "Character"), Ok(text.to_vec()));
    let bytes_once = sift::reverse(&[1, 2, 3, 250], "Byte").unwrap();
    assert_eq!(sift::reverse(&bytes_once, "Byte"), Ok(vec![1, 2, 3, 250]));
    for text in [&b"one\ntwo\nthree"[..], b"a\n\nb\n", b"\n", b"", b"solo"] {
        let lines_once = sift::reverse(text, "Line").unwrap();
        assert_eq!(sift::reverse(&lines_once, "Line"), Ok(text.to_vec()));
    }
    assert_eq!(sift::reverse(b"a\n\nb\n", "Line"), Ok(b"\nb\n\na".to_vec()));
}

#[test]
fn remove_ansi_keeps_text() {
    assert_eq!(RemoveAnsiEscapeCodes::new().execute("\u{1b}[31mred\u{1b}[0m"), "red");
    assert_eq!(shape::remove_ansi("\u{1b}[31"), "\u{1b}[31");
}

#[test]
fn strip_http_headers_keeps_body() {
    assert_eq!(StripHttpHeaders::new().execute("HTTP/1.1 200 OK\r\nA: b\r\n\r\nbody"), "body");
    assert_eq!(shape::strip_http_headers("no headers"), "no headers");
    assert_eq!(shape::strip_http_headers("h\n\nbody"), "body");
}

#[test]
fn dechunk_joins_chunks() {
    let input = "4\r\nWiki\r\n5\r\npedia\r\n0\r\n\r\n";
    assert!(!shape::dechunk_splits_character(input));
    assert_eq!(DechunkHttpResponse::new().execute(input), "Wikipedia");
}

#[test]
fn wrap_breaks_lines() {
    assert_eq!(Wrap::new().execute("abcdef", 2), Ok(String::from("ab\ncd\nef")));
    assert_eq!(shape::wrap("abc\n\nde", 2), "ab\nc\nde");
    assert_eq!(Wrap::new().execute("abc", 0), Err(OperationError::InvalidArguments));
}

#[test]
fn substitute_maps_alphabet() {
    let plain: Vec<char> = "ABCDEFGHIJKLMNOPQRSTUVWXYZ".chars().collect();
    let cipher: Vec<char> = "XYZABCDEFGHIJKLMNOPQRSTUVW".chars().collect();
    let op = Substitute::new();
    assert_eq!(op.execute("HELLO, World", &plain, &cipher, false), "EBIIL, Torld");
    assert_eq!(op.execute("hello", &plain, &cipher, true), "ebiil");
}

#[test]
fn substitute_last_mapping_wins_and_warns() {
    let plain: Vec<char> = "aa".chars().collect();
    let cipher: Vec<char> = "xyz".chars().collect();
    assert_eq!(
        substitute::substitute("ab", &plain, &cipher, false),
        "Warning: Plaintext and Ciphertext lengths differ\n\nyb"
    );
}

#[test]
fn table_renders_ascii_and_markdown() {
    assert_eq!(
        table::render("a,bb\nc,d", ",", "\n", false, Format::Ascii),
        "+---+----+\n| a | bb |\n| c | d  |\n+---+----+\n"
    );
    assert_eq!(
        ToTable::new().execute("a,bb\nc,d", ",", "\n", true, "Markdown"),
        "| a | bb |\n| - | -- |\n| c | d  |\n"
    );
    assert_eq!(table::format("ASCII"), Format::Ascii);
}

#[test]
fn table_of_undelimited_text_is_empty() {
    assert_eq!(table::render("plain", ",", "\n", false, Format::Ascii), "");
}

#[test]
fn unix_permissions_octal() {
    let out = ParseUnixFilePermissions::new().execute("755").unwrap();
    assert!(out.starts_with("Textual representation: -rwxr-xr-x\nOctal representation:   0755\n\n"));
}

#[test]
fn unix_permissions_textual() {
    let out = ParseUnixFilePermissions::new().execute("drwxr-x---").unwrap();
    assert!(out.starts_with("Textual representation: drwxr-x---\nOctal representation:   0750\nFile type: Directory\n\n"));
}

#[test]
fn unix_permissions_refuses_other_text() {
    assert_eq!(
        ParseUnixFilePermissions::new().execute("hello"),
        Err(OperationError::Failed(Failure::PermissionsUnrecognisedFormat))
    );
}

#[test]
fn offset_checker_needs_two_samples() {
    assert_eq!(
        OffsetChecker::new().execute("only one", "\n\n"),
        Err(OperationError::Failed(Failure::OffsetNotEnoughSamples))
    );
}

#[test]
fn oid_from_hex_reads_arcs() {
    assert_eq!(oid::from_hex("2A864886F70D"), Ok(String::from("1.2.840.113549")));
    assert_eq!(HexToObjectIdentifier::new().execute("2a 86 48"), Ok(String::from("1.2.840")));
}

#[test]
fn oid_from_hex_refuses_non_hex() {
    assert_eq!(oid::from_hex("zz"), Err(OperationError::Failed(Failure::OidNotHex)));
    assert_eq!(oid::from_hex(""), Err(OperationError::Failed(Failure::OidNotHex)));
}

#[test]
fn oid_arcs_and_tail() {
    let arcs = oid::oid_arcs("1.2.840.113549").unwrap();
    assert_eq!(arcs.len(), 4);
    assert_eq!(oid::tail_hex(&arcs), "864886f70d");
    assert_eq!(oid::oid_arcs("1.x"), Err(OperationError::Failed(Failure::OidMalformed)));
    assert_eq!(oid::oid_arcs("1"), Err(OperationError::Failed(Failure::OidTooFewArcs)));
}

#[test]
fn pem_frames_and_folds() {
    assert_eq!(pem::frame("QUJD", "TEST"), "-----BEGIN TEST-----\r\nQUJD\r\n-----END TEST-----\r\n");
    let long: String = "A".repeat(65);
    assert_eq!(pem::fold(&long), format!("{}\r\nA", "A".repeat(64)));
    assert_eq!(pem::fold(&"B".repeat(64)), "B".repeat(64));
}

#[test]
fn pem_labels() {
    let label: Vec<char> = "RSA PRIVATE KEY".chars().collect();
    assert!(pem::is_label(&label));
    let lower: Vec<char> = "cert".chars().collect();
    assert!(!pem::is_label(&lower));
}

#[test]
fn pem_bodies_between_headers() {
    let input = "x -----BEGIN CERT-----\nQUJD\n-----END CERT----- y";
    let bodies = pem::pem_bodies(input).unwrap();
    assert_eq!(bodies, vec![String::from("\nQUJD\n")]);
    assert_eq!(
        pem::pem_bodies("-----BEGIN CERT-----\nQUJD"),
        Err(OperationError::Failed(Failure::PemMissingFooter))
    );
}

#[test]
fn hex_helpers() {
    assert_eq!(bytes::to_hex_lower(&[0x0f, 0xa0]), vec!['0', 'f', 'a', '0']);
    let digits: Vec<char> = "0fa0".chars().collect();
    assert_eq!(bytes::from_hex_auto(&digits), vec![0x0f, 0xa0]);
}

#[test]
fn tlv_reader_walks_input() {
    let data = [7u8, 9];
    let mut reader = Reader::new(&data);
    assert_eq!(reader.peek(), Some(7));
    assert!(!reader.at_end());
    reader.location = 2;
    assert!(reader.at_end());
    assert_eq!(reader.peek(), None);
}

#[test]
fn oid_hex_reads_back_written_form() {
    let arcs = oid::oid_arcs("1.3.6.1.4.1.311.21.20").unwrap();
    let first = oid::format_byte(&num_bigint::BigUint::from(43u32));
    let written = format!("{}{}", first, oid::tail_hex(&arcs));
    assert_eq!(written, "2b0601040182371514");
    assert_eq!(oid::from_hex(&written), Ok(String::from("1.3.6.1.4.1.311.21.20")));
}

#[test]
fn oid_base128_and_format() {
    assert_eq!(oid::base128(&num_bigint::BigUint::from(113549u32)), "86f70d");
    assert_eq!(oid::base128(&num_bigint::BigUint::from(5u32)), "05");
    assert_eq!(oid::format_byte(&num_bigint::BigUint::from(5u32)), "05");
    assert_eq!(oid::format_byte(&num_bigint::BigUint::from(437u32)), "1b5");
}

#[test]
fn wrap_lines_never_exceed_width() {
    let text = "a long line of text\nshort\n\nanother line that runs on";
    for width in 1..8usize {
        let out = shape::wrap(text, width);
        for line in out.split('\n') {
            assert!(!line.is_empty());
            assert!(line.chars().count() <= width);
        }
    }
}

#[test]
fn reverse_characters_of_invalid_utf8_reads_replacement() {
    assert_eq!(sift::reverse(&[0x61, 0xff, 0x62], "Character"), Ok("b\u{fffd}a".as_bytes().to_vec()));
}

#[test]
fn permissions_refusal_depends_on_the_first_non_blank_character() {
    let op = ParseUnixFilePermissions::new();
    let refused = Err(OperationError::Failed(Failure::PermissionsUnrecognisedFormat));
    assert_eq!(op.execute("\u{85}755"), refused);
    assert_eq!(op.execute(" \t "), refused);
    assert_eq!(op.execute("  9"), refused);
    assert!(op.execute("\u{feff}755").is_ok());
    assert_eq!(op.execute("\u{feff}755"), op.execute("0755"));
    assert!(op.execute("\u{3000}-rw-r--r--").is_ok());
}

#[test]
fn take_and_drop_partition_the_bytes() {
    let input = b"0123456789abcdefghij";
    for every in 1..6i128 {
        for start in 0..8i128 {
            let taken = sift::take_or_drop_nth(input, Nth::Take, every, start, false).unwrap();
            let dropped = sift::take_or_drop_nth(input, Nth::Drop, every, start, false).unwrap();
            assert_eq!(taken.len() + dropped.len(), input.len());
            let expected: Vec<u8> = (start as usize..input.len()).step_by(every as usize).map(|i| input[i]).collect();
            assert_eq!(taken, expected);
            let left_out: Vec<u8> = (0..input.len())
                .filter(|&i| !(i >= start as usize && (i - start as usize) % every as usize == 0))
                .map(|i| input[i])
                .collect();
            assert_eq!(dropped, left_out);
        }
    }
}

#[test]
fn intersection_and_difference_never_repeat() {
    assert_eq!(
        SetOperation::intersection().execute("b,a,b,c,a\n\na,b", "\n\n", ","),
        Ok(String::from("b,a"))
    );
    assert_eq!(
        SetOperation::difference().execute("c,a,c,d,a\n\na", "\n\n", ","),
        Ok(String::from("c,d"))
    );
}

#[test]
fn offset_checker_only_adds_highlight_tags() {
    let input = "a<b&c'x\n\na<y&c\"x\n\nq<b&c`x";
    let marked = OffsetChecker::new().execute(input, "\n\n").unwrap();
    let stripped = marked.replace("<span class='hl5'>", "").replace("</span>", "");
    let mut escaped = String::new();
    for c in input.chars() {
        match c {
            '&' => escaped.push_str("&amp;"),
            '<' => escaped.push_str("&lt;"),
            '>' => escaped.push_str("&gt;"),
            '"' => escaped.push_str("&quot;"),
            '\'' => escaped.push_str("&#x27;"),
            '`' => escaped.push_str("&#x60;"),
            '\0' => escaped.push('\u{e000}'),
            other => escaped.push(other),
        }
    }
    assert_eq!(stripped, escaped);
    assert_ne!(marked, escaped);
}
