use ferrosift_operations::error::{Failure, OperationError};
use ferrosift_operations::octal;
use ferrosift_operations::punycode::{self, Punycode};
use ferrosift_operations::quoted_printable::{self, FromQuotedPrintable, ToQuotedPrintable};
use ferrosift_operations::textint::{self, TextIntegerConversion};
use ferrosift_operations::unicode_escape::{
    self, DecodeNetbiosName, EncodeNetbiosName, EscapeUnicodeCharacters, Prefix, UnescapeUnicodeCharacters,
};

#[test]
fn quoted_printable_keeps_plain_text() {
    assert_eq!(quoted_printable::encode(b"hello"), "hello");
}

#[test]
fn quoted_printable_escapes_equals_and_high_bytes() {
    assert_eq!(quoted_printable::encode(b"a=b"), "a=3Db");
    assert_eq!(quoted_printable::encode(&[0xff]), "=FF");
}

#[test]
fn quoted_printable_decodes_escapes() {
    assert_eq!(quoted_printable::decode("a=3Db"), Ok(b"a=b".to_vec()));
    assert_eq!(quoted_printable::decode("caf=C3=A9"), Ok(vec![0x63, 0x61, 0x66, 0xc3, 0xa9]));
}

#[test]
fn quoted_printable_drops_soft_breaks() {
    assert_eq!(quoted_printable::decode("ab=\r\ncd"), Ok(b"abcd".to_vec()));
    assert_eq!(quoted_printable::decode("ab="), Ok(b"ab".to_vec()));
}

#[test]
fn quoted_printable_latin1_literal_is_one_byte() {
    assert_eq!(quoted_printable::decode("\u{e9}"), Ok(vec![0xe9]));
}

#[test]
fn quoted_printable_refuses_wide_literal() {
    assert_eq!(
        quoted_printable::decode("\u{20ac}"),
        Err(OperationError::Failed(Failure::QuotedPrintableNotAByte))
    );
}

#[test]
fn quoted_printable_roundtrip_on_long_and_binary_input() {
    let mut data: Vec<u8> = Vec::new();
    for i in 0..300u32 {
        let b = (i * 7 % 256) as u8;
        if b != b'\n' && b != b'\r' {
            data.push(b);
        }
    }
    data.extend_from_slice(b"trailing blanks   \t");
    let encoded = ToQuotedPrintable::new().execute(&data);
    for line in encoded.split("\r\n") {
        assert!(line.chars().count() <= 76);
    }
    assert_eq!(FromQuotedPrintable::new().execute(&encoded), Ok(data));
}

#[test]
fn quoted_printable_line_breaks_come_back_as_crlf() {
    assert_eq!(quoted_printable::decode(&quoted_printable::encode(b"a\r\nb")), Ok(b"a\r\nb".to_vec()));
    assert_eq!(quoted_printable::decode(&quoted_printable::encode(b"a\nb")), Ok(b"a\r\nb".to_vec()));
}

#[test]
fn octal_writes_each_byte() {
    assert_eq!(octal::encode(&[1, 8, 255], " ", 1000), Ok(String::from("1 10 377")));
    assert_eq!(octal::encode(&[0, 64], ",", 1000), Ok(String::from("0,100")));
}

#[test]
fn octal_of_nothing_is_empty() {
    assert_eq!(octal::encode(&[], " ", 0), Ok(String::new()));
}

#[test]
fn octal_refuses_output_over_budget() {
    assert_eq!(octal::encode(&[1, 2, 3], " ", 11), Err(OperationError::OutputLimitExceeded));
    assert_eq!(octal::encode(&[1, 2, 3], " ", 12), Ok(String::from("1 2 3")));
}

#[test]
fn punycode_encodes_a_label() {
    assert_eq!(punycode::encode("m\u{fc}nchen"), Ok(String::from("mnchen-3ya")));
    assert_eq!(punycode::encode("b\u{fc}cher"), Ok(String::from("bcher-kva")));
}

#[test]
fn punycode_decodes_a_label() {
    assert_eq!(punycode::decode("mnchen-3ya"), Ok(String::from("m\u{fc}nchen")));
}

#[test]
fn punycode_ascii_label_gains_a_delimiter() {
    assert_eq!(punycode::encode("abc"), Ok(String::from("abc-")));
    assert_eq!(punycode::decode("abc-"), Ok(String::from("abc")));
}

#[test]
fn punycode_domain_names() {
    assert_eq!(punycode::to_ascii("m\u{fc}nchen.de"), Ok(String::from("xn--mnchen-3ya.de")));
    assert_eq!(punycode::to_unicode("xn--mnchen-3ya.de"), Ok(String::from("m\u{fc}nchen.de")));
}

#[test]
fn punycode_operation_runs_both_ways() {
    let there = Punycode::encode().execute("b\u{fc}cher", false).unwrap();
    assert_eq!(Punycode::decode().execute(&there, false), Ok(String::from("b\u{fc}cher")));
}

#[test]
fn punycode_refuses_a_bad_digit() {
    assert_eq!(
        punycode::decode("abc-!"),
        Err(OperationError::Failed(Failure::PunycodeInvalidDigit))
    );
}

#[test]
fn punycode_refuses_non_basic_before_delimiter() {
    assert_eq!(
        punycode::decode("\u{fc}-abc"),
        Err(OperationError::Failed(Failure::PunycodeNotBasic))
    );
}

#[test]
fn punycode_refuses_a_truncated_number() {
    assert_eq!(punycode::decode("a-z"), Err(OperationError::Failed(Failure::PunycodeTruncated)));
}

#[test]
fn punycode_threshold_and_adapt_formulas() {
    assert_eq!(punycode::threshold(36, 72), 1);
    assert_eq!(punycode::threshold(108, 72), 26);
    assert_eq!(punycode::threshold(80, 72), 8);
    assert_eq!(punycode::adapt(0, 1, true), 0);
    assert_eq!(punycode::digit_to_basic(0), 'a');
    assert_eq!(punycode::digit_to_basic(26), '0');
    assert_eq!(punycode::basic_to_digit('Z'), Some(25));
    assert_eq!(punycode::basic_to_digit('9'), Some(35));
    assert_eq!(punycode::basic_to_digit('-'), None);
}

#[test]
fn unicode_escape_non_ascii() {
    let op = EscapeUnicodeCharacters::new();
    assert_eq!(op.execute("a\u{ff}", "\\u", false, 4, true), Ok(String::from("a\\u00FF")));
    assert_eq!(op.execute("a", "%u", true, 4, false), Ok(String::from("%u0061")));
}

#[test]
fn unicode_escape_astral_as_surrogates() {
    assert_eq!(
        unicode_escape::escape("\u{1f600}", Prefix::Backslash, false, 4, false),
        "\\ud83d\\ude00"
    );
}

#[test]
fn unicode_escape_refuses_unknown_prefix() {
    assert_eq!(
        EscapeUnicodeCharacters::new().execute("a", "0x", false, 4, true),
        Err(OperationError::Failed(Failure::UnicodeInvalidPrefix))
    );
}

#[test]
fn unicode_unescape_recombines_surrogates() {
    assert_eq!(unicode_escape::unescape("\\ud83d\\ude00!", Prefix::Backslash), "\u{1f600}!");
    assert_eq!(
        UnescapeUnicodeCharacters::new().execute("U+1F600 and U+0041", "U+"),
        Ok(String::from("\u{1f600} and A"))
    );
}

#[test]
fn unicode_escape_roundtrip_with_encode_all() {
    let text = "h\u{e9}llo \u{1f600}";
    let escaped = unicode_escape::escape(text, Prefix::Percent, true, 4, true);
    assert_eq!(unicode_escape::unescape(&escaped, Prefix::Percent), text);
}

#[test]
fn netbios_encodes_padded_name() {
    let out = unicode_escape::netbios_encode(b"A", 65);
    let mut expected = b"EB".to_vec();
    for _ in 0..15 {
        expected.extend_from_slice(b"CA");
    }
    assert_eq!(out, expected);
}

#[test]
fn netbios_refuses_long_name_with_nothing() {
    assert_eq!(EncodeNetbiosName::new().execute(&[b'x'; 17], 65), Vec::<u8>::new());
}

#[test]
fn netbios_roundtrip() {
    let encoded = EncodeNetbiosName::new().execute(b"SERVER", 65);
    assert_eq!(DecodeNetbiosName::new().execute(&encoded, 65), Ok(b"SERVER".to_vec()));
}

#[test]
fn netbios_refuses_out_of_range_pair() {
    assert_eq!(
        unicode_escape::netbios_decode(b"ZA", 65),
        Err(OperationError::Failed(Failure::NetbiosOutOfRange))
    );
}

#[test]
fn text_integer_conversion_formats() {
    let op = TextIntegerConversion::new();
    assert_eq!(op.execute("AB", "Decimal"), Ok(String::from("16706")));
    assert_eq!(op.execute("16706", "String"), Ok(String::from("AB")));
    assert_eq!(op.execute("255", "Hexadecimal"), Ok(String::from("0xff")));
    assert_eq!(op.execute("0x41", "String"), Ok(String::from("A")));
    assert_eq!(op.execute("  -10 ", "Decimal"), Ok(String::from("-10")));
}

#[test]
fn text_integer_conversion_quoted_digits_are_text() {
    let op = TextIntegerConversion::new();
    assert_eq!(op.execute("\"1\"", "Decimal"), Ok(String::from("49")));
}

#[test]
fn text_integer_conversion_refuses_wide_text() {
    assert_eq!(
        TextIntegerConversion::new().execute("\u{20ac}", "Decimal"),
        Err(OperationError::Failed(Failure::TextIntegerBeyondLatin1))
    );
}

#[test]
fn text_integer_roundtrip_through_decimal() {
    let op = TextIntegerConversion::new();
    let number = op.execute("Hello", "Decimal").unwrap();
    assert_eq!(op.execute(&number, "String"), Ok(String::from("Hello")));
}

#[test]
fn punycode_roundtrip_on_varied_labels() {
    for label in ["m\u{fc}nchen", "\u{4f8b}\u{3048}", "abc-def", "\u{1f600}x\u{1f600}", "a\u{e9}b\u{e8}c\u{ea}", "\u{430}\u{431}\u{432}"] {
        let encoded = punycode::encode(label).unwrap();
        assert_eq!(punycode::decode(&encoded), Ok(String::from(label)));
    }
}

#[test]
fn quoted_printable_lines_stay_short() {
    let data: Vec<u8> = (0..2000u32).map(|i| if i % 97 == 0 { b' ' } else { (i % 251) as u8 }).collect();
    let encoded = quoted_printable::encode(&data);
    for line in encoded.split('\n') {
        assert!(line.chars().count() <= 77);
    }
}

#[test]
fn text_integer_non_positive_is_empty_text() {
    let op = TextIntegerConversion::new();
    assert_eq!(op.execute("-5", "String"), Ok(String::new()));
    assert_eq!(op.execute("0", "String"), Ok(String::new()));
    assert_eq!(op.execute("-255", "Hexadecimal"), Ok(String::from("0x-ff")));
}

#[test]
fn unicode_escape_roundtrip_with_u_plus() {
    let text = "Zo\u{eb} \u{1f600}!";
    let escaped = unicode_escape::escape(text, Prefix::UPlus, true, 4, false);
    assert_eq!(escaped, "U+005aU+006fU+00ebU+0020U+d83dU+de00U+0021");
    assert_eq!(unicode_escape::unescape(&escaped, Prefix::UPlus), text);
}

#[test]
fn punycode_round_trip_can_overflow_in_the_decoder() {
    let mut label = "a".repeat(3998);
    label.push('\u{80}');
    label.push('\u{1062cd}');
    let encoded = punycode::encode(&label).unwrap();
    assert_eq!(
        punycode::decode(&encoded),
        Err(OperationError::Failed(Failure::PunycodeOverflow))
    );
    let mut shorter = "a".repeat(20);
    shorter.push('\u{80}');
    shorter.push('\u{1062cd}');
    let encoded = punycode::encode(&shorter).unwrap();
    assert_eq!(punycode::decode(&encoded), Ok(shorter));
}

#[test]
fn punycode_domain_reads_back_as_written() {
    for domain in ["m\u{fc}nchen\u{3002}de", "b\u{fc}cher.example.org", "plain.example", "\u{4f8b}\u{ff0e}\u{30c6}\u{30b9}\u{30c8}"] {
        let ascii = punycode::to_ascii(domain).unwrap();
        let expected: String = domain
            .chars()
            .map(|c| if matches!(c, '\u{3002}' | '\u{ff0e}' | '\u{ff61}') { '.' } else { c })
            .collect();
        assert_eq!(punycode::to_unicode(&ascii), Ok(expected));
    }
    assert_eq!(punycode::to_ascii("m\u{fc}nchen\u{3002}de"), Ok(String::from("xn--mnchen-3ya.de")));
    let address = punycode::to_ascii("j\u{fc}rgen\u{3002}x@m\u{fc}nchen\u{ff61}de").unwrap();
    assert_eq!(address, "j\u{fc}rgen\u{3002}x@xn--mnchen-3ya.de");
    assert_eq!(punycode::to_unicode(&address), Ok(String::from("j\u{fc}rgen\u{3002}x@m\u{fc}nchen.de")));
    let capital = punycode::to_ascii("M\u{dc}nchen").unwrap();
    assert_eq!(punycode::to_unicode(&capital), Ok(String::from("m\u{dc}nchen")));
}

#[test]
fn quoted_printable_round_trip_writes_line_endings_as_crlf() {
    let input = b"first\rsecond\nthird\r\nfourth \n\x00\xff=end";
    let encoded = quoted_printable::encode(input);
    assert_eq!(
        quoted_printable::decode(&encoded),
        Ok(b"first\r\nsecond\r\nthird\r\nfourth \r\n\x00\xff=end".to_vec())
    );
    let mut long = Vec::new();
    for k in 0..300u32 {
        long.push(b'a' + (k % 26) as u8);
        if k % 97 == 0 {
            long.extend_from_slice(b"\r\n");
        }
        if k % 41 == 0 {
            long.push(0xe9);
        }
    }
    let encoded = quoted_printable::encode(&long);
    assert!(encoded.split("\r\n").all(|line| line.chars().count() <= 76));
    assert_eq!(quoted_printable::decode(&encoded), Ok(long));
}

#[test]
fn quoted_printable_decode_refuses_only_wide_characters() {
    assert_eq!(
        quoted_printable::decode("caf\u{e9} \u{20ac}"),
        Err(OperationError::Failed(Failure::QuotedPrintableNotAByte))
    );
    assert_eq!(quoted_printable::decode("caf\u{e9}=\r\n=3D"), Ok(vec![b'c', b'a', b'f', 0xe9, b'=']));
    let text = "a=41=\r\nb\u{ff}";
    let decoded = quoted_printable::decode(text).unwrap();
    assert!(decoded.len() <= text.chars().count());
}

#[test]
fn quoted_printable_output_shape() {
    let mut input = Vec::new();
    for k in 0..400u32 {
        input.push((k * 37 % 256) as u8);
        if k % 50 == 0 {
            input.extend_from_slice(b" \r\n\t\n");
        }
    }
    input.extend_from_slice(b"end  ");
    let out = quoted_printable::encode(&input);
    assert!(out.is_ascii());
    for line in out.split("\r\n") {
        assert!(line.chars().count() <= 76);
        assert!(!line.ends_with(' ') && !line.ends_with('\t'));
    }
    let chars: Vec<char> = out.chars().collect();
    for (i, c) in chars.iter().enumerate() {
        if *c == '=' {
            let escape = i + 2 < chars.len() && chars[i + 1].is_ascii_hexdigit() && chars[i + 2].is_ascii_hexdigit();
            let soft = i + 2 < chars.len() && chars[i + 1] == '\r' && chars[i + 2] == '\n';
            assert!(escape || soft);
        }
    }
}

#[test]
fn text_read_as_number_reads_back() {
    for text in ["ABC", "h\u{e9}llo\u{ff}", "\u{1}\u{0}x", " spaced "] {
        let chars: Vec<char> = text.chars().collect();
        let number = textint::text_to_number(&chars).unwrap();
        assert_eq!(textint::number_to_text(&number), text);
    }
    let abc: Vec<char> = "ABC".chars().collect();
    assert_eq!(textint::text_to_number(&abc).unwrap().to_string(), "4276803");
    let wide: Vec<char> = "\u{100}".chars().collect();
    assert!(textint::text_to_number(&wide).is_none());
}
