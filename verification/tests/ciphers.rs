use ferrosift_operations::error::{Failure, OperationError};
use ferrosift_operations::rc4::{self, Rc4Drop};
use ferrosift_operations::rot13::{self, Rot13};
use ferrosift_operations::stream::{HexSession, KeyedByteSession};
use ferrosift_operations::tea::{self, Mode, Padding, Tea, Variant};

#[test]
fn rot13_rotates_letters() {
    assert_eq!(rot13::rot13(b"Hello, World!", true, true, false, 13), b"Uryyb, Jbeyq!".to_vec());
}

#[test]
fn rot13_rotates_digits_by_amount_mod_ten() {
    assert_eq!(Rot13::new().execute(b"a1z9", true, true, true, 13), b"n4m2".to_vec());
}

#[test]
fn rot13_negative_amount_and_classes() {
    assert_eq!(rot13::rot13(b"Ab", true, false, false, -1), b"Aa".to_vec());
    assert_eq!(rot13::rot13(b"abc", true, true, true, 0), b"abc".to_vec());
}

#[test]
fn rot13_twice_is_identity() {
    let data = b"The quick brown fox, 1234!";
    let once = rot13::rot13(data, true, true, false, 13);
    assert_eq!(rot13::rot13(&once, true, true, false, 13), data.to_vec());
}

#[test]
fn rotation_then_opposite_rotation_is_identity() {
    let data = b"Zebra 42 quick";
    let once = rot13::rot13(data, true, true, true, 7);
    assert_eq!(rot13::rot13(&once, true, true, true, -7), data.to_vec());
}

#[test]
fn rc4_known_vectors() {
    assert_eq!(
        rc4::apply(b"Plaintext", b"Key", 1000),
        Ok(vec![0xbb, 0xf3, 0x16, 0xe8, 0xd9, 0x40, 0xaf, 0x0a, 0xd3])
    );
    assert_eq!(rc4::apply(b"pedia", b"Wiki", 1000), Ok(vec![0x10, 0x21, 0xbf, 0x04, 0x20]));
}

#[test]
fn rc4_drop_zero_is_plain_rc4() {
    assert_eq!(
        Rc4Drop::new().execute(b"Plaintext", b"Key", 0, 1000),
        rc4::apply(b"Plaintext", b"Key", 1000)
    );
    assert_eq!(
        Rc4Drop::new().execute(b"Plaintext", b"Key", -5, 1000),
        rc4::apply(b"Plaintext", b"Key", 1000)
    );
}

#[test]
fn rc4_drop_skips_keystream() {
    let long = vec![0u8; 20];
    let stream = rc4::apply(&long, b"Key", 1000).unwrap();
    let dropped = rc4::apply_dropping(&[0u8; 12], b"Key", 2, 1000).unwrap();
    assert_eq!(dropped, stream[8..20].to_vec());
}

#[test]
fn rc4_twice_is_identity() {
    let once = rc4::apply_dropping(b"attack at dawn", b"secret", 3, 1000).unwrap();
    assert_eq!(rc4::apply_dropping(&once, b"secret", 3, 1000), Ok(b"attack at dawn".to_vec()));
}

#[test]
fn rc4_refuses_output_over_budget() {
    assert_eq!(rc4::apply(b"abcd", b"k", 3), Err(OperationError::OutputLimitExceeded));
}

#[test]
fn tea_zero_vector() {
    let out = tea::encrypt_block(Variant::Tea, &vec![0u8; 8], &vec![0u32; 4]);
    assert_eq!(out, vec![0x41, 0xea, 0x3a, 0x0a, 0x94, 0xba, 0xa9, 0x40]);
    assert_eq!(tea::decrypt_block(Variant::Tea, &out, &vec![0u32; 4]), vec![0u8; 8]);
}

#[test]
fn xtea_zero_vector() {
    let out = tea::encrypt_block(Variant::Xtea(32), &vec![0u8; 8], &vec![0u32; 4]);
    assert_eq!(out, vec![0xde, 0xe9, 0xd4, 0xd8, 0xf7, 0x13, 0x1e, 0xd9]);
}

#[test]
fn tea_modes_and_paddings_parse() {
    assert_eq!(Mode::parse("CTR"), Ok(Mode::Ctr));
    assert_eq!(Mode::parse("GCM"), Err(OperationError::Failed(Failure::TeaInvalidMode)));
    assert_eq!(Padding::parse("BIT"), Ok(Padding::Bit));
    assert_eq!(Padding::parse("none"), Err(OperationError::Failed(Failure::TeaInvalidPadding)));
}

#[test]
fn tea_pads_and_unpads() {
    assert_eq!(tea::pad(b"abc", Padding::Pkcs5), Ok(b"abc\x05\x05\x05\x05\x05".to_vec()));
    assert_eq!(tea::pad(b"abcdefgh", Padding::Pkcs5).unwrap().len(), 16);
    assert_eq!(tea::pad(b"abc", Padding::Bit), Ok(b"abc\x80\x00\x00\x00\x00".to_vec()));
    assert_eq!(tea::pad(b"abc", Padding::No), Err(Failure::TeaUnpaddedInput));
    assert_eq!(tea::pad(b"abc", Padding::Random), Err(Failure::TeaRandomPadding));
    assert_eq!(tea::unpad(b"abc\x05\x05\x05\x05\x05".to_vec(), Padding::Pkcs5), Ok(b"abc".to_vec()));
    assert_eq!(tea::unpad(b"abc\x05\x05\x05\x05\x04".to_vec(), Padding::Pkcs5), Err(Failure::TeaBadPadding));
}

#[test]
fn tea_blocked_roundtrip() {
    let key = b"0123456789abcdef";
    let iv = b"iv-bytes";
    let encrypt = Tea::encrypt();
    let decrypt = Tea::decrypt();
    let message = b"a message of some length";
    let sealed = encrypt.execute(message, key, iv, "CBC", "PKCS5", 32).unwrap();
    assert_eq!(sealed.len() % 8, 0);
    assert_eq!(decrypt.execute(&sealed, key, iv, "CBC", "PKCS5", 32), Ok(message.to_vec()));
}

#[test]
fn xtea_stream_roundtrip() {
    let key = b"fedcba9876543210";
    let iv = b"\x01\x02\x03\x04\x05\x06\x07\x08";
    let message = b"thirteen byte";
    for mode in ["CFB", "OFB", "CTR"] {
        let sealed = Tea::xtea_encrypt().execute(message, key, iv, mode, "NO", 16).unwrap();
        assert_eq!(sealed.len(), message.len());
        assert_eq!(Tea::xtea_decrypt().execute(&sealed, key, iv, mode, "NO", 16), Ok(message.to_vec()));
    }
}

#[test]
fn tea_refuses_bad_arguments() {
    let key = b"0123456789abcdef";
    assert_eq!(
        Tea::encrypt().execute(b"x", b"short", b"", "CBC", "PKCS5", 32),
        Err(OperationError::Failed(Failure::TeaInvalidKey))
    );
    assert_eq!(
        Tea::encrypt().execute(b"x", key, b"abc", "CBC", "PKCS5", 32),
        Err(OperationError::Failed(Failure::TeaInvalidIv))
    );
    assert!(Tea::encrypt().execute(b"x", key, b"abc", "ECB", "PKCS5", 32).is_ok());
    assert_eq!(
        Tea::xtea_encrypt().execute(b"x", key, b"", "CBC", "PKCS5", 0),
        Err(OperationError::Failed(Failure::TeaInvalidRounds))
    );
    assert_eq!(
        Tea::decrypt().execute(b"odd", key, b"", "CBC", "PKCS5", 32),
        Err(OperationError::Failed(Failure::TeaBadLength))
    );
}

#[test]
fn tea_output_formats() {
    assert_eq!(tea::write_output(&[0x00, 0xab], "Hex"), Ok(String::from("00ab")));
    assert_eq!(tea::write_output(b"hi", "Raw"), Ok(String::from("hi")));
    assert_eq!(tea::write_output(&[0xe9], "Raw"), Ok(String::from("\u{e9}")));
    assert_eq!(
        tea::write_output(b"hi", "Base64"),
        Err(OperationError::Failed(Failure::TeaInvalidFormat))
    );
}

#[test]
fn keyed_session_chunks_match_whole() {
    let key = vec![1u8, 2, 3];
    let data = b"chunked data here";
    let mut whole = KeyedByteSession::new(key.clone());
    let all = whole.push(data);
    let mut parts = KeyedByteSession::new(key);
    let mut joined = parts.push(&data[..5]);
    joined.extend(parts.push(&data[5..]));
    joined.extend(parts.finish());
    assert_eq!(joined, all);
    assert_eq!(all[0], b'c' ^ 1);
    assert_eq!(all[3], b'n' ^ 1);
}

#[test]
fn hex_session_chunks() {
    let mut session = HexSession::new();
    let mut out = session.push(&[0x01, 0xff]);
    out.extend(session.push(&[0x10]));
    out.extend(session.finish());
    assert_eq!(out, b"01ff10".to_vec());
}

#[test]
fn tea_output_lengths_follow_the_mode() {
    let key = b"0123456789abcdef";
    let iv = b"12345678";
    for len in [1usize, 7, 8, 9, 16, 23] {
        let message = vec![0x5au8; len];
        for mode in ["CFB", "OFB", "CTR"] {
            let sealed = Tea::encrypt().execute(&message, key, iv, mode, "NO", 32).unwrap();
            assert_eq!(sealed.len(), len);
        }
        for mode in ["ECB", "CBC"] {
            let sealed = Tea::encrypt().execute(&message, key, iv, mode, "PKCS5", 32).unwrap();
            assert_eq!(sealed.len(), (len / 8 + 1) * 8);
        }
    }
}

#[test]
fn keyed_session_with_empty_key_passes_bytes_through() {
    let data = b"unchanged";
    let mut whole = KeyedByteSession::new(Vec::new());
    let all = whole.push(data);
    let mut parts = KeyedByteSession::new(Vec::new());
    let mut joined = parts.push(&data[..4]);
    joined.extend(parts.push(&data[4..]));
    assert_eq!(all, data.to_vec());
    assert_eq!(joined, all);
}

#[test]
fn rc4_drop_skips_four_bytes_per_word() {
    let message = b"attack at dawn";
    let dropped = Rc4Drop::new().execute(message, b"Secret", 3, 1000).unwrap();
    let mut padded = vec![0u8; 12];
    padded.extend_from_slice(message);
    let plain = Rc4Drop::new().execute(&padded, b"Secret", 0, 1000).unwrap();
    assert_eq!(dropped, plain[12..].to_vec());
}

#[test]
fn keyed_session_any_number_of_chunks() {
    let key = vec![7u8, 1, 250, 33];
    let data: Vec<u8> = (0..53u8).collect();
    let whole: Vec<u8> = data.iter().enumerate().map(|(i, b)| b ^ key[i % key.len()]).collect();
    for cuts in [vec![0usize, 1, 2, 3, 53], vec![5, 9, 9, 30, 53], vec![13, 26, 39, 53]] {
        let mut session = KeyedByteSession::new(key.clone());
        let mut out = Vec::new();
        let mut from = 0;
        for to in cuts {
            out.extend(session.push(&data[from..to]));
            from = to;
        }
        assert_eq!(out, whole);
    }
}
