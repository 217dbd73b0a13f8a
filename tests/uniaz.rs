use uniaz::{Cipher, CipherError, UniAz};

#[test]
fn test_char() {
    let u = UniAz::new();
    let e = u.encrypt(&'你');
    let p = u.decrypt(&e).unwrap();
    println!("{:?}", e);
    println!("{:?}", p);
    assert_eq!(p, '你');
}

#[test]
fn test_emoji() {
    let u = UniAz::new();
    let e = u.encrypt(&'😀');
    let p = u.decrypt(&e).unwrap();
    println!("{:?}", e);
    println!("{:?}", p);
    assert_eq!(p, '😀');
}

#[test]
fn latin_capital_round_trip() {
    let u = UniAz::new();
    let e = u.encrypt(&'A');
    assert!(e.chars().all(|c| c.is_ascii_lowercase()));
    assert_eq!(u.decrypt(&e), Ok('A'));
}

#[test]
fn encoded_form_is_base26_code_point() {
    // 'A' is 65 = 2 * 26 + 13: "cn" in base 26 over the Latin letters.
    let u = UniAz::new();
    let cipher = Cipher::new("abcdefghijklmnopqrstuvwxyz").unwrap();
    let e = u.encrypt(&'A');
    assert_eq!(e.chars().count(), 2);
    assert_eq!(cipher.decrypt(&e, 2).unwrap(), "cn");
    assert_eq!(cipher.encrypt("cn", 2).unwrap(), e);
}

#[test]
fn nul_and_largest_scalar_round_trip() {
    let u = UniAz::new();
    for c in ['\0', '\u{D7FF}', '\u{E000}', '\u{10FFFF}', ' ', 'z'] {
        let e = u.encrypt(&c);
        assert_eq!(u.decrypt(&e), Ok(c));
    }
}

#[test]
fn every_scalar_in_a_sample_round_trips() {
    let u = UniAz::new();
    let mut v: u32 = 0;
    while v <= 0x10FFFF {
        if let Some(c) = char::from_u32(v) {
            assert_eq!(u.decrypt(&u.encrypt(&c)), Ok(c));
        }
        v += 977;
    }
}

#[test]
fn foreign_symbols_are_rejected() {
    let u = UniAz::new();
    assert_eq!(u.decrypt("abc1"), Err(CipherError::InvalidCipherText));
    assert_eq!(u.decrypt("ab!"), Err(CipherError::InvalidCipherText));
    assert_eq!(u.decrypt("ABC"), Err(CipherError::InvalidCipherText));
}

#[test]
fn surrogate_value_is_rejected() {
    // 0xD800 = 55296 is a surrogate, not a scalar value.
    let u = UniAz::new();
    let cipher = Cipher::new("abcdefghijklmnopqrstuvwxyz").unwrap();
    let digits = anybase::convert_base("55296", "0123456789", "abcdefghijklmnopqrstuvwxyz").unwrap();
    let e = cipher.encrypt(&digits, 2).unwrap();
    assert_eq!(u.decrypt(&e), Err(CipherError::InvalidCodepoint));
}

#[test]
fn oversized_value_is_rejected() {
    let u = UniAz::new();
    let cipher = Cipher::new("abcdefghijklmnopqrstuvwxyz").unwrap();
    let e = cipher.encrypt("zzzzzzzzzzzz", 2).unwrap();
    assert_eq!(u.decrypt(&e), Err(CipherError::InvalidCodepoint));
}

#[test]
fn above_scalar_range_is_rejected() {
    // 0x110000 = 1114112 fits a u32 but is no code point.
    let u = UniAz::new();
    let cipher = Cipher::new("abcdefghijklmnopqrstuvwxyz").unwrap();
    let digits =
        anybase::convert_base("1114112", "0123456789", "abcdefghijklmnopqrstuvwxyz").unwrap();
    let e = cipher.encrypt(&digits, 2).unwrap();
    assert_eq!(u.decrypt(&e), Err(CipherError::InvalidCodepoint));
}

#[test]
fn text_round_trip() {
    let u = UniAz::new();
    for s in ["", "a", "Hello, 世界!", "two  spaces\tand tab", "emoji 😀 here", " lead and trail "] {
        let e = u.encrypt_text(s);
        assert_eq!(u.decrypt_text(&e).unwrap(), s);
    }
}

#[test]
fn text_tokens_are_space_separated() {
    let u = UniAz::new();
    let e = u.encrypt_text("ab c");
    let tokens: Vec<&str> = e.split(' ').collect();
    assert_eq!(tokens.len(), 4);
    assert_eq!(tokens[0], u.encrypt(&'a'));
    assert_eq!(tokens[1], u.encrypt(&'b'));
    assert_eq!(tokens[2], u.encrypt(&' '));
    assert_eq!(tokens[3], u.encrypt(&'c'));
    assert!(!e.ends_with(' '));
}

#[test]
fn text_decode_skips_extra_whitespace() {
    let u = UniAz::new();
    let a = u.encrypt(&'a');
    let b = u.encrypt(&'你');
    let wire = format!("  {}\t\n {}   ", a, b);
    assert_eq!(u.decrypt_text(&wire).unwrap(), "a你");
}

#[test]
fn text_decode_aborts_on_bad_token() {
    let u = UniAz::new();
    let a = u.encrypt(&'a');
    let wire = format!("{} x1y {}", a, a);
    assert_eq!(u.decrypt_text(&wire), Err(CipherError::InvalidCipherText));
}

#[test]
fn empty_text_encodes_to_empty() {
    let u = UniAz::new();
    assert_eq!(u.encrypt_text(""), "");
    assert_eq!(u.decrypt_text("   ").unwrap(), "");
}

#[test]
fn custom_alphabet_round_trip() {
    let u = UniAz::with_alphabet("0123456789abcdef").unwrap();
    for c in ['A', '你', '😀', '\0'] {
        let e = u.encrypt(&c);
        assert!(e.chars().all(|x| "0123456789abcdef".contains(x)));
        assert_eq!(u.decrypt(&e), Ok(c));
    }
    let text = "mixed 文字 text";
    assert_eq!(u.decrypt_text(&u.encrypt_text(text)).unwrap(), text);
}

#[test]
fn custom_alphabet_encoded_form() {
    // 'A' is 65 = 0x41: "41" over the hexadecimal digits.
    let u = UniAz::with_alphabet("0123456789abcdef").unwrap();
    let cipher = Cipher::new("0123456789abcdef").unwrap();
    assert_eq!(cipher.decrypt(&u.encrypt(&'A'), 2).unwrap(), "41");
}

#[test]
fn binary_alphabet_round_trip() {
    let u = UniAz::with_alphabet("01").unwrap();
    let e = u.encrypt(&'鼻');
    assert_eq!(e.chars().count(), 16);
    assert_eq!(u.decrypt(&e), Ok('鼻'));
}

#[test]
fn codec_alphabet_errors() {
    assert_eq!(UniAz::with_alphabet("").err(), Some(CipherError::EmptyAlphabet));
    assert_eq!(UniAz::with_alphabet("x").err(), Some(CipherError::UnaryAlphabet));
    assert_eq!(UniAz::with_alphabet("xyx").err(), Some(CipherError::DuplicateSymbol));
    assert_eq!(UniAz::with_alphabet("xy😀").err(), Some(CipherError::UnsupportedSymbolDomain));
}

#[test]
fn default_codec_uses_latin_letters() {
    let u = UniAz::new();
    let v = UniAz::with_alphabet("abcdefghijklmnopqrstuvwxyz").unwrap();
    assert_eq!(u.encrypt(&'Q'), v.encrypt(&'Q'));
}

#[test]
fn whitespace_kinds_separate_tokens() {
    let u = UniAz::new();
    let a = u.encrypt(&'a');
    let b = u.encrypt(&'b');
    for sep in ["\u{85}", "\u{A0}", "\u{2003}", "\u{3000}", "\r"] {
        let wire = format!("{}{}{}", a, sep, b);
        assert_eq!(u.decrypt_text(&wire).unwrap(), "ab");
    }
}
