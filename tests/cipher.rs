use std::collections::HashMap;
use std::str::FromStr;

use anybase::Converter;
use uniaz::{Cipher, CipherError};

#[test]
fn test_decimal() {
    let cipher = Cipher::new("0123456789").unwrap();
    let original = "1234567890";
    let encrypted = cipher.encrypt_once(original).unwrap();
    let decrypted = cipher.decrypt_once(&encrypted).unwrap();

    println!("Decimal - Original: {}", original);
    println!("Decimal - Encrypted: {}", encrypted);
    println!("Decimal - Decrypted: {}", decrypted);

    assert_eq!(original, &decrypted);
    assert_ne!(original, &encrypted);
}

#[test]
fn test_hex() {
    let cipher = Cipher::new("0123456789ABCDEF").unwrap();
    let original = "A1F90";
    let encrypted = cipher.encrypt_once(original).unwrap();
    let decrypted = cipher.decrypt_once(&encrypted).unwrap();

    println!("Hex - Original: {}", original);
    println!("Hex - Encrypted: {}", encrypted);

    assert_eq!(original, &decrypted);
}

#[test]
fn test_base62() {
    let base62_pattern = "0123456789abcdefghijklmnopqrstuvwxyzABCDEFGHIJKLMNOPQRSTUVWXYZ";
    let cipher = Cipher::new(base62_pattern).unwrap();

    let original = "HelloRust2025";
    let encrypted = cipher.encrypt_once(original).unwrap();
    let decrypted = cipher.decrypt_once(&encrypted).unwrap();

    println!("Base62 - Original: {}", original);
    println!("Base62 - Encrypted: {}", encrypted);

    assert_eq!(original, &decrypted);
}

#[test]
fn test_binary() {
    let cipher = Cipher::new("01").unwrap();
    let original = "110101011100";
    let encrypted = cipher.encrypt_once(original).unwrap();
    let decrypted = cipher.decrypt_once(&encrypted).unwrap();
    println!("Binary - Original: {}", original);
    println!("Binary - Encrypted: {}", encrypted);
    assert_eq!(original, &decrypted);
}

#[test]
fn test_distribution() {
    let mut flag = HashMap::new();
    flag.insert('0', 0);
    flag.insert('1', 0);
    flag.insert('2', 0);
    flag.insert('3', 0);
    flag.insert('4', 0);
    flag.insert('5', 0);
    flag.insert('6', 0);
    flag.insert('7', 0);
    flag.insert('8', 0);
    flag.insert('9', 0);

    let c = Cipher::new("0123456789").unwrap();

    for i in 0..50000 {
        let mut res = format!("{i:05}");
        for _ in 0..2 {
            res = c.encrypt_once(&res).unwrap();
        }
        println!("{}, ", u32::from_str(&res).unwrap());
        let initial = res.chars().next().unwrap();
        *flag.get_mut(&initial).unwrap() += 1;
    }
    let avg = flag.values().sum::<u32>() / 10;

    println!();
    println!("{:?}", flag);
    println!("{:?}", avg);
}

#[test]
fn test_alphabet() {
    let alphabet = "abcdefghijklmnopqrstuvwxyz";
    let cipher = Cipher::new(alphabet).unwrap();
    let converter = Converter::new("0123456789", alphabet);
    for i in "你好世界 鼻".chars() {
        let original = converter.convert(&(i as u32).to_string()).unwrap();
        println!("{} {:?}", i, original);
        let encrypted = cipher.encrypt_once(&original).unwrap();
        let encrypted = cipher.encrypt_once(&encrypted).unwrap();
        let decrypted = cipher.decrypt_once(&encrypted).unwrap();
        let decrypted = cipher.decrypt_once(&decrypted).unwrap();
        println!("Alphabet - Original: {}", original);
        println!("Alphabet - Encrypted: {}", encrypted);
        println!("Alphabet - Decrypted: {}", decrypted);
    }
}

#[test]
fn test_alphabet_iteration() {
    let alphabet = "abcdefghijklmnopqrstuvwxyz";
    let cipher = Cipher::new(alphabet).unwrap();
    let converter = Converter::new("0123456789", alphabet);
    for i in "你好世界 鼻".chars() {
        let original = converter.convert(&(i as u32).to_string()).unwrap();
        println!("{} {:?}", i, original);
        let encrypted = cipher.encrypt(&original, 2).unwrap();
        let decrypted = cipher.decrypt(&encrypted, 2).unwrap();
        println!("Alphabet - Original: {}", original);
        println!("Alphabet - Encrypted: {}", encrypted);
        println!("Alphabet - Decrypted: {}", decrypted);
    }
}

#[test]
fn alphabet_rejects_empty_pattern() {
    assert_eq!(Cipher::new("").err(), Some(CipherError::EmptyAlphabet));
}

#[test]
fn alphabet_rejects_wide_symbols() {
    assert_eq!(Cipher::new("ab你").err(), Some(CipherError::UnsupportedSymbolDomain));
}

#[test]
fn alphabet_rejects_repeated_symbols() {
    assert_eq!(Cipher::new("abca").err(), Some(CipherError::DuplicateSymbol));
}

#[test]
fn wide_symbol_reported_before_repeat() {
    assert_eq!(Cipher::new("aa你").err(), Some(CipherError::UnsupportedSymbolDomain));
}

#[test]
fn alphabet_of_all_single_byte_symbols() {
    let pattern: String = (0u32..256).map(|v| char::from_u32(v).unwrap()).collect();
    let cipher = Cipher::new(&pattern).unwrap();
    assert_eq!(cipher.radix(), 256);
    let input: String = "hello, world".to_string();
    let e = cipher.encrypt(&input, 3).unwrap();
    assert_eq!(e.chars().count(), input.chars().count());
    assert_eq!(cipher.decrypt(&e, 3).unwrap(), input);
}

#[test]
fn symbol_values() {
    let cipher = Cipher::new("xyz").unwrap();
    assert_eq!(cipher.char_to_val('x'), Ok(0));
    assert_eq!(cipher.char_to_val('z'), Ok(2));
    assert_eq!(cipher.char_to_val('a'), Err(CipherError::UnknownSymbol));
    assert_eq!(cipher.char_to_val('你'), Err(CipherError::UnknownSymbol));
    assert_eq!(cipher.radix(), 3);
}

#[test]
fn unknown_symbol_is_rejected() {
    let cipher = Cipher::new("0123456789").unwrap();
    assert_eq!(cipher.encrypt_once("12a4"), Err(CipherError::UnknownSymbol));
    assert_eq!(cipher.decrypt_once("12a4"), Err(CipherError::UnknownSymbol));
    assert_eq!(cipher.encrypt("12a4", 2), Err(CipherError::UnknownSymbol));
    assert_eq!(cipher.decrypt("12a4", 1), Err(CipherError::UnknownSymbol));
}

#[test]
fn empty_message_is_fixed() {
    let cipher = Cipher::new("0123456789").unwrap();
    assert_eq!(cipher.encrypt_once("").unwrap(), "");
    assert_eq!(cipher.decrypt_once("").unwrap(), "");
    assert_eq!(cipher.encrypt("", 5).unwrap(), "");
}

#[test]
fn zero_passes_are_identity() {
    let cipher = Cipher::new("0123456789").unwrap();
    assert_eq!(cipher.encrypt("9081726354", 0).unwrap(), "9081726354");
    assert_eq!(cipher.decrypt("9081726354", 0).unwrap(), "9081726354");
}

#[test]
fn single_symbol_alphabet() {
    let cipher = Cipher::new("q").unwrap();
    assert_eq!(cipher.encrypt("qqqq", 2).unwrap(), "qqqq");
    assert_eq!(cipher.decrypt("qqqq", 2).unwrap(), "qqqq");
}

#[test]
fn single_digit_message() {
    // One digit: the seed is zero, the table is the alphabet with every window swapped
    // with its first entry, and the offset is one.
    let cipher = Cipher::new("0123").unwrap();
    // table: 0123 -> swap(3,0): 3120 -> swap(2,0): 2130 -> swap(1,0): 1230
    // '1' sits at 0, so it becomes the entry at 1: '2'.
    assert_eq!(cipher.encrypt_once("1").unwrap(), "2");
    assert_eq!(cipher.decrypt_once("2").unwrap(), "1");
}

#[test]
fn round_trip_many_passes() {
    let cipher = Cipher::new("0123456789ABCDEF").unwrap();
    for n in 0..6 {
        let e = cipher.encrypt("DEADBEEF0042", n).unwrap();
        assert_eq!(e.chars().count(), 12);
        assert!(e.chars().all(|c| "0123456789ABCDEF".contains(c)));
        assert_eq!(cipher.decrypt(&e, n).unwrap(), "DEADBEEF0042");
    }
}

#[test]
fn passes_compose() {
    let cipher = Cipher::new("abcdefgh").unwrap();
    let once = cipher.encrypt_once("hgfedcba").unwrap();
    let twice = cipher.encrypt_once(&once).unwrap();
    assert_eq!(cipher.encrypt("hgfedcba", 2).unwrap(), twice);
    let back = cipher.decrypt_once(&twice).unwrap();
    assert_eq!(back, once);
}

#[test]
fn same_input_same_output() {
    let c1 = Cipher::new("0123456789").unwrap();
    let c2 = Cipher::new("0123456789").unwrap();
    assert_eq!(c1.encrypt("31415926", 2).unwrap(), c2.encrypt("31415926", 2).unwrap());
    assert_eq!(c1.encrypt("31415926", 2).unwrap(), c1.encrypt("31415926", 2).unwrap());
    assert_eq!(c1.decrypt("31415926", 2).unwrap(), c2.decrypt("31415926", 2).unwrap());
}

#[test]
fn zero_passes_keep_foreign_symbols() {
    let cipher = Cipher::new("0123456789").unwrap();
    assert_eq!(cipher.encrypt("12a4", 0).unwrap(), "12a4");
    assert_eq!(cipher.decrypt("12a4", 0).unwrap(), "12a4");
    assert_eq!(cipher.encrypt("12a4", 1), Err(CipherError::UnknownSymbol));
}
