use classical_cryptography::card_deck::Deck;
use classical_cryptography::solitaire::SolitaireCipher;
use classical_cryptography::{clean_input, decrypt_data, encrypt_data, CipherError};

#[test]
fn solitaire_round_trip() {
    let keys = ["lkajhfd", "lslsl s asd", "lk5y&/_7t274otg", "@#@@[^^∏ß", ""];
    let plaintext = "cardgames 2 play";

    for key in keys {
        let cipher = SolitaireCipher::new(key);
        let ciphertext = cipher.encrypt(plaintext);
        assert_eq!(ciphertext.len(), clean_input(plaintext).len());
        assert_eq!(clean_input(plaintext), cipher.decrypt(&ciphertext));
    }
}

#[test]
fn solitaire_is_a_shift_by_the_keystream() {
    let cipher = SolitaireCipher::new("testing");
    let ciphertext = cipher.encrypt("AAAAAAAAAA");

    let mut deck = Deck::new();
    deck.key_deck("testing");
    let expected: String = (0..10)
        .map(|_| (b'A' + (deck.get_output_card() % 26) as u8) as char)
        .collect();
    assert_eq!(expected, ciphertext);
}

#[test]
fn solitaire_digits_consume_keystream() {
    let cipher = SolitaireCipher::new("digits");
    let with_digit = cipher.encrypt("A1A");
    let letters = cipher.encrypt("AAA");
    assert_eq!(&with_digit[1..2], "1");
    assert_eq!(with_digit[0..1], letters[0..1]);
    assert_eq!(with_digit[2..3], letters[2..3]);
}

#[test]
fn solitaire_is_deterministic_per_key() {
    let a = SolitaireCipher::new("same key");
    let b = SolitaireCipher::new("same key");
    assert_eq!(a.encrypt("hello world"), b.encrypt("hello world"));
    assert_eq!(a.encrypt("hello world"), a.encrypt("hello world"));
}

#[test]
fn dispatch_round_trips() {
    let cases = [
        ("shift", "13"),
        ("shift", "-128"),
        ("monoalphabetic", "yzxwvutsrqmonplkjihgfadcbe"),
        ("vigenere", "cantguessthisone"),
        ("solitaire", "cardgames"),
    ];
    let data = "Super secret password: JLKIIn4937774800984hl98457";
    for (cipher, key) in cases {
        let enc = encrypt_data(cipher, data, key).unwrap();
        assert_eq!(clean_input(data), decrypt_data(cipher, &enc, key).unwrap());
    }
}

#[test]
fn dispatch_matches_ciphers() {
    assert_eq!(encrypt_data("shift", "attack at dawn", "8"), Ok("IBBIKSIBLIEV".to_string()));
    assert_eq!(encrypt_data("shift", "attack at dawn", "+8"), Ok("IBBIKSIBLIEV".to_string()));
    assert_eq!(decrypt_data("shift", "IBBIKSIBLIEV", "8"), Ok("ATTACKATDAWN".to_string()));
    assert_eq!(encrypt_data("vigenere", "attackatdawn", "lemon"), Ok("LXFOPVEFRNHR".to_string()));
    assert_eq!(
        encrypt_data("monoalphabetic", "attackatdawn", "zyxwvutsrqponmlkjihgfedcba"),
        Ok("ZGGZXPZGWZDM".to_string())
    );
    assert_eq!(encrypt_data("scytale", "attackatdawn", "4"), Ok("ACDTKATAWATN".to_string()));
    assert_eq!(decrypt_data("scytale", "ACDTKATAWATN", "4"), Ok("ATTACKATDAWN".to_string()));
}

#[test]
fn dispatch_unknown_cipher() {
    assert_eq!(encrypt_data("enigma", "data", "key"), Err(CipherError::UnknownCipher));
    assert_eq!(decrypt_data("", "data", "key"), Err(CipherError::UnknownCipher));
    assert_eq!(encrypt_data("Shift", "data", "1"), Err(CipherError::UnknownCipher));
}

#[test]
fn dispatch_invalid_keys() {
    assert_eq!(encrypt_data("shift", "data", "x"), Err(CipherError::InvalidKey));
    assert_eq!(encrypt_data("shift", "data", "128"), Err(CipherError::InvalidKey));
    assert_eq!(encrypt_data("shift", "data", ""), Err(CipherError::InvalidKey));
    assert_eq!(decrypt_data("shift", "data", "-"), Err(CipherError::InvalidKey));
    assert_eq!(encrypt_data("monoalphabetic", "data", "abc"), Err(CipherError::InvalidKey));
    assert_eq!(encrypt_data("vigenere", "data", ""), Err(CipherError::InvalidKey));
    assert_eq!(decrypt_data("vigenere", "data", "k3y"), Err(CipherError::InvalidKey));
    assert_eq!(encrypt_data("scytale", "data", "0"), Err(CipherError::InvalidKey));
    assert_eq!(encrypt_data("scytale", "data", "-4"), Err(CipherError::InvalidKey));
    assert_eq!(decrypt_data("scytale", "data", "4294967296"), Err(CipherError::InvalidKey));
}

#[test]
fn solitaire_accepts_any_key() {
    assert!(encrypt_data("solitaire", "data", "").is_ok());
    assert!(decrypt_data("solitaire", "data", "∏ß").is_ok());
}

#[test]
fn dispatch_solitaire_is_the_cipher() {
    let data = "Meet me at 10 by the old oak";
    for key in ["cardgames", "", "∏ß"] {
        let cipher = SolitaireCipher::new(key);
        assert_eq!(encrypt_data("solitaire", data, key), Ok(cipher.encrypt(data)));
        assert_eq!(decrypt_data("solitaire", data, key), Ok(cipher.decrypt(data)));
    }
}

#[test]
fn dispatch_scytale_long_rod() {
    // a rod longer than any text leaves the text as it is when enciphering
    assert_eq!(encrypt_data("scytale", "attack at dawn", "4294967296"), Ok("ATTACKATDAWN".to_string()));
}

#[test]
fn solitaire_deck_is_the_keyed_fresh_deck() {
    let mut deck = Deck::new();
    deck.key_deck("testing");
    let cipher = SolitaireCipher::new("testing");
    let mut expected = String::new();
    for ch in "HELLO".chars() {
        let v = deck.get_output_card() as u8;
        expected.push((b'A' + (ch as u8 - b'A' + v) % 26) as char);
    }
    assert_eq!(expected, cipher.encrypt("hello"));
}
