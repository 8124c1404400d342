use classical_cryptography::clean_input;
use classical_cryptography::monoalphabetic::MonoalphaCipher;
use classical_cryptography::scytale::Scytale;
use classical_cryptography::shift::ShiftCipher;
use classical_cryptography::utils::pad;
use classical_cryptography::vigenere::{is_valid_key, VigenereCipher};

#[test]
fn test_default_alphabet() {
    let cipher = MonoalphaCipher::new("ABCDEFGHIJKLMNOPQRSTUVWXYZ");
    let plaintext = String::from("Hello");

    assert_eq!(plaintext.to_uppercase(), cipher.encrypt(&plaintext));
}

#[test]
fn test_alphabet_detection() {
    // test a correct alphabet
    let possible_alphabet: String = ('a'..='z').collect();
    assert!(MonoalphaCipher::is_alphabet(&possible_alphabet));

    // test a correct but scrambled one
    let possible_alphabet = String::from("klmnopqrstuvwxyzabcdefghij");
    assert!(MonoalphaCipher::is_alphabet(&possible_alphabet));

    // test an obviously incorrect one
    let possible_alphabet = String::from("mbwrtoiu14576184tt9123485--");
    assert!(!MonoalphaCipher::is_alphabet(&possible_alphabet));

    // test a subtly incorrect one (missing an 'f', duplicate 'e')
    let possible_alphabet = String::from("klmnopqrstuvwxyzabcdeeghij");
    assert!(!MonoalphaCipher::is_alphabet(&possible_alphabet));

    // test another subtly incorrect one (the number '1' has been appended to a correct one)
    let possible_alphabet = String::from("klmnopqrstuvwxyzabcdefghij1");
    assert!(!MonoalphaCipher::is_alphabet(&possible_alphabet));
}

#[test]
fn monoalphabetic_test_numeric_input() {
    let cipher = MonoalphaCipher::new("QHJWOTYRXBKMPIAZEVNULSGDCF");
    let plaintext = "9872465";

    assert_eq!(plaintext.to_string(), cipher.encrypt(plaintext));
}

#[test]
fn monoalphabetic_test_known_pairs() {
    let cipher = MonoalphaCipher::new("zyxwvutsrqponmlkjihgfedcba");
    let plaintext = "attackatdawn";
    let ciphertext = String::from("zggzxpzgwzdm");

    assert_eq!(ciphertext.to_uppercase(), cipher.encrypt(plaintext));

    assert_eq!(clean_input(plaintext), cipher.decrypt(&ciphertext));

    let cipher = MonoalphaCipher::new("myxnvestrqpowzlkjihgfudabc");
    let plaintext = "firstman";
    let ciphertext = String::from("erihgwmz");

    assert_eq!(ciphertext.to_uppercase(), cipher.encrypt(plaintext));

    assert_eq!(clean_input(plaintext), cipher.decrypt(&ciphertext));
}

#[test]
fn monoalphabetic_mixed_case_key() {
    let cipher = MonoalphaCipher::new("QhJwOtYrXbKmPiAzEvNuLsGdCf");
    assert_eq!(cipher.encrypt("ab z9"), "QHF9");
    assert_eq!(cipher.decrypt("QHF9"), "ABZ9");
}

#[test]
fn monoalphabetic_rejects_short_and_non_letters() {
    assert!(!MonoalphaCipher::is_alphabet(""));
    assert!(!MonoalphaCipher::is_alphabet("abcdefghijklmnopqrstuvwxy"));
    assert!(!MonoalphaCipher::is_alphabet("abcdefghijklmnopqrstuvwxy1"));
    assert!(!MonoalphaCipher::is_alphabet("abcdefghijklmnopqrstuvwxyA"));
    assert!(!MonoalphaCipher::is_alphabet("abcdefghijklmnopqrstuvwxyé"));
}

#[test]
fn scytale_test_known_pairs() {
    let cipher = Scytale::new(5);
    let plaintext = "I am hurt very badly help";
    let ciphertext = String::from("Iryyatbhmvaehedlurlp");

    assert_eq!(ciphertext.to_uppercase(), cipher.encrypt(plaintext));

    assert_eq!(clean_input(plaintext), cipher.decrypt(&ciphertext));

    let cipher = Scytale::new(4);
    let plaintext = "attackatdawn";
    let ciphertext = String::from("ACDTKATAWATN");

    assert_eq!(ciphertext, cipher.encrypt(plaintext));

    assert_eq!(clean_input(plaintext), cipher.decrypt(&ciphertext));
}

#[test]
fn scytale_long_rod_keeps_text() {
    let cipher = Scytale::new(50);
    assert_eq!(cipher.encrypt("short text"), "SHORTTEXT");
    assert_eq!(cipher.decrypt(""), "");
    assert_eq!(cipher.encrypt(""), "");
}

#[test]
fn scytale_uneven_columns() {
    // 7 letters on a rod of 3: columns 0,3,6 / 1,4 / 2,5
    let cipher = Scytale::new(3);
    assert_eq!(cipher.encrypt("abcdefg"), "ADGBECF");
}

#[test]
fn test_shift_by() {
    assert_eq!('B', ShiftCipher::shift_by(1, 'A'));
    assert_eq!('C', ShiftCipher::shift_by(2, 'A'));
    assert_eq!('D', ShiftCipher::shift_by(3, 'A'));
    assert_eq!('B', ShiftCipher::shift_by(27, 'A'));

    assert_eq!('A', ShiftCipher::shift_by(1, 'Z'));
    assert_eq!('Z', ShiftCipher::shift_by(-1, 'A'));
}

#[test]
fn shift_by_extremes() {
    // -128 is -24 modulo 26
    assert_eq!('C', ShiftCipher::shift_by(-128, 'A'));
    // 127 is 23 modulo 26
    assert_eq!('X', ShiftCipher::shift_by(127, 'A'));
    assert_eq!('7', ShiftCipher::shift_by(5, '7'));
}

#[test]
fn test_zero_shift() {
    let cipher = ShiftCipher::new(0);
    let plaintext = String::from("Hello");

    assert_eq!(plaintext.to_uppercase(), cipher.encrypt(&plaintext));
}

#[test]
fn shift_test_numeric_input() {
    for shift in 1..=25 {
        let cipher = ShiftCipher::new(shift);
        let plaintext = "918273456";

        assert_eq!(plaintext.to_string(), cipher.encrypt(plaintext));
    }
}

#[test]
fn shift_test_known_pairs() {
    let cipher = ShiftCipher::new(8);
    let ciphertext = String::from("ibbiksibliev");

    assert_eq!(ciphertext.to_uppercase(), cipher.encrypt("attackatdawn"));

    let cipher = ShiftCipher::new(13);
    let ciphertext = String::from("svefgzna");

    assert_eq!(ciphertext.to_uppercase(), cipher.encrypt("firstman"));
}

#[test]
fn shift_round_trip_every_key() {
    for shift in i8::MIN..=i8::MAX {
        let cipher = ShiftCipher::new(shift);
        assert_eq!("CAESAR42", cipher.decrypt(&cipher.encrypt("caesar 42")));
    }
}

#[test]
fn test_pad() {
    let input = String::from("testing");
    let n = 4;
    let expected = String::from("testing.");
    assert_eq!(expected, pad(&input, n, '.'));

    let input = String::from("lololo");
    let n = 3;
    assert_eq!(input, pad(&input, n, ')'));

    let input = String::from("te");
    let n = 12;
    let expected = String::from("teXXXXXXXXXX");
    assert_eq!(expected, pad(&input, n, 'X'));
}

#[test]
fn pad_counts_bytes() {
    // "é" takes two bytes: three in all, padded to four
    assert_eq!("aé.", pad("aé", 4, '.'));
    assert_eq!("", pad("", 5, '.'));
    assert_eq!("abc", pad("abc", 1, '.'));
}

#[test]
fn test_key_longer_than_pt() {
    let cipher = VigenereCipher::new("testinglongkey");
    let ciphertext = String::from("llgkbgkih");

    assert_eq!(ciphertext.to_uppercase(), cipher.encrypt("shorttext"));
}

#[test]
fn vigenere_test_known_pairs() {
    let cipher = VigenereCipher::new("lemon");
    let plaintext = "attackatdawn";
    let ciphertext = String::from("lxfopvefrnhr");

    assert_eq!(ciphertext.to_uppercase(), cipher.encrypt(plaintext));

    assert_eq!(clean_input(plaintext), cipher.decrypt(&ciphertext));

    let cipher = VigenereCipher::new("cryptii");
    let plaintext = "firstman";
    let ciphertext = String::from("hzphmuip");

    assert_eq!(ciphertext.to_uppercase(), cipher.encrypt(plaintext));

    assert_eq!(clean_input(plaintext), cipher.decrypt(&ciphertext));
}

#[test]
fn vigenere_keeps_digits_and_uses_key_per_position() {
    let cipher = VigenereCipher::new("B");
    assert_eq!(cipher.encrypt("a1z"), "B1A");
    assert_eq!(cipher.decrypt("B1A"), "A1Z");
}

#[test]
fn vigenere_key_check() {
    assert!(is_valid_key("lemon"));
    assert!(is_valid_key("LeMoN"));
    assert!(!is_valid_key(""));
    assert!(!is_valid_key("lem0n"));
    assert!(!is_valid_key("lem on"));
}

#[test]
fn test_clean_input() {
    let input = String::from("awesome_testing_functionality with spaces");
    let expected = String::from("AWESOMETESTINGFUNCTIONALITYWITHSPACES");
    assert_eq!(expected, clean_input(&input));

    let input = String::from("NoW@wITHéé˛Ånumb3rz00712");
    let expected = String::from("NOWWITHNUMB3RZ00712");
    assert_eq!(expected, clean_input(&input));

    assert_eq!("".to_string(), clean_input(""));
}
