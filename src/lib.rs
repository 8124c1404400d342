//! Classical ciphers over a normalised alphabet: shift, monoalphabetic
//! substitution, Vigenère, scytale transposition, and the Solitaire
//! keystream cipher driven by a simulated deck of cards.
use vstd::prelude::*;

pub mod card_deck;
pub mod keys;
pub mod monoalphabetic;
pub mod scytale;
pub mod shift;
pub mod solitaire;
pub mod text;
pub mod utils;
pub mod vigenere;

pub use text::clean_input;

use card_deck::keyed_deck;
use keys::{cipher_kind, kind_named, parsed_i8, parsed_usize, scytale_key, shift_key, CipherKind};
use monoalphabetic::{is_alphabet_key, mono_decrypt, mono_encrypt, MonoalphaCipher};
use scytale::{diameter, wound, Scytale};
use shift::{shift_text, ShiftCipher};
use solitaire::{lemma_round_trip, solitaire_decrypt, solitaire_encrypt, SolitaireCipher};
use text::normalized;
use vigenere::{is_valid_key, is_vigenere_key, vigenere_decrypt, vigenere_encrypt, VigenereCipher};

verus! {

/// Why a text could not be enciphered or deciphered.
#[derive(Clone, Copy, Debug, PartialEq, Eq, Structural)]
pub enum CipherError {
    /// No cipher has that name.
    UnknownCipher,
    /// The key does not suit the cipher.
    InvalidKey,
}

/// A result as plain values.
pub open spec fn outcome(r: Result<String, CipherError>) -> Result<Seq<char>, CipherError> {
    match r {
        Ok(s) => Ok(s@),
        Err(e) => Err(e),
    }
}

/// The key of a scytale: the length of its rod.
pub open spec fn rod_length(key: Seq<char>) -> Option<int> {
    match parsed_usize(key) {
        Some(n) => if 0 < n {
            Some(n as int)
        } else {
            None
        },
        None => None,
    }
}

/// The key of a scytale for deciphering a text of `len` characters: the
/// rod length must also be at most `u32::MAX`, and the padded text must
/// fit in memory.
pub open spec fn unwinding_rod_length(key: Seq<char>, len: int) -> Option<int> {
    match rod_length(key) {
        Some(n) => if n <= u32::MAX && len + n <= usize::MAX {
            Some(n)
        } else {
            None
        },
        None => None,
    }
}

/// What enciphering `data` with the cipher named `cipher` and key `key`
/// gives.
pub open spec fn encryption(cipher: Seq<char>, data: Seq<char>, key: Seq<char>) -> Result<
    Seq<char>,
    CipherError,
> {
    let p = normalized(data);
    match kind_named(cipher) {
        None => Err(CipherError::UnknownCipher),
        Some(CipherKind::Shift) => match parsed_i8(key) {
            Some(k) => Ok(shift_text(p, k as int)),
            None => Err(CipherError::InvalidKey),
        },
        Some(CipherKind::Monoalphabetic) => if is_alphabet_key(key) {
            Ok(mono_encrypt(key, p))
        } else {
            Err(CipherError::InvalidKey)
        },
        Some(CipherKind::Vigenere) => if is_vigenere_key(key) {
            Ok(vigenere_encrypt(key, p))
        } else {
            Err(CipherError::InvalidKey)
        },
        Some(CipherKind::Scytale) => match rod_length(key) {
            Some(n) => Ok(wound(p, n)),
            None => Err(CipherError::InvalidKey),
        },
        Some(CipherKind::Solitaire) => Ok(solitaire_encrypt(keyed_deck(key), p)),
    }
}

/// What deciphering `data` with the cipher named `cipher` and key `key`
/// gives.
pub open spec fn decryption(cipher: Seq<char>, data: Seq<char>, key: Seq<char>) -> Result<
    Seq<char>,
    CipherError,
> {
    let c = normalized(data);
    match kind_named(cipher) {
        None => Err(CipherError::UnknownCipher),
        Some(CipherKind::Shift) => match parsed_i8(key) {
            Some(k) => Ok(shift_text(c, -(k as int))),
            None => Err(CipherError::InvalidKey),
        },
        Some(CipherKind::Monoalphabetic) => if is_alphabet_key(key) {
            Ok(mono_decrypt(key, c))
        } else {
            Err(CipherError::InvalidKey)
        },
        Some(CipherKind::Vigenere) => if is_vigenere_key(key) {
            Ok(vigenere_decrypt(key, c))
        } else {
            Err(CipherError::InvalidKey)
        },
        Some(CipherKind::Scytale) => match unwinding_rod_length(key, data.len() as int) {
            Some(n) => Ok(wound(c, diameter(c.len() as int, n))),
            None => Err(CipherError::InvalidKey),
        },
        Some(CipherKind::Solitaire) => Ok(solitaire_decrypt(keyed_deck(key), c)),
    }
}

/// The length of a scytale rod for deciphering a text of `len`
/// characters.
fn unwinding_rod_for(key: &str, len: usize) -> (r: Option<usize>)
    ensures
        r matches Some(n) ==> unwinding_rod_length(key@, len as int) == Some(n as int),
        r is None ==> unwinding_rod_length(key@, len as int) is None,
{
    match scytale_key(key) {
        Some(n) => if n <= 4294967295 && len <= usize::MAX - n {
            Some(n)
        } else {
            None
        },
        None => None,
    }
}

/// Enciphers the normal form of `data` with the cipher named `cipher`
/// under `key`. Fails with `UnknownCipher` for a name that no cipher has and
/// with `InvalidKey` for a key that does not suit the cipher. A Solitaire
/// key is never refused: it keys the deck that the keystream comes from.
pub fn encrypt_data(cipher: &str, data: &str, key: &str) -> (r: Result<String, CipherError>)
    ensures
        outcome(r) == encryption(cipher@, data@, key@),
{
    let kind = cipher_kind(cipher);
    match kind {
        None => Err(CipherError::UnknownCipher),
        Some(CipherKind::Shift) => match shift_key(key) {
            Some(k) => {
                let sc = ShiftCipher::new(k);
                Ok(sc.encrypt(data))
            },
            None => Err(CipherError::InvalidKey),
        },
        Some(CipherKind::Monoalphabetic) => {
            if MonoalphaCipher::is_alphabet(key) {
                let mc = MonoalphaCipher::new(key);
                Ok(mc.encrypt(data))
            } else {
                Err(CipherError::InvalidKey)
            }
        },
        Some(CipherKind::Vigenere) => {
            if is_valid_key(key) {
                let vc = VigenereCipher::new(key);
                Ok(vc.encrypt(data))
            } else {
                Err(CipherError::InvalidKey)
            }
        },
        Some(CipherKind::Scytale) => {
            match scytale_key(key) {
                Some(n) => {
                    let scytale = Scytale::new(n);
                    Ok(scytale.encrypt(data))
                },
                None => Err(CipherError::InvalidKey),
            }
        },
        Some(CipherKind::Solitaire) => {
            let solitaire_c = SolitaireCipher::new(key);
            Ok(solitaire_c.encrypt(data))
        },
    }
}

/// Deciphers the normal form of `data` with the cipher named `cipher`
/// under `key`. Fails with `UnknownCipher` for a name that no cipher has and
/// with `InvalidKey` for a key that does not suit the cipher. A Solitaire
/// key is never refused: it keys the deck that the keystream comes from.
pub fn decrypt_data(cipher: &str, data: &str, key: &str) -> (r: Result<String, CipherError>)
    ensures
        outcome(r) == decryption(cipher@, data@, key@),
{
    let kind = cipher_kind(cipher);
    let len = data.unicode_len();
    match kind {
        None => Err(CipherError::UnknownCipher),
        Some(CipherKind::Shift) => match shift_key(key) {
            Some(k) => {
                let sc = ShiftCipher::new(k);
                Ok(sc.decrypt(data))
            },
            None => Err(CipherError::InvalidKey),
        },
        Some(CipherKind::Monoalphabetic) => {
            if MonoalphaCipher::is_alphabet(key) {
                let mc = MonoalphaCipher::new(key);
                Ok(mc.decrypt(data))
            } else {
                Err(CipherError::InvalidKey)
            }
        },
        Some(CipherKind::Vigenere) => {
            if is_valid_key(key) {
                let vc = VigenereCipher::new(key);
                Ok(vc.decrypt(data))
            } else {
                Err(CipherError::InvalidKey)
            }
        },
        Some(CipherKind::Scytale) => {
            match unwinding_rod_for(key, len) {
                Some(n) => {
                    let scytale = Scytale::new(n);
                    Ok(scytale.decrypt(data))
                },
                None => Err(CipherError::InvalidKey),
            }
        },
        Some(CipherKind::Solitaire) => {
            let solitaire_c = SolitaireCipher::new(key);
            Ok(solitaire_c.decrypt(data))
        },
    }
}

/// Through the dispatch functions too, deciphering a Solitaire encryption
/// under the same key gives back the normal form of the text.
pub proof fn lemma_solitaire_dispatch_round_trip(data: Seq<char>, key: Seq<char>)
    ensures
        ({
            let r = encryption("solitaire"@, data, key);
            r is Ok && decryption("solitaire"@, r->Ok_0, key) == Ok::<Seq<char>, CipherError>(
                normalized(data),
            )
        }),
{
    reveal_strlit("solitaire");
    reveal_strlit("shift");
    reveal_strlit("monoalphabetic");
    reveal_strlit("vigenere");
    reveal_strlit("scytale");
    assert("solitaire"@.len() == 9);
    assert("shift"@.len() == 5);
    assert("monoalphabetic"@.len() == 14);
    assert("vigenere"@.len() == 8);
    assert("scytale"@.len() == 7);
    lemma_round_trip(keyed_deck(key), data);
}

} // verus!
