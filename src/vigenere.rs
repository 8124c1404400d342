//! The Vigenère cipher: a shift cipher whose shift follows the letters of
//! the key, over and over.
use crate::shift::{shifted, ShiftCipher};
use crate::text::{
    chars_of, clean_input, is_letter, is_lower, is_normal, is_upper, lemma_normalized_is_normal,
    letter_index, normalized,
};
use vstd::prelude::*;

verus! {

/// A usable key: at least one letter, and letters only.
pub open spec fn is_vigenere_key(k: Seq<char>) -> bool {
    k.len() > 0 && forall|i: int| 0 <= i < k.len() ==> is_letter(#[trigger] k[i])
}

/// How far the key moves the i-th character of a text.
pub open spec fn key_shift(k: Seq<char>, i: int) -> int {
    letter_index(k[i % (k.len() as int)])
}

/// Text `p` enciphered: its i-th character moves forwards by the letter
/// of the key under it.
pub open spec fn vigenere_encrypt(k: Seq<char>, p: Seq<char>) -> Seq<char> {
    Seq::new(p.len(), |i: int| shifted(p[i], key_shift(k, i)))
}

/// Text `c` deciphered: its i-th character moves backwards by the letter
/// of the key under it.
pub open spec fn vigenere_decrypt(k: Seq<char>, c: Seq<char>) -> Seq<char> {
    Seq::new(c.len(), |i: int| shifted(c[i], -key_shift(k, i)))
}

/// Checks that `key` is a usable key.
pub fn is_valid_key(key: &str) -> (r: bool)
    ensures
        r == is_vigenere_key(key@),
{
    let k = chars_of(key);
    if k.len() == 0 {
        return false;
    }
    let mut i: usize = 0;
    while i < k.len()
        invariant
            k@ == key@,
            i <= k@.len(),
            forall|j: int| 0 <= j < i ==> is_letter(#[trigger] k@[j]),
        decreases k@.len() - i,
    {
        let c = k[i];
        if !(('A' <= c && c <= 'Z') || ('a' <= c && c <= 'z')) {
            return false;
        }
        i = i + 1;
    }
    true
}

/// The Vigenère cipher.
pub struct VigenereCipher {
    key: String,
}

impl View for VigenereCipher {
    type V = Seq<char>;

    closed spec fn view(&self) -> Seq<char> {
        self.key@
    }
}

impl VigenereCipher {
    pub fn new(key: &str) -> (r: Self)
        requires
            is_vigenere_key(key@),
        ensures
            r@ == key@,
    {
        VigenereCipher { key: key.to_owned() }
    }

    /// Shifts each character of a normal text by the key letter under it,
    /// forwards or, with `back`, backwards.
    fn combine(&self, s: &str, back: bool) -> (r: String)
        requires
            is_vigenere_key(self@),
            is_normal(s@),
        ensures
            r@ == if back {
                vigenere_decrypt(self@, s@)
            } else {
                vigenere_encrypt(self@, s@)
            },
    {
        let k = chars_of(self.key.as_str());
        let text = chars_of(s);
        let mut out = String::new();
        let mut idx: usize = 0;
        while idx < text.len()
            invariant
                k@ == self@,
                text@ == s@,
                is_vigenere_key(k@),
                is_normal(s@),
                idx <= text@.len(),
                out@ == Seq::new(
                    idx as nat,
                    |i: int|
                        shifted(
                            s@[i],
                            if back {
                                -key_shift(k@, i)
                            } else {
                                key_shift(k@, i)
                            },
                        ),
                ),
            decreases text@.len() - idx,
        {
            let ch_k = k[idx % k.len()];
            assert(is_letter(ch_k));
            let shift: i8 = if 'a' <= ch_k && ch_k <= 'z' {
                ((ch_k as u32) - ('a' as u32)) as i8
            } else {
                ((ch_k as u32) - ('A' as u32)) as i8
            };
            assert(shift == key_shift(k@, idx as int));
            let ch = text[idx];
            let e = if back {
                ShiftCipher::shift_by(-shift, ch)
            } else {
                ShiftCipher::shift_by(shift, ch)
            };
            out.push(e);
            proof {
                assert(out@ =~= Seq::new(
                    (idx + 1) as nat,
                    |i: int|
                        shifted(
                            s@[i],
                            if back {
                                -key_shift(k@, i)
                            } else {
                                key_shift(k@, i)
                            },
                        ),
                ));
            }
            idx = idx + 1;
        }
        proof {
            if back {
                assert(out@ =~= vigenere_decrypt(self@, s@));
            } else {
                assert(out@ =~= vigenere_encrypt(self@, s@));
            }
        }
        out
    }

    /// The normal form of `plaintext`, enciphered with the key.
    pub fn encrypt(&self, plaintext: &str) -> (r: String)
        requires
            is_vigenere_key(self@),
        ensures
            r@ == vigenere_encrypt(self@, normalized(plaintext@)),
    {
        let clean = clean_input(plaintext);
        proof {
            lemma_normalized_is_normal(plaintext@);
        }
        self.combine(clean.as_str(), false)
    }

    /// The normal form of `ciphertext`, deciphered with the key.
    pub fn decrypt(&self, ciphertext: &str) -> (r: String)
        requires
            is_vigenere_key(self@),
        ensures
            r@ == vigenere_decrypt(self@, normalized(ciphertext@)),
    {
        let clean = clean_input(ciphertext);
        proof {
            lemma_normalized_is_normal(ciphertext@);
        }
        self.combine(clean.as_str(), true)
    }
}

} // verus!
