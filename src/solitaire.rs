//! The Solitaire cipher: each letter is shifted by the next value of the
//! keystream that a keyed deck of cards produces.
use crate::card_deck::{is_deck, keyed_deck, keystream, lemma_keystream_prefix, Deck};
use crate::shift::{lemma_shift_back, lemma_shift_keeps_normal, shifted, ShiftCipher};
use crate::text::{clean_input, is_normal, lemma_normal_is_fixed, lemma_normalized_is_normal, normalized};
use vstd::prelude::*;

verus! {

/// Text `p` enciphered with the keystream of deck `d`: the i-th character
/// moves forwards by the i-th keystream value.
pub open spec fn solitaire_encrypt(d: Seq<u32>, p: Seq<char>) -> Seq<char> {
    let ks = keystream(d, p.len()).1;
    Seq::new(p.len(), |i: int| shifted(p[i], ks[i] as int))
}

/// Text `c` deciphered with the keystream of deck `d`: the i-th character
/// moves backwards by the i-th keystream value.
pub open spec fn solitaire_decrypt(d: Seq<u32>, c: Seq<char>) -> Seq<char> {
    let ks = keystream(d, c.len()).1;
    Seq::new(c.len(), |i: int| shifted(c[i], -(ks[i] as int)))
}

/// Deciphering the encryption of a text with the same deck gives back the
/// normal form of the text.
pub proof fn lemma_round_trip(d: Seq<u32>, p: Seq<char>)
    ensures
        solitaire_decrypt(d, normalized(solitaire_encrypt(d, normalized(p)))) == normalized(p),
{
    let q = normalized(p);
    lemma_normalized_is_normal(p);
    let e = solitaire_encrypt(d, q);
    let ks = keystream(d, q.len()).1;
    assert forall|i: int| 0 <= i < e.len() implies #[trigger] e[i] == shifted(q[i], ks[i] as int) by {}
    assert(is_normal(e)) by {
        assert forall|i: int| 0 <= i < e.len() implies crate::text::is_digit(#[trigger] e[i])
            || crate::text::is_upper(e[i]) by {
            lemma_shift_keeps_normal(q[i], ks[i] as int);
        }
    }
    lemma_normal_is_fixed(e);
    assert forall|i: int| 0 <= i < q.len() implies shifted(e[i], -(ks[i] as int)) == q[i] by {
        lemma_shift_back(q[i], ks[i] as int);
    }
    assert(solitaire_decrypt(d, e) =~= q);
}

/// The Solitaire cipher, holding the deck as keying left it.
pub struct SolitaireCipher {
    keystream: Deck,
}

impl View for SolitaireCipher {
    type V = Seq<u32>;

    closed spec fn view(&self) -> Seq<u32> {
        self.keystream@
    }
}

impl SolitaireCipher {
    pub open spec fn wf(&self) -> bool {
        is_deck(self@)
    }

    /// Keys a fresh deck from `key`, once.
    pub fn new(key: &str) -> (r: Self)
        ensures
            r@ == keyed_deck(key@),
            r.wf(),
    {
        let mut deck = Deck::new();
        deck.key_deck(key);
        SolitaireCipher { keystream: deck }
    }

    /// Shifts each character of a normal text by the next keystream value of
    /// a copy of the keyed deck, forwards or, with `back`, backwards.
    fn combine(&self, s: &str, back: bool) -> (r: String)
        requires
            self.wf(),
            is_normal(s@),
        ensures
            r@ == if back {
                solitaire_decrypt(self@, s@)
            } else {
                solitaire_encrypt(self@, s@)
            },
    {
        let ghost d = self@;
        let mut deck = self.keystream.duplicate();
        let mut out = String::new();
        for ch in it: s.chars()
            invariant
                it.seq() == s@,
                is_normal(s@),
                is_deck(d),
                deck.wf(),
                deck@ == keystream(d, it.index() as nat).0,
                out@ == Seq::new(
                    it.index() as nat,
                    |k: int|
                        shifted(
                            s@[k],
                            if back {
                                -(keystream(d, it.index() as nat).1[k] as int)
                            } else {
                                keystream(d, it.index() as nat).1[k] as int
                            },
                        ),
                ),
        {
            let ghost i = it.index() as nat;
            let v = deck.get_output_card();
            let amount: i8 = if back {
                -(v as i8)
            } else {
                v as i8
            };
            let e = ShiftCipher::shift_by(amount, ch);
            out.push(e);
            proof {
                lemma_keystream_prefix(d, i, i);
                lemma_keystream_prefix(d, i, i + 1);
                let ks = keystream(d, i).1;
                let ks1 = keystream(d, i + 1).1;
                assert(ks1 =~= ks.push(v));
                assert(out@ =~= Seq::new(
                    i + 1,
                    |k: int|
                        shifted(
                            s@[k],
                            if back {
                                -(ks1[k] as int)
                            } else {
                                ks1[k] as int
                            },
                        ),
                ));
            }
        }
        proof {
            let n = s@.len();
            if back {
                assert(out@ =~= solitaire_decrypt(d, s@));
            } else {
                assert(out@ =~= solitaire_encrypt(d, s@));
            }
        }
        out
    }

    /// The normal form of `plaintext`, enciphered with the keystream.
    pub fn encrypt(&self, plaintext: &str) -> (r: String)
        requires
            self.wf(),
        ensures
            r@ == solitaire_encrypt(self@, normalized(plaintext@)),
    {
        let clean = clean_input(plaintext);
        proof {
            lemma_normalized_is_normal(plaintext@);
        }
        self.combine(clean.as_str(), false)
    }

    /// The normal form of `ciphertext`, deciphered with the keystream.
    pub fn decrypt(&self, ciphertext: &str) -> (r: String)
        requires
            self.wf(),
        ensures
            r@ == solitaire_decrypt(self@, normalized(ciphertext@)),
    {
        let clean = clean_input(ciphertext);
        proof {
            lemma_normalized_is_normal(ciphertext@);
        }
        self.combine(clean.as_str(), true)
    }
}

} // verus!
