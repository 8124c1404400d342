//! The shift (Caesar) cipher, and the letter shift that the Vigenère and
//! Solitaire ciphers build on.
use crate::text::{clean_input, is_digit, is_normal, is_upper, lemma_normalized_is_normal, normalized};
use vstd::prelude::*;

verus! {

/// Letter `c` moved `n` places on along the alphabet A to Z, round from Z
/// to A; any other character is kept.
pub open spec fn shifted(c: char, n: int) -> char {
    if is_upper(c) {
        ('A' as int + (c as int - 'A' as int + n) % 26) as char
    } else {
        c
    }
}

/// Every character of `s` shifted by `n`.
pub open spec fn shift_text(s: Seq<char>, n: int) -> Seq<char> {
    Seq::new(s.len(), |i: int| shifted(s[i], n))
}

/// Shifting by `n` and then by `-n` gives the character back.
pub proof fn lemma_shift_back(c: char, n: int)
    ensures
        shifted(shifted(c, n), -n) == c,
{
    if is_upper(c) {
        let x = c as int - 'A' as int;
        let y = (x + n) % 26;
        assert(0 <= y < 26);
        assert((y - n) % 26 == x) by (nonlinear_arith)
            requires
                0 <= x < 26,
                y == (x + n) % 26,
        {
            assert((x + n) == 26 * ((x + n) / 26) + y);
            assert(y - n == x - 26 * ((x + n) / 26));
            vstd::arithmetic::div_mod::lemma_mod_multiples_vanish(-((x + n) / 26), x, 26);
            vstd::arithmetic::div_mod::lemma_small_mod(x as nat, 26);
        }
    }
}

/// Shifts that differ by a multiple of 26 move letters alike.
pub proof fn lemma_shift_mod(c: char, n: int, m: int)
    requires
        n % 26 == m % 26,
    ensures
        shifted(c, n) == shifted(c, m),
{
    if is_upper(c) {
        let x = c as int - 'A' as int;
        vstd::arithmetic::div_mod::lemma_add_mod_noop(x, n, 26);
        vstd::arithmetic::div_mod::lemma_add_mod_noop(x, m, 26);
    }
}

/// A shifted normal character stays normal.
pub proof fn lemma_shift_keeps_normal(c: char, n: int)
    requires
        is_digit(c) || is_upper(c),
    ensures
        is_digit(shifted(c, n)) || is_upper(shifted(c, n)),
{
}

/// `n` taken modulo 26, as 0 to 25.
fn reduced(n: i8) -> (r: u32)
    ensures
        r < 26,
        r as int == (n as int) % 26,
{
    let r = ((n as i32 + 130) as u32) % 26;
    proof {
        vstd::arithmetic::div_mod::lemma_mod_multiples_vanish(5, n as int, 26);
    }
    r
}

/// The shift cipher: every letter moves by the same amount.
pub struct ShiftCipher {
    key: i8,
}

impl ShiftCipher {
    /// How far letters move.
    pub closed spec fn shift(&self) -> int {
        self.key as int
    }

    pub fn new(key: i8) -> (r: Self)
        ensures
            r.shift() == key,
    {
        ShiftCipher { key }
    }

    /// Shifts `ch` by `n` places, forwards for a positive `n`, backwards for
    /// a negative one; a digit is kept.
    pub fn shift_by(n: i8, ch: char) -> (r: char)
        requires
            is_digit(ch) || is_upper(ch),
        ensures
            r == shifted(ch, n as int),
    {
        if '0' <= ch && ch <= '9' {
            return ch;
        }
        let idx: u32 = (ch as u32) - ('A' as u32);
        let m = reduced(n);
        let r: u32 = (idx + m) % 26;
        proof {
            vstd::arithmetic::div_mod::lemma_add_mod_noop(idx as int, n as int, 26);
            vstd::arithmetic::div_mod::lemma_mod_twice(idx as int + m as int, 26);
            vstd::arithmetic::div_mod::lemma_add_mod_noop(idx as int, m as int, 26);
            vstd::arithmetic::div_mod::lemma_small_mod(idx as nat, 26);
        }
        let b: u8 = 65 + (r as u8);
        b as char
    }

    /// Shifts every character of a normal text by `n`.
    fn shift_all(s: &str, n: i8) -> (r: String)
        requires
            is_normal(s@),
        ensures
            r@ == shift_text(s@, n as int),
    {
        let mut out = String::new();
        for c in it: s.chars()
            invariant
                it.seq() == s@,
                is_normal(s@),
                out@ == shift_text(s@.take(it.index() as int), n as int),
        {
            let ghost i = it.index();
            let d = ShiftCipher::shift_by(n, c);
            out.push(d);
            proof {
                assert(shift_text(s@.take(i + 1), n as int) =~= shift_text(s@.take(i), n as int).push(d));
            }
        }
        proof {
            assert(s@.take(s@.len() as int) =~= s@);
        }
        out
    }

    /// The normal form of `plaintext`, each letter shifted by the key.
    pub fn encrypt(&self, plaintext: &str) -> (r: String)
        ensures
            r@ == shift_text(normalized(plaintext@), self.shift()),
    {
        let clean = clean_input(plaintext);
        proof {
            lemma_normalized_is_normal(plaintext@);
        }
        ShiftCipher::shift_all(clean.as_str(), self.key)
    }

    /// The normal form of `ciphertext`, each letter shifted back by the key.
    pub fn decrypt(&self, ciphertext: &str) -> (r: String)
        ensures
            r@ == shift_text(normalized(ciphertext@), -self.shift()),
    {
        let clean = clean_input(ciphertext);
        proof {
            lemma_normalized_is_normal(ciphertext@);
        }
        let back = (26 - reduced(self.key)) as i8;
        let r = ShiftCipher::shift_all(clean.as_str(), back);
        proof {
            assert forall|c: char| shifted(c, back as int) == shifted(c, -self.shift()) by {
                vstd::arithmetic::div_mod::lemma_mod_sub_multiples_vanish(-self.shift(), 26);
                vstd::arithmetic::div_mod::lemma_sub_mod_noop(26, self.shift(), 26);
                vstd::arithmetic::div_mod::lemma_mod_self_0(26);
                vstd::arithmetic::div_mod::lemma_mod_twice(26 - self.shift(), 26);
                lemma_shift_mod(c, back as int, -self.shift());
            }
            assert(r@ =~= shift_text(normalized(ciphertext@), -self.shift()));
        }
        r
    }
}

} // verus!
