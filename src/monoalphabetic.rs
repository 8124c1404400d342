//! The monoalphabetic substitution cipher: the key is the alphabet in
//! another order, and each letter stands for the key letter at its place.
use crate::text::{
    chars_of, clean_input, is_digit, is_letter, is_normal, is_upper, lemma_normalized_is_normal,
    letter_index, normalized, upper, upper_char,
};
use vstd::prelude::*;

verus! {

/// A usable key: 26 letters, of either case, no letter twice.
pub open spec fn is_alphabet_key(k: Seq<char>) -> bool {
    &&& k.len() == 26
    &&& forall|i: int| 0 <= i < 26 ==> is_letter(#[trigger] k[i])
    &&& forall|i: int, j: int| 0 <= i < j < 26 ==> upper(#[trigger] k[i]) != upper(#[trigger] k[j])
}

/// The letter that key `k` puts for `c`: the key letter, upper-cased, at
/// the place of `c` in the alphabet; a digit stands for itself.
pub open spec fn substituted(k: Seq<char>, c: char) -> char {
    if is_upper(c) {
        upper(k[c as int - 'A' as int])
    } else {
        c
    }
}

/// The letter for which key `k` puts `c`: the letter of the alphabet at the
/// place of `c` in the key; a digit stands for itself.
pub open spec fn restored(k: Seq<char>, c: char) -> char {
    if is_upper(c) && exists|j: int| 0 <= j < k.len() && upper(k[j]) == c {
        ('A' as int + choose|j: int| 0 <= j < k.len() && upper(k[j]) == c) as char
    } else {
        c
    }
}

pub open spec fn mono_encrypt(k: Seq<char>, p: Seq<char>) -> Seq<char> {
    Seq::new(p.len(), |i: int| substituted(k, p[i]))
}

pub open spec fn mono_decrypt(k: Seq<char>, c: Seq<char>) -> Seq<char> {
    Seq::new(c.len(), |i: int| restored(k, c[i]))
}

/// The monoalphabetic cipher.
pub struct MonoalphaCipher {
    key: String,
}

impl View for MonoalphaCipher {
    type V = Seq<char>;

    closed spec fn view(&self) -> Seq<char> {
        self.key@
    }
}

impl MonoalphaCipher {
    pub fn new(key: &str) -> (r: Self)
        requires
            is_alphabet_key(key@),
        ensures
            r@ == key@,
    {
        MonoalphaCipher { key: key.to_owned() }
    }

    /// Checks that `s` is the alphabet in some order: 26 letters, of either
    /// case, none of them twice.
    pub fn is_alphabet(s: &str) -> (r: bool)
        ensures
            r == is_alphabet_key(s@),
    {
        let k = chars_of(s);
        if k.len() != 26 {
            return false;
        }
        let mut seen: Vec<bool> = Vec::new();
        let mut x: usize = 0;
        while x < 26
            invariant
                x <= 26,
                seen@.len() == x,
                forall|y: int| 0 <= y < x ==> !(#[trigger] seen@[y]),
            decreases 26 - x,
        {
            seen.push(false);
            x = x + 1;
        }
        let mut i: usize = 0;
        while i < 26
            invariant
                k@ == s@,
                k@.len() == 26,
                i <= 26,
                seen@.len() == 26,
                forall|j: int| 0 <= j < i ==> is_letter(#[trigger] k@[j]),
                forall|j1: int, j2: int|
                    0 <= j1 < j2 < i ==> upper(#[trigger] k@[j1]) != upper(#[trigger] k@[j2]),
                forall|j: int| 0 <= j < i ==> seen@[#[trigger] letter_index(k@[j])],
                forall|y: int|
                    0 <= y < 26 && #[trigger] seen@[y] ==> exists|j: int|
                        0 <= j < i && letter_index(#[trigger] k@[j]) == y,
            decreases 26 - i,
        {
            let c = k[i];
            if !(('A' <= c && c <= 'Z') || ('a' <= c && c <= 'z')) {
                return false;
            }
            let u = upper_char(c);
            let idx = ((u as u32) - ('A' as u32)) as usize;
            assert(idx == letter_index(c));
            if seen[idx] {
                proof {
                    let j = choose|j: int| 0 <= j < i && letter_index(#[trigger] k@[j]) == idx;
                    assert(upper(k@[j]) == upper(k@[i as int]));
                }
                return false;
            }
            seen.set(idx, true);
            proof {
                assert forall|y: int|
                    0 <= y < 26 && #[trigger] seen@[y] implies exists|j: int|
                        0 <= j < i + 1 && letter_index(#[trigger] k@[j]) == y by {
                    if y == idx {
                        assert(letter_index(k@[i as int]) == y);
                    } else {
                        let j = choose|j: int| 0 <= j < i && letter_index(#[trigger] k@[j]) == y;
                        assert(letter_index(k@[j]) == y);
                    }
                }
                assert forall|j1: int, j2: int|
                    0 <= j1 < j2 < i + 1 implies upper(#[trigger] k@[j1]) != upper(
                        #[trigger] k@[j2],
                    ) by {
                    if j2 == i {
                        assert(seen@[letter_index(k@[j1])]);
                    }
                }
            }
            i = i + 1;
        }
        true
    }

    /// For each letter of the alphabet, the key letter that stands for it.
    fn build_map(key: &Vec<char>) -> (r: Vec<char>)
        requires
            is_alphabet_key(key@),
        ensures
            r@.len() == 26,
            forall|x: int| 0 <= x < 26 ==> #[trigger] r@[x] == upper(key@[x]),
    {
        let mut map: Vec<char> = Vec::new();
        let mut x: usize = 0;
        while x < 26
            invariant
                key@.len() == 26,
                x <= 26,
                map@.len() == x,
                forall|y: int| 0 <= y < x ==> #[trigger] map@[y] == upper(key@[y]),
            decreases 26 - x,
        {
            map.push(upper_char(key[x]));
            x = x + 1;
        }
        map
    }

    /// Where letter `c` stands in the key, if it does.
    fn find_in_key(key: &Vec<char>, c: char) -> (r: Option<usize>)
        requires
            is_alphabet_key(key@),
        ensures
            r matches Some(j) ==> j < 26 && upper(key@[j as int]) == c,
            r is None ==> forall|j: int| 0 <= j < 26 ==> upper(#[trigger] key@[j]) != c,
    {
        let mut j: usize = 0;
        while j < 26
            invariant
                key@.len() == 26,
                j <= 26,
                forall|i: int| 0 <= i < j ==> upper(#[trigger] key@[i]) != c,
            decreases 26 - j,
        {
            if upper_char(key[j]) == c {
                return Some(j);
            }
            j = j + 1;
        }
        None
    }

    /// For each letter of the alphabet, the letter that the key puts it for.
    fn build_inverse_map(key: &Vec<char>) -> (r: Vec<char>)
        requires
            is_alphabet_key(key@),
        ensures
            r@.len() == 26,
            forall|x: int| 0 <= x < 26 ==> #[trigger] r@[x] == restored(key@, ('A' as int + x) as char),
    {
        let mut inverse: Vec<char> = Vec::new();
        let mut x: usize = 0;
        while x < 26
            invariant
                is_alphabet_key(key@),
                x <= 26,
                inverse@.len() == x,
                forall|y: int| 0 <= y < x ==> #[trigger] inverse@[y] == restored(key@, ('A' as int + y) as char),
            decreases 26 - x,
        {
            let letter = ((65 + x) as u8) as char;
            let r = match MonoalphaCipher::find_in_key(key, letter) {
                Some(j) => {
                    proof {
                        let ghost i = choose|i: int| 0 <= i < key@.len() && upper(key@[i]) == letter;
                        assert(upper(key@[i]) == upper(key@[j as int]));
                        assert(i == j);
                    }
                    ((65 + j) as u8) as char
                },
                None => letter,
            };
            inverse.push(r);
            x = x + 1;
        }
        inverse
    }

    /// Puts `table`'s entry for each letter of a normal text; digits stay.
    fn substitute_all(table: &Vec<char>, s: &str) -> (r: String)
        requires
            table@.len() == 26,
            is_normal(s@),
        ensures
            r@.len() == s@.len(),
            forall|i: int|
                0 <= i < s@.len() ==> #[trigger] r@[i] == if is_upper(s@[i]) {
                    table@[s@[i] as int - 'A' as int]
                } else {
                    s@[i]
                },
    {
        let text = chars_of(s);
        let mut out = String::new();
        let mut i: usize = 0;
        while i < text.len()
            invariant
                text@ == s@,
                table@.len() == 26,
                is_normal(s@),
                i <= text@.len(),
                out@.len() == i,
                forall|j: int|
                    0 <= j < i ==> #[trigger] out@[j] == if is_upper(s@[j]) {
                        table@[s@[j] as int - 'A' as int]
                    } else {
                        s@[j]
                    },
            decreases text@.len() - i,
        {
            let c = text[i];
            let d = if 'A' <= c && c <= 'Z' {
                table[((c as u32) - ('A' as u32)) as usize]
            } else {
                c
            };
            out.push(d);
            i = i + 1;
        }
        out
    }

    /// The normal form of `plaintext`, each letter replaced by its key
    /// letter.
    pub fn encrypt(&self, plaintext: &str) -> (r: String)
        requires
            is_alphabet_key(self@),
        ensures
            r@ == mono_encrypt(self@, normalized(plaintext@)),
    {
        let clean = clean_input(plaintext);
        proof {
            lemma_normalized_is_normal(plaintext@);
        }
        let key = chars_of(self.key.as_str());
        let map = MonoalphaCipher::build_map(&key);
        let r = MonoalphaCipher::substitute_all(&map, clean.as_str());
        proof {
            assert(r@ =~= mono_encrypt(self@, normalized(plaintext@)));
        }
        r
    }

    /// The normal form of `ciphertext`, each letter replaced by the letter
    /// that the key puts it for.
    pub fn decrypt(&self, ciphertext: &str) -> (r: String)
        requires
            is_alphabet_key(self@),
        ensures
            r@ == mono_decrypt(self@, normalized(ciphertext@)),
    {
        let clean = clean_input(ciphertext);
        proof {
            lemma_normalized_is_normal(ciphertext@);
        }
        let key = chars_of(self.key.as_str());
        let inverse = MonoalphaCipher::build_inverse_map(&key);
        let r = MonoalphaCipher::substitute_all(&inverse, clean.as_str());
        proof {
            let q = normalized(ciphertext@);
            assert forall|i: int| 0 <= i < q.len() implies #[trigger] r@[i] == restored(self@, q[i]) by {
                if is_upper(q[i]) {
                    assert(('A' as int + (q[i] as int - 'A' as int)) as char == q[i]);
                }
            }
            assert(r@ =~= mono_decrypt(self@, q));
        }
        r
    }
}

} // verus!
