//! The scytale transposition cipher: the text is written round a rod of a
//! given number of faces and read off along the rod.
use crate::text::{
    chars_of, clean_input, lemma_normal_ascii, lemma_normalized_is_normal, lemma_normalized_len,
    normalized,
};
use crate::utils::{pad, padding};
use vstd::prelude::*;
use vstd::string::StringSliceAdditionalSpecFns;
use vstd::utf8::{is_ascii_chars, is_ascii_chars_encode_utf8};

verus! {

/// The characters of `t` at `j`, `j + n`, `j + 2n`, ... to its end.
pub open spec fn column(t: Seq<char>, n: int, j: int) -> Seq<char>
    decreases t.len() - j,
{
    if j < 0 || j >= t.len() || n <= 0 {
        Seq::empty()
    } else if j + n >= t.len() {
        seq![t[j]]
    } else {
        seq![t[j]] + column(t, n, j + n)
    }
}

/// Columns `i`, `i + 1`, ... of `t`, up to column `n - 1`, one after the
/// other.
pub open spec fn columns(t: Seq<char>, n: int, i: int) -> Seq<char>
    decreases n - i,
{
    if i < 0 || i >= n || i >= t.len() {
        Seq::empty()
    } else {
        column(t, n, i) + columns(t, n, i + 1)
    }
}

/// Text `t` read off a rod with `n` faces: every `n`-th character from the
/// first, then every `n`-th from the second, and so on.
pub open spec fn wound(t: Seq<char>, n: int) -> Seq<char> {
    columns(t, n, 0)
}

/// How many faces a text of `len` characters fills on a rod of `n`
/// letters per face.
pub open spec fn diameter(len: int, n: int) -> int {
    (len + padding(len, n)) / n
}

/// The scytale cipher.
pub struct Scytale {
    key: usize,
}

impl Scytale {
    /// The length of the rod.
    pub closed spec fn length(&self) -> int {
        self.key as int
    }

    pub fn new(key: usize) -> (r: Self)
        requires
            0 < key,
        ensures
            r.length() == key,
    {
        Scytale { key }
    }

    /// How many faces `s` fills on a rod of `length` letters per face: its
    /// length padded to a multiple of `length`, divided by `length`.
    fn get_diameter(s: &str, length: usize) -> (r: usize)
        requires
            0 < length <= u32::MAX,
            is_ascii_chars(s@),
            s@.len() + length <= usize::MAX,
        ensures
            r == diameter(s@.len() as int, length as int),
    {
        proof {
            is_ascii_chars_encode_utf8(s@);
        }
        let padded = pad(s, length as u32, '.');
        let p = padded.as_str();
        proof {
            assert(is_ascii_chars(p@));
            is_ascii_chars_encode_utf8(p@);
        }
        p.len() / length
    }

    /// Reads `text` off a rod with `n` faces.
    fn wrap_around_scytale(text: &str, n: usize) -> (r: String)
        ensures
            r@ == wound(text@, n as int),
    {
        let t = chars_of(text);
        let l = t.len();
        let ghost total = columns(t@, n as int, 0);
        let mut out = String::new();
        let mut i: usize = 0;
        while i < n && i < l
            invariant
                t@ == text@,
                l == t@.len(),
                out@ + columns(t@, n as int, i as int) == total,
            decreases l - i,
        {
            assert(out@ + column(t@, n as int, i as int) + columns(t@, n as int, i + 1) == total) by {
                assert(out@ + columns(t@, n as int, i as int) =~= out@ + column(t@, n as int, i as int)
                    + columns(t@, n as int, i + 1));
            }
            let mut j = i;
            while j < l
                invariant
                    t@ == text@,
                    l == t@.len(),
                    0 < n,
                    i <= j <= l,
                    out@ + column(t@, n as int, j as int) + columns(t@, n as int, i + 1) == total,
                decreases l - j,
            {
                let ghost before = out@;
                out.push(t[j]);
                let next = if l - j > n {
                    j + n
                } else {
                    l
                };
                proof {
                    if next == l {
                        assert(column(t@, n as int, j as int) == seq![t@[j as int]]);
                        assert(column(t@, n as int, l as int) =~= Seq::<char>::empty());
                    } else {
                        assert(column(t@, n as int, j as int) == seq![t@[j as int]] + column(
                            t@,
                            n as int,
                            j + n,
                        ));
                    }
                    assert(out@ + column(t@, n as int, next as int) =~= before + column(
                        t@,
                        n as int,
                        j as int,
                    ));
                }
                j = next;
            }
            assert(out@ + columns(t@, n as int, i + 1) == total) by {
                assert(column(t@, n as int, l as int) =~= Seq::<char>::empty());
                assert(out@ + column(t@, n as int, l as int) =~= out@);
            }
            i = i + 1;
        }
        assert(columns(t@, n as int, i as int) =~= Seq::<char>::empty());
        assert(out@ =~= out@ + columns(t@, n as int, i as int));
        out
    }

    /// The normal form of `plaintext`, read off the rod.
    pub fn encrypt(&self, plaintext: &str) -> (r: String)
        ensures
            r@ == wound(normalized(plaintext@), self.length()),
    {
        let clean = clean_input(plaintext);
        Scytale::wrap_around_scytale(clean.as_str(), self.key)
    }

    /// The normal form of `ciphertext`, read off a rod with as many faces as
    /// the text fills with the key's length per face.
    pub fn decrypt(&self, ciphertext: &str) -> (r: String)
        requires
            0 < self.length() <= u32::MAX,
            ciphertext@.len() + self.length() <= usize::MAX,
        ensures
            ({
                let q = normalized(ciphertext@);
                r@ == wound(q, diameter(q.len() as int, self.length()))
            }),
    {
        let clean = clean_input(ciphertext);
        let c = clean.as_str();
        proof {
            lemma_normalized_is_normal(ciphertext@);
            lemma_normalized_len(ciphertext@);
            lemma_normal_ascii(c@);
        }
        let d = Scytale::get_diameter(c, self.key);
        Scytale::wrap_around_scytale(c, d)
    }
}

} // verus!
