//! Helpers shared by the ciphers.
use vstd::prelude::*;
use vstd::string::StringSliceAdditionalSpecFns;

verus! {

/// How many characters bring a length of `len` bytes up to a multiple of
/// `n`.
pub open spec fn padding(len: int, n: int) -> int {
    (n - len % n) % n
}

/// Adding the padding reaches a multiple of `n`, and no shorter addition
/// does.
pub proof fn lemma_padding(len: int, n: int, t: int)
    requires
        len >= 0,
        n > 0,
        0 <= t <= padding(len, n),
    ensures
        0 <= padding(len, n) < n,
        (len + t) % n == 0 <==> t == padding(len, n),
{
    let r = len % n;
    let k = padding(len, n);
    vstd::arithmetic::div_mod::lemma_add_mod_noop(len, t, n);
    vstd::arithmetic::div_mod::lemma_small_mod(t as nat, n as nat);
    if r == 0 {
        vstd::arithmetic::div_mod::lemma_mod_self_0(n);
        assert(k == 0);
    } else {
        vstd::arithmetic::div_mod::lemma_small_mod((n - r) as nat, n as nat);
        assert(k == n - r);
        if t < k {
            vstd::arithmetic::div_mod::lemma_small_mod((r + t) as nat, n as nat);
        } else {
            vstd::arithmetic::div_mod::lemma_mod_self_0(n);
        }
    }
}

/// Pads `data` with `pad_char` until its length in bytes is a multiple of
/// `n`; it is left as it is when it already is one.
pub fn pad(data: &str, n: u32, pad_char: char) -> (r: String)
    requires
        n > 0,
        (pad_char as u32) < 128,
        data.spec_bytes().len() + n <= usize::MAX,
    ensures
        r@ == data@ + Seq::new(
            padding(data.spec_bytes().len() as int, n as int) as nat,
            |i: int| pad_char,
        ),
{
    let mut ret = data.to_owned();
    let mut len: usize = data.len();
    let m = n as usize;
    let ghost len0 = len as int;
    let ghost k = padding(len0, n as int);
    proof {
        lemma_padding(len0, n as int, k);
    }
    while len % m != 0
        invariant
            m == n as usize,
            m > 0,
            len0 <= len <= len0 + k,
            0 <= k < n,
            k == padding(len0, m as int),
            len0 >= 0,
            len0 + m <= usize::MAX,
            ret@ == data@ + Seq::new((len - len0) as nat, |i: int| pad_char),
        decreases len0 + k - len,
    {
        proof {
            lemma_padding(len0, m as int, len - len0);
        }
        ret.push(pad_char);
        len = len + 1;
        proof {
            assert(ret@ =~= data@ + Seq::new((len - len0) as nat, |i: int| pad_char));
        }
    }
    proof {
        lemma_padding(len0, m as int, len - len0);
    }
    ret
}

} // verus!
