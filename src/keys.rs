//! Reading numeric keys, and the names of the ciphers.
use crate::text::{chars_of, is_digit};
use vstd::prelude::*;

verus! {

/// One or more decimal digits.
pub open spec fn is_decimal(s: Seq<char>) -> bool {
    s.len() > 0 && forall|i: int| 0 <= i < s.len() ==> is_digit(#[trigger] s[i])
}

/// The number that decimal digits `s` write.
pub open spec fn decimal_value(s: Seq<char>) -> int
    decreases s.len(),
{
    if s.len() == 0 {
        0
    } else {
        decimal_value(s.drop_last()) * 10 + (s.last() as int - '0' as int)
    }
}

/// What `str::parse::<i8>` reads from `s`: an optional `+` or `-` sign and
/// decimal digits, whose value fits in an `i8`.
pub open spec fn parsed_i8(s: Seq<char>) -> Option<i8> {
    let negative = s.len() > 0 && s[0] == '-';
    let digits = if s.len() > 0 && (s[0] == '-' || s[0] == '+') {
        s.drop_first()
    } else {
        s
    };
    let v = if negative {
        -decimal_value(digits)
    } else {
        decimal_value(digits)
    };
    if is_decimal(digits) && i8::MIN <= v <= i8::MAX {
        Some(v as i8)
    } else {
        None
    }
}

/// What `str::parse::<usize>` reads from `s`: an optional `+` sign and
/// decimal digits, whose value fits in a `usize`.
pub open spec fn parsed_usize(s: Seq<char>) -> Option<usize> {
    let digits = if s.len() > 0 && s[0] == '+' {
        s.drop_first()
    } else {
        s
    };
    if is_decimal(digits) && decimal_value(digits) <= usize::MAX {
        Some(decimal_value(digits) as usize)
    } else {
        None
    }
}

/// Relies on `str::parse::<i8>` (`i8::from_str`): an optional sign and
/// decimal digits, in range, and nothing else.
#[verifier::external_body]
fn parse_i8(s: &str) -> (r: Option<i8>)
    ensures
        r == parsed_i8(s@),
{
    s.parse::<i8>().ok()
}

/// Relies on `str::parse::<usize>` (`usize::from_str`): an optional `+`
/// and decimal digits, in range, and nothing else.
#[verifier::external_body]
fn parse_usize(s: &str) -> (r: Option<usize>)
    ensures
        r == parsed_usize(s@),
{
    s.parse::<usize>().ok()
}

/// The key of a shift cipher: the shift, as a signed number.
pub fn shift_key(key: &str) -> (r: Option<i8>)
    ensures
        r == parsed_i8(key@),
{
    parse_i8(key)
}

/// The key of a scytale: the length of the rod, a positive whole number.
pub fn scytale_key(key: &str) -> (r: Option<usize>)
    ensures
        r == match parsed_usize(key@) {
            Some(n) => if 0 < n {
                Some(n)
            } else {
                None
            },
            None => None,
        },
{
    match parse_usize(key) {
        Some(n) => if 0 < n {
            Some(n)
        } else {
            None
        },
        None => None,
    }
}

/// The ciphers of this library.
#[derive(Clone, Copy, Debug, PartialEq, Eq, Structural)]
pub enum CipherKind {
    Shift,
    Monoalphabetic,
    Vigenere,
    Scytale,
    Solitaire,
}

/// The cipher that `name` names.
pub open spec fn kind_named(name: Seq<char>) -> Option<CipherKind> {
    if name == "shift"@ {
        Some(CipherKind::Shift)
    } else if name == "monoalphabetic"@ {
        Some(CipherKind::Monoalphabetic)
    } else if name == "vigenere"@ {
        Some(CipherKind::Vigenere)
    } else if name == "scytale"@ {
        Some(CipherKind::Scytale)
    } else if name == "solitaire"@ {
        Some(CipherKind::Solitaire)
    } else {
        None
    }
}

/// Whether two texts hold the same characters.
fn same_text(a: &str, b: &str) -> (r: bool)
    ensures
        r == (a@ == b@),
{
    let x = chars_of(a);
    let y = chars_of(b);
    if x.len() != y.len() {
        return false;
    }
    let mut i: usize = 0;
    while i < x.len()
        invariant
            x@ == a@,
            y@ == b@,
            x@.len() == y@.len(),
            i <= x@.len(),
            forall|j: int| 0 <= j < i ==> x@[j] == y@[j],
        decreases x@.len() - i,
    {
        if x[i] != y[i] {
            return false;
        }
        i = i + 1;
    }
    assert(x@ =~= y@);
    true
}

/// The cipher that `name` names, if any.
pub fn cipher_kind(name: &str) -> (r: Option<CipherKind>)
    ensures
        r == kind_named(name@),
{
    if same_text(name, "shift") {
        Some(CipherKind::Shift)
    } else if same_text(name, "monoalphabetic") {
        Some(CipherKind::Monoalphabetic)
    } else if same_text(name, "vigenere") {
        Some(CipherKind::Vigenere)
    } else if same_text(name, "scytale") {
        Some(CipherKind::Scytale)
    } else if same_text(name, "solitaire") {
        Some(CipherKind::Solitaire)
    } else {
        None
    }
}

} // verus!
