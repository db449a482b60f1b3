//! Decimal literals: the text form of one grid value.
//!
//! A grid value is kept as the literal that stands in the file. This module
//! says which byte strings are such literals, and holds the type that carries
//! one.

use crate::text::{is_digit, is_space, is_token};
use vstd::prelude::*;
use vstd::slice::slice_to_vec;

verus! {

/// A plus or a minus sign.
pub open spec fn is_sign(b: u8) -> bool {
    b == 43 || b == 45
}

/// The first index at or after `i` that holds no digit, or the length.
pub open spec fn digits_end(s: Seq<u8>, i: int) -> int
    decreases s.len() - i,
{
    if 0 <= i < s.len() && is_digit(s[i]) {
        digits_end(s, i + 1)
    } else {
        i
    }
}

/// An ASCII letter in lower case; any other byte unchanged.
pub open spec fn lower(b: u8) -> u8 {
    if 65 <= b <= 90 {
        (b + 32) as u8
    } else {
        b
    }
}

/// `s` spells `word`, which is in lower case, in any mix of cases.
pub open spec fn spells(s: Seq<u8>, word: Seq<u8>) -> bool {
    s.len() == word.len() && forall|k: int| 0 <= k < s.len() ==> lower(#[trigger] s[k]) == word[k]
}

/// The word `inf`.
pub open spec fn word_inf() -> Seq<u8> {
    seq![105u8, 110u8, 102u8]
}

/// The word `infinity`.
pub open spec fn word_infinity() -> Seq<u8> {
    seq![105u8, 110u8, 102u8, 105u8, 110u8, 105u8, 116u8, 121u8]
}

/// The word `nan`.
pub open spec fn word_nan() -> Seq<u8> {
    seq![110u8, 97u8, 110u8]
}

/// `s` from index `i` on is one of the words `inf`, `infinity`, `nan`.
pub open spec fn is_special(s: Seq<u8>, i: int) -> bool {
    let w = s.skip(i);
    spells(w, word_inf()) || spells(w, word_infinity()) || spells(w, word_nan())
}

/// `s` from index `c` on is an exponent: `e` or `E`, an optional sign, and at
/// least one digit.
pub open spec fn is_exponent(s: Seq<u8>, c: int) -> bool {
    let d = if c + 1 < s.len() && is_sign(s[c + 1]) {
        c + 2
    } else {
        c + 1
    };
    &&& 0 <= c < s.len()
    &&& (s[c] == 101 || s[c] == 69)
    &&& d < s.len()
    &&& digits_end(s, d) == s.len()
}

/// `s` from index `i` on is a decimal number: digits with at most one point
/// among them, at least one digit in all, and an optional exponent.
pub open spec fn is_decimal(s: Seq<u8>, i: int) -> bool {
    let a = digits_end(s, i);
    let b = if a < s.len() && s[a] == 46 {
        a + 1
    } else {
        a
    };
    let c = digits_end(s, b);
    &&& (a - i) + (c - b) > 0
    &&& (c == s.len() || is_exponent(s, c))
}

/// `s` is a literal of a floating-point number: an optional sign, then a
/// decimal number or one of the words `inf`, `infinity`, `nan`.
pub open spec fn is_number(s: Seq<u8>) -> bool {
    let i = if s.len() > 0 && is_sign(s[0]) {
        1int
    } else {
        0int
    };
    is_special(s, i) || is_decimal(s, i)
}

/// `digits_end` stays in range, passes digits only, and stops at the first
/// byte that is none.
pub proof fn lemma_digits_end(s: Seq<u8>, i: int)
    requires
        0 <= i <= s.len(),
    ensures
        i <= digits_end(s, i) <= s.len(),
        forall|k: int| i <= k < digits_end(s, i) ==> is_digit(#[trigger] s[k]),
        digits_end(s, i) < s.len() ==> !is_digit(s[digits_end(s, i)]),
    decreases s.len() - i,
{
    if i < s.len() && is_digit(s[i]) {
        lemma_digits_end(s, i + 1);
    }
}

/// A literal is one token: it is not empty and holds no whitespace.
pub proof fn lemma_number_is_token(s: Seq<u8>)
    requires
        is_number(s),
    ensures
        is_token(s),
{
    let i = if s.len() > 0 && is_sign(s[0]) {
        1int
    } else {
        0int
    };
    if is_special(s, i) {
        let w = s.skip(i);
        assert forall|k: int| 0 <= k < s.len() implies !is_space(#[trigger] s[k]) by {
            if k >= i {
                assert(w[k - i] == s[k]);
                assert(lower(w[k - i]) == word_inf()[k - i] || lower(w[k - i])
                    == word_infinity()[k - i] || lower(w[k - i]) == word_nan()[k - i]);
            }
        }
        assert(w.len() >= 3);
    } else {
        let a = digits_end(s, i);
        lemma_digits_end(s, i);
        let b = if a < s.len() && s[a] == 46 {
            a + 1
        } else {
            a
        };
        lemma_digits_end(s, b);
        let c = digits_end(s, b);
        if c < s.len() {
            let d = if c + 1 < s.len() && is_sign(s[c + 1]) {
                c + 2
            } else {
                c + 1
            };
            lemma_digits_end(s, d);
        }
        assert forall|k: int| 0 <= k < s.len() implies !is_space(#[trigger] s[k]) by {}
    }
}

/// Whether `b` is an ASCII decimal digit.
pub fn byte_is_digit(b: u8) -> (r: bool)
    ensures
        r == is_digit(b),
{
    48 <= b && b <= 57
}

/// Whether `b` is a plus or a minus sign.
pub fn byte_is_sign(b: u8) -> (r: bool)
    ensures
        r == is_sign(b),
{
    b == 43 || b == 45
}

/// The lower-case form of `b`.
pub fn byte_lower(b: u8) -> (r: u8)
    ensures
        r == lower(b),
{
    if 65 <= b && b <= 90 {
        b + 32
    } else {
        b
    }
}

/// Moves over the digits of `s` that start at `i`.
pub fn scan_digits(s: &[u8], i: usize) -> (r: usize)
    ensures
        r == digits_end(s@, i as int),
        i <= r,
        i <= s@.len() ==> r <= s@.len(),
{
    if i > s.len() {
        return i;
    }
    let mut j: usize = i;
    while j < s.len() && byte_is_digit(s[j])
        invariant
            i <= j <= s@.len(),
            digits_end(s@, i as int) == digits_end(s@, j as int),
        decreases s@.len() - j,
    {
        j += 1;
    }
    j
}

/// Whether `s` from index `i` on spells `word` in any mix of cases.
fn spells_from(s: &[u8], i: usize, word: &[u8]) -> (r: bool)
    requires
        i <= s@.len(),
    ensures
        r == spells(s@.skip(i as int), word@),
{
    if s.len() - i != word.len() {
        return false;
    }
    let ghost w = s@.skip(i as int);
    let mut k: usize = 0;
    while k < word.len()
        invariant
            i <= s@.len(),
            w == s@.skip(i as int),
            w.len() == word@.len(),
            i + word@.len() == s@.len() <= usize::MAX,
            k <= word@.len(),
            forall|j: int| 0 <= j < k ==> lower(#[trigger] w[j]) == word@[j],
        decreases word@.len() - k,
    {
        if byte_lower(s[i + k]) != word[k] {
            assert(lower(w[k as int]) != word@[k as int]);
            return false;
        }
        k += 1;
    }
    true
}

/// Whether `s` is a literal of a floating-point number.
pub fn is_number_bytes(s: &[u8]) -> (r: bool)
    ensures
        r == is_number(s@),
{
    let i: usize = if s.len() > 0 && byte_is_sign(s[0]) {
        1
    } else {
        0
    };
    let inf: [u8; 3] = [105, 110, 102];
    let infinity: [u8; 8] = [105, 110, 102, 105, 110, 105, 116, 121];
    let nan: [u8; 3] = [110, 97, 110];
    assert(inf@ =~= word_inf());
    assert(infinity@ =~= word_infinity());
    assert(nan@ =~= word_nan());
    if spells_from(s, i, inf.as_slice()) || spells_from(s, i, infinity.as_slice()) || spells_from(
        s,
        i,
        nan.as_slice(),
    ) {
        return true;
    }
    let a = scan_digits(s, i);
    let b: usize = if a < s.len() && s[a] == 46 {
        a + 1
    } else {
        a
    };
    let c = scan_digits(s, b);
    if (a - i) + (c - b) == 0 {
        return false;
    }
    if c == s.len() {
        return true;
    }
    if !(s[c] == 101 || s[c] == 69) {
        return false;
    }
    let d: usize = if c + 1 < s.len() && byte_is_sign(s[c + 1]) {
        c + 2
    } else {
        c + 1
    };
    if d >= s.len() {
        return false;
    }
    scan_digits(s, d) == s.len()
}

/// One grid value, as the literal that stands for it in a file.
pub struct Literal {
    text: Vec<u8>,
}

impl View for Literal {
    type V = Seq<u8>;

    closed spec fn view(&self) -> Seq<u8> {
        self.text@
    }
}

impl Literal {
    /// The text is the literal of a number.
    #[verifier::type_invariant]
    spec fn well_formed(self) -> bool {
        is_number(self.text@)
    }

    /// Takes `text` as a literal, if it is one.
    pub fn new(text: Vec<u8>) -> (r: Option<Literal>)
        ensures
            r is Some <==> is_number(text@),
            r matches Some(l) ==> l@ == text@,
    {
        if is_number_bytes(text.as_slice()) {
            Some(Literal { text })
        } else {
            None
        }
    }

    /// Copies `text` into a literal, if it is one.
    pub fn from_slice(text: &[u8]) -> (r: Option<Literal>)
        ensures
            r is Some <==> is_number(text@),
            r matches Some(l) ==> l@ == text@,
    {
        if is_number_bytes(text) {
            Some(Literal { text: slice_to_vec(text) })
        } else {
            None
        }
    }

    /// The bytes of the literal.
    pub fn as_bytes(&self) -> (r: &[u8])
        ensures
            r@ == self@,
            is_number(self@),
    {
        proof {
            use_type_invariant(self);
        }
        self.text.as_slice()
    }
}

impl Clone for Literal {
    fn clone(&self) -> (r: Self)
        ensures
            r@ == self@,
            is_number(r@),
    {
        proof {
            use_type_invariant(self);
        }
        let text = self.text.clone();
        assert(text@ =~= self.text@);
        Literal { text }
    }
}

} // verus!
