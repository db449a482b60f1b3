//! Bytes, whitespace and tokens: the lexical layer of the file format.

use vstd::prelude::*;

verus! {

/// Line feed, the byte that ends a line.
pub const LF: u8 = 10;

/// Carriage return, dropped from the end of a line that ends in CR LF.
pub const CR: u8 = 13;

/// The blank that separates written fields.
pub const SPACE: u8 = 32;

/// ASCII whitespace: space, tab, line feed, form feed, carriage return.
pub open spec fn is_space(b: u8) -> bool {
    b == 32 || b == 9 || b == 10 || b == 12 || b == 13
}

/// An ASCII decimal digit.
pub open spec fn is_digit(b: u8) -> bool {
    48 <= b <= 57
}

/// The first index at or after `i` that holds no whitespace, or the length.
pub open spec fn skip_spaces(s: Seq<u8>, i: int) -> int
    decreases s.len() - i,
{
    if 0 <= i < s.len() && is_space(s[i]) {
        skip_spaces(s, i + 1)
    } else {
        i
    }
}

/// The first index at or after `i` that holds whitespace, or the length.
pub open spec fn skip_token(s: Seq<u8>, i: int) -> int
    decreases s.len() - i,
{
    if 0 <= i < s.len() && !is_space(s[i]) {
        skip_token(s, i + 1)
    } else {
        i
    }
}

/// The whitespace-separated tokens of `s` that start at or after `i`, in order.
pub open spec fn tokens_from(s: Seq<u8>, i: int) -> Seq<Seq<u8>>
    decreases s.len() - i,
    via tokens_from_decreases
{
    let a = skip_spaces(s, i);
    if 0 <= i && a < s.len() {
        let b = skip_token(s, a);
        seq![s.subrange(a, b)] + tokens_from(s, b)
    } else {
        Seq::empty()
    }
}

#[via_fn]
proof fn tokens_from_decreases(s: Seq<u8>, i: int) {
    let a = skip_spaces(s, i);
    if 0 <= i && a < s.len() {
        lemma_skip_spaces(s, i);
        lemma_skip_token(s, a);
    }
}

/// The whitespace-separated tokens of `s`, in order.
pub open spec fn tokens(s: Seq<u8>) -> Seq<Seq<u8>> {
    tokens_from(s, 0)
}

/// A token: not empty, and free of whitespace.
pub open spec fn is_token(t: Seq<u8>) -> bool {
    t.len() > 0 && forall|k: int| 0 <= k < t.len() ==> !is_space(#[trigger] t[k])
}

/// Every byte of `s` is whitespace.
pub open spec fn is_blank(s: Seq<u8>) -> bool {
    forall|k: int| 0 <= k < s.len() ==> is_space(#[trigger] s[k])
}

/// `skip_spaces` stays in range, passes whitespace only, and stops at the
/// first byte that is none.
pub proof fn lemma_skip_spaces(s: Seq<u8>, i: int)
    requires
        0 <= i <= s.len(),
    ensures
        i <= skip_spaces(s, i) <= s.len(),
        forall|k: int| i <= k < skip_spaces(s, i) ==> is_space(#[trigger] s[k]),
        skip_spaces(s, i) < s.len() ==> !is_space(s[skip_spaces(s, i)]),
    decreases s.len() - i,
{
    if i < s.len() && is_space(s[i]) {
        lemma_skip_spaces(s, i + 1);
    }
}

/// `skip_token` stays in range, passes no whitespace, stops at the first
/// whitespace, and moves where it starts on a byte that is none.
pub proof fn lemma_skip_token(s: Seq<u8>, i: int)
    requires
        0 <= i <= s.len(),
    ensures
        i <= skip_token(s, i) <= s.len(),
        forall|k: int| i <= k < skip_token(s, i) ==> !is_space(#[trigger] s[k]),
        skip_token(s, i) < s.len() ==> is_space(s[skip_token(s, i)]),
        i < s.len() && !is_space(s[i]) ==> i < skip_token(s, i),
    decreases s.len() - i,
{
    if i < s.len() && !is_space(s[i]) {
        lemma_skip_token(s, i + 1);
    }
}

/// Behind a prefix, `skip_spaces` goes as it does on the rest alone.
pub proof fn lemma_skip_spaces_shift(a: Seq<u8>, b: Seq<u8>, k: int)
    requires
        0 <= k <= b.len(),
    ensures
        skip_spaces(a + b, a.len() + k) == a.len() + skip_spaces(b, k),
    decreases b.len() - k,
{
    if k < b.len() {
        assert((a + b)[a.len() + k] == b[k]);
        if is_space(b[k]) {
            lemma_skip_spaces_shift(a, b, k + 1);
        }
    }
}

/// Behind a prefix, `skip_token` goes as it does on the rest alone.
pub proof fn lemma_skip_token_shift(a: Seq<u8>, b: Seq<u8>, k: int)
    requires
        0 <= k <= b.len(),
    ensures
        skip_token(a + b, a.len() + k) == a.len() + skip_token(b, k),
    decreases b.len() - k,
{
    if k < b.len() {
        assert((a + b)[a.len() + k] == b[k]);
        if !is_space(b[k]) {
            lemma_skip_token_shift(a, b, k + 1);
        }
    }
}

/// Behind a prefix, the tokens are those of the rest alone.
pub proof fn lemma_tokens_shift(a: Seq<u8>, b: Seq<u8>, k: int)
    requires
        0 <= k <= b.len(),
    ensures
        tokens_from(a + b, a.len() + k) == tokens_from(b, k),
    decreases b.len() - k,
{
    let s = a + b;
    lemma_skip_spaces_shift(a, b, k);
    lemma_skip_spaces(b, k);
    let pa = skip_spaces(b, k);
    if pa < b.len() {
        lemma_skip_token_shift(a, b, pa);
        lemma_skip_token(b, pa);
        let pb = skip_token(b, pa);
        assert(s.subrange(a.len() + pa, a.len() + pb) =~= b.subrange(pa, pb));
        lemma_tokens_shift(a, b, pb);
    }
}

/// Whitespace before a text adds no token.
pub proof fn lemma_tokens_after_blank(ws: Seq<u8>, r: Seq<u8>)
    requires
        is_blank(ws),
    ensures
        tokens(ws + r) == tokens(r),
{
    let s = ws + r;
    lemma_skip_over_blank(ws, r, 0);
    lemma_tokens_shift(ws, r, 0);
    lemma_skip_spaces_shift(ws, r, 0);
}

/// Within a prefix of whitespace, `skip_spaces` runs to where it gets from
/// the end of the prefix.
pub proof fn lemma_skip_over_blank(ws: Seq<u8>, r: Seq<u8>, j: int)
    requires
        is_blank(ws),
        0 <= j <= ws.len(),
    ensures
        skip_spaces(ws + r, j) == skip_spaces(ws + r, ws.len() as int),
    decreases ws.len() - j,
{
    if j < ws.len() {
        assert((ws + r)[j] == ws[j]);
        lemma_skip_over_blank(ws, r, j + 1);
    }
}

/// Within a token, `skip_token` runs to the end of the token, where
/// whitespace or nothing follows it.
pub proof fn lemma_skip_over_token(t: Seq<u8>, r: Seq<u8>, j: int)
    requires
        is_token(t),
        r.len() == 0 || is_space(r[0]),
        0 <= j <= t.len(),
    ensures
        skip_token(t + r, j) == t.len(),
    decreases t.len() - j,
{
    if j < t.len() {
        assert((t + r)[j] == t[j]);
        lemma_skip_over_token(t, r, j + 1);
    } else if r.len() > 0 {
        assert((t + r)[j] == r[0]);
    }
}

/// A token, set before whitespace or before nothing, is the first token of
/// the whole, and the tokens of the rest follow it.
pub proof fn lemma_tokens_after_token(t: Seq<u8>, r: Seq<u8>)
    requires
        is_token(t),
        r.len() == 0 || is_space(r[0]),
    ensures
        tokens(t + r) == seq![t] + tokens(r),
{
    let s = t + r;
    assert(s[0] == t[0]);
    lemma_skip_over_token(t, r, 0);
    lemma_tokens_shift(t, r, 0);
    assert(s.subrange(0, t.len() as int) =~= t);
}

/// Whether `b` is ASCII whitespace.
pub fn byte_is_space(b: u8) -> (r: bool)
    ensures
        r == is_space(b),
{
    b == 32 || b == 9 || b == 10 || b == 12 || b == 13
}

/// Finds the next token of `s` at or after `from`: `None` where only
/// whitespace is left, else the token's first index and the index behind it.
pub fn next_token(s: &[u8], from: usize) -> (r: Option<(usize, usize)>)
    ensures
        r is None <==> skip_spaces(s@, from as int) >= s@.len(),
        r matches Some((a, b)) ==> {
            &&& a == skip_spaces(s@, from as int)
            &&& b == skip_token(s@, a as int)
            &&& from <= a < b <= s@.len()
            &&& is_token(s@.subrange(a as int, b as int))
            &&& tokens_from(s@, from as int) == seq![s@.subrange(a as int, b as int)]
                + tokens_from(s@, b as int)
        },
        r is None ==> tokens_from(s@, from as int) == Seq::<Seq<u8>>::empty(),
{
    if from > s.len() {
        return None;
    }
    let mut a: usize = from;
    while a < s.len() && byte_is_space(s[a])
        invariant
            from <= a <= s@.len(),
            skip_spaces(s@, from as int) == skip_spaces(s@, a as int),
        decreases s@.len() - a,
    {
        a += 1;
    }
    if a >= s.len() {
        return None;
    }
    let mut b: usize = a + 1;
    proof {
        lemma_skip_token(s@, a as int);
    }
    while b < s.len() && !byte_is_space(s[b])
        invariant
            a < b <= s@.len(),
            skip_token(s@, a as int) == skip_token(s@, b as int),
            forall|k: int| a <= k < b ==> !is_space(#[trigger] s@[k]),
        decreases s@.len() - b,
    {
        b += 1;
    }
    Some((a, b))
}

/// Whether `s` begins with `prefix`.
pub fn starts_with(s: &[u8], prefix: &[u8]) -> (r: bool)
    ensures
        r == prefix@.is_prefix_of(s@),
{
    if s.len() < prefix.len() {
        return false;
    }
    let mut k: usize = 0;
    while k < prefix.len()
        invariant
            k <= prefix@.len() <= s@.len(),
            forall|j: int| 0 <= j < k ==> s@[j] == prefix@[j],
        decreases prefix@.len() - k,
    {
        if s[k] != prefix[k] {
            assert(s@.subrange(0, prefix@.len() as int)[k as int] != prefix@[k as int]);
            return false;
        }
        k += 1;
    }
    assert(prefix@ =~= s@.subrange(0, prefix@.len() as int));
    true
}

/// Appends the bytes of `s` to `out`.
pub fn push_all(out: &mut Vec<u8>, s: &[u8])
    ensures
        final(out)@ == old(out)@ + s@,
{
    let mut j: usize = 0;
    while j < s.len()
        invariant
            j <= s@.len(),
            out@ == old(out)@ + s@.take(j as int),
        decreases s@.len() - j,
    {
        out.push(s[j]);
        j += 1;
        assert(out@ =~= old(out)@ + s@.take(j as int));
    }
    assert(s@.take(s@.len() as int) =~= s@);
}

/// Every byte of `s` is a digit.
pub open spec fn all_digits(s: Seq<u8>) -> bool {
    forall|k: int| 0 <= k < s.len() ==> is_digit(#[trigger] s[k])
}

/// The number that the digits of `s` write in base ten.
pub open spec fn digits_value(s: Seq<u8>) -> nat
    decreases s.len(),
{
    if s.len() == 0 {
        0
    } else {
        digits_value(s.drop_last()) * 10 + (s.last() - 48) as nat
    }
}

/// The digits of an unsigned integer literal: the literal without its
/// optional plus sign.
pub open spec fn unsigned_digits(s: Seq<u8>) -> Seq<u8> {
    if s.len() > 0 && s[0] == 43 {
        s.skip(1)
    } else {
        s
    }
}

/// `s` is an unsigned integer literal: an optional plus sign and at least
/// one digit.
pub open spec fn is_unsigned(s: Seq<u8>) -> bool {
    unsigned_digits(s).len() > 0 && all_digits(unsigned_digits(s))
}

/// What `s` parses to as a machine-sized unsigned integer: the value of its
/// digits, if it is a literal and the value fits.
pub open spec fn unsigned_of(s: Seq<u8>) -> Option<usize> {
    if is_unsigned(s) && digits_value(unsigned_digits(s)) <= usize::MAX {
        Some(digits_value(unsigned_digits(s)) as usize)
    } else {
        None
    }
}

/// Whether `s` is an unsigned integer literal, of whatever size.
pub fn is_unsigned_bytes(s: &[u8]) -> (r: bool)
    ensures
        r == is_unsigned(s@),
{
    let off: usize = if s.len() > 0 && s[0] == 43 {
        1
    } else {
        0
    };
    if s.len() == off {
        return false;
    }
    let ghost d = unsigned_digits(s@);
    let mut k: usize = off;
    while k < s.len()
        invariant
            off <= k <= s@.len(),
            d == unsigned_digits(s@),
            d.len() == s@.len() - off,
            forall|j: int| 0 <= j < d.len() ==> d[j] == s@[off + j],
            forall|j: int| 0 <= j < k - off ==> is_digit(#[trigger] d[j]),
        decreases s@.len() - k,
    {
        if !(48 <= s[k] && s[k] <= 57) {
            assert(!is_digit(d[k - off]));
            return false;
        }
        k += 1;
    }
    true
}

/// A longer prefix of a digit string has no smaller value.
pub proof fn lemma_digits_value_grows(s: Seq<u8>, i: int, j: int)
    requires
        all_digits(s),
        0 <= i <= j <= s.len(),
    ensures
        digits_value(s.take(i)) <= digits_value(s.take(j)),
    decreases j - i,
{
    if i < j {
        lemma_digits_value_grows(s, i, j - 1);
        assert(s.take(j).drop_last() =~= s.take(j - 1));
        assert(is_digit(s[j - 1]));
    }
}

/// Parses `s` as an unsigned integer literal.
pub fn parse_unsigned(s: &[u8]) -> (r: Option<usize>)
    ensures
        r == unsigned_of(s@),
{
    let off: usize = if s.len() > 0 && s[0] == 43 {
        1
    } else {
        0
    };
    let ghost d = unsigned_digits(s@);
    if s.len() == off {
        return None;
    }
    let n: usize = s.len() - off;
    let mut acc: usize = 0;
    let mut k: usize = 0;
    while k < n
        invariant
            d == unsigned_digits(s@),
            d.len() == n,
            off + n == s@.len() <= usize::MAX,
            forall|j: int| 0 <= j < n ==> d[j] == s@[off + j],
            k <= n,
            forall|j: int| 0 <= j < k ==> is_digit(#[trigger] d[j]),
            acc == digits_value(d.take(k as int)),
        decreases n - k,
    {
        let b = s[off + k];
        if !(48 <= b && b <= 57) {
            assert(!is_digit(d[k as int]));
            return None;
        }
        let digit: usize = (b - 48) as usize;
        proof {
            assert(d.take(k + 1).drop_last() =~= d.take(k as int));
            assert(d.take(k + 1).last() == b);
        }
        if acc > (usize::MAX - digit) / 10 {
            proof {
                if all_digits(d) {
                    lemma_digits_value_grows(d, k + 1, n as int);
                    assert(d.take(n as int) =~= d);
                }
            }
            return None;
        }
        acc = acc * 10 + digit;
        k += 1;
    }
    assert(d.take(n as int) =~= d);
    Some(acc)
}

/// The decimal digits of `n`, without leading zeros.
pub open spec fn decimal(n: nat) -> Seq<u8>
    decreases n,
{
    if n < 10 {
        seq![(48 + n) as u8]
    } else {
        decimal(n / 10).push((48 + n % 10) as u8)
    }
}

/// The digits of a number are an unsigned literal that parses to the number.
pub proof fn lemma_decimal_parses(n: nat)
    ensures
        decimal(n).len() > 0,
        all_digits(decimal(n)),
        is_unsigned(decimal(n)),
        unsigned_digits(decimal(n)) == decimal(n),
        digits_value(decimal(n)) == n,
        is_token(decimal(n)),
    decreases n,
{
    if n < 10 {
        let s = decimal(n);
        assert(s.drop_last() =~= Seq::<u8>::empty());
        assert(digits_value(s.drop_last()) == 0);
    } else {
        lemma_decimal_parses(n / 10);
        let s = decimal(n);
        assert(s.drop_last() =~= decimal(n / 10));
        assert(s[0] == decimal(n / 10)[0]);
    }
}

/// Appends the decimal digits of `n` to `out`.
pub fn push_decimal(out: &mut Vec<u8>, n: usize)
    ensures
        final(out)@ == old(out)@ + decimal(n as nat),
    decreases n,
{
    if n < 10 {
        out.push(48 + n as u8);
        assert(final(out)@ =~= old(out)@ + decimal(n as nat));
    } else {
        push_decimal(out, n / 10);
        out.push(48 + (n % 10) as u8);
        assert(out@ =~= old(out)@ + decimal(n as nat));
    }
}

/// `n` blanks.
pub open spec fn blanks(n: int) -> Seq<u8> {
    Seq::new(
        if n > 0 {
            n as nat
        } else {
            0
        },
        |k: int| SPACE,
    )
}

/// `s` set to the right of a field `width` wide: blanks before it as far as
/// it is shorter, and `s` as it is where it is not.
pub open spec fn right_justified(s: Seq<u8>, width: int) -> Seq<u8> {
    blanks(width - s.len()) + s
}

/// Appends `s` to `out`, set to the right of a field `width` wide.
pub fn push_right_justified(out: &mut Vec<u8>, s: &[u8], width: usize)
    ensures
        final(out)@ == old(out)@ + right_justified(s@, width as int),
{
    let mut k: usize = s.len();
    while k < width
        invariant
            s@.len() <= k,
            k <= width || k == s@.len(),
            out@ == old(out)@ + blanks(k - s@.len()),
        decreases width - k,
    {
        out.push(SPACE);
        k += 1;
        assert(out@ =~= old(out)@ + blanks(k - s@.len()));
    }
    let mut j: usize = 0;
    let ghost base = out@;
    while j < s.len()
        invariant
            j <= s@.len(),
            out@ == base + s@.take(j as int),
        decreases s@.len() - j,
    {
        out.push(s[j]);
        j += 1;
        assert(out@ =~= base + s@.take(j as int));
    }
    assert(s@.take(s@.len() as int) =~= s@);
    assert(out@ =~= old(out)@ + right_justified(s@, width as int));
}

} // verus!
