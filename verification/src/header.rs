//! The structure header: the block of a file that describes the crystal.
//!
//! The header is read and written by the `vasp_poscar` crate. This module
//! declares its types, wraps the two calls that the codec makes, and screens
//! the text that is handed to the parser.

use crate::error::ChgError;
use crate::stream::{lemma_line_break, line_at, next_line, scan_line};
use crate::text::{
    all_digits, digits_value, is_digit, next_token, parse_unsigned, tokens, tokens_from,
    unsigned_digits, CR,
};
use vstd::prelude::*;
use vstd::slice::slice_subrange;

verus! {

/// The type `vasp_poscar::Poscar`: a parsed structure. The library carries
/// it and sees nothing inside it.
#[verifier::external_type_specification]
#[verifier::external_body]
pub struct ExPoscar(vasp_poscar::Poscar);

/// The type `failure::Error` as `vasp_poscar` hands it on: why a text is no
/// structure. The library sees nothing inside it.
#[verifier::external_type_specification]
#[verifier::external_body]
pub struct ExPoscarError(vasp_poscar::failure::Error);

/// Whether `vasp_poscar::Poscar::from_reader` returns a structure for `text`.
pub uninterp spec fn poscar_accepts(text: Seq<u8>) -> bool;

/// Where line number `k` of `s` starts, counting from zero; the end of `s`
/// where it has fewer lines.
pub open spec fn nth_line(s: Seq<u8>, k: nat) -> int
    decreases k,
{
    if k == 0 {
        0
    } else {
        next_line(s, nth_line(s, (k - 1) as nat))
    }
}

/// No byte of `l` is a carriage return.
pub open spec fn has_no_cr(l: Seq<u8>) -> bool {
    forall|k: int| 0 <= k < l.len() ==> #[trigger] l[k] != CR
}

/// A visible ASCII character.
pub open spec fn is_graphic(b: u8) -> bool {
    33 <= b <= 126
}

/// A space, a tab or a carriage return.
pub open spec fn is_plain_blank(b: u8) -> bool {
    b == 32 || b == 9 || b == 13
}

/// `l` holds a visible ASCII character, or nothing but plain blanks.
pub open spec fn is_plain_line(l: Seq<u8>) -> bool {
    (exists|k: int| 0 <= k < l.len() && is_graphic(#[trigger] l[k])) || (forall|k: int|
        0 <= k < l.len() ==> is_plain_blank(#[trigger] l[k]))
}

/// The sum of the tokens of `ts` that are made of digits only.
pub open spec fn count_sum(ts: Seq<Seq<u8>>) -> nat
    decreases ts.len(),
{
    if ts.len() == 0 {
        0
    } else {
        (if all_digits(ts[0]) {
            digits_value(ts[0])
        } else {
            0
        }) + count_sum(ts.drop_first())
    }
}

/// The text is one that the structure parser can be given.
///
/// On three kinds of input the parser does not return: a carriage return
/// inside the first line (the comment); a sixth line (the symbols or the
/// counts) that holds something, but neither a visible ASCII character nor
/// plain blanks only; and atom counts, on the sixth or the seventh line, whose
/// sum does not fit the machine's unsigned integer. This predicate leaves
/// them out, and somewhat more than them: it sums every token of digits on
/// those two lines.
pub open spec fn header_is_safe(text: Seq<u8>) -> bool {
    let start5 = nth_line(text, 5);
    let start6 = nth_line(text, 6);
    &&& 0 < text.len() ==> has_no_cr(line_at(text, 0))
    &&& start5 < text.len() ==> is_plain_line(line_at(text, start5)) && count_sum(
        tokens(line_at(text, start5)),
    ) <= usize::MAX
    &&& start6 < text.len() ==> count_sum(tokens(line_at(text, start6))) <= usize::MAX
}

/// Calls `vasp_poscar::Poscar::from_reader` on `text`.
///
/// The contract gives a name to whether a structure comes back, which the
/// text alone decides, and says nothing of the structure or of the error.
/// It asks for a text that has passed the screen, since the parser does not
/// return on every other.
#[verifier::external_body]
fn parse_poscar(text: &[u8]) -> (r: Result<vasp_poscar::Poscar, vasp_poscar::failure::Error>)
    requires
        header_is_safe(text@),
    ensures
        r is Ok <==> poscar_accepts(text@),
{
    vasp_poscar::Poscar::from_reader(text)
}

/// Formats `pos` through the `Display` impl of `vasp_poscar::Poscar`, each
/// number nine wide with six decimals. Nothing is claimed of the text that
/// comes back.
#[verifier::external_body]
pub(crate) fn render_poscar(pos: &vasp_poscar::Poscar) -> (r: Vec<u8>) {
    format!("{:>9.6}", pos).into_bytes()
}

/// Whether `l` holds no carriage return.
fn line_has_no_cr(l: &[u8]) -> (r: bool)
    ensures
        r == has_no_cr(l@),
{
    let mut k: usize = 0;
    while k < l.len()
        invariant
            k <= l@.len(),
            forall|j: int| 0 <= j < k ==> #[trigger] l@[j] != CR,
        decreases l@.len() - k,
    {
        if l[k] == CR {
            return false;
        }
        k += 1;
    }
    true
}

/// Whether `l` holds a visible ASCII character, or nothing but plain blanks.
fn line_is_plain(l: &[u8]) -> (r: bool)
    ensures
        r == is_plain_line(l@),
{
    let mut blank = true;
    let mut k: usize = 0;
    while k < l.len()
        invariant
            k <= l@.len(),
            forall|j: int| 0 <= j < k ==> !is_graphic(#[trigger] l@[j]),
            blank == (forall|j: int| 0 <= j < k ==> is_plain_blank(#[trigger] l@[j])),
        decreases l@.len() - k,
    {
        let b = l[k];
        if 33 <= b && b <= 126 {
            return true;
        }
        if !(b == 32 || b == 9 || b == 13) {
            blank = false;
        }
        k += 1;
    }
    blank
}

/// Whether every byte of `t` is a digit.
fn token_is_digits(t: &[u8]) -> (r: bool)
    ensures
        r == all_digits(t@),
{
    let mut k: usize = 0;
    while k < t.len()
        invariant
            k <= t@.len(),
            forall|j: int| 0 <= j < k ==> is_digit(#[trigger] t@[j]),
        decreases t@.len() - k,
    {
        if !(48 <= t[k] && t[k] <= 57) {
            return false;
        }
        k += 1;
    }
    true
}

/// The sum of a run of tokens is the first one's share plus the sum of the
/// rest.
proof fn lemma_count_sum_step(t: Seq<u8>, rest: Seq<Seq<u8>>)
    ensures
        count_sum(seq![t] + rest) == (if all_digits(t) {
            digits_value(t)
        } else {
            0
        }) + count_sum(rest),
{
    assert((seq![t] + rest).drop_first() =~= rest);
}

/// Whether the tokens of digits on `l` sum to a machine-sized integer.
fn counts_fit(l: &[u8]) -> (r: bool)
    ensures
        r == (count_sum(tokens(l@)) <= usize::MAX),
{
    let mut acc: usize = 0;
    let mut i: usize = 0;
    loop
        invariant
            i <= l@.len(),
            acc + count_sum(tokens_from(l@, i as int)) == count_sum(tokens(l@)),
        decreases l@.len() - i,
    {
        match next_token(l, i) {
            None => {
                return true;
            },
            Some((a, b)) => {
                let t = slice_subrange(l, a, b);
                proof {
                    lemma_count_sum_step(t@, tokens_from(l@, b as int));
                }
                if token_is_digits(t) {
                    assert(unsigned_digits(t@) == t@);
                    match parse_unsigned(t) {
                        None => {
                            return false;
                        },
                        Some(v) => {
                            if v > usize::MAX - acc {
                                return false;
                            }
                            acc = acc + v;
                        },
                    }
                }
                i = b;
            },
        }
    }
}

/// Where the line after the one that starts at `i` begins.
fn line_after(s: &[u8], i: usize) -> (r: usize)
    requires
        i <= s@.len(),
    ensures
        r == next_line(s@, i as int),
        i <= r <= s@.len(),
{
    let (_end, next) = scan_line(s, i);
    next
}

/// Whether `text` is one that the structure parser can be given.
pub fn screen_header(text: &[u8]) -> (r: bool)
    ensures
        r == header_is_safe(text@),
{
    if text.len() == 0 {
        assert(nth_line(text@, 5) == 0 && nth_line(text@, 6) == 0) by {
            reveal_with_fuel(nth_line, 7);
            lemma_line_break(text@, 0);
        }
        return true;
    }
    let (end0, start1) = scan_line(text, 0);
    if !line_has_no_cr(slice_subrange(text, 0, end0)) {
        return false;
    }
    let start2 = line_after(text, start1);
    let start3 = line_after(text, start2);
    let start4 = line_after(text, start3);
    let start5 = line_after(text, start4);
    assert(start5 == nth_line(text@, 5)) by {
        reveal_with_fuel(nth_line, 6);
    }
    let (end5, start6) = scan_line(text, start5);
    assert(start6 == nth_line(text@, 6)) by {
        reveal_with_fuel(nth_line, 7);
    }
    if start5 < text.len() {
        let line5 = slice_subrange(text, start5, end5);
        if !line_is_plain(line5) || !counts_fit(line5) {
            return false;
        }
    }
    if start6 < text.len() {
        let (end6, _after) = scan_line(text, start6);
        let line6 = slice_subrange(text, start6, end6);
        if !counts_fit(line6) {
            return false;
        }
    }
    true
}

/// Parses `text` as a structure header.
///
/// The structure comes from `vasp_poscar`; when one comes is fixed here:
/// for a text that passes the screen and that the parser takes.
pub fn parse_header(text: &[u8]) -> (r: Result<vasp_poscar::Poscar, ChgError>)
    ensures
        r is Ok <==> header_is_safe(text@) && poscar_accepts(text@),
        r is Err ==> r == Err::<vasp_poscar::Poscar, ChgError>(ChgError::HeaderParseError),
{
    if !screen_header(text) {
        return Err(ChgError::HeaderParseError);
    }
    match parse_poscar(text) {
        Ok(pos) => Ok(pos),
        Err(_) => Err(ChgError::HeaderParseError),
    }
}

} // verus!
