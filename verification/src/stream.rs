//! The cursor: a byte buffer that is read line by line, with a position that
//! a reader can take back to where a line began.
//!
//! The file format has no field that says how long a section is. A reader
//! learns that a section has ended only from a line that belongs to the next
//! one. It then returns the cursor to the start of that line, so that the next
//! reader finds the line as its own first input.

use crate::text::{CR, LF};
use vstd::prelude::*;
use vstd::slice::slice_subrange;

verus! {

/// The first index at or after `i` that holds a line feed, or the length.
pub open spec fn line_break(s: Seq<u8>, i: int) -> int
    decreases s.len() - i,
{
    if 0 <= i < s.len() && s[i] != LF {
        line_break(s, i + 1)
    } else {
        i
    }
}

/// Where the line after the one that starts at `i` begins: behind the line
/// feed that ends the line, or at the end of `s` where none does.
pub open spec fn next_line(s: Seq<u8>, i: int) -> int {
    let e = line_break(s, i);
    if e < s.len() {
        e + 1
    } else {
        e
    }
}

/// Where the content of the line that starts at `i` ends: at its line feed,
/// or one byte earlier where a carriage return stands before the line feed.
pub open spec fn line_end(s: Seq<u8>, i: int) -> int {
    let e = line_break(s, i);
    if e < s.len() && i < e && s[e - 1] == CR {
        e - 1
    } else {
        e
    }
}

/// The content of the line that starts at `i`, without its line ending.
pub open spec fn line_at(s: Seq<u8>, i: int) -> Seq<u8> {
    s.subrange(i, line_end(s, i))
}

/// `i` is where a line of `s` starts: the start of `s`, or behind a line feed.
pub open spec fn is_line_start(s: Seq<u8>, i: int) -> bool {
    0 <= i <= s.len() && (i == 0 || s[i - 1] == LF)
}

/// `line_break` stays in range, passes no line feed, and stops at one.
pub proof fn lemma_line_break(s: Seq<u8>, i: int)
    requires
        0 <= i <= s.len(),
    ensures
        i <= line_break(s, i) <= s.len(),
        forall|k: int| i <= k < line_break(s, i) ==> #[trigger] s[k] != LF,
        line_break(s, i) < s.len() ==> s[line_break(s, i)] == LF,
    decreases s.len() - i,
{
    if i < s.len() && s[i] != LF {
        lemma_line_break(s, i + 1);
    }
}

/// A line that starts before the end of `s` ends behind where it starts, and
/// the next line starts at a line start or at the end of `s`.
pub proof fn lemma_next_line(s: Seq<u8>, i: int)
    requires
        0 <= i <= s.len(),
    ensures
        i <= line_end(s, i) <= line_break(s, i) <= next_line(s, i) <= s.len(),
        i < s.len() ==> i < next_line(s, i),
        next_line(s, i) < s.len() ==> is_line_start(s, next_line(s, i)),
        i < s.len() ==> is_line_start(s, next_line(s, i)) || next_line(s, i) == s.len(),
{
    lemma_line_break(s, i);
}

/// The start of the first line, at or after the line that starts at `i`, of
/// which `stop` holds; the end of `s` where it holds of none.
pub open spec fn find_line(s: Seq<u8>, i: int, stop: spec_fn(Seq<u8>) -> bool) -> int
    decreases s.len() - i,
    via find_line_decreases
{
    if 0 <= i < s.len() && !stop(line_at(s, i)) {
        find_line(s, next_line(s, i), stop)
    } else {
        i
    }
}

#[via_fn]
proof fn find_line_decreases(s: Seq<u8>, i: int, stop: spec_fn(Seq<u8>) -> bool) {
    if 0 <= i < s.len() {
        lemma_next_line(s, i);
    }
}

/// `find_line` stays in range; from a line start it ends at a line start or
/// at the end of `s`; and before the end of `s` it ends at a line of which
/// `stop` holds.
pub proof fn lemma_find_line(s: Seq<u8>, i: int, stop: spec_fn(Seq<u8>) -> bool)
    requires
        0 <= i <= s.len(),
    ensures
        i <= find_line(s, i, stop) <= s.len(),
        find_line(s, i, stop) < s.len() ==> stop(line_at(s, find_line(s, i, stop))),
        is_line_start(s, i) ==> is_line_start(s, find_line(s, i, stop)) || find_line(s, i, stop)
            == s.len(),
        find_line(s, i, stop) == i <==> (i == s.len() || stop(line_at(s, i))),
    decreases s.len() - i,
{
    if i < s.len() && !stop(line_at(s, i)) {
        lemma_next_line(s, i);
        lemma_find_line(s, next_line(s, i), stop);
    }
}

/// Behind a prefix, a line breaks where it does in the rest alone.
pub proof fn lemma_line_break_shift(a: Seq<u8>, b: Seq<u8>, k: int)
    requires
        0 <= k <= b.len(),
    ensures
        line_break(a + b, a.len() + k) == a.len() + line_break(b, k),
    decreases b.len() - k,
{
    if k < b.len() {
        assert((a + b)[a.len() + k] == b[k]);
        if b[k] != LF {
            lemma_line_break_shift(a, b, k + 1);
        }
    }
}

/// Behind a prefix, a line is what it is in the rest alone, and the next
/// line starts where it does there.
pub proof fn lemma_line_shift(a: Seq<u8>, b: Seq<u8>, k: int)
    requires
        0 <= k <= b.len(),
    ensures
        next_line(a + b, a.len() + k) == a.len() + next_line(b, k),
        line_end(a + b, a.len() + k) == a.len() + line_end(b, k),
        line_at(a + b, a.len() + k) == line_at(b, k),
{
    let s = a + b;
    lemma_line_break_shift(a, b, k);
    lemma_line_break(b, k);
    let e = line_break(b, k);
    if k < e {
        assert(s[a.len() + e - 1] == b[e - 1]);
    }
    assert(s.subrange(a.len() + k, a.len() + line_end(b, k)) =~= b.subrange(k, line_end(b, k)));
}

/// Behind a prefix, the search for a line ends where it does in the rest
/// alone.
pub proof fn lemma_find_line_shift(a: Seq<u8>, b: Seq<u8>, k: int, stop: spec_fn(Seq<u8>) -> bool)
    requires
        0 <= k <= b.len(),
    ensures
        find_line(a + b, a.len() + k, stop) == a.len() + find_line(b, k, stop),
    decreases b.len() - k,
{
    lemma_line_shift(a, b, k);
    if k < b.len() && !stop(line_at(b, k)) {
        lemma_next_line(b, k);
        lemma_find_line_shift(a, b, next_line(b, k), stop);
    }
}

/// Within a prefix that ends in a line feed, a line breaks where it does in
/// the prefix alone.
pub proof fn lemma_line_break_prefix(a: Seq<u8>, b: Seq<u8>, k: int)
    requires
        0 <= k < a.len(),
        a.last() == LF,
    ensures
        line_break(a + b, k) == line_break(a, k),
        line_break(a, k) < a.len(),
    decreases a.len() - k,
{
    assert((a + b)[k] == a[k]);
    if a[k] != LF {
        lemma_line_break_prefix(a, b, k + 1);
    }
}

/// Within a prefix that ends in a line feed, a line is what it is in the
/// prefix alone, and the next line starts where it does there.
pub proof fn lemma_line_in_prefix(a: Seq<u8>, b: Seq<u8>, k: int)
    requires
        0 <= k < a.len(),
        a.last() == LF,
    ensures
        line_at(a + b, k) == line_at(a, k),
        next_line(a + b, k) == next_line(a, k),
        k < next_line(a, k) <= a.len(),
{
    let s = a + b;
    lemma_line_break_prefix(a, b, k);
    lemma_line_break(a, k);
    let e = line_break(a, k);
    if k < e {
        assert(s[e - 1] == a[e - 1]);
    }
    assert(s.subrange(k, line_end(a, k)) =~= a.subrange(k, line_end(a, k)));
}

/// Where the search for a line finds none in a prefix that ends in a line
/// feed, it goes on in what follows the prefix.
pub proof fn lemma_find_line_prefix(a: Seq<u8>, b: Seq<u8>, k: int, stop: spec_fn(Seq<u8>) -> bool)
    requires
        0 <= k <= a.len(),
        a.len() == 0 || a.last() == LF,
        find_line(a, k, stop) == a.len(),
    ensures
        find_line(a + b, k, stop) == a.len() + find_line(b, 0, stop),
    decreases a.len() - k,
{
    if k < a.len() {
        lemma_line_in_prefix(a, b, k);
        lemma_find_line(a, k, stop);
        lemma_find_line_prefix(a, b, next_line(a, k), stop);
    } else {
        lemma_find_line_shift(a, b, 0, stop);
    }
}

/// A text without line feed, set before a line feed, is the first line of
/// the whole, but for a carriage return at its end; the next line starts
/// behind the line feed.
pub proof fn lemma_first_line(a: Seq<u8>, r: Seq<u8>)
    requires
        forall|k: int| 0 <= k < a.len() ==> #[trigger] a[k] != LF,
    ensures
        line_break(a + seq![LF] + r, 0) == a.len(),
        next_line(a + seq![LF] + r, 0) == a.len() + 1,
        a.len() == 0 || a.last() != CR ==> line_at(a + seq![LF] + r, 0) == a,
{
    let s = a + seq![LF] + r;
    lemma_line_break_from(a, r, 0);
    assert(s[a.len() as int] == LF);
    if a.len() > 0 {
        assert(s[a.len() - 1] == a.last());
    }
    if a.len() == 0 || a.last() != CR {
        assert(s.subrange(0, a.len() as int) =~= a);
    }
}

/// Within a text without line feed that stands before a line feed, the line
/// breaks at that line feed.
pub proof fn lemma_line_break_from(a: Seq<u8>, r: Seq<u8>, j: int)
    requires
        forall|k: int| 0 <= k < a.len() ==> #[trigger] a[k] != LF,
        0 <= j <= a.len(),
    ensures
        line_break(a + seq![LF] + r, j) == a.len(),
    decreases a.len() - j,
{
    let s = a + seq![LF] + r;
    if j < a.len() {
        assert(s[j] == a[j]);
        lemma_line_break_from(a, r, j + 1);
    } else {
        assert(s[j] == LF);
    }
}

/// Finds where the content of the line that starts at `i` ends, and where
/// the next line begins.
pub fn scan_line(s: &[u8], i: usize) -> (r: (usize, usize))
    ensures
        r.0 == line_end(s@, i as int),
        r.1 == next_line(s@, i as int),
        i <= r.0 <= r.1,
        i <= s@.len() ==> r.1 <= s@.len(),
        i < s@.len() ==> i < r.1,
{
    if i > s.len() {
        return (i, i);
    }
    let mut e: usize = i;
    while e < s.len() && s[e] != LF
        invariant
            i <= e <= s@.len(),
            line_break(s@, i as int) == line_break(s@, e as int),
        decreases s@.len() - e,
    {
        e += 1;
    }
    let next: usize = if e < s.len() {
        e + 1
    } else {
        e
    };
    let end: usize = if e < s.len() && i < e && s[e - 1] == CR {
        e - 1
    } else {
        e
    };
    (end, next)
}

/// A byte buffer with a read position.
pub struct Stream {
    data: Vec<u8>,
    pos: usize,
}

impl Stream {
    /// The cursor stands within the buffer or at its end.
    #[verifier::type_invariant]
    spec fn well_formed(self) -> bool {
        self.pos <= self.data@.len()
    }

    /// The bytes of the stream, read or not.
    pub closed spec fn bytes(&self) -> Seq<u8> {
        self.data@
    }

    /// The read position: how many bytes lie behind the cursor.
    pub closed spec fn cursor(&self) -> int {
        self.pos as int
    }

    /// A stream over `data`, with the cursor at its start.
    pub fn new(data: Vec<u8>) -> (r: Stream)
        ensures
            r.bytes() == data@,
            r.cursor() == 0,
    {
        Stream { data, pos: 0 }
    }

    /// How many bytes the stream holds.
    pub fn len(&self) -> (r: usize)
        ensures
            r == self.bytes().len(),
            0 <= self.cursor() <= r,
    {
        proof {
            use_type_invariant(self);
        }
        self.data.len()
    }

    /// The read position.
    pub fn position(&self) -> (r: usize)
        ensures
            r == self.cursor(),
            0 <= r <= self.bytes().len(),
    {
        proof {
            use_type_invariant(self);
        }
        self.pos
    }

    /// Whether every byte has been read.
    pub fn at_end(&self) -> (r: bool)
        ensures
            r == (self.cursor() == self.bytes().len()),
            0 <= self.cursor() <= self.bytes().len(),
    {
        proof {
            use_type_invariant(self);
        }
        self.pos == self.data.len()
    }

    /// Moves the cursor to `pos`, or to the end of the stream where `pos`
    /// lies behind it.
    pub fn seek(&mut self, pos: usize)
        ensures
            final(self).bytes() == old(self).bytes(),
            final(self).cursor() == if pos <= old(self).bytes().len() {
                pos as int
            } else {
                old(self).bytes().len() as int
            },
    {
        proof {
            use_type_invariant(&*self);
        }
        if pos <= self.data.len() {
            self.pos = pos;
        } else {
            self.pos = self.data.len();
        }
    }

    /// All bytes of the stream.
    pub fn as_slice(&self) -> (r: &[u8])
        ensures
            r@ == self.bytes(),
    {
        self.data.as_slice()
    }

    /// The bytes from `from` up to `to`.
    pub fn slice(&self, from: usize, to: usize) -> (r: &[u8])
        requires
            from <= to <= self.bytes().len(),
        ensures
            r@ == self.bytes().subrange(from as int, to as int),
    {
        slice_subrange(self.data.as_slice(), from, to)
    }

    /// Where the line at the cursor ends and where the next one begins,
    /// without moving the cursor. `None` at the end of the stream.
    pub fn line_span(&self) -> (r: Option<(usize, usize)>)
        ensures
            0 <= self.cursor() <= self.bytes().len(),
            r is None <==> self.cursor() == self.bytes().len(),
            r matches Some((end, next)) ==> {
                &&& end == line_end(self.bytes(), self.cursor())
                &&& next == next_line(self.bytes(), self.cursor())
                &&& self.cursor() <= end <= next <= self.bytes().len()
                &&& self.cursor() < next
            },
    {
        proof {
            use_type_invariant(self);
        }
        if self.pos == self.data.len() {
            return None;
        }
        let (end, next) = scan_line(self.data.as_slice(), self.pos);
        Some((end, next))
    }

    /// Reads the line at the cursor and moves behind it. The line comes
    /// without its line ending. `None` at the end of the stream.
    pub fn read_line(&mut self) -> (r: Option<Vec<u8>>)
        ensures
            final(self).bytes() == old(self).bytes(),
            r is None <==> old(self).cursor() == old(self).bytes().len(),
            r is None ==> final(self).cursor() == old(self).cursor(),
            r matches Some(line) ==> {
                &&& line@ == line_at(old(self).bytes(), old(self).cursor())
                &&& final(self).cursor() == next_line(old(self).bytes(), old(self).cursor())
            },
    {
        match self.line_span() {
            None => None,
            Some((end, next)) => {
                let line = vstd::slice::slice_to_vec(self.slice(self.pos, end));
                self.pos = next;
                Some(line)
            },
        }
    }
}

} // verus!
