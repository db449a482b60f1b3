//! What reading a file gives: where each part of a file ends, and what each
//! part holds.
//!
//! A file has no field that says how long a part is, nor how many channels
//! follow. The functions here say it from the content: a header runs to its
//! first blank line, the values of a grid to the first line that begins with
//! `aug`, an augmentation block to the next dimension line.

use crate::error::{ChgError, GridError};
use crate::grid::{grid_of_disk, texts, Grid, GridView};
use crate::header::{header_is_safe, parse_header, poscar_accepts};
use crate::model::{ChannelView, ChgView};
use crate::number::{is_number, Literal};
use crate::pattern::is_dimension_line;
use crate::stream::{
    find_line, lemma_find_line, lemma_next_line, line_at, next_line, scan_line, Stream,
};
use crate::text::{
    byte_is_space, is_blank, is_space, is_unsigned, is_unsigned_bytes, next_token, parse_unsigned,
    tokens, tokens_from, unsigned_of, LF,
};
use vstd::prelude::*;
use vstd::slice::{slice_subrange, slice_to_vec};

verus! {

/// The marker `aug`, with which the first line of an augmentation block
/// begins.
pub open spec fn aug_marker() -> Seq<u8> {
    seq![97u8, 117u8, 103u8]
}

/// The lines that end a structure header: those that hold only whitespace.
pub open spec fn blank_line() -> spec_fn(Seq<u8>) -> bool {
    |l: Seq<u8>| is_blank(l)
}

/// The lines that end the values of a grid: those that begin with `aug`.
pub open spec fn aug_line() -> spec_fn(Seq<u8>) -> bool {
    |l: Seq<u8>| aug_marker().is_prefix_of(l)
}

/// The lines that end an augmentation block: the dimension lines.
pub open spec fn dimension_line() -> spec_fn(Seq<u8>) -> bool {
    |l: Seq<u8>| is_dimension_line(l)
}

/// Where the structure header that starts at `i` ends: behind its first
/// blank line, or at the end of `s` where it has none.
pub open spec fn header_end(s: Seq<u8>, i: int) -> int {
    let p = find_line(s, i, blank_line());
    if p < s.len() {
        next_line(s, p)
    } else {
        p
    }
}

/// The text of the structure header that starts at `i`, its blank line
/// included.
pub open spec fn header_text(s: Seq<u8>, i: int) -> Seq<u8> {
    s.subrange(i, header_end(s, i))
}

/// A header block: a text of lines of which none is blank, each ended by a
/// line feed. It is what stands before the blank line of a file.
pub open spec fn is_header_block(h: Seq<u8>) -> bool {
    h.len() > 0 && h.last() == LF && find_line(h, 0, blank_line()) == h.len()
}

/// A file that is written behind `h` is read again: `h` is a header block
/// and, with the line feed that the writer sets behind it, a text that the
/// structure parser takes.
pub open spec fn header_reads_again(h: Seq<u8>) -> bool {
    is_header_block(h) && header_is_safe(h + seq![LF]) && poscar_accepts(h + seq![LF])
}

/// The extents that a dimension line gives: its first three tokens, where
/// there are three and each is an unsigned integer of machine size.
pub open spec fn dims_of(line: Seq<u8>) -> Option<(usize, usize, usize)> {
    let t = tokens(line);
    if t.len() >= 3 && unsigned_of(t[0]) is Some && unsigned_of(t[1]) is Some && unsigned_of(
        t[2],
    ) is Some {
        Some((unsigned_of(t[0])->0, unsigned_of(t[1])->0, unsigned_of(t[2])->0))
    } else {
        None
    }
}

/// The line begins with an unsigned integer: its first token is the literal
/// of one, of whatever size.
pub open spec fn begins_with_unsigned(line: Seq<u8>) -> bool {
    tokens(line).len() > 0 && is_unsigned(tokens(line)[0])
}

/// What the line at the head of a grid gives.
///
/// A line that does not begin with an unsigned integer is no dimension line
/// at all: no grid follows. A line that begins with one is a dimension line;
/// it is malformed where its first three tokens do not give three extents of
/// machine size, because one is missing, is no unsigned integer, or is too
/// large.
pub open spec fn read_dims(line: Seq<u8>) -> Result<(usize, usize, usize), GridError> {
    match dims_of(line) {
        Some(dims) => Ok(dims),
        None => if begins_with_unsigned(line) {
            Err(GridError::MalformedGrid)
        } else {
            Err(GridError::EndOfChannels)
        },
    }
}

/// Where the values of the grid whose dimension line starts at `i` end: at
/// the first line behind the dimension line that begins with `aug`, or at the
/// end of `s`.
pub open spec fn grid_stop(s: Seq<u8>, i: int) -> int {
    find_line(s, next_line(s, i), aug_line())
}

/// The tokens between the dimension line that starts at `i` and the end of
/// the grid's values.
pub open spec fn grid_tokens(s: Seq<u8>, i: int) -> Seq<Seq<u8>> {
    tokens(s.subrange(next_line(s, i), grid_stop(s, i)))
}

/// Every token of `ts` is the literal of a number.
pub open spec fn all_numbers(ts: Seq<Seq<u8>>) -> bool {
    forall|k: int| 0 <= k < ts.len() ==> is_number(#[trigger] ts[k])
}

/// What a grid read at `i` gives.
///
/// No grid follows where `s` ends at `i` or the line at `i` does not begin
/// with an unsigned integer. Else a grid begins at `i`. It is malformed
/// where its dimension line does not give three extents, where a token up to
/// the end of its values is no number, or where there are fewer tokens than
/// the extents ask for. Otherwise it is the grid of the extents and of the
/// first tokens.
pub open spec fn read_grid(s: Seq<u8>, i: int) -> Result<GridView, GridError> {
    if !(0 <= i < s.len()) {
        Err(GridError::EndOfChannels)
    } else {
        match read_dims(line_at(s, i)) {
            Err(e) => Err(e),
            Ok((nx, ny, nz)) => {
                let ts = grid_tokens(s, i);
                if all_numbers(ts) && nx * ny * nz <= ts.len() {
                    Ok(grid_of_disk(nx as int, ny as int, nz as int, ts))
                } else {
                    Err(GridError::MalformedGrid)
                }
            },
        }
    }
}

/// Where the cursor stands after a grid read at `i`: at the end of the
/// grid's values where the line at `i` gives extents, and where it was
/// otherwise.
pub open spec fn after_grid(s: Seq<u8>, i: int) -> int {
    if 0 <= i < s.len() && dims_of(line_at(s, i)) is Some {
        grid_stop(s, i)
    } else {
        i
    }
}

/// Where an augmentation block that starts at `i` ends: at the first
/// dimension line, or at the end of `s`.
pub open spec fn aug_stop(s: Seq<u8>, i: int) -> int {
    find_line(s, i, dimension_line())
}

/// The lines of `s` from the one that starts at `i` up to `end`, each
/// followed by a line feed.
pub open spec fn joined_lines(s: Seq<u8>, i: int, end: int) -> Seq<u8>
    decreases s.len() - i,
    via joined_lines_decreases
{
    if 0 <= i < end <= s.len() {
        line_at(s, i) + seq![LF] + joined_lines(s, next_line(s, i), end)
    } else {
        Seq::empty()
    }
}

#[via_fn]
proof fn joined_lines_decreases(s: Seq<u8>, i: int, end: int) {
    if 0 <= i < end <= s.len() {
        lemma_next_line(s, i);
    }
}

/// What an augmentation read at `i` gives: nothing where no line stands
/// before the next dimension line or the end of `s`, and else the lines up
/// to there.
pub open spec fn read_aug(s: Seq<u8>, i: int) -> Option<Seq<u8>> {
    if aug_stop(s, i) == i {
        None
    } else {
        Some(joined_lines(s, i, aug_stop(s, i)))
    }
}

/// Reads the text of a structure header at the cursor: the lines up to the
/// first blank line, and the blank line with them.
pub fn read_header_text(stream: &mut Stream) -> (r: Vec<u8>)
    ensures
        final(stream).bytes() == old(stream).bytes(),
        final(stream).cursor() == header_end(old(stream).bytes(), old(stream).cursor()),
        r@ == header_text(old(stream).bytes(), old(stream).cursor()),
{
    let ghost s = stream.bytes();
    let first = stream.position();
    loop
        invariant_except_break
            find_line(s, first as int, blank_line()) == find_line(
                s,
                stream.cursor(),
                blank_line(),
            ),
        invariant
            stream.bytes() == s,
            first <= stream.cursor() <= s.len(),
        ensures
            stream.bytes() == s,
            stream.cursor() == header_end(s, first as int),
            first <= stream.cursor() <= s.len(),
        decreases s.len() - stream.cursor(),
    {
        let start = stream.position();
        match stream.line_span() {
            None => {
                break ;
            },
            Some((end, next)) => {
                let blank = line_is_blank(stream.slice(start, end));
                stream.seek(next);
                if blank {
                    break ;
                }
            },
        }
    }
    let end = stream.position();
    slice_to_vec(stream.slice(first, end))
}

/// Whether every byte of `l` is whitespace.
pub fn line_is_blank(l: &[u8]) -> (r: bool)
    ensures
        r == is_blank(l@),
{
    let mut k: usize = 0;
    while k < l.len()
        invariant
            k <= l@.len(),
            forall|j: int| 0 <= j < k ==> is_space(#[trigger] l@[j]),
        decreases l@.len() - k,
    {
        if !byte_is_space(l[k]) {
            return false;
        }
        k += 1;
    }
    true
}

/// Whether `header` is a header block.
pub fn is_header_block_bytes(header: &[u8]) -> (r: bool)
    ensures
        r == is_header_block(header@),
{
    let n = header.len();
    if n == 0 || header[n - 1] != LF {
        return false;
    }
    let mut at: usize = 0;
    while at < n
        invariant
            n == header@.len(),
            at <= n,
            find_line(header@, 0, blank_line()) == find_line(header@, at as int, blank_line()),
        decreases n - at,
    {
        let (end, next) = scan_line(header, at);
        if line_is_blank(slice_subrange(header, at, end)) {
            return false;
        }
        at = next;
    }
    true
}

/// Whether a file that is written behind `header` is read again.
pub fn header_is_read_again(header: &[u8]) -> (r: bool)
    ensures
        r == header_reads_again(header@),
{
    if !is_header_block_bytes(header) {
        return false;
    }
    let mut text = slice_to_vec(header);
    text.push(LF);
    assert(text@ =~= header@ + seq![LF]);
    parse_header(text.as_slice()).is_ok()
}

/// Reads the extents off the line at the head of a grid, or says why it
/// gives none.
pub fn parse_dims(line: &[u8]) -> (r: Result<(usize, usize, usize), GridError>)
    ensures
        r == read_dims(line@),
{
    let ghost t = tokens(line@);
    let (a0, b0) = match next_token(line, 0) {
        Some(span) => span,
        None => {
            return Err(GridError::EndOfChannels);
        },
    };
    let first = slice_subrange(line, a0, b0);
    assert(t[0] == first@);
    if !is_unsigned_bytes(first) {
        return Err(GridError::EndOfChannels);
    }
    let (a1, b1) = match next_token(line, b0) {
        Some(span) => span,
        None => {
            assert(t.len() == 1);
            return Err(GridError::MalformedGrid);
        },
    };
    let (a2, b2) = match next_token(line, b1) {
        Some(span) => span,
        None => {
            assert(t.len() == 2);
            return Err(GridError::MalformedGrid);
        },
    };
    assert(t[1] == line@.subrange(a1 as int, b1 as int));
    assert(t[2] == line@.subrange(a2 as int, b2 as int));
    assert(t.len() >= 3);
    let nx = match parse_unsigned(first) {
        Some(n) => n,
        None => {
            return Err(GridError::MalformedGrid);
        },
    };
    let ny = match parse_unsigned(slice_subrange(line, a1, b1)) {
        Some(n) => n,
        None => {
            return Err(GridError::MalformedGrid);
        },
    };
    let nz = match parse_unsigned(slice_subrange(line, a2, b2)) {
        Some(n) => n,
        None => {
            return Err(GridError::MalformedGrid);
        },
    };
    Ok((nx, ny, nz))
}

/// Takes every token of `region` as a literal; `None` where one is none.
pub fn collect_literals(region: &[u8]) -> (r: Option<Vec<Literal>>)
    ensures
        r is Some <==> all_numbers(tokens(region@)),
        r matches Some(v) ==> texts(v@) == tokens(region@),
{
    let mut vals: Vec<Literal> = Vec::new();
    let mut i: usize = 0;
    let ghost all = tokens(region@);
    loop
        invariant
            all == tokens(region@),
            i <= region@.len(),
            texts(vals@) + tokens_from(region@, i as int) == all,
            forall|k: int| 0 <= k < vals@.len() ==> is_number(#[trigger] all[k]),
        decreases region@.len() - i,
    {
        match next_token(region, i) {
            None => {
                assert(texts(vals@) =~= all);
                return Some(vals);
            },
            Some((a, b)) => {
                let ghost before = texts(vals@);
                let tok = slice_subrange(region, a, b);
                match Literal::from_slice(tok) {
                    None => {
                        assert(all[vals@.len() as int] == tok@);
                        return None;
                    },
                    Some(lit) => {
                        vals.push(lit);
                        assert(texts(vals@) =~= before + seq![tok@]);
                        assert(texts(vals@) + tokens_from(region@, b as int) =~= all);
                        i = b;
                    },
                }
            },
        }
    }
}

/// What the channels read from `i` on give, where each grid must have the
/// extents `nx`, `ny`, `nz`: nothing where one is malformed or has other
/// extents, and else the channels in order, up to where no grid follows.
#[verifier::opaque]
pub open spec fn read_channels(s: Seq<u8>, i: int, nx: int, ny: int, nz: int) -> Option<
    Seq<ChannelView>,
>
    decreases s.len() - i,
    via read_channels_decreases
{
    match read_grid(s, i) {
        Err(GridError::EndOfChannels) => Some(Seq::empty()),
        Err(GridError::MalformedGrid) => None,
        Ok(g) => {
            if g.nx == nx && g.ny == ny && g.nz == nz {
                let j = grid_stop(s, i);
                match read_channels(s, aug_stop(s, j), nx, ny, nz) {
                    None => None,
                    Some(rest) => Some(seq![ChannelView { grid: g, aug: read_aug(s, j) }] + rest),
                }
            } else {
                None
            }
        },
    }
}

#[via_fn]
proof fn read_channels_decreases(s: Seq<u8>, i: int, nx: int, ny: int, nz: int) {
    if read_grid(s, i) is Ok {
        lemma_channel_advances(s, i);
    }
}

/// Where the cursor stands when the channels from `i` on have been read.
#[verifier::opaque]
pub open spec fn channels_end(s: Seq<u8>, i: int, nx: int, ny: int, nz: int) -> int
    decreases s.len() - i,
    via channels_end_decreases
{
    match read_grid(s, i) {
        Ok(g) => {
            if g.nx == nx && g.ny == ny && g.nz == nz {
                channels_end(s, aug_stop(s, grid_stop(s, i)), nx, ny, nz)
            } else {
                grid_stop(s, i)
            }
        },
        Err(_) => after_grid(s, i),
    }
}

#[via_fn]
proof fn channels_end_decreases(s: Seq<u8>, i: int, nx: int, ny: int, nz: int) {
    if read_grid(s, i) is Ok {
        lemma_channel_advances(s, i);
    }
}

/// A channel takes at least its dimension line: behind a grid that was read
/// at `i`, and behind the augmentation text that follows it, the cursor
/// stands further on, and within `s`.
pub proof fn lemma_channel_advances(s: Seq<u8>, i: int)
    requires
        0 <= i < s.len(),
    ensures
        i < next_line(s, i) <= grid_stop(s, i) <= aug_stop(s, grid_stop(s, i)) <= s.len(),
{
    lemma_next_line(s, i);
    lemma_find_line(s, next_line(s, i), aug_line());
    lemma_find_line(s, grid_stop(s, i), dimension_line());
}

/// What reading the file `s` gives.
///
/// The header runs to the first blank line. It is an error where the
/// structure parser does not take it. The total grid follows; it is an error
/// where none does or where it is malformed. Its augmentation text and the
/// difference channels follow, each with the extents of the total grid.
pub open spec fn parse(s: Seq<u8>) -> Result<ChgView, ChgError> {
    let h = header_end(s, 0);
    if !(header_is_safe(header_text(s, 0)) && poscar_accepts(header_text(s, 0))) {
        Err(ChgError::HeaderParseError)
    } else {
        match read_grid(s, h) {
            Err(_) => Err(ChgError::MalformedGrid),
            Ok(g) => {
                let j = grid_stop(s, h);
                match read_channels(s, aug_stop(s, j), g.nx, g.ny, g.nz) {
                    None => Err(ChgError::MalformedGrid),
                    Some(chs) => Ok(
                        ChgView {
                            total: g,
                            total_aug: read_aug(s, j),
                            ngrid: (g.nx, g.ny, g.nz),
                            diff_grids: Seq::new(chs.len(), |k: int| chs[k].grid),
                            diff_augs: Seq::new(chs.len(), |k: int| chs[k].aug),
                        },
                    ),
                }
            },
        }
    }
}

/// Where the cursor stands when the file `s` has been read without error.
pub open spec fn parse_end(s: Seq<u8>) -> int {
    let h = header_end(s, 0);
    let j = grid_stop(s, h);
    match read_grid(s, h) {
        Ok(g) => channels_end(s, aug_stop(s, j), g.nx, g.ny, g.nz),
        Err(_) => h,
    }
}

/// Where the reader stands in a file. A file does not say how many channels
/// it holds: the reader goes from the total grid to one difference grid after
/// the other, and is done when a read finds no further grid.
#[derive(Clone, Copy, Debug, PartialEq, Eq, Structural)]
pub enum ReadState {
    /// The total grid is to be read.
    ReadingTotal,
    /// The total grid and so many difference grids have been read; one more
    /// may follow.
    ReadingDifference(usize),
    /// No further grid follows.
    Done,
}

/// Where the reader goes from `state` when a grid read gives `outcome`: the
/// extents of a grid, or why there is none. `expected` holds the extents of
/// the total grid, once it has been read.
///
/// The total grid has to be there. A difference grid has to have the extents
/// of the total grid; where none follows, the reader is done.
pub open spec fn next_state(
    state: ReadState,
    outcome: Result<[usize; 3], GridError>,
    expected: [usize; 3],
) -> Result<ReadState, ChgError> {
    match state {
        ReadState::ReadingTotal => match outcome {
            Ok(_) => Ok(ReadState::ReadingDifference(0)),
            Err(_) => Err(ChgError::MalformedGrid),
        },
        ReadState::ReadingDifference(n) => match outcome {
            Ok(shape) => if shape[0] == expected[0] && shape[1] == expected[1] && shape[2]
                == expected[2] {
                Ok(ReadState::ReadingDifference(if n < usize::MAX {
                    (n + 1) as usize
                } else {
                    n
                }))
            } else {
                Err(ChgError::MalformedGrid)
            },
            Err(GridError::EndOfChannels) => Ok(ReadState::Done),
            Err(GridError::MalformedGrid) => Err(ChgError::MalformedGrid),
        },
        ReadState::Done => Ok(ReadState::Done),
    }
}

/// Takes the reader from `state` to its next state on the outcome of a grid
/// read.
pub fn advance(
    state: ReadState,
    outcome: Result<[usize; 3], GridError>,
    expected: [usize; 3],
) -> (r: Result<ReadState, ChgError>)
    ensures
        r == next_state(state, outcome, expected),
{
    match state {
        ReadState::ReadingTotal => match outcome {
            Ok(_) => Ok(ReadState::ReadingDifference(0)),
            Err(_) => Err(ChgError::MalformedGrid),
        },
        ReadState::ReadingDifference(n) => match outcome {
            Ok(shape) => {
                if shape[0] == expected[0] && shape[1] == expected[1] && shape[2] == expected[2] {
                    Ok(ReadState::ReadingDifference(if n < usize::MAX {
                        n + 1
                    } else {
                        n
                    }))
                } else {
                    Err(ChgError::MalformedGrid)
                }
            },
            Err(GridError::EndOfChannels) => Ok(ReadState::Done),
            Err(GridError::MalformedGrid) => Err(ChgError::MalformedGrid),
        },
        ReadState::Done => Ok(ReadState::Done),
    }
}

/// The extents of the grid that a read gave, or why it gave none.
pub fn outcome_of(read: &Result<Grid, GridError>) -> (r: Result<[usize; 3], GridError>)
    ensures
        match (*read, r) {
            (Ok(g), Ok(shape)) => shape[0] == g@.nx && shape[1] == g@.ny && shape[2] == g@.nz,
            (Err(e), Err(f)) => e == f,
            _ => false,
        },
{
    match read {
        Ok(g) => Ok(g.shape()),
        Err(e) => Err(*e),
    }
}

/// The channels `acc` before those of `rest`, where there are any.
pub open spec fn prepend(acc: Seq<ChannelView>, rest: Option<Seq<ChannelView>>) -> Option<
    Seq<ChannelView>,
> {
    match rest {
        None => None,
        Some(r) => Some(acc + r),
    }
}

/// How the channels from `i` on follow from the grid read at `i`: none where
/// no grid follows, an error where the grid is malformed or has other
/// extents, and else the channel at `i` before those behind it.
pub proof fn lemma_read_channels(s: Seq<u8>, i: int, nx: int, ny: int, nz: int)
    ensures
        read_grid(s, i) == Err::<GridView, GridError>(GridError::EndOfChannels) ==> {
            &&& read_channels(s, i, nx, ny, nz) == Some(Seq::<ChannelView>::empty())
            &&& channels_end(s, i, nx, ny, nz) == i
        },
        read_grid(s, i) == Err::<GridView, GridError>(GridError::MalformedGrid) ==> read_channels(
            s,
            i,
            nx,
            ny,
            nz,
        ) is None,
        read_grid(s, i) matches Ok(g) ==> {
            if g.nx == nx && g.ny == ny && g.nz == nz {
                &&& read_channels(s, i, nx, ny, nz) == prepend(
                    seq![ChannelView { grid: g, aug: read_aug(s, grid_stop(s, i)) }],
                    read_channels(s, aug_stop(s, grid_stop(s, i)), nx, ny, nz),
                )
                &&& channels_end(s, i, nx, ny, nz) == channels_end(
                    s,
                    aug_stop(s, grid_stop(s, i)),
                    nx,
                    ny,
                    nz,
                )
            } else {
                read_channels(s, i, nx, ny, nz) is None
            }
        },
{
    reveal(read_channels);
    reveal(channels_end);
}

} // verus!
