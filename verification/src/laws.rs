//! What holds of the reader and the writer together.
//!
//! Round trip: a grid that is written reads back as the same grid, and a grid
//! that is read and written again reads as the same grid. A model of one
//! channel without augmentation text, written to a file, reads back as the
//! same model; so does a model with augmentation text for every channel,
//! as far as the boundary pattern takes its dimension lines for such.
//! Cursor: between the parts of a file the cursor stands at the start of a
//! line or at the end of the stream. Shape: every difference grid of a model
//! that was read has the extents of the total grid. Augmentation text: it is
//! written as it is held, and held as it stood in the file.

use crate::error::{ChgError, GridError};
use crate::grid::{grid_of_disk, lemma_disk_order_round_trip, lemma_grid_of_disk, GridView};
use crate::layout::{
    extent_field, extents_text, grid_text, row_len, row_text, rows_text, value_field,
    EXTENT_WIDTH, VALUES_PER_ROW, VALUE_WIDTH,
};
use crate::model::{single_channel, ChannelView, ChgType, ChgView};
use crate::number::lemma_number_is_token;
use crate::pattern::is_dimension_line;
use crate::reader::{
    after_grid, all_numbers, aug_line, aug_marker, aug_stop, blank_line, channels_end,
    begins_with_unsigned, dimension_line, dims_of, grid_stop, grid_tokens, header_end,
    header_reads_again, header_text, is_header_block, joined_lines,
    lemma_channel_advances, lemma_read_channels, parse, parse_end, read_aug, read_channels,
    read_grid,
};
use crate::stream::{
    find_line, is_line_start, lemma_find_line, lemma_find_line_prefix, lemma_find_line_shift,
    lemma_first_line, lemma_line_break, lemma_line_in_prefix, lemma_line_shift, lemma_next_line,
    line_at, line_break,
    line_end, next_line,
};
use crate::text::{
    blanks, decimal, is_blank, is_space, is_token, lemma_decimal_parses, lemma_tokens_after_blank,
    lemma_tokens_after_token, right_justified, tokens, unsigned_of, CR, LF, SPACE,
};
use crate::writer::{body_text, channel_text, channels_text, framed, reads_back};
use vstd::prelude::*;

verus! {

/// Round trip of a grid: what the writer lays out for a grid, the reader
/// takes for that grid, with its extents and with every value as it was, and
/// reads to the end of.
pub proof fn lemma_grid_round_trip(g: GridView, per_row: int)
    requires
        g.wf(),
        per_row >= 1,
        g.nx <= usize::MAX,
        g.ny <= usize::MAX,
        g.nz <= usize::MAX,
    ensures
        read_grid(grid_text(g, per_row), 0) == Ok::<GridView, GridError>(g),
        after_grid(grid_text(g, per_row), 0) == grid_text(g, per_row).len(),
{
    lemma_grid_round_trip_before(g, per_row, Seq::empty());
    assert(grid_text(g, per_row) + Seq::<u8>::empty() =~= grid_text(g, per_row));
}

/// Round trip of a grid before other text: where what follows a written
/// grid begins with the marker of an augmentation block, the reader takes
/// the grid as it was and stops before the marker.
pub proof fn lemma_grid_round_trip_before(g: GridView, per_row: int, rest: Seq<u8>)
    requires
        g.wf(),
        per_row >= 1,
        g.nx <= usize::MAX,
        g.ny <= usize::MAX,
        g.nz <= usize::MAX,
        rest.len() == 0 || aug_marker().is_prefix_of(line_at(rest, 0)),
    ensures
        read_grid(grid_text(g, per_row) + rest, 0) == Ok::<GridView, GridError>(g),
        after_grid(grid_text(g, per_row) + rest, 0) == grid_text(g, per_row).len(),
        line_at(grid_text(g, per_row) + rest, 0) == extents_text(g.nx, g.ny, g.nz),
{
    let vals = g.disk_values();
    let content = extents_text(g.nx, g.ny, g.nz);
    let rows = rows_text(vals, per_row);
    let text = grid_text(g, per_row) + rest;
    assert(all_numbers(vals) && vals.len() == g.size() && grid_of_disk(g.nx, g.ny, g.nz, vals)
        == g) by {
        lemma_disk_order_round_trip(g);
    }
    assert(dims_of(content) == Some((g.nx as usize, g.ny as usize, g.nz as usize))) by {
        lemma_shape_line(g.nx, g.ny, g.nz);
    }
    assert(tokens(rows) == vals) by {
        lemma_rows_of_numbers(vals, per_row);
    }
    assert(text.len() > 0 && line_at(text, 0) == content && grid_tokens(text, 0) == tokens(rows)
        && grid_stop(text, 0) == grid_text(g, per_row).len()) by {
        lemma_shape_line(g.nx, g.ny, g.nz);
        lemma_rows_of_numbers(vals, per_row);
        lemma_written_grid_lines(content, rows, rest);
        assert(text =~= content + seq![LF] + rows + rest);
        assert(grid_text(g, per_row) =~= content + seq![LF] + rows);
    }
}

/// The rows of literals give the literals back as tokens; no line of them
/// begins an augmentation block; and they end in a line feed.
proof fn lemma_rows_of_numbers(vals: Seq<Seq<u8>>, per_row: int)
    requires
        per_row >= 1,
        all_numbers(vals),
    ensures
        tokens(rows_text(vals, per_row)) == vals,
        find_line(rows_text(vals, per_row), 0, aug_line()) == rows_text(vals, per_row).len(),
        rows_text(vals, per_row).len() == 0 || rows_text(vals, per_row).last() == LF,
{
    assert forall|k: int| 0 <= k < vals.len() implies is_token(#[trigger] vals[k]) by {
        lemma_number_is_token(vals[k]);
    }
    lemma_rows(vals, per_row);
}

/// The lines of a written grid: the content of the dimension line is the
/// first line; the values end where the rows end, before a text that begins
/// with the marker of an augmentation block; and between them stand the rows.
proof fn lemma_written_grid_lines(content: Seq<u8>, rows: Seq<u8>, rest: Seq<u8>)
    requires
        content.len() > 0,
        content.last() != CR,
        forall|k: int| 0 <= k < content.len() ==> #[trigger] content[k] != LF,
        find_line(rows, 0, aug_line()) == rows.len(),
        rows.len() == 0 || rows.last() == LF,
        rest.len() == 0 || aug_marker().is_prefix_of(line_at(rest, 0)),
    ensures
        line_at(content + seq![LF] + rows + rest, 0) == content,
        grid_stop(content + seq![LF] + rows + rest, 0) == content.len() + 1 + rows.len(),
        grid_tokens(content + seq![LF] + rows + rest, 0) == tokens(rows),
{
    let text = content + seq![LF] + rows + rest;
    let first: int = (content.len() + 1) as int;
    let stop: int = first + rows.len();
    assert(text =~= content + seq![LF] + (rows + rest));
    lemma_first_line(content, rows + rest);
    assert(find_line(rows + rest, 0, aug_line()) == rows.len()) by {
        lemma_find_line_prefix(rows, rest, 0, aug_line());
        lemma_find_line(rest, 0, aug_line());
    }
    lemma_find_line_shift(content + seq![LF], rows + rest, 0, aug_line());
    assert(grid_stop(text, 0) == stop);
    assert(text.subrange(first, stop) =~= rows);
}

/// A dimension line that lacks an extent: where the line at the cursor
/// begins with an unsigned integer and its first three tokens do not give
/// three extents of machine size, the grid is malformed, the cursor stays
/// where it was, and the channels from there on are an error, not the end of
/// the channels.
pub proof fn lemma_short_dimension_line_is_malformed(
    s: Seq<u8>,
    i: int,
    nx: int,
    ny: int,
    nz: int,
)
    requires
        0 <= i < s.len(),
        begins_with_unsigned(line_at(s, i)),
        dims_of(line_at(s, i)) is None,
    ensures
        read_grid(s, i) == Err::<GridView, GridError>(GridError::MalformedGrid),
        after_grid(s, i) == i,
        read_channels(s, i, nx, ny, nz) is None,
{
    lemma_read_channels(s, i, nx, ny, nz);
}

/// The line behind the header: whatever the header of a written file is,
/// the line that follows it and its line feed holds the extents of the total
/// grid, each in a field of four columns behind a blank.
pub proof fn lemma_extents_line_follows_header(h: Seq<u8>, m: ChgView, kind: ChgType)
    requires
        0 <= m.total.nx <= usize::MAX,
        0 <= m.total.ny <= usize::MAX,
        0 <= m.total.nz <= usize::MAX,
    ensures
        line_at(framed(h, body_text(m, kind)), (h.len() + 1) as int) == extents_text(
            m.total.nx,
            m.total.ny,
            m.total.nz,
        ),
{
    let content = extents_text(m.total.nx, m.total.ny, m.total.nz);
    let body = body_text(m, kind);
    let head = h + seq![LF];
    let rest = body.subrange((content.len() + 1) as int, body.len() as int);
    lemma_shape_line(m.total.nx, m.total.ny, m.total.nz);
    assert(body =~= content + seq![LF] + rest);
    lemma_first_line(content, rest);
    assert(framed(h, body) =~= head + body);
    lemma_line_shift(head, body, 0);
}

/// What a grid read gives is well formed: the grid has the extents of its
/// dimension line, which are of machine size, and holds, in the order of a
/// file, the first tokens behind that line, each the literal of a number.
pub proof fn lemma_read_grid_is_well_formed(s: Seq<u8>, i: int)
    ensures
        read_grid(s, i) matches Ok(g) ==> {
            &&& g.wf()
            &&& dims_of(line_at(s, i)) == Some((g.nx as usize, g.ny as usize, g.nz as usize))
            &&& g.nx <= usize::MAX && g.ny <= usize::MAX && g.nz <= usize::MAX
            &&& g.disk_values() == grid_tokens(s, i).take(g.size())
        },
{
    match read_grid(s, i) {
        Ok(g) => {
            lemma_grid_of_disk(g.nx, g.ny, g.nz, grid_tokens(s, i));
        },
        Err(_) => {},
    }
}

/// Parsing and writing again: where a grid is read from a file and written
/// out, the text that is written reads as the same grid, with the same
/// extents and the same values, and is read to its end.
pub proof fn lemma_rewritten_grid_reads_the_same(s: Seq<u8>, i: int, per_row: int)
    requires
        per_row >= 1,
    ensures
        read_grid(s, i) matches Ok(g) ==> {
            &&& read_grid(grid_text(g, per_row), 0) == Ok::<GridView, GridError>(g)
            &&& after_grid(grid_text(g, per_row), 0) == grid_text(g, per_row).len()
        },
{
    match read_grid(s, i) {
        Ok(g) => {
            lemma_read_grid_is_well_formed(s, i);
            lemma_grid_round_trip(g, per_row);
        },
        Err(_) => {},
    }
}

/// Channels as the format with augmentation text holds them: each grid well
/// formed and of the given extents, each with a block of augmentation text.
pub open spec fn are_full_channels(chs: Seq<ChannelView>, nx: int, ny: int, nz: int) -> bool {
    forall|k: int|
        0 <= k < chs.len() ==> {
            &&& (#[trigger] chs[k]).grid.wf()
            &&& chs[k].grid.nx == nx
            &&& chs[k].grid.ny == ny
            &&& chs[k].grid.nz == nz
            &&& chs[k].aug is Some
            &&& is_aug_block(chs[k].aug->0)
        }
}

/// A channel before channels: where a grid, its block of augmentation text
/// and further channels are written one after the other, the grid is read
/// up to the marker, the block is captured up to the next dimension line,
/// and the channels behind it are read as they are read alone.
#[verifier::rlimit(30)]
proof fn lemma_channel_before_channels(
    g: GridView,
    a: Seq<u8>,
    tail: Seq<u8>,
    nx: int,
    ny: int,
    nz: int,
)
    requires
        g.wf(),
        g.nx <= usize::MAX,
        g.ny <= usize::MAX,
        g.nz <= usize::MAX,
        is_aug_block(a),
        tail.len() == 0 || is_dimension_line(line_at(tail, 0)),
    ensures
        ({
            let gt = grid_text(g, VALUES_PER_ROW as int);
            let text = gt + a + tail;
            &&& read_grid(text, 0) == Ok::<GridView, GridError>(g)
            &&& grid_stop(text, 0) == gt.len()
            &&& line_at(text, 0) == extents_text(g.nx, g.ny, g.nz)
            &&& read_aug(text, gt.len() as int) == Some(a)
            &&& aug_stop(text, gt.len() as int) == gt.len() + a.len()
            &&& read_channels(text, (gt.len() + a.len()) as int, nx, ny, nz) == read_channels(
                tail,
                0,
                nx,
                ny,
                nz,
            )
            &&& channels_end(text, (gt.len() + a.len()) as int, nx, ny, nz) == gt.len() + a.len()
                + channels_end(tail, 0, nx, ny, nz)
        }),
{
    let gt = grid_text(g, VALUES_PER_ROW as int);
    let text = gt + a + tail;
    assert(text =~= gt + (a + tail));
    lemma_line_in_prefix(a, tail, 0);
    lemma_grid_round_trip_before(g, VALUES_PER_ROW as int, a + tail);
    lemma_aug_round_trip(a, tail);
    lemma_read_aug_shift(gt, a + tail, 0);
    lemma_read_channels_shift(gt + a, tail, 0, nx, ny, nz);
}

/// Round trip of channels: channels with augmentation text, written one
/// after the other, are read back as they were, provided that the boundary
/// pattern takes their dimension line for one.
#[verifier::rlimit(30)]
pub proof fn lemma_channels_round_trip(chs: Seq<ChannelView>, nx: int, ny: int, nz: int)
    requires
        0 <= nx <= usize::MAX,
        0 <= ny <= usize::MAX,
        0 <= nz <= usize::MAX,
        are_full_channels(chs, nx, ny, nz),
        chs.len() > 0 ==> is_dimension_line(extents_text(nx, ny, nz)),
    ensures
        read_channels(channels_text(chs, ChgType::Chgcar), 0, nx, ny, nz) == Some(chs),
        channels_end(channels_text(chs, ChgType::Chgcar), 0, nx, ny, nz) == channels_text(
            chs,
            ChgType::Chgcar,
        ).len(),
        chs.len() > 0 ==> channels_text(chs, ChgType::Chgcar).len() > 0 && line_at(
            channels_text(chs, ChgType::Chgcar),
            0,
        ) == extents_text(nx, ny, nz),
        chs.len() == 0 ==> channels_text(chs, ChgType::Chgcar).len() == 0,
    decreases chs.len(),
{
    let kind = ChgType::Chgcar;
    let text = channels_text(chs, kind);
    lemma_read_channels(text, 0, nx, ny, nz);
    if chs.len() > 0 {
        let c = chs[0];
        let rest = chs.drop_first();
        let a = c.aug->0;
        let gt = grid_text(c.grid, VALUES_PER_ROW as int);
        let tail = channels_text(rest, kind);
        assert(are_full_channels(rest, nx, ny, nz)) by {
            assert forall|k: int| 0 <= k < rest.len() implies {
                &&& (#[trigger] rest[k]).grid.wf()
                &&& rest[k].grid.nx == nx
                &&& rest[k].grid.ny == ny
                &&& rest[k].grid.nz == nz
                &&& rest[k].aug is Some
                &&& is_aug_block(rest[k].aug->0)
            } by {
                assert(rest[k] == chs[k + 1]);
            }
        }
        lemma_channels_round_trip(rest, nx, ny, nz);
        lemma_channel_before_channels(c.grid, a, tail, nx, ny, nz);
        assert(text =~= gt + a + tail);
        assert(seq![c] + rest =~= chs);
    }
}

/// The header of a written file: behind a header block, the header of the
/// file ends with the line feed that follows the block, and is the block
/// with that line feed.
proof fn lemma_header_of_framed(h: Seq<u8>, body: Seq<u8>)
    requires
        is_header_block(h),
    ensures
        framed(h, body) == (h + seq![LF]) + body,
        header_end(framed(h, body), 0) == h.len() + 1,
        header_text(framed(h, body), 0) == h + seq![LF],
{
    let s = framed(h, body);
    let r = seq![LF] + body;
    assert(s =~= (h + seq![LF]) + body);
    assert(s =~= h + r);
    lemma_find_line_prefix(h, r, 0, blank_line());
    assert(line_at(r, 0) =~= Seq::<u8>::empty());
    assert(find_line(r, 0, blank_line()) == 0);
    lemma_line_shift(h, r, 0);
    assert(header_text(s, 0) =~= h + seq![LF]);
}

/// Round trip of what was written: what the writer appends for a model
/// whose total grid is well formed reads back, in the sense of `reads_back`.
pub proof fn lemma_written_file_reads_back(
    before: Seq<u8>,
    header: Seq<u8>,
    m: ChgView,
    kind: ChgType,
    written: Seq<u8>,
)
    requires
        m.total.wf(),
        m.total.nx <= usize::MAX,
        m.total.ny <= usize::MAX,
        m.total.nz <= usize::MAX,
        written == before + framed(header, body_text(m, kind)),
    ensures
        reads_back(before, header, m, kind, written),
{
    if before.len() == 0 && header_reads_again(header) && kind != ChgType::Chgcar
        && m.diff_grids.len() == 0 {
        let one = single_channel(m.total);
        assert(m.channels() =~= Seq::<ChannelView>::empty());
        assert(one.channels() =~= Seq::<ChannelView>::empty());
        assert(body_text(m, kind) == body_text(one, kind));
        assert(written =~= framed(header, body_text(one, kind)));
        lemma_single_channel_round_trip(header, m.total, kind);
    }
}

/// Round trip of a file with augmentation text: a model that holds a block
/// of augmentation text for every channel, written behind a header block
/// that the structure parser takes, reads back as the same model, provided
/// that the boundary pattern takes the dimension line of its grids for one.
#[verifier::rlimit(30)]
pub proof fn lemma_full_round_trip(h: Seq<u8>, m: ChgView)
    requires
        header_reads_again(h),
        m.wf(),
        m.total.nx <= usize::MAX,
        m.total.ny <= usize::MAX,
        m.total.nz <= usize::MAX,
        m.total_aug is Some,
        is_aug_block(m.total_aug->0),
        are_full_channels(m.channels(), m.total.nx, m.total.ny, m.total.nz),
        m.diff_grids.len() > 0 ==> is_dimension_line(
            extents_text(m.total.nx, m.total.ny, m.total.nz),
        ),
    ensures
        parse(framed(h, body_text(m, ChgType::Chgcar))) == Ok::<ChgView, ChgError>(m),
        parse_end(framed(h, body_text(m, ChgType::Chgcar))) == framed(
            h,
            body_text(m, ChgType::Chgcar),
        ).len(),
{
    let kind = ChgType::Chgcar;
    let g = m.total;
    let a = m.total_aug->0;
    let chs = m.channels();
    let gt = grid_text(g, VALUES_PER_ROW as int);
    let tail = channels_text(chs, kind);
    let body = body_text(m, kind);
    let s = framed(h, body);
    let head = h + seq![LF];
    let at_grid = head.len() as int;
    let at_aug = at_grid + gt.len();
    let at_rest = at_aug + a.len();
    assert(body =~= gt + a + tail);
    lemma_header_of_framed(h, body);
    lemma_channels_round_trip(chs, g.nx, g.ny, g.nz);
    lemma_channel_before_channels(g, a, tail, g.nx, g.ny, g.nz);
    assert(read_grid(s, at_grid) == Ok::<GridView, GridError>(g) && grid_stop(s, at_grid)
        == at_aug) by {
        lemma_read_grid_shift(head, body, 0);
    }
    assert(read_aug(s, at_aug) == Some(a) && aug_stop(s, at_aug) == at_rest) by {
        lemma_read_aug_shift(head, body, gt.len() as int);
    }
    assert(read_channels(s, at_rest, g.nx, g.ny, g.nz) == Some(chs) && channels_end(
        s,
        at_rest,
        g.nx,
        g.ny,
        g.nz,
    ) == s.len()) by {
        lemma_read_channels_shift(head, body, (gt.len() + a.len()) as int, g.nx, g.ny, g.nz);
    }
    let parsed = parse(s)->Ok_0;
    assert(parsed.diff_grids =~= m.diff_grids);
    assert(parsed.diff_augs =~= m.diff_augs);
}

/// Round trip of a file: a model of one channel without augmentation text,
/// written in a format that carries none behind a header block that the
/// structure parser takes, reads back as the same model, and the read ends at
/// the end of the file.
pub proof fn lemma_single_channel_round_trip(h: Seq<u8>, g: GridView, kind: ChgType)
    requires
        header_reads_again(h),
        g.wf(),
        g.nx <= usize::MAX,
        g.ny <= usize::MAX,
        g.nz <= usize::MAX,
        kind != ChgType::Chgcar,
    ensures
        parse(framed(h, body_text(single_channel(g), kind))) == Ok::<
            ChgView,
            ChgError,
        >(single_channel(g)),
        parse_end(
            framed(h, body_text(single_channel(g), kind)),
        ) == framed(h, body_text(single_channel(g), kind)).len(),
{
    let m = single_channel(g);
    let per_row = VALUES_PER_ROW as int;
    let body = grid_text(g, per_row);
    let s = framed(h, body_text(m, kind));
    let head = h + seq![LF];
    assert(m.channels() =~= Seq::<ChannelView>::empty());
    assert(body_text(m, kind) =~= body);
    lemma_header_of_framed(h, body);
    // the grid behind the header reads as the grid that was written
    lemma_grid_round_trip(g, per_row);
    lemma_read_grid_shift(head, body, 0);
    let end = s.len() as int;
    assert(grid_stop(s, head.len() as int) == end);
    // and nothing follows
    assert(aug_stop(s, end) == end);
    lemma_read_channels(s, end, g.nx, g.ny, g.nz);
    let parsed = parse(s)->Ok_0;
    assert(parsed.diff_grids =~= m.diff_grids);
    assert(parsed.diff_augs =~= m.diff_augs);
}

/// Cursor after a header: the read of a structure header leaves the cursor
/// at the start of a line or at the end of the stream.
pub proof fn lemma_cursor_after_header(s: Seq<u8>, i: int)
    requires
        is_line_start(s, i),
    ensures
        i <= header_end(s, i) <= s.len(),
        header_end(s, i) == s.len() || is_line_start(s, header_end(s, i)),
{
    lemma_find_line(s, i, blank_line());
    let p = find_line(s, i, blank_line());
    lemma_next_line(s, p);
}

/// Cursor after a channel: a grid read from the start of a line, and the
/// augmentation read behind it, whether it finds text or not, leave the
/// cursor at the end of the stream or at the start of a dimension line, never
/// inside a line.
pub proof fn lemma_cursor_after_channel(s: Seq<u8>, i: int)
    requires
        is_line_start(s, i),
    ensures
        i <= after_grid(s, i) <= aug_stop(s, after_grid(s, i)) <= s.len(),
        after_grid(s, i) == s.len() || is_line_start(s, after_grid(s, i)),
        aug_stop(s, after_grid(s, i)) == s.len() || (is_line_start(
            s,
            aug_stop(s, after_grid(s, i)),
        ) && is_dimension_line(line_at(s, aug_stop(s, after_grid(s, i))))),
{
    lemma_next_line(s, i);
    lemma_find_line(s, next_line(s, i), aug_line());
    let j = after_grid(s, i);
    lemma_find_line(s, j, dimension_line());
}

/// Cursor after the channels: the reads of the difference channels, begun at
/// the start of a line, leave the cursor at the end of the stream or at the
/// start of a line.
pub proof fn lemma_cursor_after_channels(s: Seq<u8>, i: int, nx: int, ny: int, nz: int)
    requires
        is_line_start(s, i),
    ensures
        i <= channels_end(s, i, nx, ny, nz) <= s.len(),
        channels_end(s, i, nx, ny, nz) == s.len() || is_line_start(
            s,
            channels_end(s, i, nx, ny, nz),
        ),
    decreases s.len() - i,
{
    lemma_read_channels(s, i, nx, ny, nz);
    lemma_cursor_after_channel(s, i);
    match read_grid(s, i) {
        Ok(g) => {
            lemma_channel_advances(s, i);
            if g.nx == nx && g.ny == ny && g.nz == nz {
                let k = aug_stop(s, grid_stop(s, i));
                if k < s.len() {
                    lemma_cursor_after_channels(s, k, nx, ny, nz);
                } else {
                    lemma_read_channels(s, k, nx, ny, nz);
                }
            } else {
                reveal(channels_end);
            }
        },
        Err(_) => {
            reveal(channels_end);
        },
    }
}

/// Cursor after a file: a read of a whole file that gives a model leaves
/// the cursor at the end of the stream or at the start of a line.
pub proof fn lemma_cursor_after_parse(s: Seq<u8>)
    ensures
        parse(s) is Ok ==> 0 <= parse_end(s) <= s.len() && (parse_end(s) == s.len()
            || is_line_start(s, parse_end(s))),
{
    if parse(s) is Ok {
        let h = header_end(s, 0);
        lemma_cursor_after_header(s, 0);
        if h < s.len() {
            lemma_cursor_after_channel(s, h);
            let g = read_grid(s, h)->Ok_0;
            let k = aug_stop(s, grid_stop(s, h));
            if k < s.len() {
                lemma_cursor_after_channels(s, k, g.nx, g.ny, g.nz);
            } else {
                lemma_read_channels(s, k, g.nx, g.ny, g.nz);
            }
        }
    }
}

/// Shape of the channels: every grid among the difference channels that a
/// read gives has the extents that were asked for.
pub proof fn lemma_channels_share_shape(s: Seq<u8>, i: int, nx: int, ny: int, nz: int)
    ensures
        read_channels(s, i, nx, ny, nz) matches Some(chs) ==> forall|k: int|
            0 <= k < chs.len() ==> (#[trigger] chs[k]).grid.nx == nx && chs[k].grid.ny == ny
                && chs[k].grid.nz == nz,
    decreases s.len() - i,
{
    lemma_read_channels(s, i, nx, ny, nz);
    match read_grid(s, i) {
        Ok(g) => {
            if g.nx == nx && g.ny == ny && g.nz == nz {
                lemma_channel_advances(s, i);
                let k = aug_stop(s, grid_stop(s, i));
                lemma_channels_share_shape(s, k, nx, ny, nz);
            }
        },
        Err(_) => {},
    }
}

/// Shape of a parsed model: in every model that comes out of a read, each
/// difference grid has the extents of the total grid, and these are the
/// extents on record.
pub proof fn lemma_parsed_shapes_agree(s: Seq<u8>)
    ensures
        parse(s) matches Ok(m) ==> {
            &&& m.ngrid == (m.total.nx, m.total.ny, m.total.nz)
            &&& m.diff_augs.len() == m.diff_grids.len()
            &&& forall|k: int|
                0 <= k < m.diff_grids.len() ==> (#[trigger] m.diff_grids[k]).nx == m.total.nx
                    && m.diff_grids[k].ny == m.total.ny && m.diff_grids[k].nz == m.total.nz
        },
{
    let h = header_end(s, 0);
    match read_grid(s, h) {
        Ok(g) => {
            lemma_channels_share_shape(s, aug_stop(s, grid_stop(s, h)), g.nx, g.ny, g.nz);
        },
        Err(_) => {},
    }
}

/// Augmentation text as held: in the format that carries augmentation text,
/// what is written for a channel is its grid and then, byte for byte, the
/// text that the channel holds; in the other formats it is the grid alone.
pub proof fn lemma_augmentation_is_written_as_held(ch: ChannelView, kind: ChgType)
    ensures
        kind == ChgType::Chgcar && ch.aug is Some ==> channel_text(ch, kind) == grid_text(
            ch.grid,
            VALUES_PER_ROW as int,
        ) + ch.aug->0,
        kind != ChgType::Chgcar || ch.aug is None ==> channel_text(ch, kind) == grid_text(
            ch.grid,
            VALUES_PER_ROW as int,
        ),
{
    let grid = grid_text(ch.grid, VALUES_PER_ROW as int);
    assert(grid + Seq::<u8>::empty() =~= grid);
}

/// No carriage return of `s` between `i` and `e` stands before a line feed.
pub open spec fn plain_line_endings(s: Seq<u8>, i: int, e: int) -> bool {
    forall|k: int| i <= k < e && k + 1 < s.len() && #[trigger] s[k] == CR ==> s[k + 1] != LF
}

/// Captured text: where the lines of an augmentation block end in a bare
/// line feed, the last one too, the text that the reader captures is the
/// block as it stands in the stream, byte for byte.
pub proof fn lemma_captured_text_is_verbatim(s: Seq<u8>, i: int)
    requires
        0 <= i <= s.len(),
        plain_line_endings(s, i, aug_stop(s, i)),
        aug_stop(s, i) == i || s[aug_stop(s, i) - 1] == LF,
    ensures
        joined_lines(s, i, aug_stop(s, i)) == s.subrange(i, aug_stop(s, i)),
    decreases s.len() - i,
{
    let e = aug_stop(s, i);
    lemma_find_line(s, i, dimension_line());
    if i < e {
        lemma_next_line(s, i);
        lemma_line_break(s, i);
        let b = line_break(s, i);
        let n = next_line(s, i);
        lemma_find_line(s, n, dimension_line());
        if b == s.len() {
            assert(e == s.len());
            assert(s[e - 1] != LF);
        }
        assert(line_end(s, i) == b) by {
            if i < b && s[b - 1] == CR {
                assert(s[b - 1 + 1] == LF);
            }
        }
        if n < e {
            assert(s[e - 1] == LF);
        }
        assert(aug_stop(s, n) == e);
        assert(n == e || s[aug_stop(s, n) - 1] == LF);
        lemma_captured_text_is_verbatim(s, n);
        assert(line_at(s, i) + seq![LF] =~= s.subrange(i, n));
        assert(s.subrange(i, n) + s.subrange(n, e) =~= s.subrange(i, e));
    } else {
        assert(s.subrange(i, e) =~= Seq::<u8>::empty());
    }
}

/// A block of augmentation text as the reader captures it: lines that end in
/// a bare line feed, the first of which begins with the marker, and none of
/// which is a dimension line.
pub open spec fn is_aug_block(a: Seq<u8>) -> bool {
    &&& a.len() > 0
    &&& a.last() == LF
    &&& aug_marker().is_prefix_of(line_at(a, 0))
    &&& find_line(a, 0, dimension_line()) == a.len()
    &&& plain_line_endings(a, 0, a.len() as int)
}

/// Round trip of augmentation text: a block that is written, before a
/// dimension line or at the end of a file, is captured again as it was,
/// byte for byte, and the capture stops behind it.
pub proof fn lemma_aug_round_trip(a: Seq<u8>, rest: Seq<u8>)
    requires
        is_aug_block(a),
        rest.len() == 0 || is_dimension_line(line_at(rest, 0)),
    ensures
        aug_stop(a + rest, 0) == a.len(),
        read_aug(a + rest, 0) == Some(a),
{
    let s = a + rest;
    lemma_find_line_prefix(a, rest, 0, dimension_line());
    lemma_find_line(rest, 0, dimension_line());
    assert(aug_stop(s, 0) == a.len());
    assert(s[a.len() - 1] == a.last());
    assert forall|k: int|
        0 <= k < a.len() && k + 1 < s.len() && #[trigger] s[k] == CR implies s[k + 1] != LF by {
        assert(s[k] == a[k]);
        if k + 1 < a.len() {
            assert(s[k + 1] == a[k + 1]);
        }
    }
    lemma_captured_text_is_verbatim(s, 0);
    assert(s.subrange(0, a.len() as int) =~= a);
}

/// Behind a prefix, lines are joined as they are in the rest alone.
pub proof fn lemma_joined_lines_shift(a: Seq<u8>, b: Seq<u8>, k: int, e: int)
    requires
        0 <= k <= b.len(),
    ensures
        joined_lines(a + b, a.len() + k, a.len() + e) == joined_lines(b, k, e),
    decreases b.len() - k,
{
    if k < e <= b.len() {
        lemma_line_shift(a, b, k);
        lemma_next_line(b, k);
        lemma_joined_lines_shift(a, b, next_line(b, k), e);
    }
}

/// Behind a prefix, augmentation text is read as it is from the rest alone.
pub proof fn lemma_read_aug_shift(a: Seq<u8>, b: Seq<u8>, k: int)
    requires
        0 <= k <= b.len(),
    ensures
        aug_stop(a + b, a.len() + k) == a.len() + aug_stop(b, k),
        read_aug(a + b, a.len() + k) == read_aug(b, k),
{
    lemma_find_line_shift(a, b, k, dimension_line());
    lemma_joined_lines_shift(a, b, k, aug_stop(b, k));
}

/// Behind a prefix, the channels are read as they are from the rest alone.
pub proof fn lemma_read_channels_shift(a: Seq<u8>, b: Seq<u8>, k: int, nx: int, ny: int, nz: int)
    requires
        0 <= k <= b.len(),
    ensures
        read_channels(a + b, a.len() + k, nx, ny, nz) == read_channels(b, k, nx, ny, nz),
        channels_end(a + b, a.len() + k, nx, ny, nz) == a.len() + channels_end(b, k, nx, ny, nz),
    decreases b.len() - k,
{
    let s = a + b;
    lemma_read_grid_shift(a, b, k);
    lemma_read_channels(s, a.len() + k, nx, ny, nz);
    lemma_read_channels(b, k, nx, ny, nz);
    match read_grid(b, k) {
        Ok(g) => {
            lemma_channel_advances(b, k);
            let j = grid_stop(b, k);
            lemma_read_aug_shift(a, b, j);
            if g.nx == nx && g.ny == ny && g.nz == nz {
                lemma_read_channels_shift(a, b, aug_stop(b, j), nx, ny, nz);
            } else {
                reveal(channels_end);
            }
        },
        Err(_) => {
            reveal(channels_end);
        },
    }
}

/// A field is whitespace and then its content: set before whitespace or
/// before nothing, it gives its content as the first token. It holds no line
/// feed, begins with a blank, and ends as its content does.
proof fn lemma_field(width: int, v: Seq<u8>, r: Seq<u8>)
    requires
        is_token(v),
        r.len() == 0 || is_space(r[0]),
    ensures
        tokens(seq![SPACE] + right_justified(v, width) + r) == seq![v] + tokens(r),
        (seq![SPACE] + right_justified(v, width))[0] == SPACE,
        (seq![SPACE] + right_justified(v, width)).last() == v.last(),
        forall|k: int|
            0 <= k < (seq![SPACE] + right_justified(v, width)).len() ==> (#[trigger] (seq![SPACE]
                + right_justified(v, width))[k]) != LF,
{
    let ws = seq![SPACE] + blanks(width - v.len());
    let f = seq![SPACE] + right_justified(v, width);
    assert(f =~= ws + v);
    assert(is_blank(ws));
    assert(f + r =~= ws + (v + r));
    lemma_tokens_after_blank(ws, v + r);
    lemma_tokens_after_token(v, r);
    assert forall|k: int| 0 <= k < f.len() implies (#[trigger] f[k]) != LF by {
        if k >= ws.len() {
            assert(f[k] == v[k - ws.len()]);
        }
    }
}

/// The fields of a row, set before whitespace or before nothing, give their
/// values as tokens, in order. A row holds no line feed, begins with a
/// blank, and does not end in whitespace.
proof fn lemma_row(vs: Seq<Seq<u8>>, r: Seq<u8>)
    requires
        forall|k: int| 0 <= k < vs.len() ==> is_token(#[trigger] vs[k]),
        r.len() == 0 || is_space(r[0]),
    ensures
        tokens(row_text(vs) + r) == vs + tokens(r),
        forall|k: int| 0 <= k < row_text(vs).len() ==> (#[trigger] row_text(vs)[k]) != LF,
        vs.len() > 0 ==> row_text(vs).len() > 0 && row_text(vs)[0] == SPACE && !is_space(
            row_text(vs).last(),
        ),
    decreases vs.len(),
{
    if vs.len() == 0 {
        assert(row_text(vs) + r =~= r);
        assert(vs + tokens(r) =~= tokens(r));
    } else {
        let v = vs[0];
        let rest = vs.drop_first();
        let f = value_field(v);
        let tail = row_text(rest) + r;
        lemma_row(rest, r);
        lemma_field(VALUE_WIDTH as int, v, tail);
        assert(row_text(vs) + r =~= f + tail);
        assert(vs + tokens(r) =~= seq![v] + (rest + tokens(r)));
        assert forall|k: int| 0 <= k < row_text(vs).len() implies (#[trigger] row_text(vs)[k])
            != LF by {
            if k >= f.len() {
                assert(row_text(vs)[k] == row_text(rest)[k - f.len()]);
            } else {
                assert(row_text(vs)[k] == f[k]);
            }
        }
        assert(row_text(vs)[0] == f[0]);
        if rest.len() == 0 {
            assert(row_text(vs) =~= f);
        } else {
            assert(row_text(vs).last() == row_text(rest).last());
        }
    }
}

/// The rows of a grid give its values back as tokens, and no line of them
/// begins an augmentation block.
proof fn lemma_rows(vals: Seq<Seq<u8>>, per_row: int)
    requires
        per_row >= 1,
        forall|k: int| 0 <= k < vals.len() ==> is_token(#[trigger] vals[k]),
    ensures
        tokens(rows_text(vals, per_row)) == vals,
        find_line(rows_text(vals, per_row), 0, aug_line()) == rows_text(vals, per_row).len(),
        rows_text(vals, per_row).len() == 0 || rows_text(vals, per_row).last() == LF,
    decreases vals.len(),
{
    let text = rows_text(vals, per_row);
    if vals.len() == 0 {
        assert(tokens(text) =~= vals);
    } else {
        let k = row_len(vals.len() as int, per_row);
        let row = row_text(vals.take(k));
        let rest = rows_text(vals.skip(k), per_row);
        lemma_rows(vals.skip(k), per_row);
        lemma_row(vals.take(k), seq![LF] + rest);
        assert(text =~= row + (seq![LF] + rest));
        assert(is_blank(seq![LF]));
        lemma_tokens_after_blank(seq![LF], rest);
        assert(vals.take(k) + vals.skip(k) =~= vals);
        lemma_first_line(row, rest);
        assert(row.last() != CR);
        assert(!aug_marker().is_prefix_of(row)) by {
            if aug_marker().is_prefix_of(row) {
                assert(row.subrange(0, 3)[0] == aug_marker()[0]);
            }
        }
        assert(text =~= row + seq![LF] + rest);
        lemma_find_line_shift(row + seq![LF], rest, 0, aug_line());
        if rest.len() > 0 {
            assert(text.last() == rest.last());
        }
    }
}

/// A dimension line gives its extents back: its content, before the line
/// feed, holds the three numbers as its tokens, holds no line feed, and ends
/// in a digit.
proof fn lemma_shape_line(nx: int, ny: int, nz: int)
    requires
        0 <= nx <= usize::MAX,
        0 <= ny <= usize::MAX,
        0 <= nz <= usize::MAX,
    ensures
        dims_of(extent_field(nx) + extent_field(ny) + extent_field(nz)) == Some(
            (nx as usize, ny as usize, nz as usize),
        ),
        forall|k: int|
            0 <= k < (extent_field(nx) + extent_field(ny) + extent_field(nz)).len() ==> (
            #[trigger] (extent_field(nx) + extent_field(ny) + extent_field(nz))[k]) != LF,
        (extent_field(nx) + extent_field(ny) + extent_field(nz)).len() > 0,
        (extent_field(nx) + extent_field(ny) + extent_field(nz)).last() != CR,
{
    let w = EXTENT_WIDTH as int;
    let dx = decimal(nx as nat);
    let dy = decimal(ny as nat);
    let dz = decimal(nz as nat);
    let fx = extent_field(nx);
    let fy = extent_field(ny);
    let fz = extent_field(nz);
    let content = fx + fy + fz;
    lemma_decimal_parses(nx as nat);
    lemma_decimal_parses(ny as nat);
    lemma_decimal_parses(nz as nat);
    lemma_field(w, dz, Seq::<u8>::empty());
    assert(fz + Seq::<u8>::empty() =~= fz);
    lemma_field(w, dy, fz);
    lemma_field(w, dx, fy + fz);
    assert(content =~= fx + (fy + fz));
    assert(tokens(Seq::<u8>::empty()) =~= Seq::<Seq<u8>>::empty());
    let t = tokens(content);
    assert(t =~= seq![dx, dy, dz]);
    assert(t[0] == dx && t[1] == dy && t[2] == dz);
    assert(unsigned_of(dx) == Some(nx as usize));
    assert(unsigned_of(dy) == Some(ny as usize));
    assert(unsigned_of(dz) == Some(nz as usize));
    assert forall|k: int| 0 <= k < content.len() implies (#[trigger] content[k]) != LF by {
        if k < fx.len() {
            assert(content[k] == fx[k]);
        } else if k < fx.len() + fy.len() {
            assert(content[k] == fy[k - fx.len()]);
        } else {
            assert(content[k] == fz[k - fx.len() - fy.len()]);
        }
    }
    assert(content.last() == fz.last());
}

/// Behind a prefix, a grid is read as it is from the rest alone.
pub proof fn lemma_read_grid_shift(a: Seq<u8>, b: Seq<u8>, k: int)
    requires
        0 <= k <= b.len(),
    ensures
        read_grid(a + b, a.len() + k) == read_grid(b, k),
        grid_stop(a + b, a.len() + k) == a.len() + grid_stop(b, k),
        after_grid(a + b, a.len() + k) == a.len() + after_grid(b, k),
{
    let s = a + b;
    lemma_line_shift(a, b, k);
    lemma_next_line(b, k);
    let q = next_line(b, k);
    lemma_find_line_shift(a, b, q, aug_line());
    lemma_find_line(b, q, aug_line());
    let e = grid_stop(b, k);
    assert(s.subrange(a.len() + q, a.len() + e) =~= b.subrange(q, e));
}

} // verus!
