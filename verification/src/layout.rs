//! The written form of a grid: a dimension line, and the values in rows of
//! fields of a fixed width.

use crate::grid::{texts, Grid, GridView};
use crate::number::Literal;
use crate::text::{decimal, push_decimal, push_right_justified, right_justified, LF, SPACE};
use vstd::prelude::*;

verus! {

/// How wide the field of a value is, the blank before it not counted.
pub const VALUE_WIDTH: usize = 17;

/// How wide the field of an extent is, the blank before it not counted.
pub const EXTENT_WIDTH: usize = 4;

/// How many values stand in a row of a written grid.
pub const VALUES_PER_ROW: usize = 5;

/// The field of one value: a blank, and the literal set to the right of
/// seventeen columns.
pub open spec fn value_field(v: Seq<u8>) -> Seq<u8> {
    seq![SPACE] + right_justified(v, VALUE_WIDTH as int)
}

/// The field of one extent: a blank, and the number set to the right of four
/// columns.
pub open spec fn extent_field(n: int) -> Seq<u8> {
    seq![SPACE] + right_justified(decimal(n as nat), EXTENT_WIDTH as int)
}

/// The content of the dimension line of a grid: the fields of the extents
/// along `x`, `y` and `z`.
pub open spec fn extents_text(nx: int, ny: int, nz: int) -> Seq<u8> {
    extent_field(nx) + extent_field(ny) + extent_field(nz)
}

/// The dimension line of a grid: the extents, and a line feed.
pub open spec fn shape_line(nx: int, ny: int, nz: int) -> Seq<u8> {
    extents_text(nx, ny, nz) + seq![LF]
}

/// The fields of `vals`, one after the other.
pub open spec fn row_text(vals: Seq<Seq<u8>>) -> Seq<u8>
    decreases vals.len(),
{
    if vals.len() == 0 {
        Seq::empty()
    } else {
        value_field(vals[0]) + row_text(vals.drop_first())
    }
}

/// How many values the first row of `n` values holds, with rows of
/// `per_row`.
pub open spec fn row_len(n: int, per_row: int) -> int {
    if per_row < n {
        per_row
    } else {
        n
    }
}

/// The rows of `vals`: `per_row` fields and a line feed each, the last row
/// with what is left.
pub open spec fn rows_text(vals: Seq<Seq<u8>>, per_row: int) -> Seq<u8>
    decreases vals.len(),
{
    if vals.len() == 0 || per_row <= 0 {
        Seq::empty()
    } else {
        let k = row_len(vals.len() as int, per_row);
        row_text(vals.take(k)) + seq![LF] + rows_text(vals.skip(k), per_row)
    }
}

/// The written form of a grid: its dimension line, then its values in the
/// order of a file, in rows.
pub open spec fn grid_text(g: GridView, per_row: int) -> Seq<u8> {
    shape_line(g.nx, g.ny, g.nz) + rows_text(g.disk_values(), per_row)
}

/// Appends the field of the extent `n` to `out`.
fn push_extent(out: &mut Vec<u8>, n: usize)
    ensures
        final(out)@ == old(out)@ + extent_field(n as int),
{
    let mut digits: Vec<u8> = Vec::new();
    push_decimal(&mut digits, n);
    assert(digits@ =~= decimal(n as nat));
    out.push(SPACE);
    push_right_justified(out, digits.as_slice(), EXTENT_WIDTH);
    assert(out@ =~= old(out)@ + extent_field(n as int));
}

/// Appends the content of a dimension line to `out`: the fields of the three
/// extents, without the line feed.
pub fn push_extents(out: &mut Vec<u8>, nx: usize, ny: usize, nz: usize)
    ensures
        final(out)@ == old(out)@ + extents_text(nx as int, ny as int, nz as int),
{
    push_extent(out, nx);
    push_extent(out, ny);
    push_extent(out, nz);
    assert(out@ =~= old(out)@ + extents_text(nx as int, ny as int, nz as int));
}

/// Appends the rows of `vals` to `out`.
pub fn push_rows(out: &mut Vec<u8>, vals: &Vec<Literal>, per_row: usize)
    requires
        per_row > 0,
    ensures
        final(out)@ == old(out)@ + rows_text(texts(vals@), per_row as int),
{
    let ghost all = texts(vals@);
    let n = vals.len();
    let mut i: usize = 0;
    assert(all.skip(0) =~= all);
    while i < n
        invariant
            per_row > 0,
            n == vals@.len(),
            all == texts(vals@),
            i <= n,
            out@ + rows_text(all.skip(i as int), per_row as int) == old(out)@ + rows_text(
                all,
                per_row as int,
            ),
        decreases n - i,
    {
        let k: usize = if per_row < n - i {
            per_row
        } else {
            n - i
        };
        let ghost rest = all.skip(i as int);
        let ghost chunk = rest.take(k as int);
        let ghost row_start = out@;
        let mut j: usize = 0;
        assert(chunk.skip(0) =~= chunk);
        while j < k
            invariant
                n == vals@.len(),
                all == texts(vals@),
                i + k <= n,
                j <= k,
                chunk == all.skip(i as int).take(k as int),
                out@ + row_text(chunk.skip(j as int)) == row_start + row_text(chunk),
            decreases k - j,
        {
            let ghost before = out@;
            let v = vals[i + j].as_bytes();
            out.push(SPACE);
            push_right_justified(out, v, VALUE_WIDTH);
            proof {
                let tail = chunk.skip(j as int);
                assert(tail[0] == v@);
                assert(tail.drop_first() =~= chunk.skip(j + 1));
                assert(out@ =~= before + value_field(v@));
                assert(out@ + row_text(chunk.skip(j + 1)) =~= before + row_text(tail));
            }
            j += 1;
        }
        out.push(LF);
        proof {
            assert(chunk.skip(k as int) =~= Seq::<Seq<u8>>::empty());
            assert(out@ =~= row_start + (row_text(chunk) + seq![LF]));
            assert(rest.skip(k as int) =~= all.skip(i + k));
            assert(out@ + rows_text(all.skip(i + k), per_row as int) =~= row_start + rows_text(
                rest,
                per_row as int,
            ));
        }
        i += k;
    }
    assert(all.skip(n as int) =~= Seq::<Seq<u8>>::empty());
}

/// Appends the written form of `grid` to `out`, in rows of `num_per_row`
/// values.
pub fn push_grid(out: &mut Vec<u8>, grid: &Grid, num_per_row: usize)
    requires
        num_per_row > 0,
    ensures
        final(out)@ == old(out)@ + grid_text(grid@, num_per_row as int),
{
    let shape = grid.shape();
    push_extents(out, shape[0], shape[1], shape[2]);
    out.push(LF);
    assert(out@ =~= old(out)@ + shape_line(grid@.nx, grid@.ny, grid@.nz));
    let vals = grid.to_disk_order();
    push_rows(out, &vals, num_per_row);
    assert(out@ =~= old(out)@ + grid_text(grid@, num_per_row as int));
}

} // verus!
