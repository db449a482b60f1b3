//! The grid: a block of values with three axes.
//!
//! In memory a grid is addressed by `(x, y, z)`. In a file its values stand in
//! one run with `x` changing fastest and `z` slowest. This module holds the
//! type and the two changes of order.

use crate::number::{is_number, Literal};
use vstd::arithmetic::div_mod::{lemma_fundamental_div_mod, lemma_fundamental_div_mod_converse};
use vstd::prelude::*;

verus! {

/// The place of the value at `(x, y, z)` in the run of values of a file.
pub open spec fn disk_index(nx: int, ny: int, x: int, y: int, z: int) -> int {
    (z * ny + y) * nx + x
}

/// The place of the value at `(x, y, z)` in memory.
pub open spec fn memory_index(ny: int, nz: int, x: int, y: int, z: int) -> int {
    (x * ny + y) * nz + z
}

/// What a grid is: its extents along the three axes, and its values by
/// `[x][y][z]`, each as the bytes of a literal.
pub struct GridView {
    pub nx: int,
    pub ny: int,
    pub nz: int,
    pub cells: Seq<Seq<Seq<Seq<u8>>>>,
}

impl GridView {
    /// The extents are not negative, `cells` has them, and every value is a
    /// literal.
    pub open spec fn wf(self) -> bool {
        &&& 0 <= self.nx
        &&& 0 <= self.ny
        &&& 0 <= self.nz
        &&& self.cells.len() == self.nx
        &&& forall|x: int| 0 <= x < self.nx ==> (#[trigger] self.cells[x]).len() == self.ny
        &&& forall|x: int, y: int|
            0 <= x < self.nx && 0 <= y < self.ny ==> (#[trigger] self.cells[x][y]).len() == self.nz
        &&& forall|x: int, y: int, z: int|
            0 <= x < self.nx && 0 <= y < self.ny && 0 <= z < self.nz ==> is_number(
                #[trigger] self.cells[x][y][z],
            )
    }

    /// How many values the grid holds.
    pub open spec fn size(self) -> int {
        self.nx * self.ny * self.nz
    }

    /// The value at `(x, y, z)`.
    pub open spec fn at(self, x: int, y: int, z: int) -> Seq<u8> {
        self.cells[x][y][z]
    }

    /// The values in the order of a file: `x` fastest, `z` slowest.
    pub open spec fn disk_values(self) -> Seq<Seq<u8>> {
        Seq::new(
            self.size() as nat,
            |i: int| self.at(i % self.nx, (i / self.nx) % self.ny, (i / self.nx) / self.ny),
        )
    }
}

/// The grid of the given extents whose values, in the order of a file, are
/// the first of `values`.
pub open spec fn grid_of_disk(nx: int, ny: int, nz: int, values: Seq<Seq<u8>>) -> GridView {
    GridView {
        nx,
        ny,
        nz,
        cells: Seq::new(
            nx as nat,
            |x: int|
                Seq::new(
                    ny as nat,
                    |y: int| Seq::new(nz as nat, |z: int| values[disk_index(nx, ny, x, y, z)]),
                ),
        ),
    }
}

/// The byte strings of a run of literals.
pub open spec fn texts(s: Seq<Literal>) -> Seq<Seq<u8>> {
    Seq::new(s.len(), |i: int| s[i]@)
}

/// An index made of three coordinates lies in the block, and gives the
/// coordinates back by division: `(a * nb + b) * nc + c`, with `b` and `c`
/// within `nb` and `nc`.
pub proof fn lemma_index3(a: int, b: int, c: int, na: int, nb: int, nc: int)
    requires
        0 <= a < na,
        0 <= b < nb,
        0 <= c < nc,
    ensures
        0 <= a * nb + b < na * nb,
        0 <= (a * nb + b) * nc + c < na * nb * nc,
        ((a * nb + b) * nc + c) % nc == c,
        ((a * nb + b) * nc + c) / nc == a * nb + b,
        (a * nb + b) % nb == b,
        (a * nb + b) / nb == a,
{
    let row = a * nb + b;
    assert(0 <= row < na * nb) by (nonlinear_arith)
        requires
            0 <= a < na,
            0 <= b < nb,
            row == a * nb + b,
    ;
    assert(0 <= row * nc + c < (na * nb) * nc) by (nonlinear_arith)
        requires
            0 <= row < na * nb,
            0 <= c < nc,
    ;
    lemma_fundamental_div_mod_converse(row * nc + c, nc, row, c);
    lemma_fundamental_div_mod_converse(row, nb, a, b);
}

/// Reading a grid's values in the order of a file, and laying them out again
/// by that order, gives the grid back.
pub proof fn lemma_disk_order_round_trip(g: GridView)
    requires
        g.wf(),
    ensures
        grid_of_disk(g.nx, g.ny, g.nz, g.disk_values()) == g,
        g.disk_values().len() == g.size(),
        forall|i: int| 0 <= i < g.size() ==> is_number(#[trigger] g.disk_values()[i]),
{
    let h = grid_of_disk(g.nx, g.ny, g.nz, g.disk_values());
    assert(0 <= g.size()) by (nonlinear_arith)
        requires
            0 <= g.nx,
            0 <= g.ny,
            0 <= g.nz,
            g.size() == g.nx * g.ny * g.nz,
    ;
    assert forall|x: int, y: int, z: int|
        0 <= x < g.nx && 0 <= y < g.ny && 0 <= z < g.nz implies #[trigger] h.cells[x][y][z]
        == g.cells[x][y][z] by {
        lemma_index3(z, y, x, g.nz, g.ny, g.nx);
        assert(g.nz * g.ny * g.nx == g.size()) by (nonlinear_arith)
            requires
                g.size() == g.nx * g.ny * g.nz,
        ;
    }
    assert(h.cells =~~= g.cells);
    assert forall|i: int| 0 <= i < g.size() implies is_number(#[trigger] g.disk_values()[i]) by {
        lemma_disk_coordinates(g.nx, g.ny, g.nz, i);
    }
}

/// Laying out a run of literals as a grid gives a well-formed grid, and
/// reading that grid in the order of a file gives the first of the run back.
pub proof fn lemma_grid_of_disk(nx: int, ny: int, nz: int, values: Seq<Seq<u8>>)
    requires
        0 <= nx,
        0 <= ny,
        0 <= nz,
        nx * ny * nz <= values.len(),
        forall|i: int| 0 <= i < nx * ny * nz ==> is_number(#[trigger] values[i]),
    ensures
        grid_of_disk(nx, ny, nz, values).wf(),
        grid_of_disk(nx, ny, nz, values).disk_values() == values.take(nx * ny * nz),
{
    let g = grid_of_disk(nx, ny, nz, values);
    let n = nx * ny * nz;
    assert(0 <= n) by (nonlinear_arith)
        requires
            0 <= nx,
            0 <= ny,
            0 <= nz,
            n == nx * ny * nz,
    ;
    assert forall|x: int, y: int, z: int|
        0 <= x < nx && 0 <= y < ny && 0 <= z < nz implies is_number(
        #[trigger] g.cells[x][y][z],
    ) by {
        lemma_index3(z, y, x, nz, ny, nx);
        assert(nz * ny * nx == n) by (nonlinear_arith)
            requires
                n == nx * ny * nz,
        ;
    }
    assert forall|i: int| 0 <= i < n implies #[trigger] g.disk_values()[i] == values[i] by {
        lemma_disk_coordinates(nx, ny, nz, i);
        lemma_fundamental_div_mod(i, nx);
        lemma_fundamental_div_mod(i / nx, ny);
        let x = i % nx;
        let y = (i / nx) % ny;
        let z = (i / nx) / ny;
        assert(disk_index(nx, ny, x, y, z) == i) by (nonlinear_arith)
            requires
                i == nx * (i / nx) + x,
                i / nx == ny * z + y,
        ;
    }
    assert(g.disk_values() =~= values.take(n));
}

/// The coordinates that division gives for a place in the run of a file lie
/// within the extents.
pub proof fn lemma_disk_coordinates(nx: int, ny: int, nz: int, i: int)
    requires
        0 <= nx,
        0 <= ny,
        0 <= nz,
        0 <= i < nx * ny * nz,
    ensures
        0 <= i % nx < nx,
        0 <= (i / nx) % ny < ny,
        0 <= (i / nx) / ny < nz,
{
    assert(nx > 0 && ny > 0 && nz > 0) by (nonlinear_arith)
        requires
            0 <= nx,
            0 <= ny,
            0 <= nz,
            0 <= i < nx * ny * nz,
    ;
    assert(0 <= i % nx < nx && 0 <= i / nx < ny * nz) by (nonlinear_arith)
        requires
            nx > 0,
            0 <= i < nx * ny * nz,
    ;
    let j = i / nx;
    assert(0 <= j % ny < ny && 0 <= j / ny < nz) by (nonlinear_arith)
        requires
            ny > 0,
            0 <= j < ny * nz,
    ;
}

/// A block of values with three axes, each value held as its literal.
pub struct Grid {
    nx: usize,
    ny: usize,
    nz: usize,
    data: Vec<Literal>,
}

impl View for Grid {
    type V = GridView;

    closed spec fn view(&self) -> GridView {
        GridView {
            nx: self.nx as int,
            ny: self.ny as int,
            nz: self.nz as int,
            cells: Seq::new(
                self.nx as nat,
                |x: int|
                    Seq::new(
                        self.ny as nat,
                        |y: int|
                            Seq::new(
                                self.nz as nat,
                                |z: int|
                                    self.data@[memory_index(
                                        self.ny as int,
                                        self.nz as int,
                                        x,
                                        y,
                                        z,
                                    )]@,
                            ),
                    ),
            ),
        }
    }
}

/// The product of three extents, where it is at most `limit`.
fn bounded_size(nx: usize, ny: usize, nz: usize, limit: usize) -> (r: Option<usize>)
    ensures
        r is Some <==> nx * ny * nz <= limit,
        r matches Some(n) ==> n == nx * ny * nz,
{
    if nx == 0 || ny == 0 || nz == 0 {
        assert(nx * ny * nz == 0) by (nonlinear_arith)
            requires
                nx == 0 || ny == 0 || nz == 0,
        ;
        return Some(0);
    }
    if nx > limit / ny {
        assert(nx * ny * nz > limit) by (nonlinear_arith)
            requires
                nx > limit / ny,
                ny > 0,
                nz > 0,
        ;
        return None;
    }
    assert(nx * ny <= limit) by (nonlinear_arith)
        requires
            nx <= limit / ny,
            ny > 0,
    ;
    let a: usize = nx * ny;
    if a > limit / nz {
        assert(a * nz > limit) by (nonlinear_arith)
            requires
                a > limit / nz,
                nz > 0,
        ;
        return None;
    }
    assert(a * nz <= limit) by (nonlinear_arith)
        requires
            a <= limit / nz,
            nz > 0,
    ;
    Some(a * nz)
}

impl Grid {
    /// There are as many values as the extents ask for, and each is the
    /// literal of a number.
    #[verifier::type_invariant]
    spec fn well_formed(self) -> bool {
        &&& self.data@.len() == self.nx * self.ny * self.nz
        &&& forall|i: int| 0 <= i < self.data@.len() ==> is_number(#[trigger] self.data@[i]@)
    }

    /// The view of a well-formed grid is well formed.
    proof fn lemma_view_wf(self)
        requires
            self.well_formed(),
        ensures
            self@.wf(),
    {
        let v = self@;
        assert forall|x: int, y: int, z: int|
            0 <= x < v.nx && 0 <= y < v.ny && 0 <= z < v.nz implies is_number(
            #[trigger] v.cells[x][y][z],
        ) by {
            lemma_index3(x, y, z, v.nx, v.ny, v.nz);
        }
    }

    /// Lays out the first values of `values`, which stand in the order of a
    /// file, as a grid of the given extents. `None` where `values` holds
    /// fewer than the extents ask for.
    pub fn from_disk_order(nx: usize, ny: usize, nz: usize, values: &Vec<Literal>) -> (r: Option<
        Grid,
    >)
        ensures
            r is Some <==> nx * ny * nz <= values@.len(),
            r matches Some(g) ==> g@ == grid_of_disk(
                nx as int,
                ny as int,
                nz as int,
                texts(values@),
            ) && g@.wf(),
    {
        let n = match bounded_size(nx, ny, nz, values.len()) {
            Some(n) => n,
            None => {
                return None;
            },
        };
        let mut data: Vec<Literal> = Vec::new();
        let mut x: usize = 0;
        let mut y: usize = 0;
        let mut z: usize = 0;
        assert(memory_index(ny as int, nz as int, 0, 0, 0) == 0) by (nonlinear_arith);
        assert(n > 0 ==> nx > 0 && ny > 0 && nz > 0) by (nonlinear_arith)
            requires
                n == nx * ny * nz,
        ;
        while data.len() < n
            invariant
                n == nx * ny * nz <= values@.len(),
                data@.len() <= n,
                data@.len() == memory_index(ny as int, nz as int, x as int, y as int, z as int),
                data@.len() < n ==> x < nx && y < ny && z < nz,
                forall|j: int|
                    0 <= j < data@.len() ==> (#[trigger] data@[j])@ == values@[disk_index(
                        nx as int,
                        ny as int,
                        (j / (nz as int)) / (ny as int),
                        (j / (nz as int)) % (ny as int),
                        j % (nz as int),
                    )]@,
                forall|j: int| 0 <= j < data@.len() ==> is_number(#[trigger] data@[j]@),
            decreases n - data@.len(),
        {
            let ghost x0 = x as int;
            let ghost y0 = y as int;
            let ghost z0 = z as int;
            proof {
                lemma_index3(x0, y0, z0, nx as int, ny as int, nz as int);
                lemma_index3(z0, y0, x0, nz as int, ny as int, nx as int);
                assert(nz * ny * nx == nx * ny * nz) by (nonlinear_arith);
            }
            let d: usize = (z * ny + y) * nx + x;
            let v = values[d].clone();
            data.push(v);
            z += 1;
            if z == nz {
                z = 0;
                y += 1;
                if y == ny {
                    y = 0;
                    x += 1;
                }
            }
            proof {
                lemma_next_index(x0, y0, z0, nx as int, ny as int, nz as int);
            }
        }
        let g = Grid { nx, ny, nz, data };
        proof {
            g.lemma_view_wf();
            let h = grid_of_disk(nx as int, ny as int, nz as int, texts(values@));
            assert forall|x: int, y: int, z: int|
                0 <= x < nx && 0 <= y < ny && 0 <= z < nz implies #[trigger] g@.cells[x][y][z]
                == h.cells[x][y][z] by {
                lemma_index3(x, y, z, nx as int, ny as int, nz as int);
                lemma_index3(z, y, x, nz as int, ny as int, nx as int);
                assert(nz * ny * nx == nx * ny * nz) by (nonlinear_arith);
            }
            assert(g@.cells =~~= h.cells);
        }
        Some(g)
    }

    /// Takes `data`, which stands in the order of memory (`z` fastest, `x`
    /// slowest), as a grid of the given extents. `None` where `data` does not
    /// hold exactly as many values as the extents ask for.
    pub fn new(nx: usize, ny: usize, nz: usize, data: Vec<Literal>) -> (r: Option<Grid>)
        ensures
            r is Some <==> nx * ny * nz == data@.len(),
            r matches Some(g) ==> {
                &&& g@.wf()
                &&& g@.nx == nx
                &&& g@.ny == ny
                &&& g@.nz == nz
                &&& forall|x: int, y: int, z: int|
                    0 <= x < nx && 0 <= y < ny && 0 <= z < nz ==> #[trigger] g@.at(x, y, z)
                        == data@[memory_index(ny as int, nz as int, x, y, z)]@
            },
    {
        match bounded_size(nx, ny, nz, data.len()) {
            Some(n) => {
                if n != data.len() {
                    return None;
                }
            },
            None => {
                return None;
            },
        }
        let mut k: usize = 0;
        while k < data.len()
            invariant
                k <= data@.len(),
                forall|j: int| 0 <= j < k ==> is_number(#[trigger] data@[j]@),
            decreases data@.len() - k,
        {
            let bytes = data[k].as_bytes();
            k += 1;
        }
        let g = Grid { nx, ny, nz, data };
        proof {
            g.lemma_view_wf();
            assert forall|x: int, y: int, z: int|
                0 <= x < nx && 0 <= y < ny && 0 <= z < nz implies #[trigger] g@.at(x, y, z)
                == data@[memory_index(ny as int, nz as int, x, y, z)]@ by {
                lemma_index3(x, y, z, nx as int, ny as int, nz as int);
            }
        }
        Some(g)
    }

    /// The extents along `x`, `y` and `z`.
    pub fn shape(&self) -> (r: [usize; 3])
        ensures
            r[0] == self@.nx,
            r[1] == self@.ny,
            r[2] == self@.nz,
            self@.wf(),
            self@.size() <= usize::MAX,
    {
        proof {
            use_type_invariant(self);
            self.lemma_view_wf();
        }
        let n = self.data.len();
        [self.nx, self.ny, self.nz]
    }

    /// The value at `(x, y, z)`; `None` outside the extents.
    pub fn get(&self, x: usize, y: usize, z: usize) -> (r: Option<&Literal>)
        ensures
            r is Some <==> x < self@.nx && y < self@.ny && z < self@.nz,
            r matches Some(v) ==> v@ == self@.at(x as int, y as int, z as int),
    {
        proof {
            use_type_invariant(self);
        }
        let n = self.data.len();
        if x < self.nx && y < self.ny && z < self.nz {
            proof {
                lemma_index3(
                    x as int,
                    y as int,
                    z as int,
                    self.nx as int,
                    self.ny as int,
                    self.nz as int,
                );
                assert(self.nx * self.ny <= self.nx * self.ny * self.nz) by (nonlinear_arith)
                    requires
                        self.nz >= 1,
                ;
                assert(x * self.ny >= 0) by (nonlinear_arith);
            }
            Some(&self.data[(x * self.ny + y) * self.nz + z])
        } else {
            None
        }
    }

    /// Puts `value` at `(x, y, z)`. Outside the extents nothing changes, and
    /// `false` comes back.
    pub fn set(&mut self, x: usize, y: usize, z: usize, value: Literal) -> (r: bool)
        ensures
            r == (x < old(self)@.nx && y < old(self)@.ny && z < old(self)@.nz),
            !r ==> final(self)@ == old(self)@,
            r ==> final(self)@ == (GridView {
                cells: old(self)@.cells.update(
                    x as int,
                    old(self)@.cells[x as int].update(
                        y as int,
                        old(self)@.cells[x as int][y as int].update(z as int, value@),
                    ),
                ),
                ..old(self)@
            }),
            final(self)@.wf(),
    {
        proof {
            use_type_invariant(&*self);
            self.lemma_view_wf();
        }
        let n = self.data.len();
        if x < self.nx && y < self.ny && z < self.nz {
            proof {
                lemma_index3(
                    x as int,
                    y as int,
                    z as int,
                    self.nx as int,
                    self.ny as int,
                    self.nz as int,
                );
                assert(self.nx * self.ny <= self.nx * self.ny * self.nz) by (nonlinear_arith)
                    requires
                        self.nz >= 1,
                ;
                assert(x * self.ny >= 0) by (nonlinear_arith);
            }
            let bytes = value.as_bytes();
            let mut taken = Grid { nx: 0, ny: 0, nz: 0, data: Vec::new() };
            core::mem::swap(self, &mut taken);
            let Grid { nx, ny, nz, mut data } = taken;
            let m: usize = (x * ny + y) * nz + z;
            data.set(m, value);
            *self = Grid { nx, ny, nz, data };
            proof {
                let v = self@;
                let w = GridView {
                    cells: old(self)@.cells.update(
                        x as int,
                        old(self)@.cells[x as int].update(
                            y as int,
                            old(self)@.cells[x as int][y as int].update(z as int, value@),
                        ),
                    ),
                    ..old(self)@
                };
                assert forall|a: int, b: int, c: int|
                    0 <= a < v.nx && 0 <= b < v.ny && 0 <= c < v.nz implies
                    #[trigger] v.cells[a][b][c] == w.cells[a][b][c] by {
                    lemma_index3(a, b, c, v.nx, v.ny, v.nz);
                    if a != x as int || b != y as int || c != z as int {
                        lemma_index_differs(a, b, c, x as int, y as int, z as int, v.ny, v.nz);
                    }
                }
                assert(v.cells =~~= w.cells);
                self.lemma_view_wf();
            }
            true
        } else {
            false
        }
    }

    /// The values in the order of a file: `x` fastest, `z` slowest.
    pub fn to_disk_order(&self) -> (r: Vec<Literal>)
        ensures
            texts(r@) == self@.disk_values(),
            self@.wf(),
    {
        proof {
            use_type_invariant(self);
            self.lemma_view_wf();
        }
        let nx = self.nx;
        let ny = self.ny;
        let nz = self.nz;
        let n = self.data.len();
        let mut out: Vec<Literal> = Vec::new();
        let mut x: usize = 0;
        let mut y: usize = 0;
        let mut z: usize = 0;
        assert(memory_index(ny as int, nx as int, 0, 0, 0) == 0) by (nonlinear_arith);
        assert(n > 0 ==> nx > 0 && ny > 0 && nz > 0) by (nonlinear_arith)
            requires
                n == nx * ny * nz,
        ;
        while out.len() < n
            invariant
                nx == self.nx,
                ny == self.ny,
                nz == self.nz,
                n == self.data@.len(),
                n == nx * ny * nz,
                out@.len() <= n,
                out@.len() == memory_index(ny as int, nx as int, z as int, y as int, x as int),
                out@.len() < n ==> x < nx && y < ny && z < nz,
                forall|j: int|
                    0 <= j < out@.len() ==> (#[trigger] out@[j])@ == self@.disk_values()[j],
            decreases n - out@.len(),
        {
            let ghost x0 = x as int;
            let ghost y0 = y as int;
            let ghost z0 = z as int;
            proof {
                lemma_index3(x0, y0, z0, nx as int, ny as int, nz as int);
                lemma_index3(z0, y0, x0, nz as int, ny as int, nx as int);
                assert(nz * ny * nx == nx * ny * nz) by (nonlinear_arith);
            }
            let m: usize = (x * ny + y) * nz + z;
            let v = self.data[m].clone();
            out.push(v);
            x += 1;
            if x == nx {
                x = 0;
                y += 1;
                if y == ny {
                    y = 0;
                    z += 1;
                }
            }
            proof {
                lemma_next_index(z0, y0, x0, nz as int, ny as int, nx as int);
            }
        }
        assert(texts(out@) =~= self@.disk_values());
        out
    }
}

/// Two places that differ in a coordinate differ in their index.
pub proof fn lemma_index_differs(
    a: int,
    b: int,
    c: int,
    x: int,
    y: int,
    z: int,
    nb: int,
    nc: int,
)
    requires
        0 <= a,
        0 <= x,
        0 <= b < nb,
        0 <= y < nb,
        0 <= c < nc,
        0 <= z < nc,
        a != x || b != y || c != z,
    ensures
        memory_index(nb, nc, a, b, c) != memory_index(nb, nc, x, y, z),
{
    lemma_index3(a, b, c, a + 1, nb, nc);
    lemma_index3(x, y, z, x + 1, nb, nc);
}

/// Stepping the last coordinate, with carry into the middle and the first,
/// steps the index by one; and the index of the carry out of the first
/// coordinate is the size of the block.
pub proof fn lemma_next_index(a: int, b: int, c: int, na: int, nb: int, nc: int)
    requires
        0 <= a < na,
        0 <= b < nb,
        0 <= c < nc,
    ensures
        c + 1 < nc ==> memory_index(nb, nc, a, b, c + 1) == memory_index(nb, nc, a, b, c) + 1,
        c + 1 == nc && b + 1 < nb ==> memory_index(nb, nc, a, b + 1, 0) == memory_index(
            nb,
            nc,
            a,
            b,
            c,
        ) + 1,
        c + 1 == nc && b + 1 == nb ==> memory_index(nb, nc, a + 1, 0, 0) == memory_index(
            nb,
            nc,
            a,
            b,
            c,
        ) + 1,
        memory_index(nb, nc, na, 0, 0) == na * nb * nc,
{
    assert((a * nb + (b + 1)) * nc == (a * nb + b) * nc + nc) by (nonlinear_arith);
    assert(((a + 1) * nb + 0) * nc == (a * nb + (nb - 1)) * nc + nc) by (nonlinear_arith);
    assert((na * nb + 0) * nc == na * nb * nc) by (nonlinear_arith);
}

} // verus!
