//! What a volumetric data file holds, as plain values: the view that the
//! contracts of the reader and the writer speak of.

use crate::grid::{Grid, GridView};
use vstd::prelude::*;

verus! {

/// The formats that a model can be written in.
#[derive(Clone, Copy, Debug, PartialEq, Eq, Structural)]
pub enum ChgType {
    /// Charge density without augmentation text.
    Chg,
    /// Charge density with the augmentation text of every channel.
    Chgcar,
    /// Partial charge density, without augmentation text.
    Parchg,
}

/// One channel of a file: a grid and the augmentation text that follows it.
pub struct ChannelView {
    pub grid: GridView,
    pub aug: Option<Seq<u8>>,
}

/// The views of a run of grids.
pub open spec fn grid_views(gs: Seq<Grid>) -> Seq<GridView> {
    Seq::new(gs.len(), |k: int| gs[k]@)
}

/// The bytes of an augmentation text that may be absent.
pub open spec fn aug_view(a: Option<Vec<u8>>) -> Option<Seq<u8>> {
    match a {
        Some(v) => Some(v@),
        None => None,
    }
}

/// The bytes of a run of augmentation texts.
pub open spec fn aug_views(augs: Seq<Option<Vec<u8>>>) -> Seq<Option<Seq<u8>>> {
    Seq::new(augs.len(), |k: int| aug_view(augs[k]))
}

/// The channels that a run of grids and a run of augmentation texts make:
/// one for each grid, with the text of its place where there is one.
pub open spec fn zip_channels(grids: Seq<GridView>, augs: Seq<Option<Seq<u8>>>) -> Seq<
    ChannelView,
> {
    Seq::new(
        grids.len(),
        |k: int|
            ChannelView {
                grid: grids[k],
                aug: if k < augs.len() {
                    augs[k]
                } else {
                    None
                },
            },
    )
}

/// What a volumetric data file holds, but for its structure header: the
/// total channel, the extents on record, and the difference channels.
pub struct ChgView {
    pub total: GridView,
    pub total_aug: Option<Seq<u8>>,
    pub ngrid: (int, int, int),
    pub diff_grids: Seq<GridView>,
    pub diff_augs: Seq<Option<Seq<u8>>>,
}

impl ChgView {
    /// The difference channels: each grid with the augmentation text of its
    /// place.
    pub open spec fn channels(self) -> Seq<ChannelView> {
        zip_channels(self.diff_grids, self.diff_augs)
    }

    /// The extents on record are those of the total grid, every difference
    /// grid has them too, each grid is well formed, and there is one place
    /// for augmentation text for each difference grid.
    pub open spec fn wf(self) -> bool {
        &&& self.total.wf()
        &&& self.ngrid == (self.total.nx, self.total.ny, self.total.nz)
        &&& self.diff_augs.len() == self.diff_grids.len()
        &&& forall|k: int|
            0 <= k < self.diff_grids.len() ==> {
                &&& (#[trigger] self.diff_grids[k]).wf()
                &&& self.diff_grids[k].nx == self.total.nx
                &&& self.diff_grids[k].ny == self.total.ny
                &&& self.diff_grids[k].nz == self.total.nz
            }
    }
}

/// The model of one channel without augmentation text.
pub open spec fn single_channel(g: GridView) -> ChgView {
    ChgView {
        total: g,
        total_aug: None,
        ngrid: (g.nx, g.ny, g.nz),
        diff_grids: Seq::empty(),
        diff_augs: Seq::empty(),
    }
}

} // verus!
