//! Reading and writing of VASP volumetric data files (CHGCAR, CHG, PARCHG).
//!
//! A file is a structure header, a blank line, and one or more channels. A
//! channel is a dimension line, the grid values in disk order, and an optional
//! block of augmentation text. How many channels a file holds is written
//! nowhere in it: the reader goes on until the stream gives no further grid.
//!
//! The library works on bytes. Grid values are kept as the decimal literals
//! that the file holds; turning them into binary numbers, and scaling them by
//! the cell volume, is left to the caller.
//!
//! Two crates are called from here: `vasp_poscar` reads and renders the
//! structure header, and `regex` decides which line is the dimension line
//! that ends an augmentation block. The calls stand in [`header`] and
//! [`pattern`], each behind a contract that is taken on trust. What the
//! reader and the writer do around them is proved, and [`laws`] states what
//! holds of the two together.

pub mod base;
pub mod chgcar;
pub mod error;
pub mod grid;
pub mod header;
pub mod laws;
pub mod layout;
pub mod model;
pub mod number;
pub mod pattern;
pub mod reader;
pub mod stream;
pub mod text;
pub mod writer;

pub use base::ChgBase;
pub use chgcar::ChgcarType;
pub use error::{ChgError, GridError};
pub use grid::Grid;
pub use model::ChgType;
pub use number::Literal;
pub use stream::Stream;
