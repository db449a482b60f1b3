//! What can go wrong when a file is read or written.

use vstd::prelude::*;

verus! {

/// Why a file could not be read, or a model not be written.
#[derive(Clone, Copy, Debug, PartialEq, Eq, Structural)]
pub enum ChgError {
    /// The structure header is not one that the structure parser takes.
    HeaderParseError,
    /// The total grid is missing, the dimension line of a grid does not give
    /// three extents, one of its values is not a number, it holds fewer
    /// values than its dimension line asks for, or it has another shape than
    /// the first grid of the file.
    MalformedGrid,
    /// The format asks for the augmentation text of every channel, and the
    /// model lacks one.
    MissingAugmentation,
}

/// Why no grid came out of a read.
#[derive(Clone, Copy, Debug, PartialEq, Eq, Structural)]
pub enum GridError {
    /// No further grid follows: the stream is at its end, or the line at the
    /// cursor does not begin with an unsigned integer.
    EndOfChannels,
    /// A grid begins at the cursor, and it is not as it has to be: its
    /// dimension line lacks an extent or holds one that is no unsigned
    /// integer of machine size, or its values are not as that line says.
    MalformedGrid,
}

} // verus!
