//! The CHGCAR format: charge density with augmentation text.

use crate::base::ChgBase;
use crate::error::ChgError;
use crate::model::ChgType;
use crate::writer::{body_text, framed, lacks_aug};
use vstd::prelude::*;

verus! {

/// The CHGCAR format, as a type of its own.
#[derive(Clone, Copy, Debug, PartialEq, Eq, Structural)]
pub struct ChgcarType;

impl ChgcarType {
    /// The format that this type stands for.
    pub fn format_kind() -> (r: ChgType)
        ensures
            r == ChgType::Chgcar,
    {
        ChgType::Chgcar
    }

    /// Appends `chg` to `out` as a CHGCAR file. Where the model lacks the
    /// augmentation text of a channel, nothing is appended.
    pub fn write_writer(chg: &ChgBase, out: &mut Vec<u8>) -> (r: Result<(), ChgError>)
        ensures
            r is Err <==> lacks_aug(chg@),
            r is Err ==> r == Err::<(), ChgError>(ChgError::MissingAugmentation) && final(out)@
                == old(out)@,
            r is Ok ==> exists|header: Seq<u8>|
                final(out)@ == old(out)@ + #[trigger] framed(
                    header,
                    body_text(chg@, ChgType::Chgcar),
                ),
    {
        chg.write_writer(out, ChgType::Chgcar)
    }
}

} // verus!
