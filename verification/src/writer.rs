//! What writing a model gives: the text of each channel, and of a file.

use crate::layout::{grid_text, VALUES_PER_ROW};
use crate::error::ChgError;
use crate::model::{single_channel, ChannelView, ChgType, ChgView};
use crate::reader::{header_reads_again, parse, parse_end};
use crate::text::LF;
use vstd::prelude::*;

verus! {

/// What is written for one channel in the format `kind`: the grid, and
/// behind it the augmentation text as it is held, where the format carries
/// one and the channel holds one.
pub open spec fn channel_text(ch: ChannelView, kind: ChgType) -> Seq<u8> {
    grid_text(ch.grid, VALUES_PER_ROW as int) + (if kind == ChgType::Chgcar && ch.aug is Some {
        ch.aug->0
    } else {
        Seq::empty()
    })
}

/// What is written for a run of channels, one after the other.
pub open spec fn channels_text(chs: Seq<ChannelView>, kind: ChgType) -> Seq<u8>
    decreases chs.len(),
{
    if chs.len() == 0 {
        Seq::empty()
    } else {
        channel_text(chs[0], kind) + channels_text(chs.drop_first(), kind)
    }
}

/// What is written for a model behind its structure header: the total
/// channel, then the difference channels.
pub open spec fn body_text(m: ChgView, kind: ChgType) -> Seq<u8> {
    channel_text(ChannelView { grid: m.total, aug: m.total_aug }, kind) + channels_text(
        m.channels(),
        kind,
    )
}

/// The model lacks the augmentation text of a channel.
pub open spec fn lacks_aug(m: ChgView) -> bool {
    m.total_aug is None || exists|k: int|
        0 <= k < m.channels().len() && (#[trigger] m.channels()[k]).aug is None
}

/// A written file: the text of the structure header, a line feed, and what
/// stands behind it.
pub open spec fn framed(header: Seq<u8>, body: Seq<u8>) -> Seq<u8> {
    header + seq![LF] + body
}

/// Round trip of what was written: where a model of one channel was written
/// to an empty buffer behind a header that is read again, in a format
/// without augmentation text, reading what was written gives the channel
/// back, with its extents and every value as it was, and ends at the end of
/// what was written.
pub open spec fn reads_back(
    before: Seq<u8>,
    header: Seq<u8>,
    m: ChgView,
    kind: ChgType,
    written: Seq<u8>,
) -> bool {
    before.len() == 0 && header_reads_again(header) && kind != ChgType::Chgcar
        && m.diff_grids.len() == 0 ==> parse(written) == Ok::<ChgView, ChgError>(
        single_channel(m.total),
    ) && parse_end(written) == written.len()
}

} // verus!
