//! The codec: the model of a volumetric data file in memory, with the
//! functions that read it from a stream and write it out.

use crate::error::{ChgError, GridError};
use crate::grid::{Grid, GridView};
use crate::header::{header_is_safe, parse_header, poscar_accepts, render_poscar};
use crate::layout::{grid_text, push_grid, VALUES_PER_ROW};
use crate::laws::lemma_written_file_reads_back;
use crate::model::{
    aug_view, aug_views, grid_views, zip_channels, ChannelView, ChgType, ChgView,
};
use crate::pattern::matches_dimension_line;
use crate::reader::{
    advance, after_grid, aug_line, aug_marker, aug_stop, channels_end, collect_literals,
    dimension_line, header_end, header_text, joined_lines, lemma_channel_advances,
    lemma_read_channels, outcome_of, parse, parse_dims, parse_end, prepend, read_aug,
    read_channels, read_grid, read_header_text, ReadState,
};
use crate::stream::{find_line, lemma_find_line, line_at, Stream};
use crate::text::{push_all, starts_with, LF};
use crate::writer::{body_text, channel_text, channels_text, framed, lacks_aug, reads_back};
use vstd::prelude::*;

verus! {

/// A volumetric data file in memory: the structure, the total charge grid
/// with its augmentation text, and the difference grids with theirs.
pub struct ChgBase {
    pos: vasp_poscar::Poscar,
    chg: Grid,
    aug: Option<Vec<u8>>,
    ngrid: [usize; 3],
    chgdiff: Vec<Grid>,
    augdiff: Vec<Option<Vec<u8>>>,
}

/// The view holds what a file holds behind its structure header. The
/// structure itself is no plain value; `structure` gives it.
impl View for ChgBase {
    type V = ChgView;

    closed spec fn view(&self) -> ChgView {
        ChgView {
            total: self.chg@,
            total_aug: aug_view(self.aug),
            ngrid: (self.ngrid[0] as int, self.ngrid[1] as int, self.ngrid[2] as int),
            diff_grids: grid_views(self.chgdiff@),
            diff_augs: aug_views(self.augdiff@),
        }
    }
}

impl ChgBase {
    /// The structure that the model holds.
    pub closed spec fn structure(&self) -> vasp_poscar::Poscar {
        self.pos
    }

    /// Reads a structure header at the cursor, up to its blank line, and
    /// hands it to the structure parser.
    pub fn _read_poscar(stream: &mut Stream) -> (r: Result<vasp_poscar::Poscar, ChgError>)
        ensures
            final(stream).bytes() == old(stream).bytes(),
            final(stream).cursor() == header_end(old(stream).bytes(), old(stream).cursor()),
            r is Ok <==> header_is_safe(header_text(old(stream).bytes(), old(stream).cursor()))
                && poscar_accepts(header_text(old(stream).bytes(), old(stream).cursor())),
            r is Err ==> r == Err::<vasp_poscar::Poscar, ChgError>(ChgError::HeaderParseError),
    {
        let text = read_header_text(stream);
        parse_header(text.as_slice())
    }

    /// Reads one grid at the cursor: its dimension line, and its values up to
    /// the first line that begins with `aug` or to the end of the stream.
    /// The cursor is left before that line. Where no grid follows, or the
    /// dimension line gives no extents, the cursor stays where it was.
    pub fn _read_chg(stream: &mut Stream) -> (r: Result<Grid, GridError>)
        ensures
            final(stream).bytes() == old(stream).bytes(),
            final(stream).cursor() == after_grid(old(stream).bytes(), old(stream).cursor()),
            match r {
                Ok(g) => read_grid(old(stream).bytes(), old(stream).cursor()) == Ok::<
                    GridView,
                    GridError,
                >(g@) && g@.wf(),
                Err(e) => read_grid(old(stream).bytes(), old(stream).cursor()) == Err::<
                    GridView,
                    GridError,
                >(e),
            },
    {
        let ghost s = stream.bytes();
        let start = stream.position();
        let (end, next) = match stream.line_span() {
            Some(span) => span,
            None => {
                return Err(GridError::EndOfChannels);
            },
        };
        let (nx, ny, nz) = match parse_dims(stream.slice(start, end)) {
            Ok(dims) => dims,
            Err(e) => {
                return Err(e);
            },
        };
        stream.seek(next);
        let marker: [u8; 3] = [97, 117, 103];
        assert(marker@ =~= aug_marker());
        loop
            invariant_except_break
                find_line(s, next as int, aug_line()) == find_line(
                    s,
                    stream.cursor(),
                    aug_line(),
                ),
            invariant
                stream.bytes() == s,
                next <= stream.cursor() <= s.len(),
                marker@ == aug_marker(),
            ensures
                stream.bytes() == s,
                stream.cursor() == find_line(s, next as int, aug_line()),
                next <= stream.cursor() <= s.len(),
            decreases s.len() - stream.cursor(),
        {
            let at = stream.position();
            match stream.line_span() {
                None => {
                    break ;
                },
                Some((line_end, line_next)) => {
                    if starts_with(stream.slice(at, line_end), marker.as_slice()) {
                        break ;
                    }
                    stream.seek(line_next);
                },
            }
        }
        let stop = stream.position();
        let vals = match collect_literals(stream.slice(next, stop)) {
            Some(vals) => vals,
            None => {
                return Err(GridError::MalformedGrid);
            },
        };
        match Grid::from_disk_order(nx, ny, nz, &vals) {
            Some(g) => Ok(g),
            None => Err(GridError::MalformedGrid),
        }
    }

    /// Reads augmentation text at the cursor: the lines up to the next
    /// dimension line or to the end of the stream, each followed by a line
    /// feed. The cursor is left before the dimension line. `None`, with the
    /// cursor where it was, where no line stands before it.
    pub fn _read_raw_aug(stream: &mut Stream) -> (r: Option<Vec<u8>>)
        ensures
            final(stream).bytes() == old(stream).bytes(),
            final(stream).cursor() == aug_stop(old(stream).bytes(), old(stream).cursor()),
            aug_view(r) == read_aug(old(stream).bytes(), old(stream).cursor()),
    {
        let ghost s = stream.bytes();
        let first = stream.position();
        let ghost stop = aug_stop(s, first as int);
        let mut text: Vec<u8> = Vec::new();
        proof {
            lemma_find_line(s, first as int, dimension_line());
        }
        loop
            invariant_except_break
                aug_stop(s, stream.cursor()) == stop,
            invariant
                stream.bytes() == s,
                first <= stream.cursor() <= stop <= s.len(),
                text@ + joined_lines(s, stream.cursor(), stop) == joined_lines(
                    s,
                    first as int,
                    stop,
                ),
            ensures
                stream.bytes() == s,
                stream.cursor() == stop,
                text@ == joined_lines(s, first as int, stop),
            decreases s.len() - stream.cursor(),
        {
            let at = stream.position();
            proof {
                lemma_find_line(s, at as int, dimension_line());
            }
            match stream.line_span() {
                None => {
                    break ;
                },
                Some((line_end, line_next)) => {
                    if matches_dimension_line(stream.slice(at, line_end)) {
                        break ;
                    }
                    proof {
                        lemma_find_line(s, line_next as int, dimension_line());
                    }
                    let ghost before = text@;
                    push_all(&mut text, stream.slice(at, line_end));
                    text.push(LF);
                    assert(text@ =~= before + (line_at(s, at as int) + seq![LF]));
                    assert(text@ + joined_lines(s, line_next as int, stop) =~= before
                        + joined_lines(s, at as int, stop));
                    stream.seek(line_next);
                },
            }
        }
        if stream.position() == first {
            None
        } else {
            Some(text)
        }
    }
}

impl ChgBase {
    /// Reads the difference channels at the cursor, until no grid follows.
    /// Each grid must have the extents `shape`; after each, augmentation text
    /// is read where there is any.
    pub fn _read_optional_parts(stream: &mut Stream, shape: [usize; 3]) -> (r: Result<
        (Vec<Grid>, Vec<Option<Vec<u8>>>),
        ChgError,
    >)
        ensures
            final(stream).bytes() == old(stream).bytes(),
            match r {
                Ok((grids, augs)) => {
                    &&& read_channels(
                        old(stream).bytes(),
                        old(stream).cursor(),
                        shape[0] as int,
                        shape[1] as int,
                        shape[2] as int,
                    ) == Some(zip_channels(grid_views(grids@), aug_views(augs@)))
                    &&& grids@.len() == augs@.len()
                    &&& forall|k: int|
                        0 <= k < grids@.len() ==> {
                            &&& (#[trigger] grids@[k])@.wf()
                            &&& grids@[k]@.nx == shape[0]
                            &&& grids@[k]@.ny == shape[1]
                            &&& grids@[k]@.nz == shape[2]
                        }
                    &&& final(stream).cursor() == channels_end(
                        old(stream).bytes(),
                        old(stream).cursor(),
                        shape[0] as int,
                        shape[1] as int,
                        shape[2] as int,
                    )
                },
                Err(e) => e == ChgError::MalformedGrid && read_channels(
                    old(stream).bytes(),
                    old(stream).cursor(),
                    shape[0] as int,
                    shape[1] as int,
                    shape[2] as int,
                ) is None,
            },
    {
        let ghost s = stream.bytes();
        let ghost first = stream.cursor();
        let ghost nx = shape[0] as int;
        let ghost ny = shape[1] as int;
        let ghost nz = shape[2] as int;
        let mut grids: Vec<Grid> = Vec::new();
        let mut augs: Vec<Option<Vec<u8>>> = Vec::new();
        let mut state = ReadState::ReadingDifference(0);
        // every channel takes at least one byte, so their count stays below
        // the length of the stream
        let size = stream.len();
        assert(s.len() == size);
        assert(zip_channels(grid_views(grids@), aug_views(augs@)) =~= Seq::<ChannelView>::empty());
        assert(prepend(Seq::<ChannelView>::empty(), read_channels(s, first, nx, ny, nz))
            == read_channels(s, first, nx, ny, nz)) by {
            match read_channels(s, first, nx, ny, nz) {
                None => {},
                Some(r) => {
                    assert(Seq::<ChannelView>::empty() + r =~= r);
                },
            }
        }
        loop
            invariant
                stream.bytes() == s,
                s == old(stream).bytes(),
                first == old(stream).cursor(),
                0 <= stream.cursor() <= s.len() <= usize::MAX,
                nx == shape[0],
                ny == shape[1],
                nz == shape[2],
                grids@.len() == augs@.len(),
                grids@.len() <= stream.cursor(),
                state == ReadState::ReadingDifference(grids@.len() as usize),
                forall|k: int|
                    0 <= k < grids@.len() ==> {
                        &&& (#[trigger] grids@[k])@.wf()
                        &&& grids@[k]@.nx == nx
                        &&& grids@[k]@.ny == ny
                        &&& grids@[k]@.nz == nz
                    },
                read_channels(s, first, nx, ny, nz) == prepend(
                    zip_channels(grid_views(grids@), aug_views(augs@)),
                    read_channels(s, stream.cursor(), nx, ny, nz),
                ),
                channels_end(s, first, nx, ny, nz) == channels_end(s, stream.cursor(), nx, ny, nz),
            decreases s.len() - stream.cursor(),
        {
            let ghost cur = stream.cursor();
            let ghost acc = zip_channels(grid_views(grids@), aug_views(augs@));
            proof {
                lemma_read_channels(s, cur, nx, ny, nz);
            }
            let read = Self::_read_chg(stream);
            state = match advance(state, outcome_of(&read), shape) {
                Ok(next) => next,
                Err(e) => {
                    return Err(e);
                },
            };
            match read {
                Err(_) => {
                    assert(acc + Seq::<ChannelView>::empty() =~= acc);
                    return Ok((grids, augs));
                },
                Ok(g) => {
                    proof {
                        lemma_channel_advances(s, cur);
                    }
                    let aug = Self::_read_raw_aug(stream);
                    let ghost ch = ChannelView { grid: g@, aug: aug_view(aug) };
                    grids.push(g);
                    augs.push(aug);
                    proof {
                        let acc2 = zip_channels(grid_views(grids@), aug_views(augs@));
                        assert(acc2 =~= acc + seq![ch]);
                        match read_channels(s, stream.cursor(), nx, ny, nz) {
                            None => {},
                            Some(rest) => {
                                assert(acc2 + rest =~= acc + (seq![ch] + rest));
                            },
                        }
                    }
                },
            }
        }
    }

    /// Reads a whole file from the start of the stream: the structure
    /// header, the total grid with its augmentation text, and the difference
    /// channels that follow, however many there are.
    pub fn from_reader(stream: &mut Stream) -> (r: Result<ChgBase, ChgError>)
        ensures
            final(stream).bytes() == old(stream).bytes(),
            match r {
                Ok(m) => {
                    &&& parse(old(stream).bytes()) == Ok::<ChgView, ChgError>(m@)
                    &&& m@.wf()
                    &&& final(stream).cursor() == parse_end(old(stream).bytes())
                },
                Err(e) => parse(old(stream).bytes()) == Err::<ChgView, ChgError>(e),
            },
    {
        let ghost s = stream.bytes();
        stream.seek(0);
        let pos = match Self::_read_poscar(stream) {
            Ok(pos) => pos,
            Err(e) => {
                return Err(e);
            },
        };
        let read = Self::_read_chg(stream);
        if let Err(e) = advance(ReadState::ReadingTotal, outcome_of(&read), [0, 0, 0]) {
            return Err(e);
        }
        let chg = match read {
            Ok(chg) => chg,
            Err(_) => {
                return Err(ChgError::MalformedGrid);
            },
        };
        let aug = Self::_read_raw_aug(stream);
        let ngrid = chg.shape();
        let (chgdiff, augdiff) = match Self::_read_optional_parts(stream, ngrid) {
            Ok(parts) => parts,
            Err(e) => {
                return Err(e);
            },
        };
        let m = ChgBase { pos, chg, aug, ngrid, chgdiff, augdiff };
        proof {
            let chs = zip_channels(grid_views(chgdiff@), aug_views(augdiff@));
            assert(m@.diff_grids =~= Seq::new(chs.len(), |k: int| chs[k].grid));
            assert(m@.diff_augs =~= Seq::new(chs.len(), |k: int| chs[k].aug));
        }
        Ok(m)
    }

    /// A model of the given structure and grids, without augmentation text.
    pub fn from_builder(chg: Grid, chgdiff: Vec<Grid>, pos: vasp_poscar::Poscar) -> (r: ChgBase)
        ensures
            r.structure() == pos,
            r@.total == chg@,
            r@.total_aug is None,
            r@.ngrid == (chg@.nx, chg@.ny, chg@.nz),
            r@.diff_grids == grid_views(chgdiff@),
            r@.diff_augs.len() == chgdiff@.len(),
            forall|k: int| 0 <= k < chgdiff@.len() ==> #[trigger] r@.diff_augs[k] is None,
    {
        let ngrid = chg.shape();
        let mut augdiff: Vec<Option<Vec<u8>>> = Vec::new();
        while augdiff.len() < chgdiff.len()
            invariant
                augdiff@.len() <= chgdiff@.len(),
                forall|k: int| 0 <= k < augdiff@.len() ==> #[trigger] augdiff@[k] is None,
            decreases chgdiff@.len() - augdiff@.len(),
        {
            augdiff.push(None);
        }
        ChgBase { pos, chg, aug: None, ngrid, chgdiff, augdiff }
    }

    /// The structure.
    pub fn get_poscar(&self) -> (r: &vasp_poscar::Poscar)
        ensures
            *r == self.structure(),
    {
        &self.pos
    }

    /// The structure, to be changed in place.
    pub fn get_mut_poscar(&mut self) -> (r: &mut vasp_poscar::Poscar)
        ensures
            *r == old(self).structure(),
            final(self).structure() == *final(r),
            final(self)@ == old(self)@,
    {
        &mut self.pos
    }

    /// The total grid.
    pub fn get_total_chg(&self) -> (r: &Grid)
        ensures
            r@ == self@.total,
    {
        &self.chg
    }

    /// The total grid, to be changed in place.
    pub fn get_mut_total_chg(&mut self) -> (r: &mut Grid)
        ensures
            r@ == old(self)@.total,
            final(self).structure() == old(self).structure(),
            final(self)@ == (ChgView { total: final(r)@, ..old(self)@ }),
    {
        &mut self.chg
    }

    /// The difference grids.
    pub fn get_diff_chg(&self) -> (r: &Vec<Grid>)
        ensures
            grid_views(r@) == self@.diff_grids,
    {
        &self.chgdiff
    }

    /// The difference grids, to be changed in place.
    pub fn get_mut_diff_chg(&mut self) -> (r: &mut Vec<Grid>)
        ensures
            grid_views(r@) == old(self)@.diff_grids,
            final(self).structure() == old(self).structure(),
            final(self)@ == (ChgView { diff_grids: grid_views(final(r)@), ..old(self)@ }),
    {
        &mut self.chgdiff
    }

    /// The extents on record.
    pub fn get_ngrid(&self) -> (r: &[usize; 3])
        ensures
            self@.ngrid == (r[0] as int, r[1] as int, r[2] as int),
    {
        &self.ngrid
    }

    /// The extents on record, to be changed in place. They are not held to
    /// the grids: who reshapes a grid brings them up to date.
    pub fn get_mut_ngrid(&mut self) -> (r: &mut [usize; 3])
        ensures
            old(self)@.ngrid == (r[0] as int, r[1] as int, r[2] as int),
            final(self).structure() == old(self).structure(),
            final(self)@ == (ChgView {
                ngrid: (final(r)[0] as int, final(r)[1] as int, final(r)[2] as int),
                ..old(self)@
            }),
    {
        &mut self.ngrid
    }

    /// The augmentation text of the total grid, where the model holds one.
    pub fn get_total_aug(&self) -> (r: Option<&Vec<u8>>)
        ensures
            r is Some <==> self@.total_aug is Some,
            r matches Some(a) ==> self@.total_aug == Some(a@),
    {
        match &self.aug {
            Some(aug) => Some(aug),
            None => None,
        }
    }

    /// The augmentation texts of the difference grids, by place.
    pub fn get_diff_aug(&self) -> (r: &Vec<Option<Vec<u8>>>)
        ensures
            aug_views(r@) == self@.diff_augs,
    {
        &self.augdiff
    }
}

impl ChgBase {
    /// Sets or removes the augmentation text of the total grid.
    pub fn set_total_aug(&mut self, aug: Option<Vec<u8>>)
        ensures
            final(self).structure() == old(self).structure(),
            final(self)@ == (ChgView { total_aug: aug_view(aug), ..old(self)@ }),
    {
        self.aug = aug;
    }

    /// Sets the augmentation texts of the difference grids, by place.
    pub fn set_diff_aug(&mut self, augs: Vec<Option<Vec<u8>>>)
        ensures
            final(self).structure() == old(self).structure(),
            final(self)@ == (ChgView { diff_augs: aug_views(augs@), ..old(self)@ }),
    {
        self.augdiff = augs;
    }

    /// Appends the written form of `chg` to `out`: the dimension line, then
    /// the values in the order of a file, `num_per_row` to a row.
    pub fn _write_chg(out: &mut Vec<u8>, chg: &Grid, num_per_row: usize)
        requires
            num_per_row > 0,
        ensures
            final(out)@ == old(out)@ + grid_text(chg@, num_per_row as int),
    {
        push_grid(out, chg, num_per_row);
    }

    /// Whether the model lacks the augmentation text of a channel.
    pub fn is_missing_aug(&self) -> (r: bool)
        ensures
            r == lacks_aug(self@),
    {
        if self.aug.is_none() {
            return true;
        }
        let ghost chs = self@.channels();
        let mut k: usize = 0;
        while k < self.chgdiff.len()
            invariant
                k <= self.chgdiff@.len(),
                chs == self@.channels(),
                chs.len() == self.chgdiff@.len(),
                self@.total_aug is Some,
                forall|j: int| 0 <= j < k ==> (#[trigger] chs[j]).aug is Some,
            decreases self.chgdiff@.len() - k,
        {
            if k >= self.augdiff.len() || self.augdiff[k].is_none() {
                assert(chs[k as int].aug is None);
                return true;
            }
            k += 1;
        }
        false
    }

    /// Appends to `out` what stands behind the structure header in the
    /// format `chgtype`: the total channel and the difference channels.
    /// Where the format asks for augmentation text and the model lacks one,
    /// nothing is appended.
    #[verifier::rlimit(30)]
    pub fn write_body(&self, out: &mut Vec<u8>, chgtype: ChgType) -> (r: Result<(), ChgError>)
        ensures
            r is Err <==> chgtype == ChgType::Chgcar && lacks_aug(self@),
            r is Err ==> r == Err::<(), ChgError>(ChgError::MissingAugmentation) && final(out)@
                == old(out)@,
            r is Ok ==> final(out)@ == old(out)@ + body_text(self@, chgtype),
    {
        let with_aug = match chgtype {
            ChgType::Chgcar => true,
            _ => false,
        };
        if with_aug && self.is_missing_aug() {
            return Err(ChgError::MissingAugmentation);
        }
        let ghost chs = self@.channels();
        push_grid(out, &self.chg, VALUES_PER_ROW);
        if with_aug {
            match &self.aug {
                Some(aug) => {
                    push_all(out, aug.as_slice());
                },
                None => {},
            }
        }
        let ghost total = ChannelView { grid: self@.total, aug: self@.total_aug };
        assert(out@ =~= old(out)@ + channel_text(total, chgtype));
        let ghost base = out@;
        let mut k: usize = 0;
        assert(chs.skip(0) =~= chs);
        while k < self.chgdiff.len()
            invariant
                k <= self.chgdiff@.len(),
                chs == self@.channels(),
                chs.len() == self.chgdiff@.len(),
                with_aug == (chgtype == ChgType::Chgcar),
                out@ + channels_text(chs.skip(k as int), chgtype) == base + channels_text(
                    chs,
                    chgtype,
                ),
            decreases self.chgdiff@.len() - k,
        {
            let ghost before = out@;
            let ghost tail = chs.skip(k as int);
            push_grid(out, &self.chgdiff[k], VALUES_PER_ROW);
            if with_aug && k < self.augdiff.len() {
                match &self.augdiff[k] {
                    Some(aug) => {
                        push_all(out, aug.as_slice());
                    },
                    None => {},
                }
            }
            proof {
                assert(tail[0] == chs[k as int]);
                assert(tail.drop_first() =~= chs.skip(k + 1));
                assert(out@ =~= before + channel_text(chs[k as int], chgtype));
                assert(out@ + channels_text(chs.skip(k + 1), chgtype) =~= before + channels_text(
                    tail,
                    chgtype,
                ));
            }
            k += 1;
        }
        assert(chs.skip(chs.len() as int) =~= Seq::<ChannelView>::empty());
        assert(out@ =~= old(out)@ + body_text(self@, chgtype));
        Ok(())
    }

    /// Appends to `out` a file in the format `chgtype` whose structure header
    /// is `header`: the header, a line feed, and the channels. Where the
    /// format asks for augmentation text and the model lacks one, nothing is
    /// appended.
    ///
    /// A file of one channel, written to an empty buffer in a format without
    /// augmentation text, reads back as that channel, with its extents and
    /// every value as it was, where its header is one that is read again.
    pub fn write_with_header(&self, header: &[u8], out: &mut Vec<u8>, chgtype: ChgType) -> (r:
        Result<(), ChgError>)
        ensures
            r is Err <==> chgtype == ChgType::Chgcar && lacks_aug(self@),
            r is Err ==> r == Err::<(), ChgError>(ChgError::MissingAugmentation) && final(out)@
                == old(out)@,
            r is Ok ==> final(out)@ == old(out)@ + framed(header@, body_text(self@, chgtype)),
            r is Ok ==> reads_back(old(out)@, header@, self@, chgtype, final(out)@),
    {
        let with_aug = match chgtype {
            ChgType::Chgcar => true,
            _ => false,
        };
        if with_aug && self.is_missing_aug() {
            return Err(ChgError::MissingAugmentation);
        }
        push_all(out, header);
        out.push(LF);
        let r = self.write_body(out, chgtype);
        assert(out@ =~= old(out)@ + framed(header@, body_text(self@, chgtype)));
        let shape = self.chg.shape();
        proof {
            lemma_written_file_reads_back(old(out)@, header@, self@, chgtype, out@);
        }
        r
    }

    /// Appends the model to `out` in the format `chgtype`: the structure
    /// header as the structure crate renders it, a line feed, and the
    /// channels. Where the format asks for augmentation text and the model
    /// lacks one, nothing is appended.
    ///
    /// Which header is written is for the structure crate to say. Of the
    /// file it is stated what holds of a file behind any header.
    pub fn write_writer(&self, out: &mut Vec<u8>, chgtype: ChgType) -> (r: Result<(), ChgError>)
        ensures
            r is Err <==> chgtype == ChgType::Chgcar && lacks_aug(self@),
            r is Err ==> r == Err::<(), ChgError>(ChgError::MissingAugmentation) && final(out)@
                == old(out)@,
            r is Ok ==> exists|header: Seq<u8>|
                {
                    &&& final(out)@ == old(out)@ + #[trigger] framed(
                        header,
                        body_text(self@, chgtype),
                    )
                    &&& reads_back(old(out)@, header, self@, chgtype, final(out)@)
                },
    {
        let header = render_poscar(&self.pos);
        self.write_with_header(header.as_slice(), out, chgtype)
    }
}

} // verus!
