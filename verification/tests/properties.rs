use vaspchg_rs::reader::{
    advance, collect_literals, header_is_read_again, is_header_block_bytes, line_is_blank,
    outcome_of, parse_dims, read_header_text, ReadState,
};
use vaspchg_rs::header::{parse_header, screen_header};
use vaspchg_rs::layout::{push_extents, push_grid, push_rows};
use vaspchg_rs::number::is_number_bytes;
use vaspchg_rs::pattern::matches_dimension_line;
use vaspchg_rs::stream::scan_line;
use vaspchg_rs::text::{
    is_unsigned_bytes, next_token, parse_unsigned, push_all, push_decimal, push_right_justified,
    starts_with,
};
use vaspchg_rs::{ChgBase, ChgError, ChgType, ChgcarType, Grid, GridError, Literal, Stream};

const HEADER: &str = "\
unknown system
   1.00000000000000
     2.969072   -0.000523   -0.000907
    -0.987305    2.800110    0.000907
    -0.987305   -1.402326    2.423654
   Li
     1
Direct
  0.000000  0.000000  0.000000

";

const AUG: &str = "\
augmentation occupancies 1 15
  0.2743786E+00 -0.3307158E-01  0.0000000E+00  0.0000000E+00  0.0000000E+00
  0.1033253E-02  0.0000000E+00  0.0000000E+00  0.0000000E+00  0.3964234E-01
  0.5875445E-05 -0.7209739E-05 -0.3625569E-05  0.1019266E-04 -0.2068344E-05
";

/// A grid of the extents 2, 3, 4 whose value number `i`, in the order of a
/// file, is `base + i`.
fn grid_block(base: usize) -> String {
    let mut text = String::from("    2    3    4\n");
    for i in 0..24 {
        text.push_str(&format!(" {:>17}", format!("{}.5E+00", base + i)));
        if i % 5 == 4 || i == 23 {
            text.push('\n');
        }
    }
    text
}

fn stream_of(text: &str) -> Stream {
    Stream::new(text.as_bytes().to_vec())
}

fn lit(text: &str) -> Literal {
    Literal::new(text.as_bytes().to_vec()).unwrap()
}

fn text_of(l: &Literal) -> String {
    String::from_utf8(l.as_bytes().to_vec()).unwrap()
}

fn small_grid() -> Grid {
    // extents 2, 1, 3; memory order: z fastest
    let data = vec![lit("1"), lit("2"), lit("3"), lit("4"), lit("5"), lit("6")];
    Grid::new(2, 1, 3, data).unwrap()
}

fn structure() -> vasp_poscar::Poscar {
    vasp_poscar::Poscar::from_reader(HEADER.as_bytes()).unwrap()
}

// ---- channel discovery ----

#[test]
fn single_channel_without_augmentation() {
    let text = format!("{}{}", HEADER, grid_block(0));
    let mut stream = stream_of(&text);
    let model = ChgBase::from_reader(&mut stream).unwrap();
    assert_eq!(model.get_total_chg().shape(), [2, 3, 4]);
    assert_eq!(model.get_ngrid(), &[2, 3, 4]);
    assert!(model.get_total_aug().is_none());
    assert_eq!(model.get_diff_chg().len(), 0);
    assert_eq!(model.get_diff_aug().len(), 0);
    assert_eq!(stream.position(), text.len());
    assert!(stream.at_end());
}

#[test]
fn spin_polarized_sample_has_one_difference_grid() {
    let text = format!("{}{}{}{}{}", HEADER, grid_block(0), AUG, grid_block(100), AUG);
    let mut stream = stream_of(&text);
    let model = ChgBase::from_reader(&mut stream).unwrap();
    assert_eq!(model.get_diff_chg().len(), 1);
    assert_eq!(model.get_diff_aug().len(), 1);
    assert_eq!(model.get_total_aug().unwrap().as_slice(), AUG.as_bytes());
    assert_eq!(model.get_diff_aug()[0].as_ref().unwrap().as_slice(), AUG.as_bytes());
    assert_eq!(text_of(model.get_diff_chg()[0].get(0, 0, 0).unwrap()), "100.5E+00");
    assert!(stream.at_end());
}

#[test]
fn non_collinear_sample_has_three_difference_grids() {
    let text = format!(
        "{}{}{}{}{}{}{}{}{}",
        HEADER,
        grid_block(0),
        AUG,
        grid_block(100),
        AUG,
        grid_block(200),
        AUG,
        grid_block(300),
        AUG
    );
    let mut stream = stream_of(&text);
    let model = ChgBase::from_reader(&mut stream).unwrap();
    assert_eq!(model.get_diff_chg().len(), 3);
    assert_eq!(model.get_diff_aug().len(), 3);
    for (k, grid) in model.get_diff_chg().iter().enumerate() {
        assert_eq!(grid.shape(), model.get_total_chg().shape());
        assert_eq!(
            text_of(grid.get(1, 2, 3).unwrap()),
            format!("{}.5E+00", 100 * (k + 1) + 23)
        );
    }
    assert!(stream.at_end());
}

#[test]
fn last_channel_may_lack_augmentation() {
    let text = format!("{}{}{}{}", HEADER, grid_block(0), AUG, grid_block(100));
    let model = ChgBase::from_reader(&mut stream_of(&text)).unwrap();
    assert_eq!(model.get_diff_chg().len(), 1);
    assert_eq!(model.get_diff_aug().len(), 1);
    assert!(model.get_diff_aug()[0].is_none());
}

#[test]
fn grids_without_marker_between_them_are_read_as_one() {
    // without an augmentation marker the first grid takes every line that is left
    let text = format!("{}{}{}", HEADER, grid_block(0), grid_block(100));
    let model = ChgBase::from_reader(&mut stream_of(&text)).unwrap();
    assert_eq!(model.get_diff_chg().len(), 0);
    assert_eq!(text_of(model.get_total_chg().get(1, 2, 3).unwrap()), "23.5E+00");
}

#[test]
fn from_reader_starts_at_the_head_of_the_stream() {
    let text = format!("{}{}", HEADER, grid_block(0));
    let mut stream = stream_of(&text);
    stream.seek(57);
    let model = ChgBase::from_reader(&mut stream).unwrap();
    assert_eq!(model.get_ngrid(), &[2, 3, 4]);
}

#[test]
fn difference_channels_end_at_a_line_that_is_no_dimension_line() {
    let text = format!("{}{}{}    2    3\n 1.0 2.0\n", HEADER, grid_block(0), AUG);
    let mut stream = stream_of(&text);
    let model = ChgBase::from_reader(&mut stream).unwrap();
    assert_eq!(model.get_diff_chg().len(), 0);
    // the short line matches no dimension pattern, so it went into the text
    assert!(model.get_total_aug().unwrap().ends_with(b"    2    3\n 1.0 2.0\n"));
}

// ---- errors ----

#[test]
fn header_that_the_parser_refuses() {
    let text = format!("no structure here\n\n{}", grid_block(0));
    let r = ChgBase::from_reader(&mut stream_of(&text));
    assert_eq!(r.err(), Some(ChgError::HeaderParseError));
}

#[test]
fn empty_stream_has_no_header() {
    let r = ChgBase::from_reader(&mut stream_of(""));
    assert_eq!(r.err(), Some(ChgError::HeaderParseError));
}

#[test]
fn header_with_carriage_return_in_comment_is_refused() {
    let text = HEADER.replacen("unknown system", "unknown\rsystem", 1);
    assert!(!screen_header(text.as_bytes()));
    assert_eq!(parse_header(text.as_bytes()).err(), Some(ChgError::HeaderParseError));
    let r = ChgBase::from_reader(&mut stream_of(&format!("{}{}", text, grid_block(0))));
    assert_eq!(r.err(), Some(ChgError::HeaderParseError));
}

#[test]
fn header_with_windows_line_endings_is_read() {
    let text = HEADER.replace('\n', "\r\n");
    assert!(screen_header(text.as_bytes()));
    assert!(parse_header(text.as_bytes()).is_ok());
}

#[test]
fn header_with_odd_blank_on_symbol_line_is_refused() {
    let text = HEADER.replacen("   Li\n", "\u{a0}\n", 1);
    assert!(!screen_header(text.as_bytes()));
    assert_eq!(parse_header(text.as_bytes()).err(), Some(ChgError::HeaderParseError));
    let form_feed = HEADER.replacen("   Li\n", "\u{c}\n", 1);
    assert!(!screen_header(form_feed.as_bytes()));
}

#[test]
fn header_with_symbols_outside_ascii_passes_the_screen() {
    let text = HEADER.replacen("unknown system", "d\u{e9}j\u{e0} vu", 1);
    assert!(screen_header(text.as_bytes()));
    assert!(parse_header(text.as_bytes()).is_ok());
}

#[test]
fn header_with_counts_that_overflow_is_refused() {
    let text = HEADER.replacen("     1\n", " 18446744073709551615 1\n", 1);
    assert!(!screen_header(text.as_bytes()));
    assert_eq!(parse_header(text.as_bytes()).err(), Some(ChgError::HeaderParseError));
    let one_huge = HEADER.replacen("     1\n", " 99999999999999999999999\n", 1);
    assert!(!screen_header(one_huge.as_bytes()));
    let fits = HEADER.replacen("     1\n", " 18446744073709551614 1\n", 1);
    assert!(screen_header(fits.as_bytes()));
}

#[test]
fn screen_takes_short_and_empty_texts() {
    assert!(screen_header(b""));
    assert!(screen_header(b"one line"));
    assert_eq!(parse_header(b"one line").err(), Some(ChgError::HeaderParseError));
}

#[test]
fn missing_grid_is_malformed() {
    let r = ChgBase::from_reader(&mut stream_of(HEADER));
    assert_eq!(r.err(), Some(ChgError::MalformedGrid));
}

#[test]
fn dimension_line_with_two_numbers_is_malformed() {
    let text = format!("{}    2    3\n 1.0 2.0 3.0 4.0 5.0 6.0\n", HEADER);
    let r = ChgBase::from_reader(&mut stream_of(&text));
    assert_eq!(r.err(), Some(ChgError::MalformedGrid));
}

#[test]
fn value_that_is_no_number_is_malformed() {
    let text = format!("{}    1    1    2\n 1.0 abc\n", HEADER);
    let r = ChgBase::from_reader(&mut stream_of(&text));
    assert_eq!(r.err(), Some(ChgError::MalformedGrid));
    // also behind the values that the extents ask for
    let text = format!("{}    1    1    2\n 1.0 2.0 abc\n", HEADER);
    let r = ChgBase::from_reader(&mut stream_of(&text));
    assert_eq!(r.err(), Some(ChgError::MalformedGrid));
}

#[test]
fn too_few_values_are_malformed() {
    let text = format!("{}    2    3    4\n 1.0 2.0 3.0\n", HEADER);
    let r = ChgBase::from_reader(&mut stream_of(&text));
    assert_eq!(r.err(), Some(ChgError::MalformedGrid));
}

#[test]
fn extents_too_large_to_multiply_are_malformed() {
    let text = format!(
        "{} 4294967296 4294967296 4294967296\n 1.0 2.0 3.0\n",
        HEADER
    );
    let r = ChgBase::from_reader(&mut stream_of(&text));
    assert_eq!(r.err(), Some(ChgError::MalformedGrid));
}

#[test]
fn values_beyond_the_extents_are_dropped() {
    let text = format!("{}    1    1    2\n 1.0 2.0 3.0 4.0\n", HEADER);
    let model = ChgBase::from_reader(&mut stream_of(&text)).unwrap();
    assert_eq!(model.get_total_chg().shape(), [1, 1, 2]);
    assert_eq!(text_of(model.get_total_chg().get(0, 0, 1).unwrap()), "2.0");
    assert!(model.get_total_chg().get(0, 0, 2).is_none());
}

#[test]
fn difference_grid_of_another_shape_is_malformed() {
    let text = format!(
        "{}{}{}    1    1    2\n 1.0 2.0\n",
        HEADER,
        grid_block(0),
        AUG
    );
    let r = ChgBase::from_reader(&mut stream_of(&text));
    assert_eq!(r.err(), Some(ChgError::MalformedGrid));
}

#[test]
fn malformed_difference_grid_fails_the_whole_read() {
    let text = format!(
        "{}{}{}    2    3    4\n 1.0 2.0 oops\n",
        HEADER,
        grid_block(0),
        AUG
    );
    let r = ChgBase::from_reader(&mut stream_of(&text));
    assert_eq!(r.err(), Some(ChgError::MalformedGrid));
}

#[test]
fn grid_read_reports_the_end_of_the_channels() {
    let mut at_end = stream_of("");
    assert_eq!(ChgBase::_read_chg(&mut at_end).err(), Some(GridError::EndOfChannels));
    let mut text = stream_of("augmentation occupancies 1 15\n 1.0\n");
    assert_eq!(ChgBase::_read_chg(&mut text).err(), Some(GridError::EndOfChannels));
    assert_eq!(text.position(), 0);
    let mut blank = stream_of("\n  2  3  4\n");
    assert_eq!(ChgBase::_read_chg(&mut blank).err(), Some(GridError::EndOfChannels));
    assert_eq!(blank.position(), 0);
    let mut signed = stream_of("-2 3 4\n 1.0\n");
    assert_eq!(ChgBase::_read_chg(&mut signed).err(), Some(GridError::EndOfChannels));
    assert_eq!(signed.position(), 0);
    let mut bad = stream_of("  1  1  1\n x\n");
    assert_eq!(ChgBase::_read_chg(&mut bad).err(), Some(GridError::MalformedGrid));
    assert_eq!(bad.position(), 13);
}

#[test]
fn dimension_line_with_a_missing_token_is_malformed() {
    let mut stream = stream_of("2 3\n1.0 2.0\n");
    assert_eq!(ChgBase::_read_chg(&mut stream).err(), Some(GridError::MalformedGrid));
    assert_eq!(stream.position(), 0);
    for line in ["2", "  2  3", "2 3 x", "2 x 4", "2 3.0 4", "+2 3", "2 3 -4"] {
        let mut short = stream_of(&format!("{}\n 1.0 2.0\n", line));
        assert_eq!(
            ChgBase::_read_chg(&mut short).err(),
            Some(GridError::MalformedGrid),
            "{:?}",
            line
        );
        assert_eq!(short.position(), 0);
    }
}

#[test]
fn dimension_line_with_an_extent_too_large_is_malformed() {
    for line in [
        "99999999999999999999 1 1",
        "1 99999999999999999999 1",
        "1 1 18446744073709551616",
    ] {
        let mut stream = stream_of(&format!("{}\n 1.0\n", line));
        assert_eq!(
            ChgBase::_read_chg(&mut stream).err(),
            Some(GridError::MalformedGrid),
            "{:?}",
            line
        );
        assert_eq!(stream.position(), 0);
    }
}

#[test]
fn short_dimension_line_fails_the_difference_channels() {
    let mut stream = stream_of("2 3\n1.0 2.0\n");
    let r = ChgBase::_read_optional_parts(&mut stream, [2, 3, 4]);
    assert_eq!(r.err(), Some(ChgError::MalformedGrid));
    let mut at_end = stream_of("");
    let (grids, augs) = ChgBase::_read_optional_parts(&mut at_end, [2, 3, 4]).unwrap();
    assert!(grids.is_empty() && augs.is_empty());
}

#[test]
fn difference_grid_with_an_extent_too_large_fails_the_whole_read() {
    // the boundary pattern takes the line of twenty nines for a dimension
    // line, so the grid reader is asked to read it
    let text = format!(
        "{}{}{}  99999999999999999999 3 4\n 1.0 2.0\n",
        HEADER,
        grid_block(0),
        AUG
    );
    let r = ChgBase::from_reader(&mut stream_of(&text));
    assert_eq!(r.err(), Some(ChgError::MalformedGrid));
}

// ---- the cursor ----

#[test]
fn grid_of_2_3_4_without_marker_leaves_cursor_at_end() {
    let text = grid_block(0);
    let mut stream = stream_of(&text);
    let grid = ChgBase::_read_chg(&mut stream).unwrap();
    assert_eq!(grid.shape(), [2, 3, 4]);
    assert_eq!(stream.position(), text.len());
    assert!(ChgBase::_read_raw_aug(&mut stream).is_none());
    assert!(stream.at_end());
}

#[test]
fn cursor_stands_at_the_next_dimension_line() {
    let text = format!("{}{}{}{}", grid_block(0), AUG, grid_block(100), AUG);
    let mut stream = stream_of(&text);
    ChgBase::_read_chg(&mut stream).unwrap();
    assert_eq!(stream.position(), grid_block(0).len());
    let aug = ChgBase::_read_raw_aug(&mut stream).unwrap();
    assert_eq!(aug, AUG.as_bytes());
    assert_eq!(stream.position(), grid_block(0).len() + AUG.len());
    assert_eq!(stream.read_line().unwrap(), b"    2    3    4");
}

#[test]
fn cursor_is_right_with_windows_line_endings() {
    let text = format!("{}{}{}", grid_block(0), AUG, grid_block(100)).replace('\n', "\r\n");
    let mut stream = stream_of(&text);
    let grid = ChgBase::_read_chg(&mut stream).unwrap();
    assert_eq!(grid.shape(), [2, 3, 4]);
    let aug = ChgBase::_read_raw_aug(&mut stream).unwrap();
    // the captured lines are joined by bare line feeds
    assert_eq!(aug, AUG.as_bytes());
    assert_eq!(stream.read_line().unwrap(), b"    2    3    4");
}

#[test]
fn augmentation_read_at_a_dimension_line_takes_nothing() {
    let mut stream = stream_of("  2  3  4\n 1.0\n");
    assert!(ChgBase::_read_raw_aug(&mut stream).is_none());
    assert_eq!(stream.position(), 0);
}

#[test]
fn augmentation_without_final_line_feed_gets_one() {
    let mut stream = stream_of("augmentation occupancies 1 1\n 0.5");
    let aug = ChgBase::_read_raw_aug(&mut stream).unwrap();
    assert_eq!(aug, b"augmentation occupancies 1 1\n 0.5\n");
    assert!(stream.at_end());
}

#[test]
fn header_ends_behind_its_blank_line() {
    let text = format!("{}{}", HEADER, grid_block(0));
    let mut stream = stream_of(&text);
    let header = read_header_text(&mut stream);
    assert_eq!(header, HEADER.as_bytes());
    assert_eq!(stream.position(), HEADER.len());
    let mut no_blank = stream_of("a\nb\n");
    assert_eq!(read_header_text(&mut no_blank), b"a\nb\n");
    assert!(no_blank.at_end());
    let mut spaces = stream_of("a \n \t\r\nrest\n");
    assert_eq!(read_header_text(&mut spaces), b"a \n \t\r\n");
    assert_eq!(spaces.read_line().unwrap(), b"rest");
}

// ---- writing ----

#[test]
fn chgcar_without_total_augmentation_is_refused() {
    let text = format!("{}{}", HEADER, grid_block(0));
    let model = ChgBase::from_reader(&mut stream_of(&text)).unwrap();
    let mut out = b"kept".to_vec();
    assert_eq!(
        model.write_writer(&mut out, ChgType::Chgcar),
        Err(ChgError::MissingAugmentation)
    );
    assert_eq!(out, b"kept");
    assert_eq!(
        model.write_body(&mut out, ChgType::Chgcar),
        Err(ChgError::MissingAugmentation)
    );
    assert_eq!(out, b"kept");
    assert_eq!(
        ChgcarType::write_writer(&model, &mut out),
        Err(ChgError::MissingAugmentation)
    );
    assert!(model.is_missing_aug());
    assert!(model.write_writer(&mut out, ChgType::Chg).is_ok());
    assert!(model.write_writer(&mut out, ChgType::Parchg).is_ok());
}

#[test]
fn chgcar_without_difference_augmentation_is_refused() {
    let text = format!("{}{}{}{}", HEADER, grid_block(0), AUG, grid_block(100));
    let model = ChgBase::from_reader(&mut stream_of(&text)).unwrap();
    let mut out = Vec::new();
    assert_eq!(
        model.write_writer(&mut out, ChgType::Chgcar),
        Err(ChgError::MissingAugmentation)
    );
    assert!(out.is_empty());
}

#[test]
fn written_file_is_the_header_a_line_feed_and_the_channels() {
    let text = format!("{}{}{}{}{}", HEADER, grid_block(0), AUG, grid_block(100), AUG);
    let model = ChgBase::from_reader(&mut stream_of(&text)).unwrap();
    let mut out = Vec::new();
    model.write_writer(&mut out, ChgType::Chgcar).unwrap();
    let header = format!("{:>9.6}\n", model.get_poscar());
    let expected = format!("{}{}{}{}{}", header, grid_block(0), AUG, grid_block(100), AUG);
    assert_eq!(String::from_utf8(out).unwrap(), expected);
}

#[test]
fn file_can_be_written_behind_a_given_header() {
    let text = format!("{}{}{}", HEADER, grid_block(0), AUG);
    let model = ChgBase::from_reader(&mut stream_of(&text)).unwrap();
    let mut out = b">".to_vec();
    model.write_with_header(b"a header\n", &mut out, ChgType::Chgcar).unwrap();
    assert_eq!(
        String::from_utf8(out).unwrap(),
        format!(">a header\n\n{}{}", grid_block(0), AUG)
    );
    let bare = ChgBase::from_builder(small_grid(), Vec::new(), structure());
    let mut kept = b">".to_vec();
    assert_eq!(
        bare.write_with_header(b"a header\n", &mut kept, ChgType::Chgcar),
        Err(ChgError::MissingAugmentation)
    );
    assert_eq!(kept, b">");
}

#[test]
fn chg_and_parchg_leave_the_augmentation_out() {
    let text = format!("{}{}{}{}{}", HEADER, grid_block(0), AUG, grid_block(100), AUG);
    let model = ChgBase::from_reader(&mut stream_of(&text)).unwrap();
    let expected = format!("{}{}", grid_block(0), grid_block(100));
    let mut chg = Vec::new();
    model.write_body(&mut chg, ChgType::Chg).unwrap();
    assert_eq!(String::from_utf8(chg).unwrap(), expected);
    let mut parchg = Vec::new();
    model.write_body(&mut parchg, ChgType::Parchg).unwrap();
    assert_eq!(String::from_utf8(parchg).unwrap(), expected);
}

#[test]
fn written_file_reads_back_to_the_same_model() {
    let text = format!("{}{}{}{}{}", HEADER, grid_block(0), AUG, grid_block(100), AUG);
    let model = ChgBase::from_reader(&mut stream_of(&text)).unwrap();
    let mut out = Vec::new();
    model.write_writer(&mut out, ChgType::Chgcar).unwrap();
    let again = ChgBase::from_reader(&mut Stream::new(out)).unwrap();
    assert_eq!(again.get_ngrid(), model.get_ngrid());
    assert_eq!(again.get_total_aug(), model.get_total_aug());
    assert_eq!(again.get_diff_aug(), model.get_diff_aug());
    assert_eq!(again.get_diff_chg().len(), 1);
    for x in 0..2 {
        for y in 0..3 {
            for z in 0..4 {
                assert_eq!(
                    again.get_total_chg().get(x, y, z).unwrap().as_bytes(),
                    model.get_total_chg().get(x, y, z).unwrap().as_bytes()
                );
                assert_eq!(
                    again.get_diff_chg()[0].get(x, y, z).unwrap().as_bytes(),
                    model.get_diff_chg()[0].get(x, y, z).unwrap().as_bytes()
                );
            }
        }
    }
}

#[test]
fn single_channel_round_trip_keeps_shape_and_values() {
    let text = format!("{}{}", HEADER, grid_block(7));
    let model = ChgBase::from_reader(&mut stream_of(&text)).unwrap();
    let mut body = Vec::new();
    model.write_body(&mut body, ChgType::Chg).unwrap();
    assert_eq!(String::from_utf8(body.clone()).unwrap(), grid_block(7));
    let mut stream = Stream::new(body);
    let grid = ChgBase::_read_chg(&mut stream).unwrap();
    assert!(stream.at_end());
    assert_eq!(grid.shape(), model.get_total_chg().shape());
    for x in 0..2 {
        for y in 0..3 {
            for z in 0..4 {
                let a = text_of(grid.get(x, y, z).unwrap()).parse::<f64>().unwrap();
                let b = text_of(model.get_total_chg().get(x, y, z).unwrap()).parse::<f64>().unwrap();
                assert_eq!(a, b);
            }
        }
    }
}

#[test]
fn grid_is_written_in_rows_of_fixed_fields() {
    let mut out = Vec::new();
    push_grid(&mut out, &small_grid(), 5);
    // disk order: x fastest, z slowest
    let expected = "    2    1    3\n                 1                 4                 2                 5                 3\n                 6\n";
    assert_eq!(String::from_utf8(out).unwrap(), expected);
    let mut two = Vec::new();
    ChgBase::_write_chg(&mut two, &small_grid(), 2);
    let lines: Vec<String> =
        String::from_utf8(two).unwrap().lines().map(|l| l.to_owned()).collect();
    assert_eq!(lines.len(), 4);
    assert_eq!(lines[1].len(), 36);
    assert_eq!(lines[3].split_ascii_whitespace().collect::<Vec<_>>(), vec!["3", "6"]);
}

#[test]
fn wide_values_and_extents_are_not_cut() {
    let wide = "-1.0000000000E-100";
    assert_eq!(wide.len(), 18);
    let mut out = Vec::new();
    push_rows(&mut out, &vec![lit(wide), lit("1.0000000000E0")], 5);
    assert_eq!(
        String::from_utf8(out).unwrap(),
        format!(" {:>17} {:>17}\n", wide, "1.0000000000E0")
    );
    let grid = Grid::new(12345, 1, 0, Vec::new()).unwrap();
    let mut text = Vec::new();
    push_grid(&mut text, &grid, 5);
    assert_eq!(String::from_utf8(text).unwrap(), " 12345    1    0\n");
}

#[test]
fn empty_rows_write_nothing() {
    let mut out = Vec::new();
    push_rows(&mut out, &Vec::new(), 5);
    assert!(out.is_empty());
}

// ---- the model ----

#[test]
fn builder_takes_the_shape_of_the_total_grid() {
    let model = ChgBase::from_builder(small_grid(), vec![small_grid()], structure());
    assert_eq!(model.get_ngrid(), &[2, 1, 3]);
    assert!(model.get_total_aug().is_none());
    assert_eq!(model.get_diff_chg().len(), 1);
    assert_eq!(model.get_diff_aug(), &vec![None]);
    assert_eq!(model.get_poscar().comment(), "unknown system");
    let mut out = Vec::new();
    model.write_writer(&mut out, ChgType::Parchg).unwrap();
    let text = String::from_utf8(out).unwrap();
    assert!(text.starts_with(&format!("{:>9.6}\n    2    1    3\n", structure())));
}

#[test]
fn parts_of_a_model_can_be_changed_in_place() {
    let mut model = ChgBase::from_builder(small_grid(), Vec::new(), structure());
    *model.get_mut_ngrid() = [6, 1, 1];
    assert_eq!(model.get_ngrid(), &[6, 1, 1]);
    *model.get_mut_total_chg() = Grid::new(1, 1, 1, vec![lit("9")]).unwrap();
    assert_eq!(model.get_total_chg().shape(), [1, 1, 1]);
    model.get_mut_diff_chg().push(small_grid());
    assert_eq!(model.get_diff_chg().len(), 1);
    // the new grid has no place for augmentation text yet
    assert!(model.is_missing_aug());
    model.set_total_aug(Some(b"augmentation 1\n".to_vec()));
    model.set_diff_aug(vec![Some(b"augmentation 2\n".to_vec())]);
    assert!(!model.is_missing_aug());
    assert_eq!(model.get_total_aug().unwrap(), b"augmentation 1\n");
    *model.get_mut_poscar() = vasp_poscar::Poscar::from_reader(
        HEADER.replacen("unknown system", "changed", 1).as_bytes(),
    )
    .unwrap();
    assert_eq!(model.get_poscar().comment(), "changed");
    let mut out = Vec::new();
    ChgcarType::write_writer(&model, &mut out).unwrap();
    let text = String::from_utf8(out).unwrap();
    assert!(text.starts_with("changed\n"));
    assert!(text.ends_with(
        "augmentation 1\n    2    1    3\n                 1                 4                 2                 5                 3\n                 6\naugmentation 2\n"
    ));
    assert_eq!(ChgcarType::format_kind(), ChgType::Chgcar);
}

// ---- grids ----

#[test]
fn grid_is_addressed_by_x_y_z() {
    let g = small_grid();
    assert_eq!(g.shape(), [2, 1, 3]);
    assert_eq!(text_of(g.get(0, 0, 0).unwrap()), "1");
    assert_eq!(text_of(g.get(0, 0, 2).unwrap()), "3");
    assert_eq!(text_of(g.get(1, 0, 0).unwrap()), "4");
    assert_eq!(text_of(g.get(1, 0, 2).unwrap()), "6");
    assert!(g.get(2, 0, 0).is_none());
    assert!(g.get(0, 1, 0).is_none());
    assert!(g.get(0, 0, 3).is_none());
}

#[test]
fn disk_order_has_x_fastest() {
    let values: Vec<Literal> = (0..24).map(|i| lit(&i.to_string())).collect();
    let g = Grid::from_disk_order(2, 3, 4, &values).unwrap();
    for x in 0..2 {
        for y in 0..3 {
            for z in 0..4 {
                let expected = (z * 3 + y) * 2 + x;
                assert_eq!(text_of(g.get(x, y, z).unwrap()), expected.to_string());
            }
        }
    }
    let back: Vec<String> = g.to_disk_order().iter().map(text_of).collect();
    let expected: Vec<String> = (0..24).map(|i| i.to_string()).collect();
    assert_eq!(back, expected);
}

#[test]
fn grid_needs_as_many_values_as_its_extents_ask_for() {
    let values: Vec<Literal> = (0..5).map(|i| lit(&i.to_string())).collect();
    assert!(Grid::from_disk_order(1, 2, 3, &values).is_none());
    assert!(Grid::from_disk_order(1, 5, 1, &values).is_some());
    assert!(Grid::from_disk_order(2, 2, 1, &values).is_some());
    assert!(Grid::from_disk_order(0, 9, 9, &values).is_some());
    assert!(Grid::from_disk_order(usize::MAX, usize::MAX, 2, &values).is_none());
    assert!(Grid::from_disk_order(usize::MAX, usize::MAX, 0, &values).is_some());
    assert!(Grid::new(1, 5, 1, values.clone()).is_some());
    assert!(Grid::new(2, 2, 1, values.clone()).is_none());
    assert!(Grid::new(1, 2, 3, values).is_none());
}

// ---- numbers ----

#[test]
fn literals_are_what_the_float_parser_takes() {
    let cases = [
        "", "+", "-", ".", "+.", "e5", "1e", "1e+", "1e-", "1", "-1", "+1", "1.", ".5", "+.5", "-.5e3",
        "1.5", "1.5e10", "1.5E10", "1.5e+10", "1.5e-10", "1.5e", "1.5e1.5", "1..5", "1.5.5", "0x10",
        "1_000", "inf", "Inf", "INF", "-inf", "+inf", "infinity", "INFINITY", "-Infinity", "infinit",
        "infinityy", "nan", "NaN", "-nan", "+NAN", "nane", "in", "na", "0.44062142953E+00",
        "-0.2068344E-05", "1e5", "1E5", "e", "E", "1 ", " 1", "1,5", "--1", "+-1", "1e++1", "12abc",
        "abc", "0", "00", "007.700", "1e0000000000000000000000001", ".e1", "1.e1", "-.", "i", "n",
        "1d5", "1f", "\u{661}", "1\u{0}",
    ];
    for case in cases {
        assert_eq!(
            is_number_bytes(case.as_bytes()),
            case.parse::<f64>().is_ok(),
            "{:?}",
            case
        );
        assert_eq!(
            Literal::from_slice(case.as_bytes()).is_some(),
            case.parse::<f64>().is_ok(),
            "{:?}",
            case
        );
    }
}

#[test]
fn literal_keeps_its_bytes() {
    let l = Literal::new(b"0.10568153616E+01".to_vec()).unwrap();
    assert_eq!(l.as_bytes(), b"0.10568153616E+01");
    assert_eq!(l.clone().as_bytes(), b"0.10568153616E+01");
    assert!(Literal::new(b"1.0 ".to_vec()).is_none());
    assert!(Literal::new(b"aug".to_vec()).is_none());
}

#[test]
fn unsigned_integers_are_what_the_integer_parser_takes() {
    let cases = [
        "", "+", "-", "0", "7", "+7", "-7", "-0", "007", "12345", "18446744073709551615",
        "18446744073709551616", "99999999999999999999999", "+18446744073709551615", "1.0", "1e3",
        "12a", "a12", " 1", "1 ", "++1", "\u{661}",
    ];
    for case in cases {
        assert_eq!(parse_unsigned(case.as_bytes()), case.parse::<usize>().ok(), "{:?}", case);
    }
    assert_eq!(parse_unsigned(b"+42"), Some(42));
}

#[test]
fn numbers_are_written_in_decimal() {
    for n in [0usize, 1, 9, 10, 11, 99, 100, 12345, usize::MAX] {
        let mut out = b"n=".to_vec();
        push_decimal(&mut out, n);
        assert_eq!(String::from_utf8(out).unwrap(), format!("n={}", n));
    }
}

// ---- text ----

#[test]
fn tokens_are_split_at_whitespace() {
    let text = b"  ab\tcd\r\n\x0cef  ";
    assert_eq!(next_token(text, 0), Some((2, 4)));
    assert_eq!(next_token(text, 4), Some((5, 7)));
    assert_eq!(next_token(text, 7), Some((10, 12)));
    assert_eq!(next_token(text, 12), None);
    assert_eq!(next_token(text, 3), Some((3, 4)));
    assert_eq!(next_token(b"", 0), None);
    // a vertical tab is no whitespace
    assert_eq!(next_token(b"a\x0bb", 0), Some((0, 3)));
}

#[test]
fn dimension_line_is_read_from_its_first_three_tokens() {
    assert_eq!(parse_dims(b"    2    3    4"), Ok((2, 3, 4)));
    assert_eq!(parse_dims(b"2 3 4 5 six"), Ok((2, 3, 4)));
    assert_eq!(parse_dims(b"+2\t03 4"), Ok((2, 3, 4)));
    assert_eq!(parse_dims(b"2 3"), Err(GridError::MalformedGrid));
    assert_eq!(parse_dims(b"2"), Err(GridError::MalformedGrid));
    assert_eq!(parse_dims(b"2 3 x"), Err(GridError::MalformedGrid));
    assert_eq!(parse_dims(b"2 3.0 4"), Err(GridError::MalformedGrid));
    assert_eq!(parse_dims(b"2 3 18446744073709551616"), Err(GridError::MalformedGrid));
    assert_eq!(parse_dims(b"99999999999999999999 3 4"), Err(GridError::MalformedGrid));
    assert_eq!(parse_dims(b""), Err(GridError::EndOfChannels));
    assert_eq!(parse_dims(b"  \t "), Err(GridError::EndOfChannels));
    assert_eq!(parse_dims(b"x 3 4"), Err(GridError::EndOfChannels));
    assert_eq!(parse_dims(b"2.0 3 4"), Err(GridError::EndOfChannels));
    assert_eq!(parse_dims(b"augmentation occupancies 1 15"), Err(GridError::EndOfChannels));
}

#[test]
fn literals_are_collected_from_a_region() {
    let vals = collect_literals(b" 1.0 2e3\n -4.5\r\n").unwrap();
    let texts: Vec<String> = vals.iter().map(text_of).collect();
    assert_eq!(texts, vec!["1.0", "2e3", "-4.5"]);
    assert!(collect_literals(b" 1.0 x 2.0").is_none());
    assert_eq!(collect_literals(b" \n ").unwrap().len(), 0);
}

#[test]
fn fields_are_set_to_the_right() {
    let mut out = b"[".to_vec();
    push_right_justified(&mut out, b"ab", 5);
    push_right_justified(&mut out, b"abcdef", 5);
    push_right_justified(&mut out, b"", 2);
    push_right_justified(&mut out, b"x", 0);
    push_all(&mut out, b"]");
    assert_eq!(out, b"[   ababcdef  x]");
}

#[test]
fn prefixes_and_blank_lines() {
    assert!(starts_with(b"augmentation", b"aug"));
    assert!(starts_with(b"aug", b"aug"));
    assert!(!starts_with(b"au", b"aug"));
    assert!(!starts_with(b" aug", b"aug"));
    assert!(!starts_with(b"Aug", b"aug"));
    assert!(starts_with(b"x", b""));
    assert!(line_is_blank(b""));
    assert!(line_is_blank(b" \t\r\x0c"));
    assert!(!line_is_blank(b"  . "));
}

#[test]
fn dimension_lines_are_three_integers_and_nothing_else() {
    assert!(matches_dimension_line(b"    2    3    4"));
    assert!(matches_dimension_line(b"2 3 4"));
    assert!(matches_dimension_line(b"\t32  32\t32 \r"));
    assert!(!matches_dimension_line(b""));
    assert!(!matches_dimension_line(b"2 3"));
    assert!(!matches_dimension_line(b"2 3 4 5"));
    assert!(!matches_dimension_line(b"234"));
    assert!(!matches_dimension_line(b"2 3 4.0"));
    assert!(!matches_dimension_line(b"+2 3 4"));
    assert!(!matches_dimension_line(b"augmentation occupancies 1 15"));
    assert!(!matches_dimension_line(b"  0.2743786E+00 -0.3307158E-01  0.0000000E+00"));
    assert!(!matches_dimension_line(b"2 3 4 x"));
}

// ---- the stream ----

#[test]
fn lines_are_read_without_their_endings() {
    let mut stream = stream_of("one\ntwo\r\n\nfour\rstill four\r\r\nlast");
    assert_eq!(stream.len(), 32);
    assert_eq!(stream.read_line().unwrap(), b"one");
    assert_eq!(stream.position(), 4);
    assert_eq!(stream.read_line().unwrap(), b"two");
    assert_eq!(stream.read_line().unwrap(), b"");
    assert_eq!(stream.read_line().unwrap(), b"four\rstill four\r");
    assert_eq!(stream.line_span(), Some((32, 32)));
    assert_eq!(stream.read_line().unwrap(), b"last");
    assert!(stream.at_end());
    assert_eq!(stream.read_line(), None);
    assert_eq!(stream.line_span(), None);
    assert_eq!(stream.position(), 32);
}

#[test]
fn cursor_can_be_taken_back() {
    let mut stream = stream_of("one\ntwo\n");
    stream.read_line();
    let mark = stream.position();
    stream.read_line();
    assert!(stream.at_end());
    stream.seek(mark);
    assert_eq!(stream.read_line().unwrap(), b"two");
    stream.seek(1000);
    assert_eq!(stream.position(), 8);
    stream.seek(0);
    assert_eq!(stream.slice(0, 3), b"one");
    assert_eq!(stream.as_slice(), b"one\ntwo\n");
    assert_eq!(scan_line(b"ab\r\ncd", 0), (2, 4));
    assert_eq!(scan_line(b"ab\r\ncd", 4), (6, 6));
    assert_eq!(scan_line(b"\r\n", 0), (0, 2));
    assert_eq!(scan_line(b"\n", 0), (0, 1));
}

#[test]
fn values_of_a_grid_can_be_changed_in_place() {
    let mut g = small_grid();
    assert!(g.set(1, 0, 1, lit("-7.5e1")));
    assert_eq!(text_of(g.get(1, 0, 1).unwrap()), "-7.5e1");
    assert_eq!(text_of(g.get(1, 0, 0).unwrap()), "4");
    assert_eq!(text_of(g.get(1, 0, 2).unwrap()), "6");
    assert_eq!(text_of(g.get(0, 0, 1).unwrap()), "2");
    assert!(!g.set(2, 0, 0, lit("0")));
    assert!(!g.set(0, 1, 0, lit("0")));
    assert!(!g.set(0, 0, 3, lit("0")));
    assert_eq!(g.shape(), [2, 1, 3]);
    let order: Vec<String> = g.to_disk_order().iter().map(text_of).collect();
    assert_eq!(order, vec!["1", "4", "2", "-7.5e1", "3", "6"]);
}

// ---- the states of the reader ----

#[test]
fn reader_goes_from_the_total_grid_to_the_difference_grids() {
    let shape = [2, 3, 4];
    assert_eq!(
        advance(ReadState::ReadingTotal, Ok(shape), [0, 0, 0]),
        Ok(ReadState::ReadingDifference(0))
    );
    assert_eq!(
        advance(ReadState::ReadingDifference(0), Ok(shape), shape),
        Ok(ReadState::ReadingDifference(1))
    );
    assert_eq!(
        advance(ReadState::ReadingDifference(2), Ok(shape), shape),
        Ok(ReadState::ReadingDifference(3))
    );
    assert_eq!(
        advance(ReadState::ReadingDifference(usize::MAX), Ok(shape), shape),
        Ok(ReadState::ReadingDifference(usize::MAX))
    );
}

#[test]
fn reader_is_done_when_no_grid_follows() {
    let shape = [2, 3, 4];
    assert_eq!(
        advance(ReadState::ReadingDifference(0), Err(GridError::EndOfChannels), shape),
        Ok(ReadState::Done)
    );
    assert_eq!(
        advance(ReadState::ReadingDifference(3), Err(GridError::EndOfChannels), shape),
        Ok(ReadState::Done)
    );
    assert_eq!(advance(ReadState::Done, Ok(shape), shape), Ok(ReadState::Done));
    assert_eq!(
        advance(ReadState::Done, Err(GridError::MalformedGrid), shape),
        Ok(ReadState::Done)
    );
}

#[test]
fn reader_fails_on_a_missing_total_grid_and_on_a_malformed_grid() {
    let shape = [2, 3, 4];
    assert_eq!(
        advance(ReadState::ReadingTotal, Err(GridError::EndOfChannels), shape),
        Err(ChgError::MalformedGrid)
    );
    assert_eq!(
        advance(ReadState::ReadingTotal, Err(GridError::MalformedGrid), shape),
        Err(ChgError::MalformedGrid)
    );
    assert_eq!(
        advance(ReadState::ReadingDifference(1), Err(GridError::MalformedGrid), shape),
        Err(ChgError::MalformedGrid)
    );
    for other in [[1, 3, 4], [2, 1, 4], [2, 3, 1]] {
        assert_eq!(
            advance(ReadState::ReadingDifference(1), Ok(other), shape),
            Err(ChgError::MalformedGrid)
        );
    }
}

#[test]
fn outcome_of_a_read_is_the_shape_or_the_reason() {
    assert_eq!(outcome_of(&Ok(small_grid())), Ok([2, 1, 3]));
    assert_eq!(outcome_of(&Err(GridError::EndOfChannels)), Err(GridError::EndOfChannels));
    assert_eq!(outcome_of(&Err(GridError::MalformedGrid)), Err(GridError::MalformedGrid));
}

// ---- the screen before the structure parser ----

#[test]
fn every_cut_of_the_header_is_read_or_refused() {
    let header = HEADER.as_bytes();
    for cut in 0..=header.len() {
        let text = &header[..cut];
        let screened = screen_header(text);
        let parsed = parse_header(text);
        assert!(screened || parsed.is_err());
        let mut with_blank = text.to_vec();
        with_blank.extend_from_slice(b"\n\n");
        let _ = parse_header(&with_blank);
    }
    assert!(parse_header(header).is_ok());
}

#[test]
fn every_changed_byte_of_the_header_is_read_or_refused() {
    let header = HEADER.as_bytes();
    let changes: [&[u8]; 14] = [
        b"\r", b"\n", b"\x0c", b"\x0b", b"\t", b" ", b"\x00", b"\xc2\xa0", b"\xe2\x80\x83", b"\xff",
        b"9", b"18446744073709551615 ", b"+", b"",
    ];
    let mut accepted = 0;
    for at in 0..header.len() {
        for change in changes {
            let mut text = header[..at].to_vec();
            text.extend_from_slice(change);
            text.extend_from_slice(&header[at + 1..]);
            let screened = screen_header(&text);
            let parsed = parse_header(&text);
            assert!(screened || parsed.is_err());
            if parsed.is_ok() {
                accepted += 1;
            }
        }
    }
    assert!(accepted > 0);
}

#[test]
fn lines_of_blanks_only_on_the_symbol_line_are_left_to_the_parser() {
    for blank in ["", " ", "\t", " \r", "  \t "] {
        let text = HEADER.replacen("   Li\n", &format!("{}\n", blank), 1);
        assert!(screen_header(text.as_bytes()), "{:?}", blank);
        assert_eq!(parse_header(text.as_bytes()).err(), Some(ChgError::HeaderParseError));
    }
}

// ---- numbers behind the literals ----

#[test]
fn scaling_by_the_cell_volume_is_undone_by_scaling_back() {
    let text = format!("{}{}", HEADER, grid_block(3));
    let model = ChgBase::from_reader(&mut stream_of(&text)).unwrap();
    let volume = model.get_poscar().scaled_volume();
    assert!(volume > 0.0);
    for literal in model.get_total_chg().to_disk_order() {
        let on_disk: f64 = text_of(&literal).parse().unwrap();
        let density = on_disk / volume;
        let back = density * volume;
        assert!((back - on_disk).abs() <= 1e-12 * on_disk.abs());
        let written = format!("{:>17.10E}", back);
        let read: f64 = written.trim().parse().unwrap();
        assert!((read - on_disk).abs() <= 1e-10 * on_disk.abs());
        assert!(Literal::new(written.trim().as_bytes().to_vec()).is_some());
    }
}

#[test]
fn numbers_in_scientific_notation_are_literals() {
    for value in [0.0f64, -0.0, 1.0, -1.5e-7, 6.02214076e23, f64::MAX, f64::MIN_POSITIVE] {
        let text = format!("{:.10E}", value);
        let literal = Literal::new(text.clone().into_bytes()).unwrap();
        assert_eq!(text_of(&literal).parse::<f64>().unwrap(), text.parse::<f64>().unwrap());
    }
    for value in [f64::INFINITY, f64::NEG_INFINITY, f64::NAN] {
        assert!(Literal::new(format!("{:.10E}", value).into_bytes()).is_some());
    }
}

#[test]
fn unsigned_literals_of_any_size() {
    for (text, expected) in [
        ("0", true),
        ("+7", true),
        ("99999999999999999999999999", true),
        ("", false),
        ("+", false),
        ("-7", false),
        ("7a", false),
        ("7.0", false),
        ("++7", false),
    ] {
        assert_eq!(is_unsigned_bytes(text.as_bytes()), expected, "{:?}", text);
    }
}

// ---- a written file, read again ----

#[test]
fn written_single_channel_file_is_read_again() {
    for kind in [ChgType::Chg, ChgType::Parchg] {
        let text = format!("{}{}", HEADER, grid_block(0));
        let model = ChgBase::from_reader(&mut stream_of(&text)).unwrap();
        let mut out = Vec::new();
        model.write_writer(&mut out, kind).unwrap();
        let header = format!("{:>9.6}", model.get_poscar());
        assert!(header_is_read_again(header.as_bytes()));
        let written = String::from_utf8(out.clone()).unwrap();
        let behind = &written[header.len() + 1..];
        assert_eq!(behind.lines().next().unwrap(), format!(" {:>4} {:>4} {:>4}", 2, 3, 4));
        let mut stream = Stream::new(out);
        let again = ChgBase::from_reader(&mut stream).unwrap();
        assert!(stream.at_end());
        assert_eq!(again.get_ngrid(), model.get_ngrid());
        assert_eq!(again.get_diff_chg().len(), 0);
        assert!(again.get_total_aug().is_none());
        assert_eq!(
            again.get_total_chg().to_disk_order().iter().map(text_of).collect::<Vec<_>>(),
            model.get_total_chg().to_disk_order().iter().map(text_of).collect::<Vec<_>>()
        );
    }
}

#[test]
fn rendered_header_is_not_always_read_again() {
    // six decimals render a scale of one part in a billion as zero, and a
    // scale of zero is refused
    let header = HEADER.replacen("1.00000000000000", "1.0e-9", 1);
    let text = format!("{}{}", header, grid_block(0));
    let model = ChgBase::from_reader(&mut stream_of(&text)).unwrap();
    let rendered = format!("{:>9.6}", model.get_poscar());
    assert!(is_header_block_bytes(rendered.as_bytes()));
    assert!(!header_is_read_again(rendered.as_bytes()));
    let mut out = Vec::new();
    model.write_writer(&mut out, ChgType::Chg).unwrap();
    let again = ChgBase::from_reader(&mut Stream::new(out));
    assert_eq!(again.err(), Some(ChgError::HeaderParseError));
}

#[test]
fn header_blocks_are_lines_without_a_blank_one() {
    assert!(is_header_block_bytes(b"a\nb\n"));
    assert!(is_header_block_bytes(b"a\n"));
    assert!(!is_header_block_bytes(b""));
    assert!(!is_header_block_bytes(b"a\nb"));
    assert!(!is_header_block_bytes(b"a\n\nb\n"));
    assert!(!is_header_block_bytes(b"a\n \t\r\nb\n"));
    assert!(!is_header_block_bytes(b"\na\n"));
    assert!(header_is_read_again(HEADER.trim_end_matches('\n').to_owned().as_bytes()) == false);
    assert!(header_is_read_again(&HEADER.as_bytes()[..HEADER.len() - 1]));
    assert!(!header_is_read_again(b"no structure\n"));
}

#[test]
fn boundary_pattern_takes_written_dimension_lines() {
    for (nx, ny, nz) in [(2, 3, 4), (0, 0, 0), (12345, 1, 7), (usize::MAX, 1, 1), (32, 32, 32)] {
        let mut line = Vec::new();
        push_extents(&mut line, nx, ny, nz);
        assert_eq!(
            String::from_utf8(line.clone()).unwrap(),
            format!(" {:>4} {:>4} {:>4}", nx, ny, nz)
        );
        assert!(matches_dimension_line(&line));
    }
}
