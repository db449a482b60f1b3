use vaspchg_rs::{ChgBase, ChgType, ChgcarType, Stream};

const SAMPLE: &str = "\
unknown system
   1.00000000000000
     2.969072   -0.000523   -0.000907
    -0.987305    2.800110    0.000907
    -0.987305   -1.402326    2.423654
   Li
     1
Direct
  0.000000  0.000000  0.000000

    2    3    4
 0.44062142953E+00 0.44635237036E+00 0.46294638829E+00 0.48881056285E+00 0.52211506729E+00
 0.56203432815E+00 0.60956087775E+00 0.66672131696E+00 0.73417916031E+00 0.80884817972E+00
 0.88351172791E+00 0.94912993844E+00 0.10000382501E+01 0.10353398391E+01 0.10568153616E+01
 0.10677009023E+01 0.10709392990E+01 0.10677009023E+01 0.10568153616E+01 0.10353398391E+01
 0.10677009023E+01 0.10709392990E+01 0.10677009023E+01 0.10568153616E+01
augmentation occupancies 1 15
  0.2743786E+00 -0.3307158E-01  0.0000000E+00  0.0000000E+00  0.0000000E+00
  0.1033253E-02  0.0000000E+00  0.0000000E+00  0.0000000E+00  0.3964234E-01
  0.5875445E-05 -0.7209739E-05 -0.3625569E-05  0.1019266E-04 -0.2068344E-05
augmentation occupancies 2 15
  0.2743786E+00 -0.3307158E-01  0.0000000E+00  0.0000000E+00  0.0000000E+00
  0.1033253E-02  0.0000000E+00  0.0000000E+00  0.0000000E+00  0.3964234E-01
  0.5875445E-05 -0.7209739E-05 -0.3625569E-05  0.1019266E-04 -0.2068344E-05
    2    3    4
 0.44062142953E+00 0.44635237036E+00 0.46294638829E+00 0.48881056285E+00 0.52211506729E+00
 0.56203432815E+00 0.60956087775E+00 0.66672131696E+00 0.73417916031E+00 0.80884817972E+00
 0.88351172791E+00 0.94912993844E+00 0.10000382501E+01 0.10353398391E+01 0.10568153616E+01
 0.10677009023E+01 0.10709392990E+01 0.10677009023E+01 0.10568153616E+01 0.10353398391E+01
 0.10677009023E+01 0.10709392990E+01 0.10677009023E+01 0.12668153616E+01
augmentation occupancies 1 15
  0.2743786E+00 -0.3307158E-01  0.0000000E+00  0.0000000E+00  0.0000000E+00
  0.1033253E-02  0.0000000E+00  0.0000000E+00  0.0000000E+00  0.3964234E-01
  0.5875445E-05 -0.7209739E-05 -0.3625569E-05  0.1019266E-04 -0.2038144E-05
augmentation occupancies 2 15
  0.2743786E+00 -0.3307158E-01  0.0000000E+00  0.0000000E+00  0.0000000E+00
  0.1033253E-02  0.0000000E+00  0.0000000E+00  0.0000000E+00  0.3964234E-01
  0.5875445E-05 -0.7209739E-05 -0.3625569E-05  0.1019266E-04 -0.0038244E-05
";

fn sample_stream() -> Stream {
    Stream::new(SAMPLE.as_bytes().to_vec())
}

fn as_f64(bytes: &[u8]) -> f64 {
    std::str::from_utf8(bytes).unwrap().parse::<f64>().unwrap()
}

#[test]
fn test_read_poscar() {
    let mut stream = sample_stream();
    ChgBase::_read_poscar(&mut stream).unwrap();

    let line = stream.read_line().map(|l| String::from_utf8(l).unwrap());
    assert_eq!(line, Some("    2    3    4".to_owned()));
}

#[test]
fn test_read_chg() {
    let mut stream = sample_stream();
    ChgBase::_read_poscar(&mut stream).unwrap();

    let chg = ChgBase::_read_chg(&mut stream).unwrap();
    assert_eq!([2usize, 3, 4], chg.shape());
    assert_eq!(as_f64(chg.get(1, 2, 3).unwrap().as_bytes()), 0.10568153616E+01);
}

#[test]
fn test_read_aug() {
    let mut stream = sample_stream();
    ChgBase::_read_poscar(&mut stream).unwrap();
    ChgBase::_read_chg(&mut stream).unwrap();

    let aug = String::from_utf8(ChgBase::_read_raw_aug(&mut stream).unwrap()).unwrap();
    assert!(aug.trim_end().ends_with("-0.2068344E-05"));

    if let Some(line) = stream.read_line().map(|l| String::from_utf8(l).unwrap()) {
        assert!(line.split_ascii_whitespace().all(|s| s.parse::<usize>().is_ok()));
    }
}

#[test]
fn test_from_reader() {
    let mut stream = sample_stream();
    let chgcontent = ChgBase::from_reader(&mut stream).unwrap();
    assert_eq!(chgcontent.get_ngrid(), &[2, 3, 4]);
    assert_eq!(chgcontent.get_diff_chg().len(), 1);
}

#[test]
fn test_write_chg() {
    let mut istream = sample_stream();
    let chgcar = ChgBase::from_reader(&mut istream).unwrap();

    let mut ostream: Vec<u8> = Vec::new();
    ChgBase::_write_chg(&mut ostream, chgcar.get_total_chg(), 5);
    let text = String::from_utf8(ostream).unwrap();
    println!("{}", text);
    let lines: Vec<&str> = text.lines().collect();
    assert_eq!(lines.len(), 6);
    assert_eq!(lines[0], "    2    3    4");
    assert_eq!(
        lines[1],
        " 0.44062142953E+00 0.44635237036E+00 0.46294638829E+00 0.48881056285E+00 0.52211506729E+00"
    );
    assert_eq!(
        lines[5],
        " 0.10677009023E+01 0.10709392990E+01 0.10677009023E+01 0.10568153616E+01"
    );
}

#[test]
fn test_write_writer() {
    let mut istream = sample_stream();
    let chgcar = ChgBase::from_reader(&mut istream).unwrap();

    let mut ostream: Vec<u8> = Vec::new();
    chgcar.write_writer(&mut ostream, ChgType::Chgcar).unwrap();
    println!("{}", String::from_utf8(ostream).unwrap());
}

#[test]
fn test_writer() {
    let mut istream = sample_stream();
    let chgcar = ChgBase::from_reader(&mut istream).unwrap();

    let mut ostream: Vec<u8> = Vec::new();
    ChgcarType::write_writer(&chgcar, &mut ostream).unwrap();
    println!("{}", String::from_utf8(ostream).unwrap());
}
